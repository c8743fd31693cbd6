//! Least-recently-used tracking: a doubly linked list kept in an arena of
//! nodes, with an index from keys to nodes. The head is the key touched most
//! recently, the tail the one touched longest ago.

use vstd::prelude::*;
use crate::keymap::KeyMap;

verus! {

/// `s` with every occurrence of `k` taken out.
pub open spec fn without_key(s: Seq<Seq<char>>, k: Seq<char>) -> Seq<Seq<char>> {
    s.filter(differs_from(k))
}

/// The test "is not `k`".
pub open spec fn differs_from(k: Seq<char>) -> spec_fn(Seq<char>) -> bool {
    |x: Seq<char>| x != k
}

proof fn lemma_filter_absent(s: Seq<Seq<char>>, k: Seq<char>)
    requires
        !s.contains(k),
    ensures
        without_key(s, k) == s,
    decreases s.len(),
{
    reveal(Seq::filter);
    if s.len() > 0 {
        assert(!s.drop_last().contains(k)) by {
            if s.drop_last().contains(k) {
                let i = choose|i: int| 0 <= i < s.drop_last().len() && s.drop_last()[i] == k;
                assert(s[i] == k);
            }
        }
        lemma_filter_absent(s.drop_last(), k);
        assert(s.last() != k) by {
            assert(s[s.len() - 1] == s.last());
        }
        assert(s.drop_last().push(s.last()) =~= s);
    }
}

/// Taking a key out of a list in which it occurs once, at `p`, removes
/// position `p`; a key that does not occur leaves the list as it is.
pub proof fn lemma_without_key(s: Seq<Seq<char>>, k: Seq<char>)
    requires
        s.no_duplicates(),
    ensures
        !s.contains(k) ==> without_key(s, k) == s,
        forall|p: int| 0 <= p < s.len() && s[p] == k ==> without_key(s, k) == s.remove(p),
        without_key(s, k).no_duplicates(),
        !without_key(s, k).contains(k),
        forall|x: Seq<char>| x != k ==> (without_key(s, k).contains(x) <==> s.contains(x)),
{
    if !s.contains(k) {
        lemma_filter_absent(s, k);
    }
    assert forall|p: int| 0 <= p < s.len() && s[p] == k implies without_key(s, k) == s.remove(
        p,
    ) by {
        let a = s.take(p);
        let b = s.skip(p + 1);
        assert(s =~= a + seq![k] + b);
        assert(!a.contains(k)) by {
            if a.contains(k) {
                let i = choose|i: int| 0 <= i < a.len() && a[i] == k;
                assert(s[i] == s[p]);
            }
        }
        assert(!b.contains(k)) by {
            if b.contains(k) {
                let i = choose|i: int| 0 <= i < b.len() && b[i] == k;
                assert(s[p + 1 + i] == s[p]);
            }
        }
        lemma_filter_absent(a, k);
        lemma_filter_absent(b, k);
        let pred = differs_from(k);
        Seq::filter_distributes_over_add(a + seq![k], b, pred);
        Seq::filter_distributes_over_add(a, seq![k], pred);
        reveal_with_fuel(Seq::filter, 2);
        assert(seq![k].drop_last() =~= Seq::<Seq<char>>::empty());
        assert(seq![k].filter(pred) =~= Seq::<Seq<char>>::empty());
        assert(s.remove(p) =~= a + b);
    }
    if s.contains(k) {
        let p = choose|p: int| 0 <= p < s.len() && s[p] == k;
        assert(without_key(s, k) == s.remove(p));
        assert forall|i: int, j: int|
            0 <= i < s.remove(p).len() && 0 <= j < s.remove(p).len() && i != j implies s.remove(
            p,
        )[i] != s.remove(p)[j] by {
            let i2 = if i < p {
                i
            } else {
                i + 1
            };
            let j2 = if j < p {
                j
            } else {
                j + 1
            };
            assert(s.remove(p)[i] == s[i2]);
            assert(s.remove(p)[j] == s[j2]);
        }
        assert forall|x: Seq<char>| x != k implies (without_key(s, k).contains(x) <==> s.contains(
            x,
        )) by {
            let r = s.remove(p);
            if r.contains(x) {
                let i = choose|i: int| 0 <= i < r.len() && r[i] == x;
                let i2 = if i < p {
                    i
                } else {
                    i + 1
                };
                assert(s[i2] == x);
            }
            if s.contains(x) {
                let i = choose|i: int| 0 <= i < s.len() && s[i] == x;
                assert(i != p);
                if i < p {
                    assert(r[i] == x);
                } else {
                    assert(r[i - 1] == x);
                }
            }
        }
        assert(!without_key(s, k).contains(k)) by {
            let r = s.remove(p);
            if r.contains(k) {
                let i = choose|i: int| 0 <= i < r.len() && r[i] == k;
                let i2 = if i < p {
                    i
                } else {
                    i + 1
                };
                assert(s[i2] == k);
            }
        }
    }
}



/// A test that every element passes keeps the whole list.
pub proof fn lemma_filter_all<A>(s: Seq<A>, p: spec_fn(A) -> bool)
    requires
        forall|i: int| 0 <= i < s.len() ==> p(#[trigger] s[i]),
    ensures
        s.filter(p) == s,
    decreases s.len(),
{
    reveal(Seq::filter);
    if s.len() > 0 {
        assert forall|i: int| 0 <= i < s.drop_last().len() implies p(#[trigger] s.drop_last()[i]) by {
            assert(s.drop_last()[i] == s[i]);
        }
        lemma_filter_all(s.drop_last(), p);
        assert(p(s[s.len() - 1]));
        assert(s.drop_last().push(s.last()) =~= s);
    }
}

/// Filtering twice is filtering by both tests.
pub proof fn lemma_filter_twice<A>(s: Seq<A>, p: spec_fn(A) -> bool, q: spec_fn(A) -> bool)
    ensures
        s.filter(p).filter(q) == s.filter(|x: A| p(x) && q(x)),
    decreases s.len(),
{
    reveal(Seq::filter);
    if s.len() > 0 {
        lemma_filter_twice(s.drop_last(), p, q);
        let both = |x: A| p(x) && q(x);
        if p(s.last()) {
            assert(s.filter(p).drop_last() =~= s.drop_last().filter(p));
            assert(s.filter(p).last() == s.last());
        } else {
            assert(s.filter(p) == s.drop_last().filter(p));
        }
    }
}

/// Tests that agree on every element of `s` filter it alike.
pub proof fn lemma_filter_congruent<A>(s: Seq<A>, p: spec_fn(A) -> bool, q: spec_fn(A) -> bool)
    requires
        forall|i: int| 0 <= i < s.len() ==> p(#[trigger] s[i]) == q(s[i]),
    ensures
        s.filter(p) == s.filter(q),
    decreases s.len(),
{
    reveal(Seq::filter);
    if s.len() > 0 {
        assert forall|i: int| 0 <= i < s.drop_last().len() implies p(#[trigger] s.drop_last()[i])
            == q(s.drop_last()[i]) by {
            assert(s.drop_last()[i] == s[i]);
        }
        lemma_filter_congruent(s.drop_last(), p, q);
        assert(p(s[s.len() - 1]) == q(s[s.len() - 1]));
    }
}

/// An element is kept by a filter exactly when it occurs and passes the test.
pub proof fn lemma_filter_members<A>(s: Seq<A>, p: spec_fn(A) -> bool)
    ensures
        forall|x: A| #[trigger] s.filter(p).contains(x) <==> s.contains(x) && p(x),
        s.no_duplicates() ==> s.filter(p).no_duplicates(),
        s.filter(p).len() <= s.len(),
    decreases s.len(),
{
    broadcast use vstd::seq_lib::group_filter_ensures;
    assert forall|x: A| #[trigger] s.filter(p).contains(x) <==> s.contains(x) && p(x) by {
        if s.filter(p).contains(x) {
            s.lemma_filter_contains_rev(p, x);
            let i = choose|i: int| 0 <= i < s.filter(p).len() && s.filter(p)[i] == x;
            s.lemma_filter_pred(p, i);
        }
        if s.contains(x) && p(x) {
            let i = choose|i: int| 0 <= i < s.len() && s[i] == x;
            s.lemma_filter_contains(p, i);
        }
    }
    reveal(Seq::filter);
    if s.len() > 0 {
        lemma_filter_members(s.drop_last(), p);
        if s.no_duplicates() {
            let d = s.drop_last();
            assert(d.no_duplicates()) by {
                assert forall|i: int, j: int| 0 <= i < d.len() && 0 <= j < d.len() && i != j implies d[i] != d[j] by {
                    assert(d[i] == s[i] && d[j] == s[j]);
                }
            }
            if p(s.last()) {
                let f = d.filter(p);
                assert(!f.contains(s.last())) by {
                    if f.contains(s.last()) {
                        assert(d.contains(s.last()));
                        let i = choose|i: int| 0 <= i < d.len() && d[i] == s.last();
                        assert(s[i] == s[s.len() - 1]);
                    }
                }
                let g = f.push(s.last());
                assert forall|i: int, j: int| 0 <= i < g.len() && 0 <= j < g.len() && i != j implies g[i] != g[j] by {
                    if i < f.len() && j < f.len() {
                    } else if i < f.len() {
                        assert(f.contains(g[i]));
                    } else {
                        assert(f.contains(g[j]));
                    }
                }
            }
        }
    }
}

/// A node of the list: its key and its neighbours, by arena position.
struct LruNode {
    key: String,
    prev: Option<usize>,
    next: Option<usize>,
}

/// Tracks the order in which keys were last touched.
pub struct LruTracker {
    nodes: Vec<LruNode>,
    key_to_index: KeyMap<usize>,
    head: Option<usize>,
    tail: Option<usize>,
    /// The arena positions of the linked nodes, from head to tail.
    order: Ghost<Seq<usize>>,
}

impl View for LruTracker {
    type V = Seq<Seq<char>>;

    /// The tracked keys, most recently touched first.
    closed spec fn view(&self) -> Seq<Seq<char>> {
        self.order@.map_values(|n: usize| self.nodes@[n as int].key@)
    }
}

impl LruTracker {
    /// The nodes named by `order` form a doubly linked list from `head` to
    /// `tail`.
    closed spec fn links_wf(&self) -> bool {
        let ord = self.order@;
        &&& ord.no_duplicates()
        &&& forall|i: int| 0 <= i < ord.len() ==> (#[trigger] ord[i] as int) < self.nodes@.len()
        &&& self.head == (if ord.len() == 0 {
            None::<usize>
        } else {
            Some(ord[0])
        })
        &&& self.tail == (if ord.len() == 0 {
            None::<usize>
        } else {
            Some(ord[ord.len() - 1])
        })
        &&& forall|i: int|
            0 <= i < ord.len() ==> self.nodes@[#[trigger] ord[i] as int].prev == (if i == 0 {
                None::<usize>
            } else {
                Some(ord[i - 1])
            })
        &&& forall|i: int|
            0 <= i < ord.len() ==> self.nodes@[#[trigger] ord[i] as int].next == (if i + 1
                == ord.len() {
                None::<usize>
            } else {
                Some(ord[i + 1])
            })
    }

    /// The list is well linked, no key is tracked twice, and the index maps
    /// each tracked key to its node.
    pub closed spec fn wf(&self) -> bool {
        &&& self.links_wf()
        &&& self.key_to_index.wf()
        &&& self@.no_duplicates()
        &&& self.key_to_index.as_map().dom() == self@.to_set()
        &&& forall|i: int|
            0 <= i < self.order@.len() ==> self.key_to_index.as_map()[#[trigger] self@[i]]
                == self.order@[i]
    }

    /// An empty tracker.
    pub fn new() -> (t: Self)
        ensures
            t.wf(),
            t@ == Seq::<Seq<char>>::empty(),
    {
        let t = LruTracker {
            nodes: Vec::new(),
            key_to_index: KeyMap::new(),
            head: None,
            tail: None,
            order: Ghost(Seq::empty()),
        };
        assert(t@ =~= Seq::<Seq<char>>::empty());
        assert(t.key_to_index.as_map().dom() =~= t@.to_set());
        t
    }

    /// Unlinks the node at `index`, found at position `p` of the list. The
    /// index is left as it is.
    fn detach(&mut self, index: usize, Ghost(p): Ghost<int>)
        requires
            old(self).links_wf(),
            0 <= p < old(self).order@.len(),
            old(self).order@[p] == index,
        ensures
            final(self).links_wf(),
            final(self).order@ == old(self).order@.remove(p),
            final(self).nodes@.len() == old(self).nodes@.len(),
            forall|n: int|
                0 <= n < old(self).nodes@.len() ==> #[trigger] final(self).nodes@[n].key
                    == old(self).nodes@[n].key,
            final(self).key_to_index == old(self).key_to_index,
    {
        let ghost ord = self.order@;
        let prev = self.nodes[index].prev;
        let next = self.nodes[index].next;
        match prev {
            Some(pi) => {
                assert(pi == ord[p - 1]);
                self.nodes[pi].next = next;
            },
            None => {
                self.head = next;
            },
        }
        match next {
            Some(ni) => {
                assert(ni == ord[p + 1]);
                self.nodes[ni].prev = prev;
            },
            None => {
                self.tail = prev;
            },
        }
        self.order = Ghost(ord.remove(p));
        proof {
            let r = ord.remove(p);
            assert forall|i: int| 0 <= i < r.len() implies #[trigger] r[i] == ord[if i < p {
                i
            } else {
                i + 1
            }] by {}
            assert forall|i: int, j: int|
                0 <= i < r.len() && 0 <= j < r.len() && i != j implies r[i] != r[j] by {
                let i2 = if i < p {
                    i
                } else {
                    i + 1
                };
                let j2 = if j < p {
                    j
                } else {
                    j + 1
                };
                assert(r[i] == ord[i2]);
                assert(r[j] == ord[j2]);
            }
            assert forall|i: int| 0 <= i < r.len() implies self.nodes@[#[trigger] r[i] as int].prev
                == (if i == 0 {
                None::<usize>
            } else {
                Some(r[i - 1])
            }) by {
                if i < p {
                    assert(r[i] == ord[i]);
                    if p + 1 < ord.len() {
                        assert(ord[i] != ord[p + 1]);
                    }
                } else if i > p {
                    assert(r[i] == ord[i + 1]);
                    assert(ord[i + 1] != ord[p + 1]);
                }
            }
            assert forall|i: int| 0 <= i < r.len() implies self.nodes@[#[trigger] r[i] as int].next
                == (if i + 1 == r.len() {
                None::<usize>
            } else {
                Some(r[i + 1])
            }) by {
                if i < p {
                    assert(r[i] == ord[i]);
                    if i + 1 < p {
                        assert(ord[i] != ord[p - 1]);
                    }
                } else {
                    assert(r[i] == ord[i + 1]);
                    if p > 0 {
                        assert(ord[i + 1] != ord[p - 1]);
                    }
                }
            }
        }
    }

    /// Links the node at `index`, which is not in the list, in as the new head.
    fn attach_to_head(&mut self, index: usize)
        requires
            old(self).links_wf(),
            index < old(self).nodes@.len(),
            !old(self).order@.contains(index),
        ensures
            final(self).links_wf(),
            final(self).order@ == seq![index] + old(self).order@,
            final(self).nodes@.len() == old(self).nodes@.len(),
            forall|n: int|
                0 <= n < old(self).nodes@.len() ==> #[trigger] final(self).nodes@[n].key
                    == old(self).nodes@[n].key,
            final(self).key_to_index == old(self).key_to_index,
    {
        let ghost ord = self.order@;
        self.nodes[index].prev = None;
        self.nodes[index].next = self.head;
        match self.head {
            Some(h) => {
                assert(h == ord[0]);
                self.nodes[h].prev = Some(index);
            },
            None => {
                self.tail = Some(index);
            },
        }
        self.head = Some(index);
        self.order = Ghost(seq![index] + ord);
        proof {
            let r = seq![index] + ord;
            assert forall|i: int| 0 < i < r.len() implies #[trigger] r[i] == ord[i - 1] by {}
            assert forall|i: int, j: int|
                0 <= i < r.len() && 0 <= j < r.len() && i != j implies r[i] != r[j] by {
                if i == 0 {
                    assert(r[j] == ord[j - 1]);
                } else if j == 0 {
                    assert(r[i] == ord[i - 1]);
                } else {
                    assert(r[i] == ord[i - 1]);
                    assert(r[j] == ord[j - 1]);
                }
            }
            assert forall|i: int| 0 <= i < r.len() implies (#[trigger] r[i] as int)
                < self.nodes@.len() by {
                if i > 0 {
                    assert(r[i] == ord[i - 1]);
                }
            }
            assert forall|i: int| 0 <= i < r.len() implies self.nodes@[#[trigger] r[i] as int].prev
                == (if i == 0 {
                None::<usize>
            } else {
                Some(r[i - 1])
            }) by {
                if i > 0 {
                    assert(r[i] == ord[i - 1]);
                    assert(ord[i - 1] != index);
                    if i > 1 {
                        assert(ord[i - 1] != ord[0]);
                    }
                }
            }
            assert forall|i: int| 0 <= i < r.len() implies self.nodes@[#[trigger] r[i] as int].next
                == (if i + 1 == r.len() {
                None::<usize>
            } else {
                Some(r[i + 1])
            }) by {
                if i > 0 {
                    assert(r[i] == ord[i - 1]);
                    assert(ord[i - 1] != index);
                }
            }
        }
    }

    /// Marks `key` as touched most recently, tracking it if it was not yet.
    pub fn touch(&mut self, key: &str)
        requires
            old(self).wf(),
        ensures
            final(self).wf(),
            final(self)@ == seq![key@] + without_key(old(self)@, key@),
    {
        let k: String = key.to_owned();
        let found = match self.key_to_index.get(&k) {
            Some(i) => Some(*i),
            None => None,
        };
        match found {
            Some(index) => self.move_to_head(index, Ghost(key@)),
            None => self.push_head(k),
        }
    }

    /// Moves the node at `index`, which holds `key`, to the head.
    fn move_to_head(&mut self, index: usize, Ghost(key): Ghost<Seq<char>>)
        requires
            old(self).wf(),
            old(self).key_to_index.as_map().contains_key(key),
            old(self).key_to_index.as_map()[key] == index,
        ensures
            final(self).wf(),
            final(self)@ == seq![key] + without_key(old(self)@, key),
    {
        let ghost old_view = self@;
        let ghost ord = self.order@;
        let ghost p: int = old_view.index_of(key);
        proof {
            lemma_without_key(old_view, key);
            assert(old_view.to_set().contains(key));
            assert(old_view.contains(key));
            assert(0 <= p < old_view.len() && old_view[p] == key);
            assert(ord[p] == index);
        }
        self.detach(index, Ghost(p));
        self.attach_to_head(index);
        proof {
            assert forall|j: int| 0 <= j < ord.len() implies #[trigger] self.nodes@[ord[j] as int].key@
                == old_view[j] by {
                assert(old(self).nodes@[ord[j] as int].key == self.nodes@[ord[j] as int].key);
            }
            self.lemma_moved(old_view, ord, p, index, key);
        }
    }

    /// After the node at position `p` moved to the head, the tracker is well
    /// formed and lists its key first.
    proof fn lemma_moved(&self, old_view: Seq<Seq<char>>, ord: Seq<usize>, p: int, index: usize, key: Seq<char>)
        requires
            self.links_wf(),
            self.key_to_index.wf(),
            old_view.no_duplicates(),
            old_view.len() == ord.len(),
            0 <= p < ord.len(),
            ord[p] == index,
            old_view[p] == key,
            self.order@ == seq![index] + ord.remove(p),
            forall|j: int| 0 <= j < ord.len() ==> #[trigger] self.nodes@[ord[j] as int].key@ == old_view[j],
            self.key_to_index.as_map().dom() == old_view.to_set(),
            forall|i: int| 0 <= i < ord.len() ==> self.key_to_index.as_map()[#[trigger] old_view[i]] == ord[i],
        ensures
            self.wf(),
            self@ == seq![key] + without_key(old_view, key),
    {
        lemma_without_key(old_view, key);
        let r = seq![index] + ord.remove(p);
        assert forall|i: int| 0 < i < r.len() implies #[trigger] r[i] == ord[if i - 1 < p {
            i - 1
        } else {
            i
        }] by {}
        assert forall|i: int| 0 <= i < r.len() implies #[trigger] self@[i] == (seq![key] + old_view.remove(p))[i] by {
            if i == 0 {
                assert(r[0] == ord[p]);
            } else {
                let i2 = if i - 1 < p {
                    i - 1
                } else {
                    i
                };
                assert(r[i] == ord[i2]);
            }
        }
        assert(self@ =~= seq![key] + old_view.remove(p));
        assert forall|i: int| 0 < i < self.order@.len() implies exists|j: int|
            0 <= j < ord.len() && old_view[j] == self@[i] && ord[j]
                == #[trigger] self.order@[i] by {
            let i2 = if i - 1 < p {
                i - 1
            } else {
                i
            };
            assert(r[i] == ord[i2]);
        }
        assert(old_view.to_set().insert(key) =~= old_view.to_set()) by {
            assert(old_view.contains(key));
        }
        self.lemma_index_after(old_view, ord, key);
    }

    /// Tracks `k`, which is not tracked yet, as the new head.
    fn push_head(&mut self, k: String)
        requires
            old(self).wf(),
            !old(self).key_to_index.as_map().contains_key(k@),
        ensures
            final(self).wf(),
            final(self)@ == seq![k@] + without_key(old(self)@, k@),
    {
        let ghost old_view = self@;
        let ghost ord = self.order@;
        let ghost key = k@;
        let index = self.nodes.len();
        proof {
            lemma_without_key(old_view, key);
            assert(!old_view.contains(key)) by {
                if old_view.contains(key) {
                    assert(old_view.to_set().contains(key));
                }
            }
            assert(!ord.contains(index)) by {
                if ord.contains(index) {
                    let i = choose|i: int| 0 <= i < ord.len() && ord[i] == index;
                    assert((ord[i] as int) < self.nodes@.len());
                }
            }
        }
        let k2 = k.clone();
        self.nodes.push(LruNode { key: k2, prev: None, next: self.head });
        self.key_to_index.insert(k, index);
        proof {
            assert forall|i: int| 0 <= i < ord.len() implies self.nodes@[#[trigger] ord[i] as int]
                == old(self).nodes@[ord[i] as int] by {}
        }
        self.attach_to_head(index);
        proof {
            let r = self.order@;
            assert forall|i: int| 0 < i < r.len() implies #[trigger] r[i] == ord[i - 1] && self@[i] == old_view[i - 1] by {}
            assert(self@ =~= seq![key] + old_view);
            assert forall|i: int| 0 < i < self.order@.len() implies exists|j: int|
                0 <= j < ord.len() && old_view[j] == self@[i] && ord[j]
                    == #[trigger] self.order@[i] by {
                assert(self.order@[i] == ord[i - 1]);
            }
            self.lemma_index_after(old_view, ord, key);
        }
    }

    /// After the list became `key` followed by the old list without `key`,
    /// and the index maps `key` to the new head, the tracker is well formed.
    proof fn lemma_index_after(&self, old_view: Seq<Seq<char>>, old_ord: Seq<usize>, key: Seq<char>)
        requires
            self.links_wf(),
            self.key_to_index.wf(),
            old_view.no_duplicates(),
            old_view.len() == old_ord.len(),
            self@ == seq![key] + without_key(old_view, key),
            self.key_to_index.as_map().dom() == old_view.to_set().insert(key),
            self.order@.len() > 0,
            self.key_to_index.as_map()[key] == self.order@[0],
            forall|i: int|
                0 <= i < old_view.len() && old_view[i] != key ==> self.key_to_index.as_map()[
                    #[trigger] old_view[i]] == old_ord[i],
            forall|i: int|
                0 < i < self.order@.len() ==> exists|j: int|
                    0 <= j < old_ord.len() && old_view[j] == self@[i] && old_ord[j]
                        == #[trigger] self.order@[i],
        ensures
            self.wf(),
    {
        lemma_without_key(old_view, key);
        let v = self@;
        let w = without_key(old_view, key);
        assert forall|i: int| 0 < i < v.len() implies #[trigger] v[i] == w[i - 1] by {}
        assert(v.no_duplicates()) by {
            assert forall|i: int, j: int| 0 <= i < v.len() && 0 <= j < v.len() && i != j implies v[i]
                != v[j] by {
                if i == 0 && j > 0 {
                    assert(v[j] == w[j - 1]);
                    assert(w.contains(w[j - 1]));
                } else if j == 0 && i > 0 {
                    assert(v[i] == w[i - 1]);
                    assert(w.contains(w[i - 1]));
                } else if i > 0 && j > 0 {
                    assert(v[i] == w[i - 1]);
                    assert(v[j] == w[j - 1]);
                }
            }
        }
        assert(self.key_to_index.as_map().dom() =~= v.to_set()) by {
            assert forall|x: Seq<char>| v.to_set().contains(x) <==> old_view.to_set().insert(
                key,
            ).contains(x) by {
                if x == key {
                    assert(v[0] == key);
                } else {
                    if v.contains(x) {
                        let i = choose|i: int| 0 <= i < v.len() && v[i] == x;
                        assert(i > 0);
                        assert(w[i - 1] == x);
                        assert(w.contains(x));
                    }
                    if old_view.contains(x) {
                        assert(w.contains(x));
                        let j = choose|j: int| 0 <= j < w.len() && w[j] == x;
                        assert(v[j + 1] == x);
                    }
                }
            }
        }
        assert forall|i: int| 0 <= i < self.order@.len() implies self.key_to_index.as_map()[
            #[trigger] self@[i]] == self.order@[i] by {
            if i > 0 {
                let j = choose|j: int|
                    0 <= j < old_ord.len() && old_view[j] == self@[i] && old_ord[j]
                        == #[trigger] self.order@[i];
                assert(v[i] == w[i - 1]);
                assert(w.contains(w[i - 1]));
                assert(old_view[j] != key);
            }
        }
    }
}


impl LruTracker {
    /// After the node at position `p` was unlinked and its key dropped from
    /// the index, the tracker is well formed again and lists the other keys.
    proof fn lemma_removed_at(
        &self,
        old_view: Seq<Seq<char>>,
        old_ord: Seq<usize>,
        old_index: Map<Seq<char>, usize>,
        p: int,
    )
        requires
            self.links_wf(),
            self.key_to_index.wf(),
            0 <= p < old_ord.len(),
            old_view.len() == old_ord.len(),
            old_view.no_duplicates(),
            old_index.dom() == old_view.to_set(),
            forall|i: int| 0 <= i < old_ord.len() ==> old_index[#[trigger] old_view[i]] == old_ord[i],
            self.order@ == old_ord.remove(p),
            forall|i: int|
                0 <= i < self.order@.len() ==> #[trigger] self@[i] == old_view[if i < p {
                    i
                } else {
                    i + 1
                }],
            self.key_to_index.as_map() == old_index.remove(old_view[p]),
        ensures
            self.wf(),
            self@ == old_view.remove(p),
            self@ == without_key(old_view, old_view[p]),
    {
        let v = self@;
        let k = old_view[p];
        assert(v =~= old_view.remove(p));
        lemma_without_key(old_view, k);
        assert(self.key_to_index.as_map().dom() =~= v.to_set()) by {
            assert forall|x: Seq<char>| v.to_set().contains(x) <==> old_index.remove(k).dom().contains(
                x,
            ) by {
                if x != k {
                    assert(v.contains(x) <==> old_view.contains(x));
                } else {
                    assert(!v.contains(k));
                }
            }
        }
        assert forall|i: int| 0 <= i < self.order@.len() implies self.key_to_index.as_map()[
            #[trigger] self@[i]] == self.order@[i] by {
            let i2 = if i < p {
                i
            } else {
                i + 1
            };
            assert(self@[i] == old_view[i2]);
            assert(old_view[i2] != k);
            assert(self.order@[i] == old_ord[i2]);
        }
    }

    /// Stops tracking `key`.
    pub fn remove(&mut self, key: &str)
        requires
            old(self).wf(),
        ensures
            final(self).wf(),
            final(self)@ == without_key(old(self)@, key@),
    {
        let ghost old_view = self@;
        let ghost ord = self.order@;
        let ghost old_index = self.key_to_index.as_map();
        proof {
            lemma_without_key(old_view, key@);
        }
        let k: String = key.to_owned();
        let found = match self.key_to_index.get(&k) {
            Some(i) => Some(*i),
            None => None,
        };
        match found {
            Some(index) => {
                let ghost p: int = old_view.index_of(key@);
                proof {
                    assert(old_view.to_set().contains(key@));
                    assert(old_view.contains(key@));
                    assert(ord[p] == index);
                }
                self.detach(index, Ghost(p));
                self.key_to_index.remove(&k);
                proof {
                    assert forall|i: int| 0 <= i < self.order@.len() implies #[trigger] self@[i]
                        == old_view[if i < p {
                        i
                    } else {
                        i + 1
                    }] by {
                        let i2 = if i < p {
                            i
                        } else {
                            i + 1
                        };
                        assert(self.order@[i] == ord[i2]);
                    }
                    self.lemma_removed_at(old_view, ord, old_index, p);
                }
            },
            None => {
                proof {
                    assert(!old_view.contains(key@)) by {
                        if old_view.contains(key@) {
                            assert(old_view.to_set().contains(key@));
                        }
                    }
                }
            },
        }
    }

    /// Stops tracking the key touched longest ago, and gives it back; `None`
    /// when nothing is tracked.
    pub fn evict_lru(&mut self) -> (r: Option<String>)
        requires
            old(self).wf(),
        ensures
            final(self).wf(),
            old(self)@.len() == 0 ==> r is None && final(self)@ == old(self)@,
            old(self)@.len() > 0 ==> r is Some && r->0@ == old(self)@.last() && final(self)@
                == old(self)@.drop_last(),
    {
        let ghost old_view = self@;
        let ghost ord = self.order@;
        let ghost old_index = self.key_to_index.as_map();
        match self.tail {
            None => None,
            Some(t) => {
                let ghost p: int = ord.len() - 1;
                let key = self.nodes[t].key.clone();
                assert(key@ == old_view[p]);
                self.key_to_index.remove(&key);
                self.detach(t, Ghost(p));
                proof {
                    assert forall|i: int| 0 <= i < self.order@.len() implies #[trigger] self@[i]
                        == old_view[if i < p {
                        i
                    } else {
                        i + 1
                    }] by {
                        assert(self.order@[i] == ord[i]);
                    }
                    self.lemma_removed_at(old_view, ord, old_index, p);
                    assert(old_view.remove(p) =~= old_view.drop_last());
                }
                Some(key)
            },
        }
    }

    /// The number of tracked keys.
    pub fn len(&self) -> (n: usize)
        requires
            self.wf(),
        ensures
            n == self@.len(),
    {
        proof {
            self.key_to_index.lemma_wf();
            self@.unique_seq_to_set();
        }
        self.key_to_index.len()
    }

    /// Whether no key is tracked.
    pub fn is_empty(&self) -> (b: bool)
        requires
            self.wf(),
        ensures
            b == (self@.len() == 0),
    {
        self.len() == 0
    }

    /// A well-formed tracker tracks no key twice.
    pub proof fn lemma_wf(&self)
        requires
            self.wf(),
        ensures
            self@.no_duplicates(),
    {
    }

    /// The tracked keys, most recently touched first.
    pub fn keys_in_order(&self) -> (r: Vec<String>)
        requires
            self.wf(),
        ensures
            r@.len() == self@.len(),
            forall|i: int| 0 <= i < r@.len() ==> (#[trigger] r@[i])@ == self@[i],
    {
        let ghost ord = self.order@;
        let mut r: Vec<String> = Vec::new();
        let mut cur = self.head;
        let ghost mut i: int = 0;
        while cur.is_some()
            invariant
                self.wf(),
                ord == self.order@,
                0 <= i <= ord.len(),
                cur == (if i < ord.len() {
                    Some(ord[i])
                } else {
                    None::<usize>
                }),
                r@.len() == i,
                forall|j: int| 0 <= j < i ==> (#[trigger] r@[j])@ == self@[j],
            decreases ord.len() - i,
        {
            let n = cur.unwrap();
            assert(self.nodes@[ord[i] as int] == self.nodes@[n as int]);
            let k = self.nodes[n].key.clone();
            r.push(k);
            cur = self.nodes[n].next;
            proof {
                i = i + 1;
            }
        }
        r
    }

    /// Whether `key` is tracked.
    pub fn contains(&self, key: &str) -> (b: bool)
        requires
            self.wf(),
        ensures
            b == self@.contains(key@),
    {
        let k: String = key.to_owned();
        let r = self.key_to_index.get(&k).is_some();
        proof {
            if self@.contains(key@) {
                assert(self@.to_set().contains(key@));
            }
            if self.key_to_index.as_map().contains_key(key@) {
                assert(self@.to_set().contains(key@));
            }
        }
        r
    }
}

impl Default for LruTracker {
    /// The same as `LruTracker::new`.
    fn default() -> (t: Self)
        ensures
            t.wf(),
            t@ == Seq::<Seq<char>>::empty(),
    {
        Self::new()
    }
}

} // verus!
