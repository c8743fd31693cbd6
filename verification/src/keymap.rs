//! An association list keyed by strings: the map that the store and the
//! recency tracker are built on.

use vstd::prelude::*;

verus! {

/// The keys of `s`, in order.
pub open spec fn keys_of<V>(s: Seq<(Seq<char>, V)>) -> Seq<Seq<char>> {
    s.map_values(|p: (Seq<char>, V)| p.0)
}

/// No key occurs twice in `s`.
pub open spec fn keys_unique<V>(s: Seq<(Seq<char>, V)>) -> bool {
    forall|i: int, j: int|
        0 <= i < s.len() && 0 <= j < s.len() && i != j ==> #[trigger] s[i].0 != #[trigger] s[j].0
}

/// Some pair of `s` has the key `k`.
pub open spec fn has_key<V>(s: Seq<(Seq<char>, V)>, k: Seq<char>) -> bool {
    exists|i: int| 0 <= i < s.len() && #[trigger] s[i].0 == k
}

/// The map that a list of pairs stands for.
pub open spec fn pairs_map<V>(s: Seq<(Seq<char>, V)>) -> Map<Seq<char>, V> {
    Map::new(
        |k: Seq<char>| has_key(s, k),
        |k: Seq<char>| s[choose|i: int| 0 <= i < s.len() && #[trigger] s[i].0 == k].1,
    )
}

/// With unique keys, the map gives back the value stored beside each key.
pub proof fn lemma_pairs_map_at<V>(s: Seq<(Seq<char>, V)>, i: int)
    requires
        keys_unique(s),
        0 <= i < s.len(),
    ensures
        pairs_map(s).contains_key(s[i].0),
        pairs_map(s)[s[i].0] == s[i].1,
{
    let k = s[i].0;
    assert(has_key(s, k));
    let j = choose|j: int| 0 <= j < s.len() && #[trigger] s[j].0 == k;
    assert(s[j].0 == k);
    assert(j == i);
}

/// The domain of the map is the set of keys of the list.
pub proof fn lemma_pairs_map_dom<V>(s: Seq<(Seq<char>, V)>)
    requires
        keys_unique(s),
    ensures
        pairs_map(s).dom() == keys_of(s).to_set(),
        keys_of(s).no_duplicates(),
        pairs_map(s).dom().finite(),
        pairs_map(s).dom().len() == s.len(),
{
    let ks = keys_of(s);
    assert forall|k: Seq<char>| pairs_map(s).dom().contains(k) <==> ks.to_set().contains(k) by {
        if has_key(s, k) {
            let i = choose|i: int| 0 <= i < s.len() && #[trigger] s[i].0 == k;
            assert(ks[i] == k);
        }
        if ks.to_set().contains(k) {
            let i = choose|i: int| 0 <= i < ks.len() && ks[i] == k;
            assert(s[i].0 == k);
        }
    }
    assert(pairs_map(s).dom() =~= ks.to_set());
    assert forall|i: int, j: int| 0 <= i < ks.len() && 0 <= j < ks.len() && i != j implies ks[i]
        != ks[j] by {
        assert(s[i].0 != s[j].0);
    }
    ks.unique_seq_to_set();
}

/// Appending a pair with a fresh key inserts it into the map.
pub proof fn lemma_pairs_map_push<V>(s: Seq<(Seq<char>, V)>, k: Seq<char>, v: V)
    requires
        keys_unique(s),
        !has_key(s, k),
    ensures
        keys_unique(s.push((k, v))),
        pairs_map(s.push((k, v))) == pairs_map(s).insert(k, v),
{
    let t = s.push((k, v));
    assert forall|i: int, j: int|
        0 <= i < t.len() && 0 <= j < t.len() && i != j implies #[trigger] t[i].0 != #[trigger] t[j].0 by {
        if i < s.len() && j < s.len() {
            assert(s[i].0 != s[j].0);
        } else if i < s.len() {
            assert(t[i].0 == s[i].0);
        } else {
            assert(t[j].0 == s[j].0);
        }
    }
    assert forall|x: Seq<char>| #[trigger] pairs_map(t).contains_key(x) <==> pairs_map(s).insert(
        k,
        v,
    ).contains_key(x) by {
        if has_key(t, x) && x != k {
            let i = choose|i: int| 0 <= i < t.len() && #[trigger] t[i].0 == x;
            assert(s[i].0 == x);
        }
        if has_key(s, x) {
            let i = choose|i: int| 0 <= i < s.len() && #[trigger] s[i].0 == x;
            assert(t[i].0 == x);
        }
        if x == k {
            assert(t[s.len() as int].0 == k);
        }
    }
    assert forall|x: Seq<char>| #[trigger] pairs_map(t).contains_key(x) implies pairs_map(t)[x]
        == pairs_map(s).insert(k, v)[x] by {
        let i = choose|i: int| 0 <= i < t.len() && #[trigger] t[i].0 == x;
        lemma_pairs_map_at(t, i);
        if i < s.len() {
            assert(s[i] == t[i]);
            lemma_pairs_map_at(s, i);
        }
    }
    assert(pairs_map(t) =~= pairs_map(s).insert(k, v));
}

/// Replacing the pair at `i` by one with the same key updates that key.
pub proof fn lemma_pairs_map_update<V>(s: Seq<(Seq<char>, V)>, i: int, v: V)
    requires
        keys_unique(s),
        0 <= i < s.len(),
    ensures
        keys_unique(s.update(i, (s[i].0, v))),
        pairs_map(s.update(i, (s[i].0, v))) == pairs_map(s).insert(s[i].0, v),
{
    let k = s[i].0;
    let t = s.update(i, (k, v));
    assert forall|a: int, b: int|
        0 <= a < t.len() && 0 <= b < t.len() && a != b implies #[trigger] t[a].0 != #[trigger] t[b].0 by {
        assert(t[a].0 == s[a].0);
        assert(t[b].0 == s[b].0);
        assert(s[a].0 != s[b].0);
    }
    assert forall|x: Seq<char>| #[trigger] pairs_map(t).contains_key(x) <==> pairs_map(s).insert(
        k,
        v,
    ).contains_key(x) by {
        if has_key(t, x) {
            let j = choose|j: int| 0 <= j < t.len() && #[trigger] t[j].0 == x;
            assert(s[j].0 == x);
        }
        if has_key(s, x) {
            let j = choose|j: int| 0 <= j < s.len() && #[trigger] s[j].0 == x;
            assert(t[j].0 == x);
        }
        if x == k {
            assert(t[i].0 == k);
        }
    }
    assert forall|x: Seq<char>| #[trigger] pairs_map(t).contains_key(x) implies pairs_map(t)[x]
        == pairs_map(s).insert(k, v)[x] by {
        let j = choose|j: int| 0 <= j < t.len() && #[trigger] t[j].0 == x;
        lemma_pairs_map_at(t, j);
        if j != i {
            assert(s[j] == t[j]);
            lemma_pairs_map_at(s, j);
        }
    }
    assert(pairs_map(t) =~= pairs_map(s).insert(k, v));
}

/// Taking out the pair at `i` removes its key from the map.
pub proof fn lemma_pairs_map_remove<V>(s: Seq<(Seq<char>, V)>, i: int)
    requires
        keys_unique(s),
        0 <= i < s.len(),
    ensures
        keys_unique(s.remove(i)),
        pairs_map(s.remove(i)) == pairs_map(s).remove(s[i].0),
{
    let k = s[i].0;
    let t = s.remove(i);
    assert forall|j: int| 0 <= j < t.len() implies #[trigger] t[j] == s[if j < i {
        j
    } else {
        j + 1
    }] by {}
    assert forall|a: int, b: int|
        0 <= a < t.len() && 0 <= b < t.len() && a != b implies #[trigger] t[a].0 != #[trigger] t[b].0 by {
        let a2 = if a < i {
            a
        } else {
            a + 1
        };
        let b2 = if b < i {
            b
        } else {
            b + 1
        };
        assert(t[a] == s[a2]);
        assert(t[b] == s[b2]);
        assert(s[a2].0 != s[b2].0);
    }
    assert forall|x: Seq<char>| #[trigger] pairs_map(t).contains_key(x) <==> pairs_map(
        s,
    ).remove(k).contains_key(x) by {
        if has_key(t, x) {
            let j = choose|j: int| 0 <= j < t.len() && #[trigger] t[j].0 == x;
            let j2 = if j < i {
                j
            } else {
                j + 1
            };
            assert(t[j] == s[j2]);
            assert(s[j2].0 == x);
            assert(j2 != i);
        }
        if has_key(s, x) && x != k {
            let j = choose|j: int| 0 <= j < s.len() && #[trigger] s[j].0 == x;
            assert(j != i);
            if j < i {
                assert(t[j] == s[j]);
            } else {
                assert(t[j - 1] == s[j]);
            }
        }
    }
    assert forall|x: Seq<char>| #[trigger] pairs_map(t).contains_key(x) implies pairs_map(t)[x]
        == pairs_map(s).remove(k)[x] by {
        let j = choose|j: int| 0 <= j < t.len() && #[trigger] t[j].0 == x;
        lemma_pairs_map_at(t, j);
        let j2 = if j < i {
            j
        } else {
            j + 1
        };
        assert(t[j] == s[j2]);
        lemma_pairs_map_at(s, j2);
    }
    assert(pairs_map(t) =~= pairs_map(s).remove(k));
}


/// Pairing each key with a function of its value maps the values of the map.
pub proof fn lemma_pairs_map_values<V, W>(
    s: Seq<(Seq<char>, V)>,
    t: Seq<(Seq<char>, W)>,
    f: spec_fn(V) -> W,
)
    requires
        keys_unique(s),
        t.len() == s.len(),
        forall|i: int| 0 <= i < s.len() ==> #[trigger] t[i] == (s[i].0, f(s[i].1)),
    ensures
        keys_unique(t),
        pairs_map(t) == pairs_map(s).map_values(f),
{
    assert forall|i: int, j: int| 0 <= i < t.len() && 0 <= j < t.len() && i != j implies #[trigger] t[i].0
        != #[trigger] t[j].0 by {
        assert(t[i].0 == s[i].0 && t[j].0 == s[j].0);
        assert(s[i].0 != s[j].0);
    }
    assert forall|k: Seq<char>| #[trigger] pairs_map(t).contains_key(k) <==> pairs_map(s).contains_key(k) by {
        if has_key(t, k) {
            let i = choose|i: int| 0 <= i < t.len() && #[trigger] t[i].0 == k;
            assert(s[i].0 == k);
        }
        if has_key(s, k) {
            let i = choose|i: int| 0 <= i < s.len() && #[trigger] s[i].0 == k;
            assert(t[i].0 == k);
        }
    }
    assert forall|k: Seq<char>| #[trigger] pairs_map(t).contains_key(k) implies pairs_map(t)[k]
        == pairs_map(s).map_values(f)[k] by {
        let i = choose|i: int| 0 <= i < t.len() && #[trigger] t[i].0 == k;
        lemma_pairs_map_at(t, i);
        assert(s[i].0 == k);
        lemma_pairs_map_at(s, i);
    }
    assert(pairs_map(t) =~= pairs_map(s).map_values(f));
}

/// A map from string keys to values, kept as a list of pairs in which no
/// key occurs twice.
pub struct KeyMap<V> {
    entries: Vec<(String, V)>,
}

impl<V> KeyMap<V> {
    /// The pairs in their stored order, each key taken by its text.
    pub closed spec fn pairs(&self) -> Seq<(Seq<char>, V)> {
        self.entries@.map_values(|e: (String, V)| (e.0@, e.1))
    }

    /// No key occurs twice.
    pub open spec fn wf(&self) -> bool {
        keys_unique(self.pairs())
    }

    /// The keys in their stored order.
    pub open spec fn key_seq(&self) -> Seq<Seq<char>> {
        keys_of(self.pairs())
    }

    /// The map itself.
    pub open spec fn as_map(&self) -> Map<Seq<char>, V> {
        pairs_map(self.pairs())
    }

    /// Facts that follow from well-formedness: the map's domain is the set of
    /// keys, and its size is the number of pairs.
    pub proof fn lemma_wf(&self)
        requires
            self.wf(),
        ensures
            self.as_map().dom() == self.key_seq().to_set(),
            self.key_seq().no_duplicates(),
            self.as_map().dom().finite(),
            self.as_map().dom().len() == self.pairs().len(),
            forall|i: int|
                0 <= i < self.pairs().len() ==> #[trigger] self.as_map().contains_key(
                    self.pairs()[i].0,
                ) && self.as_map()[self.pairs()[i].0] == self.pairs()[i].1,
    {
        lemma_pairs_map_dom(self.pairs());
        assert forall|i: int| 0 <= i < self.pairs().len() implies #[trigger] self.as_map().contains_key(
            self.pairs()[i].0,
        ) && self.as_map()[self.pairs()[i].0] == self.pairs()[i].1 by {
            lemma_pairs_map_at(self.pairs(), i);
        }
    }

    /// An empty map.
    pub fn new() -> (m: Self)
        ensures
            m.wf(),
            m.pairs() == Seq::<(Seq<char>, V)>::empty(),
            m.as_map() == Map::<Seq<char>, V>::empty(),
    {
        let m = KeyMap { entries: Vec::new() };
        assert(m.pairs() =~= Seq::<(Seq<char>, V)>::empty());
        assert(m.as_map() =~= Map::<Seq<char>, V>::empty());
        m
    }

    /// The number of pairs.
    pub fn len(&self) -> (n: usize)
        ensures
            n == self.pairs().len(),
    {
        self.entries.len()
    }

    /// The key of the pair at position `i`.
    pub fn key_at(&self, i: usize) -> (k: &String)
        requires
            i < self.pairs().len(),
        ensures
            k@ == self.pairs()[i as int].0,
    {
        &self.entries[i].0
    }

    /// The value of the pair at position `i`.
    pub fn value_at(&self, i: usize) -> (v: &V)
        requires
            i < self.pairs().len(),
        ensures
            *v == self.pairs()[i as int].1,
    {
        &self.entries[i].1
    }

    /// The position of the pair with key `key`, if any.
    pub fn find(&self, key: &String) -> (r: Option<usize>)
        ensures
            match r {
                Some(i) => i < self.pairs().len() && self.pairs()[i as int].0 == key@,
                None => !has_key(self.pairs(), key@),
            },
    {
        let mut i: usize = 0;
        while i < self.entries.len()
            invariant
                i <= self.entries.len(),
                forall|j: int| 0 <= j < i ==> #[trigger] self.pairs()[j].0 != key@,
            decreases self.entries.len() - i,
        {
            if self.entries[i].0 == *key {
                return Some(i);
            }
            i = i + 1;
        }
        None
    }

    /// The value stored for `key`, if any.
    pub fn get(&self, key: &String) -> (r: Option<&V>)
        requires
            self.wf(),
        ensures
            match r {
                Some(v) => self.as_map().contains_key(key@) && *v == self.as_map()[key@],
                None => !self.as_map().contains_key(key@),
            },
    {
        match self.find(key) {
            Some(i) => {
                proof {
                    lemma_pairs_map_at(self.pairs(), i as int);
                }
                Some(&self.entries[i].1)
            },
            None => None,
        }
    }

    /// Maps `key` to `value`, replacing what was stored for it before.
    pub fn insert(&mut self, key: String, value: V)
        requires
            old(self).wf(),
        ensures
            final(self).wf(),
            final(self).as_map() == old(self).as_map().insert(key@, value),
            old(self).as_map().contains_key(key@) ==> final(self).pairs().len() == old(
                self,
            ).pairs().len(),
            !old(self).as_map().contains_key(key@) ==> final(self).pairs() == old(self).pairs().push(
                (key@, value),
            ),
    {
        let ghost s = self.pairs();
        let ghost k = key@;
        match self.find(&key) {
            Some(i) => {
                self.entries.set(i, (key, value));
                proof {
                    lemma_pairs_map_update(s, i as int, value);
                    assert(self.pairs() =~= s.update(i as int, (s[i as int].0, value)));
                    assert(has_key(s, k));
                }
            },
            None => {
                self.entries.push((key, value));
                proof {
                    lemma_pairs_map_push(s, k, value);
                    assert(self.pairs() =~= s.push((k, value)));
                }
            },
        }
    }

    /// Takes out the pair at position `i`.
    pub fn remove_at(&mut self, i: usize) -> (r: (String, V))
        requires
            old(self).wf(),
            i < old(self).pairs().len(),
        ensures
            final(self).wf(),
            r.0@ == old(self).pairs()[i as int].0,
            r.1 == old(self).pairs()[i as int].1,
            final(self).pairs() == old(self).pairs().remove(i as int),
            final(self).as_map() == old(self).as_map().remove(r.0@),
    {
        let ghost s = self.pairs();
        let r = self.entries.remove(i);
        proof {
            lemma_pairs_map_remove(s, i as int);
            assert(self.pairs() =~= s.remove(i as int));
        }
        r
    }

    /// Takes out the pair with key `key`, giving back its value.
    pub fn remove(&mut self, key: &String) -> (r: Option<V>)
        requires
            old(self).wf(),
        ensures
            final(self).wf(),
            final(self).as_map() == old(self).as_map().remove(key@),
            match r {
                Some(v) => old(self).as_map().contains_key(key@) && v == old(self).as_map()[key@],
                None => !old(self).as_map().contains_key(key@) && final(self).pairs() == old(
                    self,
                ).pairs(),
            },
    {
        match self.find(key) {
            Some(i) => {
                proof {
                    lemma_pairs_map_at(self.pairs(), i as int);
                }
                let (_, v) = self.remove_at(i);
                Some(v)
            },
            None => {
                assert(old(self).as_map().remove(key@) =~= old(self).as_map());
                None
            },
        }
    }

    /// Mutable access to the value at position `i`; the key stays as it is.
    pub fn value_at_mut(&mut self, i: usize) -> (v: &mut V)
        requires
            i < old(self).pairs().len(),
        ensures
            *v == old(self).pairs()[i as int].1,
            final(self).pairs() == old(self).pairs().update(
                i as int,
                (old(self).pairs()[i as int].0, *final(v)),
            ),
    {
        &mut self.entries[i].1
    }

    /// The pairs, in their stored order.
    pub fn into_vec(self) -> (v: Vec<(String, V)>)
        ensures
            v@.map_values(|e: (String, V)| (e.0@, e.1)) == self.pairs(),
    {
        self.entries
    }
}

} // verus!
