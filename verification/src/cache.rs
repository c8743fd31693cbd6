//! The in-memory store: entries with lifetimes, kept within an optional
//! capacity by evicting the least recently written key.

use vstd::prelude::*;
use crate::error::{Error, not_found};
use crate::keymap::{KeyMap, has_key, keys_unique, pairs_map, lemma_pairs_map_at, lemma_pairs_map_update};
use crate::lru::{LruTracker, without_key, lemma_without_key, differs_from, lemma_filter_all, lemma_filter_twice, lemma_filter_congruent, lemma_filter_members};
use crate::types::{Entry, EntryView, Store, StoreInfo, expired_at, expiry, expiry_of};

verus! {

/// The most recent keys of `rec` that fit within `cap`.
pub open spec fn trim(rec: Seq<Seq<char>>, cap: Option<usize>) -> Seq<Seq<char>> {
    match cap {
        Some(c) => if rec.len() > c {
            rec.take(c as int)
        } else {
            rec
        },
        None => rec,
    }
}

/// A list of key-value pairs with each part taken by its view.
pub open spec fn pairs_view(r: Seq<(String, Vec<u8>)>) -> Seq<(Seq<char>, Seq<u8>)> {
    r.map_values(|p: (String, Vec<u8>)| (p.0@, p.1@))
}

/// A list of strings taken by their text.
pub open spec fn texts(r: Seq<String>) -> Seq<Seq<char>> {
    r.map_values(|s: String| s@)
}

/// The cache as a mathematical value.
pub struct CacheView {
    /// Every stored entry, alive or expired.
    pub entries: Map<Seq<char>, EntryView>,
    /// The stored keys, most recently written first.
    pub recency: Seq<Seq<char>>,
    /// The time that overrides the system clock, if one was set.
    pub clock: Option<u64>,
    /// The most entries the cache holds, if bounded.
    pub capacity: Option<usize>,
}

impl CacheView {
    /// The recency list names each stored key once, and the capacity bound
    /// holds.
    pub open spec fn wf(self) -> bool {
        &&& self.recency.no_duplicates()
        &&& self.entries.dom() == self.recency.to_set()
        &&& match self.capacity {
            Some(c) => self.recency.len() <= c,
            None => true,
        }
    }

    /// `now` is a time that the cache's clock can read.
    pub open spec fn reads(self, now: u64) -> bool {
        self.clock matches Some(c) ==> now == c
    }

    /// `k` is stored and alive at `now`.
    pub open spec fn is_live(self, k: Seq<char>, now: u64) -> bool {
        self.entries.contains_key(k) && !expired_at(self.entries[k].expires_at, now)
    }

    /// What a read of `k` at `now` finds.
    pub open spec fn lookup(self, k: Seq<char>, now: u64) -> Option<Seq<u8>> {
        if self.is_live(k, now) {
            Some(self.entries[k].value)
        } else {
            None
        }
    }

    /// The keys alive at `now`.
    pub open spec fn live_keys(self, now: u64) -> Set<Seq<char>> {
        self.entries.dom().filter(|k: Seq<char>| self.is_live(k, now))
    }

    /// The values of the keys alive at `now`.
    pub open spec fn live_values(self, now: u64) -> Map<Seq<char>, Seq<u8>> {
        Map::new(|k: Seq<char>| self.is_live(k, now), |k: Seq<char>| self.entries[k].value)
    }

    /// Keeps the keys of `kept` only.
    pub open spec fn keep_only(self, kept: Seq<Seq<char>>) -> CacheView {
        CacheView { entries: self.entries.restrict(kept.to_set()), recency: kept, ..self }
    }

    /// The cache after `value` was written under `k` at `now`, to live
    /// `ttl` seconds if given, and the least recently written keys beyond
    /// the capacity were evicted.
    pub open spec fn after_put(self, k: Seq<char>, value: Seq<u8>, ttl: Option<u64>, now: u64) -> CacheView {
        let e = EntryView { value, created_at: now, expires_at: expiry(now, ttl) };
        let written = CacheView {
            entries: self.entries.insert(k, e),
            recency: seq![k] + without_key(self.recency, k),
            ..self
        };
        written.keep_only(trim(written.recency, self.capacity))
    }

    /// The cache after `k` was deleted.
    pub open spec fn after_delete(self, k: Seq<char>) -> CacheView {
        CacheView { entries: self.entries.remove(k), recency: without_key(self.recency, k), ..self }
    }

    /// The cache after the entry of `k` was set to expire `ttl` seconds
    /// after `now`.
    pub open spec fn after_expire(self, k: Seq<char>, ttl: u64, now: u64) -> CacheView {
        CacheView {
            entries: self.entries.insert(
                k,
                EntryView { expires_at: expiry(now, Some(ttl)), ..self.entries[k] },
            ),
            ..self
        }
    }

    /// The cache after the entries expired at `now` were removed.
    pub open spec fn after_cleanup(self, now: u64) -> CacheView {
        self.keep_only(self.recency.filter(|k: Seq<char>| self.is_live(k, now)))
    }

    /// The cache after its capacity became `cap`, the least recently written
    /// keys beyond it evicted.
    pub open spec fn after_set_capacity(self, cap: Option<usize>) -> CacheView {
        CacheView { capacity: cap, ..self }.keep_only(trim(self.recency, cap))
    }
}

/// The in-memory store.
pub struct Cache {
    store: Store,
    current_time: Option<u64>,
    max_capacity: Option<usize>,
    lru: LruTracker,
}

impl View for Cache {
    type V = CacheView;

    closed spec fn view(&self) -> CacheView {
        CacheView {
            entries: self.store.as_map().map_values(|e: Entry| e@),
            recency: self.lru@,
            clock: self.current_time,
            capacity: self.max_capacity,
        }
    }
}

impl Cache {
    /// The store and the recency tracker are well formed and track the same
    /// keys, within the capacity.
    pub closed spec fn wf(&self) -> bool {
        &&& self.store.wf()
        &&& self.lru.wf()
        &&& self@.wf()
    }

    /// The parts are well formed and track the same keys; the capacity may
    /// be exceeded.
    closed spec fn parts_wf(&self) -> bool {
        &&& self.store.wf()
        &&& self.lru.wf()
        &&& self.lru@.no_duplicates()
        &&& self.store.as_map().dom() == self.lru@.to_set()
    }

    proof fn lemma_parts(&self)
        requires
            self.store.wf(),
            self.lru.wf(),
            self.lru@.no_duplicates(),
            self.store.as_map().dom() == self.lru@.to_set(),
        ensures
            self.store.pairs().len() == self.lru@.len(),
            self@.entries.dom() == self.lru@.to_set(),
            self@.entries.dom().finite(),
            self@.entries.len() == self.lru@.len(),
    {
        self.store.lemma_wf();
        self.lru@.unique_seq_to_set();
        assert(self@.entries.dom() =~= self.store.as_map().dom());
    }

    /// Facts that a well-formed cache gives.
    pub proof fn lemma_wf(&self)
        requires
            self.wf(),
        ensures
            self@.wf(),
            self@.entries.dom().finite(),
            self@.entries.len() == self@.recency.len(),
    {
        self.lemma_parts_from_wf();
    }

    proof fn lemma_parts_from_wf(&self)
        requires
            self.wf(),
        ensures
            self.parts_wf(),
            self.store.pairs().len() == self.lru@.len(),
            self@.entries.dom().finite(),
            self@.entries.len() == self@.recency.len(),
    {
        assert(self.store.as_map().dom() =~= self@.entries.dom());
        self.lemma_parts();
    }

    /// An empty cache with no capacity bound that reads the system clock.
    pub fn new() -> (c: Self)
        ensures
            c.wf(),
            c@.entries == Map::<Seq<char>, EntryView>::empty(),
            c@.recency == Seq::<Seq<char>>::empty(),
            c@.clock is None,
            c@.capacity is None,
    {
        let c = Cache {
            store: KeyMap::new(),
            current_time: None,
            max_capacity: None,
            lru: LruTracker::new(),
        };
        assert(c@.entries =~= Map::<Seq<char>, EntryView>::empty());
        assert(c@.recency.to_set() =~= Set::<Seq<char>>::empty());
        c
    }

    /// The current time: the time that was set, or else the system clock.
    pub fn now(&self) -> (t: u64)
        ensures
            self@.reads(t),
    {
        match self.current_time {
            Some(t) => t,
            None => crate::clock::unix_seconds(),
        }
    }

    /// Makes the cache read `time` in place of the system clock.
    pub fn set_time(&mut self, time: u64)
        requires
            old(self).wf(),
        ensures
            final(self).wf(),
            final(self)@ == (CacheView { clock: Some(time), ..old(self)@ }),
    {
        self.current_time = Some(time);
    }

    /// The value stored under `key`, if it is alive.
    pub fn get(&self, key: &str) -> (r: Result<Vec<u8>, Error>)
        requires
            self.wf(),
        ensures
            exists|now: u64|
                #[trigger] self@.reads(now) && match r {
                    Ok(v) => self@.lookup(key@, now) == Some(v@),
                    Err(e) => self@.lookup(key@, now) is None && not_found(e, key@),
                },
    {
        let now = self.now();
        let k: String = key.to_owned();
        let r = match self.store.get(&k) {
            Some(entry) => {
                if entry.is_expired(now) {
                    Err(Error::KeyNotFound(k))
                } else {
                    let v = entry.value.clone();
                    assert(v@ =~= entry.value@);
                    Ok(v)
                }
            },
            None => Err(Error::KeyNotFound(k)),
        };
        assert(self@.reads(now));
        r
    }

    /// Whether `key` is stored and alive.
    pub fn contains_key(&self, key: &str) -> (b: bool)
        requires
            self.wf(),
        ensures
            exists|now: u64| #[trigger] self@.reads(now) && b == self@.is_live(key@, now),
    {
        let now = self.now();
        let k: String = key.to_owned();
        let b = match self.store.get(&k) {
            Some(entry) => !entry.is_expired(now),
            None => false,
        };
        assert(self@.reads(now));
        b
    }

    /// Evicts the least recently written keys until the capacity bound
    /// holds; gives back how many were evicted.
    fn evict_to_capacity(&mut self) -> (evicted: usize)
        requires
            old(self).parts_wf(),
        ensures
            final(self).wf(),
            final(self)@ == old(self)@.keep_only(trim(old(self)@.recency, old(self)@.capacity)),
            evicted == old(self)@.recency.len() - final(self)@.recency.len(),
    {
        let ghost old_view = self@;
        let ghost rec = self.lru@;
        proof {
            self.lemma_parts();
        }
        let mut evicted: usize = 0;
        let total = self.store.len();
        match self.max_capacity {
            None => {
                assert(old_view.entries.restrict(rec.to_set()) =~= old_view.entries);
            },
            Some(cap) => {
                while self.store.len() > cap
                    invariant
                        self.parts_wf(),
                        self.max_capacity == Some(cap),
                        self.current_time == old_view.clock,
                        self.lru@.len() <= rec.len(),
                        self.lru@ == rec.take(self.lru@.len() as int),
                        rec.len() > cap ==> self.lru@.len() >= cap,
                        rec.len() <= cap ==> self.lru@.len() == rec.len(),
                        self@.entries == old_view.entries.restrict(self.lru@.to_set()),
                        self.store.pairs().len() == self.lru@.len(),
                        evicted == rec.len() - self.lru@.len(),
                        rec.len() == total,
                    ensures
                        self.lru@.len() <= cap,
                    decreases self.lru@.len(),
                {
                    let ghost before = self.lru@;
                    let ghost before_entries = self@.entries;
                    match self.lru.evict_lru() {
                        Some(k) => {
                            self.store.remove(&k);
                            evicted = evicted + 1;
                            proof {
                                let n = before.len() as int;
                                assert(self.lru@ =~= rec.take(n - 1));
                                assert(self.lru@.to_set() =~= before.to_set().remove(k@)) by {
                                    assert forall|x: Seq<char>| self.lru@.to_set().contains(x)
                                        <==> before.to_set().remove(k@).contains(x) by {
                                        if before.contains(x) && x != k@ {
                                            let i = choose|i: int| 0 <= i < n && before[i] == x;
                                            assert(i != n - 1);
                                            assert(self.lru@[i] == x);
                                        }
                                        if self.lru@.contains(x) {
                                            let i = choose|i: int|
                                                0 <= i < n - 1 && self.lru@[i] == x;
                                            assert(before[i] == x);
                                            assert(before[n - 1] == k@);
                                        }
                                    }
                                }
                                assert(self@.entries =~= before_entries.remove(k@));
                                assert(self@.entries =~= old_view.entries.restrict(
                                    self.lru@.to_set(),
                                ));
                                self.lemma_parts();
                            }
                        },
                        None => {
                            break ;
                        },
                    }
                }
                proof {
                    if rec.len() > cap {
                        assert(self.lru@.len() == cap);
                    }
                }
            },
        }
        proof {
            self.lemma_parts();
            assert(self@.recency == trim(rec, old_view.capacity));
            assert(self@ == old_view.keep_only(trim(old_view.recency, old_view.capacity)));
        }
        evicted
    }

    /// Writes `value` under `key`, to live `ttl` seconds if given, and evicts
    /// the least recently written keys beyond the capacity.
    pub fn put(&mut self, key: String, value: Vec<u8>, ttl: Option<u64>)
        requires
            old(self).wf(),
        ensures
            final(self).wf(),
            exists|now: u64|
                #[trigger] old(self)@.reads(now) && final(self)@ == old(self)@.after_put(
                    key@,
                    value@,
                    ttl,
                    now,
                ),
    {
        let ghost old_view = self@;
        let now = self.now();
        let ghost k = key@;
        let ghost v = value@;
        let expires_at = expiry_of(now, ttl);
        let entry = Entry::new(value, now, expires_at);
        let key2 = key.clone();
        proof {
            self.lemma_parts_from_wf();
            lemma_without_key(old_view.recency, k);
        }
        self.store.insert(key, entry);
        self.lru.touch(key2.as_str());
        proof {
            let rec1 = seq![k] + without_key(old_view.recency, k);
            assert(self.lru@ == rec1);
            assert(self.lru@.no_duplicates()) by {
                let w = without_key(old_view.recency, k);
                assert forall|i: int, j: int|
                    0 <= i < rec1.len() && 0 <= j < rec1.len() && i != j implies rec1[i]
                        != rec1[j] by {
                    if i > 0 {
                        assert(rec1[i] == w[i - 1]);
                        assert(w.contains(w[i - 1]));
                    }
                    if j > 0 {
                        assert(rec1[j] == w[j - 1]);
                        assert(w.contains(w[j - 1]));
                    }
                }
            }
            assert(self.store.as_map().dom() =~= self.lru@.to_set()) by {
                assert forall|x: Seq<char>| self.lru@.to_set().contains(x) <==> self.store.as_map().dom().contains(
                    x,
                ) by {
                    if x == k {
                        assert(rec1[0] == k);
                    } else {
                        let w = without_key(old_view.recency, k);
                        if rec1.contains(x) {
                            let i = choose|i: int| 0 <= i < rec1.len() && rec1[i] == x;
                            assert(w[i - 1] == x);
                            assert(w.contains(x));
                            assert(old_view.recency.to_set().contains(x));
                        }
                        if old_view.recency.to_set().contains(x) {
                            assert(w.contains(x));
                            let j = choose|j: int| 0 <= j < w.len() && w[j] == x;
                            assert(rec1[j + 1] == x);
                        }
                    }
                }
            }
            assert(self@.entries =~= old_view.entries.insert(
                k,
                EntryView { value: v, created_at: now, expires_at: expiry(now, ttl) },
            ));
        }
        self.evict_to_capacity();
        assert(old_view.reads(now));
    }

    /// Deletes `key`, alive or expired.
    pub fn delete(&mut self, key: &str) -> (r: Result<(), Error>)
        requires
            old(self).wf(),
        ensures
            final(self).wf(),
            old(self)@.entries.contains_key(key@) ==> r is Ok && final(self)@ == old(
                self,
            )@.after_delete(key@),
            !old(self)@.entries.contains_key(key@) ==> final(self)@ == old(self)@ && r is Err && not_found(
                r->Err_0,
                key@,
            ),
    {
        let ghost old_view = self@;
        let k: String = key.to_owned();
        proof {
            self.lemma_parts_from_wf();
            lemma_without_key(old_view.recency, key@);
        }
        match self.store.remove(&k) {
            None => {
                assert(self@ == old_view) by {
                    assert(self@.entries =~= old_view.entries);
                }
                Err(Error::KeyNotFound(k))
            },
            Some(_) => {
                self.lru.remove(key);
                proof {
                    assert(self@.entries =~= old_view.entries.remove(key@));
                    assert(self@.entries.dom() =~= self@.recency.to_set()) by {
                        assert forall|x: Seq<char>| self@.recency.to_set().contains(x) <==> self@.entries.dom().contains(
                            x,
                        ) by {
                            if x != key@ {
                                assert(self@.recency.contains(x) <==> old_view.recency.contains(
                                    x,
                                ));
                                assert(old_view.recency.contains(x) <==> old_view.recency.to_set().contains(x));
                            }
                        }
                    }
                    lemma_len_without(old_view.recency, key@);
                }
                Ok(())
            },
        }
    }
}


impl Cache {
    /// Sets the entry of `key`, alive or expired, to expire `ttl` seconds
    /// from now.
    pub fn expire(&mut self, key: &str, ttl: u64) -> (r: Result<(), Error>)
        requires
            old(self).wf(),
        ensures
            final(self).wf(),
            old(self)@.entries.contains_key(key@) ==> r is Ok && exists|now: u64|
                #[trigger] old(self)@.reads(now) && final(self)@ == old(self)@.after_expire(
                    key@,
                    ttl,
                    now,
                ),
            !old(self)@.entries.contains_key(key@) ==> final(self)@ == old(self)@ && r is Err
                && not_found(r->Err_0, key@),
    {
        let ghost old_view = self@;
        let ghost old_pairs = self.store.pairs();
        let now = self.now();
        let k: String = key.to_owned();
        match self.store.find(&k) {
            Some(i) => {
                let new_expiry = expiry_of(now, Some(ttl));
                let entry = self.store.value_at_mut(i);
                entry.expires_at = new_expiry;
                proof {
                    let e = self.store.pairs()[i as int].1;
                    lemma_pairs_map_at(old_pairs, i as int);
                    lemma_pairs_map_update(old_pairs, i as int, e);
                    assert(self.store.pairs() == old_pairs.update(i as int, (old_pairs[i as int].0, e)));
                    assert(self@.entries =~= old_view.entries.insert(
                        key@,
                        EntryView { expires_at: expiry(now, Some(ttl)), ..old_view.entries[key@] },
                    ));
                    assert(old_view.reads(now));
                    assert(self@.entries.dom() =~= old_view.entries.dom());
                }
                Ok(())
            },
            None => {
                proof {
                    self.store.lemma_wf();
                    assert(!old_view.entries.contains_key(key@));
                }
                Err(Error::KeyNotFound(k))
            },
        }
    }

    /// Removes every expired entry; gives back how many were removed.
    #[verifier::rlimit(30)]
    pub fn cleanup(&mut self) -> (removed: usize)
        requires
            old(self).wf(),
        ensures
            final(self).wf(),
            exists|now: u64|
                #[trigger] old(self)@.reads(now) && final(self)@ == old(self)@.after_cleanup(now),
            removed == old(self)@.entries.len() - final(self)@.entries.len(),
    {
        let ghost old_view = self@;
        let ghost old_map = self.store.as_map();
        let ghost old_pairs = self.store.pairs();
        proof {
            self.lemma_parts_from_wf();
            self.store.lemma_wf();
        }
        let now = self.now();
        let total = self.store.len();
        let mut removed: usize = 0;
        let mut i: usize = 0;
        let ghost mut j: int = 0;
        let ghost mut dropped: Set<Seq<char>> = Set::empty();
        proof {
            lemma_filter_all(old_view.recency, |x: Seq<char>| !dropped.contains(x));
        }
        while i < self.store.len()
            invariant
                self.store.wf(),
                self.lru.wf(),
                self.current_time == old_view.clock,
                self.max_capacity == old_view.capacity,
                old_pairs.len() == total,
                keys_unique(old_pairs),
                old_map == pairs_map(old_pairs),
                old_view.entries == old_map.map_values(|e: Entry| e@),
                0 <= i <= j <= old_pairs.len(),
                self.store.pairs().len() == i + (old_pairs.len() - j),
                forall|m: int|
                    0 <= m < old_pairs.len() - j ==> #[trigger] self.store.pairs()[i + m]
                        == old_pairs[j + m],
                forall|x: Seq<char>|
                    #[trigger] dropped.contains(x) ==> old_view.entries.contains_key(x)
                        && !old_view.is_live(x, now),
                forall|m: int|
                    0 <= m < j && !old_view.is_live(#[trigger] old_pairs[m].0, now)
                        ==> dropped.contains(old_pairs[m].0),
                forall|m: int| j <= m < old_pairs.len() ==> !dropped.contains(#[trigger] old_pairs[m].0),
                dropped.finite(),
                dropped.len() == removed,
                removed == j - i,
                self.store.as_map() == old_map.remove_keys(dropped),
                self.lru@ == old_view.recency.filter(|x: Seq<char>| !dropped.contains(x)),
            decreases old_pairs.len() - j,
        {
            proof {
                assert(self.store.pairs()[i + 0] == old_pairs[j + 0]);
                lemma_pairs_map_at(old_pairs, j);
            }
            if self.store.value_at(i).is_expired(now) {
                let ghost before_lru = self.lru@;
                let ghost before_pairs = self.store.pairs();
                let ghost d0 = dropped;
                let (k, _) = self.store.remove_at(i);
                self.lru.remove(k.as_str());
                removed = removed + 1;
                proof {
                    let kk = old_pairs[j].0;
                    assert(k@ == kk);
                    assert(!d0.contains(kk));
                    dropped = d0.insert(kk);
                    j = j + 1;
                    assert forall|m: int| 0 <= m < old_pairs.len() - j implies #[trigger] self.store.pairs()[i + m]
                        == old_pairs[j + m] by {
                        assert(self.store.pairs()[i + m] == before_pairs[i + m + 1]);
                        assert(before_pairs[i + (m + 1)] == old_pairs[(j - 1) + (m + 1)]);
                    }
                    assert forall|m: int| j <= m < old_pairs.len() implies !dropped.contains(#[trigger] old_pairs[m].0) by {
                        assert(old_pairs[m].0 != old_pairs[j - 1].0);
                    }
                    assert(self.store.as_map() =~= old_map.remove_keys(dropped));
                    let pd = |x: Seq<char>| !d0.contains(x);
                    lemma_filter_twice(old_view.recency, pd, differs_from(kk));
                    lemma_filter_congruent(
                        old_view.recency,
                        |x: Seq<char>| pd(x) && differs_from(kk)(x),
                        |x: Seq<char>| !dropped.contains(x),
                    );
                }
            } else {
                i = i + 1;
                proof {
                    j = j + 1;
                    assert forall|m: int| 0 <= m < old_pairs.len() - j implies #[trigger] self.store.pairs()[i + m]
                        == old_pairs[j + m] by {
                        assert(self.store.pairs()[(i - 1) + (m + 1)] == old_pairs[(j - 1) + (m + 1)]);
                    }
                }
            }
        }
        proof {
            assert(j == old_pairs.len());
            let live = |x: Seq<char>| old_view.is_live(x, now);
            assert forall|x: Seq<char>| old_view.entries.contains_key(x) implies (dropped.contains(x)
                <==> !old_view.is_live(x, now)) by {
                let m = choose|m: int| 0 <= m < old_pairs.len() && #[trigger] old_pairs[m].0 == x;
            }
            lemma_filter_congruent(old_view.recency, |x: Seq<char>| !dropped.contains(x), live);
            lemma_filter_members(old_view.recency, live);
            let kept = old_view.recency.filter(live);
            assert(self@.recency == kept);
            assert(self@.entries =~= old_view.entries.restrict(kept.to_set())) by {
                assert forall|x: Seq<char>| kept.to_set().contains(x) <==> (old_view.entries.contains_key(x) && !dropped.contains(x)) by {
                    assert(kept.contains(x) <==> old_view.recency.contains(x) && live(x));
                    assert(old_view.recency.contains(x) <==> old_view.recency.to_set().contains(x));
                }
            }
            assert(self@.entries.dom() =~= kept.to_set());
            old_view.entries.lemma_remove_keys_len(dropped);
            assert(self@.entries =~= old_view.entries.remove_keys(dropped));
            assert(old_view.reads(now));
        }
        removed
    }

    /// Sets the capacity bound, evicting the least recently written keys
    /// beyond it; gives back how many were evicted.
    pub fn set_capacity(&mut self, cap: Option<usize>) -> (evicted: usize)
        requires
            old(self).wf(),
        ensures
            final(self).wf(),
            final(self)@ == old(self)@.after_set_capacity(cap),
            evicted == old(self)@.entries.len() - final(self)@.entries.len(),
    {
        proof {
            self.lemma_parts_from_wf();
        }
        self.max_capacity = cap;
        let evicted = self.evict_to_capacity();
        proof {
            self.lemma_parts_from_wf();
        }
        evicted
    }

    /// The stored keys, most recently written first.
    pub fn recency(&self) -> (r: Vec<String>)
        requires
            self.wf(),
        ensures
            texts(r@) == self@.recency,
    {
        let r = self.lru.keys_in_order();
        assert(texts(r@) =~= self@.recency);
        r
    }

    /// The capacity bound, if any.
    pub fn get_capacity(&self) -> (c: Option<usize>)
        ensures
            c == self@.capacity,
    {
        self.max_capacity
    }

    /// All entries, alive or expired.
    pub fn store(&self) -> (s: &Store)
        requires
            self.wf(),
        ensures
            s.wf(),
            s.as_map().map_values(|e: Entry| e@) == self@.entries,
    {
        &self.store
    }
}


impl Cache {
    /// The live entries, in no particular order.
    pub fn list(&self) -> (r: Vec<(String, Vec<u8>)>)
        requires
            self.wf(),
        ensures
            exists|now: u64|
                #[trigger] self@.reads(now) && keys_unique(pairs_view(r@)) && pairs_map(
                    pairs_view(r@),
                ) == self@.live_values(now),
    {
        let now = self.now();
        let ghost pairs = self.store.pairs();
        proof {
            self.store.lemma_wf();
        }
        let mut out: Vec<(String, Vec<u8>)> = Vec::new();
        let mut i: usize = 0;
        while i < self.store.len()
            invariant
                self.wf(),
                pairs == self.store.pairs(),
                i <= pairs.len(),
                keys_unique(pairs),
                forall|m: int| 0 <= m < pairs.len() ==> #[trigger] self.store.as_map().contains_key(pairs[m].0) && self.store.as_map()[pairs[m].0] == pairs[m].1,
                keys_unique(pairs_view(out@)),
                forall|a: int, m: int|
                    0 <= a < out@.len() && i <= m < pairs.len() ==> #[trigger] pairs_view(out@)[a].0
                        != #[trigger] pairs[m].0,
                forall|a: int|
                    0 <= a < out@.len() ==> self@.lookup(#[trigger] pairs_view(out@)[a].0, now)
                        == Some(pairs_view(out@)[a].1),
                forall|m: int|
                    0 <= m < i && self@.is_live(#[trigger] pairs[m].0, now) ==> has_key(
                        pairs_view(out@),
                        pairs[m].0,
                    ),
            decreases pairs.len() - i,
        {
            let entry = self.store.value_at(i);
            if !entry.is_expired(now) {
                let k = self.store.key_at(i).clone();
                let v = entry.value.clone();
                assert(v@ =~= entry.value@);
                let ghost before = pairs_view(out@);
                out.push((k, v));
                proof {
                    let pv = pairs_view(out@);
                    assert(pv =~= before.push((pairs[i as int].0, entry.value@)));
                    assert(self@.entries[pairs[i as int].0] == entry@);
                    assert forall|a: int, b: int|
                        0 <= a < pv.len() && 0 <= b < pv.len() && a != b implies #[trigger] pv[a].0
                            != #[trigger] pv[b].0 by {
                        if a < before.len() && b < before.len() {
                            assert(before[a].0 != before[b].0);
                        } else if a < before.len() {
                            assert(before[a].0 != pairs[i as int].0);
                        } else {
                            assert(before[b].0 != pairs[i as int].0);
                        }
                    }
                    assert forall|a: int, m: int|
                        0 <= a < pv.len() && i + 1 <= m < pairs.len() implies #[trigger] pv[a].0
                            != #[trigger] pairs[m].0 by {
                        if a < before.len() {
                            assert(before[a].0 != pairs[m].0);
                        } else {
                            assert(pairs[i as int].0 != pairs[m].0);
                        }
                    }
                    assert forall|m: int|
                        0 <= m < i + 1 && self@.is_live(#[trigger] pairs[m].0, now) implies has_key(
                        pv,
                        pairs[m].0,
                    ) by {
                        if m < i {
                            let a = choose|a: int| 0 <= a < before.len() && #[trigger] before[a].0 == pairs[m].0;
                            assert(pv[a] == before[a]);
                        } else {
                            assert(pv[before.len() as int].0 == pairs[m].0);
                        }
                    }
                }
            }
            i = i + 1;
        }
        proof {
            let pv = pairs_view(out@);
            assert forall|k: Seq<char>| #[trigger] pairs_map(pv).contains_key(k) <==> self@.live_values(now).contains_key(k) by {
                if self@.is_live(k, now) {
                    assert(self.store.as_map().contains_key(k));
                    let m = choose|m: int| 0 <= m < pairs.len() && #[trigger] pairs[m].0 == k;
                }
                if has_key(pv, k) {
                    let a = choose|a: int| 0 <= a < pv.len() && #[trigger] pv[a].0 == k;
                    assert(self@.lookup(pv[a].0, now) == Some(pv[a].1));
                }
            }
            assert forall|k: Seq<char>| #[trigger] pairs_map(pv).contains_key(k) implies pairs_map(pv)[k] == self@.live_values(now)[k] by {
                let a = choose|a: int| 0 <= a < pv.len() && #[trigger] pv[a].0 == k;
                lemma_pairs_map_at(pv, a);
                assert(self@.lookup(pv[a].0, now) == Some(pv[a].1));
            }
            assert(pairs_map(pv) =~= self@.live_values(now));
            assert(self@.reads(now));
        }
        out
    }

    /// The keys of the live entries, in no particular order.
    pub fn keys(&self) -> (r: Vec<String>)
        requires
            self.wf(),
        ensures
            exists|now: u64|
                #[trigger] self@.reads(now) && texts(r@).no_duplicates() && texts(r@).to_set()
                    == self@.live_keys(now),
    {
        let now = self.now();
        let ghost pairs = self.store.pairs();
        proof {
            self.store.lemma_wf();
        }
        let mut out: Vec<String> = Vec::new();
        let mut i: usize = 0;
        while i < self.store.len()
            invariant
                self.wf(),
                pairs == self.store.pairs(),
                i <= pairs.len(),
                keys_unique(pairs),
                forall|m: int| 0 <= m < pairs.len() ==> #[trigger] self.store.as_map().contains_key(pairs[m].0) && self.store.as_map()[pairs[m].0] == pairs[m].1,
                texts(out@).no_duplicates(),
                forall|a: int, m: int|
                    0 <= a < out@.len() && i <= m < pairs.len() ==> #[trigger] texts(out@)[a]
                        != #[trigger] pairs[m].0,
                forall|a: int| 0 <= a < out@.len() ==> self@.is_live(#[trigger] texts(out@)[a], now),
                forall|m: int|
                    0 <= m < i && self@.is_live(#[trigger] pairs[m].0, now) ==> texts(out@).contains(pairs[m].0),
            decreases pairs.len() - i,
        {
            let entry = self.store.value_at(i);
            if !entry.is_expired(now) {
                let k = self.store.key_at(i).clone();
                let ghost before = texts(out@);
                out.push(k);
                proof {
                    let t = texts(out@);
                    assert(t =~= before.push(pairs[i as int].0));
                    assert(self@.entries[pairs[i as int].0] == entry@);
                    assert forall|a: int, b: int|
                        0 <= a < t.len() && 0 <= b < t.len() && a != b implies t[a] != t[b] by {
                        if a < before.len() && b < before.len() {
                        } else if a < before.len() {
                            assert(before[a] != pairs[i as int].0);
                        } else {
                            assert(before[b] != pairs[i as int].0);
                        }
                    }
                    assert forall|a: int, m: int|
                        0 <= a < t.len() && i + 1 <= m < pairs.len() implies #[trigger] t[a]
                            != #[trigger] pairs[m].0 by {
                        if a < before.len() {
                            assert(before[a] != pairs[m].0);
                        } else {
                            assert(pairs[i as int].0 != pairs[m].0);
                        }
                    }
                    assert forall|m: int|
                        0 <= m < i + 1 && self@.is_live(#[trigger] pairs[m].0, now) implies t.contains(pairs[m].0) by {
                        if m < i {
                            let a = choose|a: int| 0 <= a < before.len() && before[a] == pairs[m].0;
                            assert(t[a] == before[a]);
                        } else {
                            assert(t[before.len() as int] == pairs[m].0);
                        }
                    }
                    assert forall|a: int| 0 <= a < t.len() implies self@.is_live(#[trigger] t[a], now) by {
                        if a < before.len() {
                            assert(t[a] == before[a]);
                        }
                    }
                }
            }
            i = i + 1;
        }
        proof {
            let t = texts(out@);
            assert forall|k: Seq<char>| t.to_set().contains(k) <==> self@.live_keys(now).contains(k) by {
                if self@.is_live(k, now) {
                    assert(self.store.as_map().contains_key(k));
                    let m = choose|m: int| 0 <= m < pairs.len() && #[trigger] pairs[m].0 == k;
                }
                if t.contains(k) {
                    let a = choose|a: int| 0 <= a < t.len() && t[a] == k;
                    assert(self@.is_live(t[a], now));
                }
            }
            assert(t.to_set() =~= self@.live_keys(now));
            assert(self@.reads(now));
        }
        out
    }

    /// The number of live entries.
    pub fn len(&self) -> (n: usize)
        requires
            self.wf(),
        ensures
            exists|now: u64| #[trigger] self@.reads(now) && n == self@.live_keys(now).len(),
    {
        let now = self.now();
        let ghost pairs = self.store.pairs();
        proof {
            self.store.lemma_wf();
        }
        let mut count: usize = 0;
        let mut i: usize = 0;
        let ghost mut seen: Seq<Seq<char>> = Seq::empty();
        while i < self.store.len()
            invariant
                self.wf(),
                pairs == self.store.pairs(),
                i <= pairs.len(),
                keys_unique(pairs),
                forall|m: int| 0 <= m < pairs.len() ==> #[trigger] self.store.as_map().contains_key(pairs[m].0) && self.store.as_map()[pairs[m].0] == pairs[m].1,
                count == seen.len(),
                count <= i,
                seen.no_duplicates(),
                forall|a: int, m: int|
                    0 <= a < seen.len() && i <= m < pairs.len() ==> #[trigger] seen[a]
                        != #[trigger] pairs[m].0,
                forall|a: int| 0 <= a < seen.len() ==> self@.is_live(#[trigger] seen[a], now),
                forall|m: int|
                    0 <= m < i && self@.is_live(#[trigger] pairs[m].0, now) ==> seen.contains(pairs[m].0),
            decreases pairs.len() - i,
        {
            let entry = self.store.value_at(i);
            if !entry.is_expired(now) {
                let ghost before = seen;
                count = count + 1;
                proof {
                    seen = before.push(pairs[i as int].0);
                    assert(self@.entries[pairs[i as int].0] == entry@);
                    assert forall|a: int, b: int|
                        0 <= a < seen.len() && 0 <= b < seen.len() && a != b implies seen[a] != seen[b] by {
                        if a < before.len() && b < before.len() {
                        } else if a < before.len() {
                            assert(before[a] != pairs[i as int].0);
                        } else {
                            assert(before[b] != pairs[i as int].0);
                        }
                    }
                    assert forall|a: int, m: int|
                        0 <= a < seen.len() && i + 1 <= m < pairs.len() implies #[trigger] seen[a]
                            != #[trigger] pairs[m].0 by {
                        if a < before.len() {
                            assert(before[a] != pairs[m].0);
                        } else {
                            assert(pairs[i as int].0 != pairs[m].0);
                        }
                    }
                    assert forall|m: int|
                        0 <= m < i + 1 && self@.is_live(#[trigger] pairs[m].0, now) implies seen.contains(pairs[m].0) by {
                        if m < i {
                            let a = choose|a: int| 0 <= a < before.len() && before[a] == pairs[m].0;
                            assert(seen[a] == before[a]);
                        } else {
                            assert(seen[before.len() as int] == pairs[m].0);
                        }
                    }
                    assert forall|a: int| 0 <= a < seen.len() implies self@.is_live(#[trigger] seen[a], now) by {
                        if a < before.len() {
                            assert(seen[a] == before[a]);
                        }
                    }
                }
            }
            i = i + 1;
        }
        proof {
            assert forall|k: Seq<char>| seen.to_set().contains(k) <==> self@.live_keys(now).contains(k) by {
                if self@.is_live(k, now) {
                    assert(self.store.as_map().contains_key(k));
                    let m = choose|m: int| 0 <= m < pairs.len() && #[trigger] pairs[m].0 == k;
                }
                if seen.contains(k) {
                    let a = choose|a: int| 0 <= a < seen.len() && seen[a] == k;
                    assert(self@.is_live(seen[a], now));
                }
            }
            assert(seen.to_set() =~= self@.live_keys(now));
            seen.unique_seq_to_set();
            assert(self@.reads(now));
        }
        count
    }

    /// Whether no entry is alive.
    pub fn is_empty(&self) -> (b: bool)
        requires
            self.wf(),
        ensures
            exists|now: u64| #[trigger] self@.reads(now) && b == (self@.live_keys(now).len() == 0),
    {
        self.len() == 0
    }

    /// A summary of the cache; the file path is left empty.
    pub fn info(&self) -> (info: StoreInfo)
        requires
            self.wf(),
        ensures
            exists|now: u64|
                #[trigger] self@.reads(now) && info.key_count == self@.live_keys(now).len(),
            info.total_entries == self@.entries.len(),
            info.capacity == self@.capacity,
            info.file_path@ == Seq::<char>::empty(),
    {
        proof {
            self.lemma_parts_from_wf();
            self.store.lemma_wf();
            assert(self@.entries.dom() =~= self.store.as_map().dom());
        }
        StoreInfo {
            key_count: self.len(),
            total_entries: self.store.len(),
            capacity: self.max_capacity,
            file_path: String::new(),
        }
    }
}

impl Default for Cache {
    /// The same as `Cache::new`.
    fn default() -> (c: Self)
        ensures
            c.wf(),
            c@.entries == Map::<Seq<char>, EntryView>::empty(),
            c@.recency == Seq::<Seq<char>>::empty(),
            c@.clock is None,
            c@.capacity is None,
    {
        Self::new()
    }
}

/// Taking a key that occurs once out of a list shortens it by one.
proof fn lemma_len_without(s: Seq<Seq<char>>, k: Seq<char>)
    requires
        s.no_duplicates(),
        s.contains(k),
    ensures
        without_key(s, k).len() == s.len() - 1,
{
    lemma_without_key(s, k);
    let p = choose|p: int| 0 <= p < s.len() && s[p] == k;
    assert(without_key(s, k) == s.remove(p));
}

} // verus!
