//! The database: a cache bound to the file it is saved to, with text values
//! encoded by bincode.

use vstd::prelude::*;
use crate::cache::{Cache, CacheView, pairs_view, texts};
use crate::codec::{decode_failure, encode_text, decode_text, decode_pairs, bincode_read_text, bincode_text, decodes_to, decodes_pairs, some_undecodable, text_pairs};
use crate::error::{Error, not_found};
use crate::keymap::{keys_unique, pairs_map};
use crate::transaction::{Transaction, OpView};
use crate::types::{Entry, EntryView, Store, StoreInfo, expired_at};

verus! {

/// The lifetime left at `now` of an entry that expires at `expires_at`.
pub open spec fn remaining(expires_at: Option<u64>, now: u64) -> Option<u64> {
    match expires_at {
        Some(t) => Some((t - now) as u64),
        None => None,
    }
}

/// The cache after the saved entries were written into `c` in order, the
/// i-th at `times[i]`; entries expired at `now` are skipped, the others keep
/// the lifetime they had left at `now`.
pub open spec fn restore(
    c: CacheView,
    saved: Seq<(Seq<char>, EntryView)>,
    now: u64,
    times: Seq<u64>,
) -> CacheView
    decreases saved.len(),
{
    if saved.len() == 0 {
        c
    } else {
        let c1 = restore(c, saved.drop_last(), now, times.drop_last());
        let (k, e) = saved.last();
        if expired_at(e.expires_at, now) {
            c1
        } else {
            c1.after_put(k, e.value, remaining(e.expires_at, now), times.last())
        }
    }
}

/// Saved entries taken by their views.
pub open spec fn saved_view(saved: Seq<(String, Entry)>) -> Seq<(Seq<char>, EntryView)> {
    saved.map_values(|p: (String, Entry)| (p.0@, p.1@))
}

/// A cache with nothing stored, no capacity bound, that reads the system
/// clock.
pub open spec fn empty_cache() -> CacheView {
    CacheView {
        entries: Map::empty(),
        recency: Seq::empty(),
        clock: None,
        capacity: None,
    }
}

/// The database as a mathematical value.
pub struct KvStoreView {
    pub cache: CacheView,
    pub path: Seq<char>,
}

/// A key-value database saved to a file.
pub struct KvStore {
    cache: Cache,
    path: String,
}

impl View for KvStore {
    type V = KvStoreView;

    closed spec fn view(&self) -> KvStoreView {
        KvStoreView { cache: self.cache@, path: self.path@ }
    }
}

impl KvStore {
    /// The cache is well formed.
    pub closed spec fn wf(&self) -> bool {
        self.cache.wf()
    }

    /// Facts that a well-formed database gives: its model is well formed,
    /// every stored key is named once in the recency order, and the capacity
    /// bound holds.
    pub proof fn lemma_wf(&self)
        requires
            self.wf(),
        ensures
            self@.cache.wf(),
            self@.cache.entries.dom().finite(),
            self@.cache.entries.len() == self@.cache.recency.len(),
    {
        self.cache.lemma_wf();
    }

    /// An empty database that will be saved to `path`.
    pub fn new(path: &str) -> (r: Result<Self, Error>)
        ensures
            r matches Ok(db) && db.wf() && db@ == (KvStoreView { cache: empty_cache(), path: path@ }),
    {
        let cache = Cache::new();
        let db = KvStore { cache, path: path.to_owned() };
        assert(db@.cache == empty_cache());
        Ok(db)
    }

    /// The database for `path`, holding the entries saved there that have
    /// not expired, each with the lifetime it had left.
    pub fn open(path: &str, saved: Vec<(String, Entry)>) -> (r: Result<Self, Error>)
        ensures
            r matches Ok(db) && db.wf() && db@.path == path@ && exists|now: u64, times: Seq<u64>|
                #![trigger restore(empty_cache(), saved_view(saved@), now, times)]
                times.len() == saved@.len() && db@.cache == restore(
                    empty_cache(),
                    saved_view(saved@),
                    now,
                    times,
                ),
    {
        let mut cache = Cache::new();
        let now = cache.now();
        let ghost sv = saved_view(saved@);
        let ghost mut times: Seq<u64> = Seq::empty();
        let mut i: usize = 0;
        assert(cache@ == empty_cache());
        while i < saved.len()
            invariant
                i <= saved.len(),
                sv == saved_view(saved@),
                cache.wf(),
                cache@.clock is None,
                times.len() == i,
                cache@ == restore(empty_cache(), sv.take(i as int), now, times),
            decreases saved.len() - i,
        {
            proof {
                assert(sv.take(i + 1).drop_last() =~= sv.take(i as int));
                assert(sv.take(i + 1).last() == sv[i as int]);
            }
            let key = &saved[i].0;
            let entry = &saved[i].1;
            if !entry.is_expired(now) {
                let ttl = match entry.expires_at {
                    Some(t) => Some(t - now),
                    None => None,
                };
                let v = entry.value.clone();
                assert(v@ =~= entry.value@);
                let ghost before = cache@;
                cache.put(key.clone(), v, ttl);
                proof {
                    let t = choose|t: u64| #[trigger] before.reads(t) && cache@ == before.after_put(key@, entry.value@, ttl, t);
                    assert(times.push(t).drop_last() =~= times);
                    times = times.push(t);
                }
            } else {
                proof {
                    assert(times.push(now).drop_last() =~= times);
                    times = times.push(now);
                }
            }
            i = i + 1;
        }
        assert(sv.take(saved@.len() as int) =~= sv);
        let db = KvStore { cache, path: path.to_owned() };
        Ok(db)
    }

    /// Writes `data`, an encoded value, under `key`, to live `ttl` seconds if
    /// given.
    pub fn put_bytes(&mut self, key: &str, data: Vec<u8>, ttl: Option<u64>)
        requires
            old(self).wf(),
        ensures
            final(self).wf(),
            final(self)@.path == old(self)@.path,
            exists|now: u64|
                #[trigger] old(self)@.cache.reads(now) && final(self)@.cache == old(
                    self,
                )@.cache.after_put(key@, data@, ttl, now),
    {
        self.cache.put(key.to_owned(), data, ttl);
    }

    /// Writes the text `value` under `key`, to live `ttl` seconds if given.
    pub fn put(&mut self, key: &str, value: &str, ttl: Option<u64>) -> (r: Result<(), Error>)
        requires
            old(self).wf(),
        ensures
            final(self).wf(),
            final(self)@.path == old(self)@.path,
            r is Ok,
            bincode_read_text(bincode_text(value@)) == Some(value@),
            exists|now: u64|
                #[trigger] old(self)@.cache.reads(now) && final(self)@.cache == old(
                    self,
                )@.cache.after_put(key@, bincode_text(value@), ttl, now),
    {
        let data = encode_text(value)?;
        self.put_bytes(key, data, ttl);
        Ok(())
    }

    /// The encoded value stored under `key`, if it is alive.
    pub fn get_bytes(&self, key: &str) -> (r: Result<Vec<u8>, Error>)
        requires
            self.wf(),
        ensures
            exists|now: u64|
                #[trigger] self@.cache.reads(now) && match r {
                    Ok(v) => self@.cache.lookup(key@, now) == Some(v@),
                    Err(e) => self@.cache.lookup(key@, now) is None && not_found(e, key@),
                },
    {
        self.cache.get(key)
    }

    /// The text stored under `key`, if it is alive.
    pub fn get(&self, key: &str) -> (r: Result<String, Error>)
        requires
            self.wf(),
        ensures
            exists|now: u64|
                #[trigger] self@.cache.reads(now) && match self@.cache.lookup(key@, now) {
                    Some(b) => decodes_to(r, b),
                    None => r is Err && not_found(r->Err_0, key@),
                },
    {
        let data = self.cache.get(key)?;
        decode_text(data.as_slice())
    }

    /// Deletes `key`, alive or expired.
    pub fn delete(&mut self, key: &str) -> (r: Result<(), Error>)
        requires
            old(self).wf(),
        ensures
            final(self).wf(),
            final(self)@.path == old(self)@.path,
            old(self)@.cache.entries.contains_key(key@) ==> r is Ok && final(self)@.cache == old(
                self,
            )@.cache.after_delete(key@),
            !old(self)@.cache.entries.contains_key(key@) ==> final(self)@ == old(self)@ && r is Err
                && not_found(r->Err_0, key@),
    {
        self.cache.delete(key)
    }

    /// The live entries with their encoded values, in no particular order.
    pub fn list_bytes(&self) -> (r: Vec<(String, Vec<u8>)>)
        requires
            self.wf(),
        ensures
            exists|now: u64|
                #[trigger] self@.cache.reads(now) && keys_unique(pairs_view(r@)) && pairs_map(
                    pairs_view(r@),
                ) == self@.cache.live_values(now),
    {
        self.cache.list()
    }

    /// The live entries with their values as text, in no particular order;
    /// fails when a value does not hold a text.
    pub fn list(&self) -> (r: Result<Vec<(String, String)>, Error>)
        requires
            self.wf(),
        ensures
            exists|now: u64, raw: Seq<(Seq<char>, Seq<u8>)>|
                #![trigger self@.cache.reads(now), pairs_map(raw)]
                self@.cache.reads(now) && keys_unique(raw) && pairs_map(raw)
                    == self@.cache.live_values(now) && match r {
                    Ok(out) => decodes_pairs(text_pairs(out@), raw),
                    Err(e) => decode_failure(e) && some_undecodable(raw),
                },
    {
        let items = self.cache.list();
        decode_pairs(&items)
    }

    /// Sets the entry of `key`, alive or expired, to expire `ttl` seconds
    /// from now.
    pub fn expire(&mut self, key: &str, ttl: u64) -> (r: Result<(), Error>)
        requires
            old(self).wf(),
        ensures
            final(self).wf(),
            final(self)@.path == old(self)@.path,
            old(self)@.cache.entries.contains_key(key@) ==> r is Ok && exists|now: u64|
                #[trigger] old(self)@.cache.reads(now) && final(self)@.cache == old(
                    self,
                )@.cache.after_expire(key@, ttl, now),
            !old(self)@.cache.entries.contains_key(key@) ==> final(self)@ == old(self)@ && r is Err
                && not_found(r->Err_0, key@),
    {
        self.cache.expire(key, ttl)
    }

    /// Whether `key` is stored and alive.
    pub fn contains_key(&self, key: &str) -> (b: bool)
        requires
            self.wf(),
        ensures
            exists|now: u64| #[trigger] self@.cache.reads(now) && b == self@.cache.is_live(key@, now),
    {
        self.cache.contains_key(key)
    }

    /// Removes every expired entry; gives back how many were removed.
    pub fn cleanup(&mut self) -> (r: Result<usize, Error>)
        requires
            old(self).wf(),
        ensures
            final(self).wf(),
            final(self)@.path == old(self)@.path,
            r matches Ok(n) && n == old(self)@.cache.entries.len() - final(self)@.cache.entries.len(),
            exists|now: u64|
                #[trigger] old(self)@.cache.reads(now) && final(self)@.cache == old(
                    self,
                )@.cache.after_cleanup(now),
    {
        Ok(self.cache.cleanup())
    }

    /// Starts a transaction; the database is held until it ends.
    pub fn begin(&mut self) -> (t: Transaction<'_>)
        requires
            old(self).wf(),
        ensures
            t.wf(),
            t.base() == old(self)@.cache,
            t.ops_view() == Seq::<OpView>::empty(),
            final(self)@ == (KvStoreView { cache: final(t.guard)@, path: old(self)@.path }),
            final(self).wf() == final(t.guard).wf(),
    {
        Transaction::new(&mut self.cache)
    }

    /// Sets the capacity bound, evicting the least recently written keys
    /// beyond it; gives back how many were evicted.
    pub fn set_capacity(&mut self, cap: Option<usize>) -> (r: Result<usize, Error>)
        requires
            old(self).wf(),
        ensures
            final(self).wf(),
            final(self)@.path == old(self)@.path,
            final(self)@.cache == old(self)@.cache.after_set_capacity(cap),
            r matches Ok(n) && n == old(self)@.cache.entries.len() - final(self)@.cache.entries.len(),
    {
        Ok(self.cache.set_capacity(cap))
    }

    /// The capacity bound, if any.
    pub fn get_capacity(&self) -> (r: Result<Option<usize>, Error>)
        ensures
            r matches Ok(c) && c == self@.cache.capacity,
    {
        Ok(self.cache.get_capacity())
    }

    /// The keys of the live entries, in no particular order.
    pub fn keys(&self) -> (r: Result<Vec<String>, Error>)
        requires
            self.wf(),
        ensures
            r matches Ok(ks) && exists|now: u64|
                #[trigger] self@.cache.reads(now) && texts(ks@).no_duplicates() && texts(
                    ks@,
                ).to_set() == self@.cache.live_keys(now),
    {
        Ok(self.cache.keys())
    }

    /// The number of live entries.
    pub fn len(&self) -> (r: Result<usize, Error>)
        requires
            self.wf(),
        ensures
            r matches Ok(n) && exists|now: u64|
                #[trigger] self@.cache.reads(now) && n == self@.cache.live_keys(now).len(),
    {
        Ok(self.cache.len())
    }

    /// Whether no entry is alive.
    pub fn is_empty(&self) -> (r: Result<bool, Error>)
        requires
            self.wf(),
        ensures
            r matches Ok(b) && exists|now: u64|
                #[trigger] self@.cache.reads(now) && b == (self@.cache.live_keys(now).len() == 0),
    {
        Ok(self.cache.is_empty())
    }

    /// A summary of the database.
    pub fn info(&self) -> (r: Result<StoreInfo, Error>)
        requires
            self.wf(),
        ensures
            r matches Ok(info) && info.total_entries == self@.cache.entries.len() && info.capacity
                == self@.cache.capacity && info.file_path@ == self@.path && exists|now: u64|
                #[trigger] self@.cache.reads(now) && info.key_count == self@.cache.live_keys(
                    now,
                ).len(),
    {
        let mut info = self.cache.info();
        info.file_path = self.path.clone();
        Ok(info)
    }

    /// The file the database is saved to.
    pub fn path(&self) -> (p: &str)
        ensures
            p@ == self@.path,
    {
        self.path.as_str()
    }

    /// All stored entries, alive or expired, as they are saved.
    pub fn store(&self) -> (s: &Store)
        requires
            self.wf(),
        ensures
            s.wf(),
            s.as_map().map_values(|e: Entry| e@) == self@.cache.entries,
    {
        self.cache.store()
    }
}

} // verus!
