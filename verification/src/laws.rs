//! Properties of the store as a whole, stated over the model that the
//! operations' contracts use.

use vstd::prelude::*;
use crate::cache::{CacheView, trim};
use crate::codec::{bincode_read_text, bincode_text};
use crate::db::{restore, empty_cache, remaining};
use crate::keymap::{keys_unique, has_key, pairs_map, lemma_pairs_map_push};
use crate::lru::{without_key, lemma_without_key};
use crate::transaction::{OpView, op_keys_unique, record, pending, overlay, apply_op, apply_ops, lemma_record, lemma_pending_at};
use crate::types::{EntryView, expired_at, expiry};

verus! {

/// A value written with a capacity that admits at least one entry is read
/// back at the same time, whatever its lifetime.
pub proof fn law_read_after_write(
    c: CacheView,
    k: Seq<char>,
    value: Seq<u8>,
    ttl: Option<u64>,
    now: u64,
)
    requires
        c.wf(),
        c.capacity != Some(0usize),
    ensures
        c.after_put(k, value, ttl, now).lookup(k, now) == Some(value),
{
    let rec = seq![k] + without_key(c.recency, k);
    let kept = trim(rec, c.capacity);
    assert(kept[0] == k);
    assert(kept.to_set().contains(k));
}

/// A value written with a capacity that admits at least one entry is read
/// back at every later time within its lifetime, and at no time after it.
pub proof fn law_read_within_lifetime(
    c: CacheView,
    k: Seq<char>,
    value: Seq<u8>,
    ttl: Option<u64>,
    now: u64,
    later: u64,
)
    requires
        c.wf(),
        c.capacity != Some(0usize),
    ensures
        c.after_put(k, value, ttl, now).lookup(k, later) == if expired_at(expiry(now, ttl), later) {
            None::<Seq<u8>>
        } else {
            Some(value)
        },
{
    law_read_after_write(c, k, value, ttl, now);
}

/// A write keeps the model well formed: every key is tracked once, and the
/// number of entries stays within the capacity.
pub proof fn law_write_keeps_capacity(
    c: CacheView,
    k: Seq<char>,
    value: Seq<u8>,
    ttl: Option<u64>,
    now: u64,
)
    requires
        c.wf(),
    ensures
        c.after_put(k, value, ttl, now).wf(),
        c.after_put(k, value, ttl, now).entries.dom().finite(),
        c.capacity matches Some(cap) ==> c.after_put(k, value, ttl, now).entries.len() <= cap,
{
    lemma_without_key(c.recency, k);
    let w = without_key(c.recency, k);
    let rec = seq![k] + w;
    let kept = trim(rec, c.capacity);
    assert(rec.no_duplicates()) by {
        assert forall|i: int, j: int| 0 <= i < rec.len() && 0 <= j < rec.len() && i != j implies rec[i] != rec[j] by {
            if i > 0 {
                assert(rec[i] == w[i - 1]);
                assert(w.contains(w[i - 1]));
            }
            if j > 0 {
                assert(rec[j] == w[j - 1]);
                assert(w.contains(w[j - 1]));
            }
        }
    }
    assert(kept.no_duplicates()) by {
        assert forall|i: int, j: int| 0 <= i < kept.len() && 0 <= j < kept.len() && i != j implies kept[i] != kept[j] by {
            assert(kept[i] == rec[i] && kept[j] == rec[j]);
        }
    }
    let r = c.after_put(k, value, ttl, now);
    assert forall|x: Seq<char>| kept.to_set().contains(x) implies c.entries.insert(k, r.entries[x]).dom().contains(x) by {
        let i = choose|i: int| 0 <= i < kept.len() && kept[i] == x;
        assert(rec[i] == x);
        if i > 0 && x != k {
            assert(w[i - 1] == x);
            assert(w.contains(x));
            assert(c.recency.to_set().contains(x));
        }
    }
    assert(r.entries.dom() =~= kept.to_set());
    kept.unique_seq_to_set();
}

/// Writing a new key into a full cache evicts exactly the key written
/// longest ago.
pub proof fn law_eviction_takes_oldest(
    c: CacheView,
    k: Seq<char>,
    value: Seq<u8>,
    ttl: Option<u64>,
    now: u64,
)
    requires
        c.wf(),
        c.capacity matches Some(cap) && cap > 0 && c.recency.len() == cap,
        !c.entries.contains_key(k),
    ensures
        c.after_put(k, value, ttl, now).entries.dom() == c.entries.dom().insert(k).remove(
            c.recency.last(),
        ),
        c.after_put(k, value, ttl, now).recency == seq![k] + c.recency.drop_last(),
{
    lemma_without_key(c.recency, k);
    assert(!c.recency.contains(k)) by {
        if c.recency.contains(k) {
            assert(c.recency.to_set().contains(k));
        }
    }
    let rec = seq![k] + c.recency;
    let cap = c.capacity->0;
    assert(trim(rec, c.capacity) =~= seq![k] + c.recency.drop_last());
    let kept = seq![k] + c.recency.drop_last();
    let last = c.recency.last();
    assert forall|x: Seq<char>| kept.to_set().contains(x) <==> c.entries.dom().insert(k).remove(last).contains(x) by {
        if kept.contains(x) && x != k {
            let i = choose|i: int| 0 <= i < kept.len() && kept[i] == x;
            assert(c.recency[i - 1] == x);
            assert(c.recency.to_set().contains(x));
            assert(i - 1 != c.recency.len() - 1);
        }
        if c.entries.dom().contains(x) && x != last && x != k {
            assert(c.recency.to_set().contains(x));
            let j = choose|j: int| 0 <= j < c.recency.len() && c.recency[j] == x;
            assert(j != c.recency.len() - 1);
            assert(kept[j + 1] == x);
        }
        if x == k {
            assert(kept[0] == k);
        }
    }
    assert(c.after_put(k, value, ttl, now).entries.dom() =~= c.entries.dom().insert(k).remove(last));
}

/// A write leaves every other key that stays stored as it was.
pub proof fn law_write_leaves_others(
    c: CacheView,
    k: Seq<char>,
    value: Seq<u8>,
    ttl: Option<u64>,
    now: u64,
    other: Seq<char>,
    at: u64,
)
    requires
        other != k,
        c.after_put(k, value, ttl, now).entries.contains_key(other),
    ensures
        c.after_put(k, value, ttl, now).lookup(other, at) == c.lookup(other, at),
{
}

/// After a delete, the key is not found.
pub proof fn law_delete_then_read(c: CacheView, k: Seq<char>, now: u64)
    ensures
        c.after_delete(k).lookup(k, now) is None,
{
}

/// An entry written with a lifetime of `ttl` seconds is found up to and
/// including the second at which the lifetime ends, and not after.
pub proof fn law_lifetime(
    c: CacheView,
    k: Seq<char>,
    value: Seq<u8>,
    ttl: u64,
    now: u64,
    later: u64,
)
    requires
        c.wf(),
        c.capacity != Some(0usize),
        now + ttl <= u64::MAX,
    ensures
        c.after_put(k, value, Some(ttl), now).lookup(k, later) == if later <= now + ttl {
            Some(value)
        } else {
            None::<Seq<u8>>
        },
{
    law_read_after_write(c, k, value, Some(ttl), now);
}

/// Setting a lifetime on a stored key makes it unreadable once the lifetime
/// is over.
pub proof fn law_expire_then_read(c: CacheView, k: Seq<char>, ttl: u64, now: u64, later: u64)
    requires
        c.entries.contains_key(k),
        now + ttl < later,
    ensures
        c.after_expire(k, ttl, now).lookup(k, later) is None,
        c.after_expire(k, ttl, now).lookup(k, now) == Some(c.entries[k].value),
{
}

/// A cleanup removes exactly the expired entries: what reads find at that
/// time does not change, and every remaining entry is alive.
pub proof fn law_cleanup_keeps_reads(c: CacheView, now: u64, k: Seq<char>)
    requires
        c.wf(),
    ensures
        c.after_cleanup(now).lookup(k, now) == c.lookup(k, now),
        c.after_cleanup(now).entries.contains_key(k) ==> c.after_cleanup(now).is_live(k, now),
{
    let live = |x: Seq<char>| c.is_live(x, now);
    crate::lru::lemma_filter_members(c.recency, live);
    assert(c.recency.filter(live).to_set().contains(k) <==> c.recency.filter(live).contains(k));
    assert(c.recency.contains(k) <==> c.recency.to_set().contains(k));
}

/// Shrinking the capacity keeps the most recently written keys.
pub proof fn law_shrink_keeps_recent(c: CacheView, cap: usize)
    requires
        c.wf(),
        c.recency.len() > cap,
    ensures
        c.after_set_capacity(Some(cap)).recency == c.recency.take(cap as int),
        c.after_set_capacity(Some(cap)).wf(),
{
    let kept = c.recency.take(cap as int);
    assert(kept.no_duplicates()) by {
        assert forall|i: int, j: int| 0 <= i < kept.len() && 0 <= j < kept.len() && i != j implies kept[i] != kept[j] by {
            assert(kept[i] == c.recency[i] && kept[j] == c.recency[j]);
        }
    }
    assert forall|x: Seq<char>| kept.to_set().contains(x) implies c.entries.dom().contains(x) by {
        let i = choose|i: int| 0 <= i < kept.len() && kept[i] == x;
        assert(c.recency[i] == x);
        assert(c.recency.to_set().contains(x));
    }
    assert(c.after_set_capacity(Some(cap)).entries.dom() =~= kept.to_set());
}


/// A text written through the database is read back as the same text at the
/// same time, when the capacity admits at least one entry: the bytes that
/// the write stores are bytes that decode to the text.
pub proof fn law_text_read_after_write(
    c: CacheView,
    k: Seq<char>,
    text: Seq<char>,
    bytes: Seq<u8>,
    ttl: Option<u64>,
    now: u64,
)
    requires
        c.wf(),
        c.capacity != Some(0usize),
        bincode_read_text(bytes) == Some(text),
    ensures
        c.after_put(k, bytes, ttl, now).lookup(k, now) matches Some(b) && bincode_read_text(b)
            == Some(text),
{
    law_read_after_write(c, k, bytes, ttl, now);
}

/// Deleting a key keeps the model well formed.
pub proof fn law_delete_keeps_wf(c: CacheView, k: Seq<char>)
    requires
        c.wf(),
        c.entries.contains_key(k),
    ensures
        c.after_delete(k).wf(),
{
    lemma_without_key(c.recency, k);
    let r = c.after_delete(k);
    assert forall|x: Seq<char>| r.recency.to_set().contains(x) <==> r.entries.dom().contains(x) by {
        if x != k {
            assert(r.recency.contains(x) <==> c.recency.contains(x));
            assert(c.recency.contains(x) <==> c.recency.to_set().contains(x));
        }
    }
    assert(r.entries.dom() =~= r.recency.to_set());
    assert(c.recency.contains(k)) by {
        assert(c.recency.to_set().contains(k));
    }
    let p = choose|p: int| 0 <= p < c.recency.len() && c.recency[p] == k;
    assert(without_key(c.recency, k) == c.recency.remove(p));
}

/// Every write of a transaction keeps the model well formed.
pub proof fn law_apply_op_keeps_wf(c: CacheView, op: OpView, now: u64)
    requires
        c.wf(),
    ensures
        apply_op(c, op, now) matches Some(c2) ==> c2.wf(),
{
    match op {
        OpView::Put { key, value, ttl } => {
            law_write_keeps_capacity(c, key, value, ttl, now);
        },
        OpView::Delete { key } => {
            if c.entries.contains_key(key) {
                law_delete_keeps_wf(c, key);
            }
        },
        OpView::Expire { key, ttl } => {
            if c.entries.contains_key(key) {
                let r = c.after_expire(key, ttl, now);
                assert(r.entries.dom() =~= c.entries.dom());
            }
        },
    }
}

/// Applying the writes of a transaction keeps the model well formed.
pub proof fn law_apply_ops_keeps_wf(c: CacheView, ops: Seq<OpView>, times: Seq<u64>)
    requires
        c.wf(),
    ensures
        apply_ops(c, ops, times).0.wf(),
    decreases ops.len(),
{
    if ops.len() > 0 {
        law_apply_ops_keeps_wf(c, ops.drop_last(), times.drop_last());
        let c1 = apply_ops(c, ops.drop_last(), times.drop_last()).0;
        law_apply_op_keeps_wf(c1, ops.last(), times.last());
    }
}

/// Read your writes: after a write is buffered, reads in the transaction
/// see it for its key, and see the other keys as before.
pub proof fn law_read_your_writes(ops: Seq<OpView>, op: OpView, k: Seq<char>)
    requires
        op_keys_unique(ops),
    ensures
        pending(record(ops, op), op.key()) == Some(op),
        k != op.key() ==> pending(record(ops, op), k) == pending(ops, k),
{
    lemma_record(ops, op);
}

/// A listing inside a transaction shows a buffered write of `k` and hides a
/// buffered delete of `k`.
pub proof fn law_listing_shows_writes(m: Map<Seq<char>, Seq<u8>>, ops: Seq<OpView>, op: OpView)
    ensures
        op matches OpView::Put { key, value, .. } ==> overlay(m, record(ops, op)).contains_key(key)
            && overlay(m, record(ops, op))[key] == value,
        op matches OpView::Delete { key } ==> !overlay(m, record(ops, op)).contains_key(key),
{
    let r = record(ops, op);
    assert(r.drop_last() == ops.filter(crate::transaction::for_other_key(op.key())));
    assert(r.last() == op);
}

/// A transaction that sets no lifetime commits in full.
pub proof fn law_commit_without_expire_succeeds(c: CacheView, ops: Seq<OpView>, times: Seq<u64>)
    requires
        forall|i: int| 0 <= i < ops.len() ==> !(#[trigger] ops[i] is Expire),
    ensures
        apply_ops(c, ops, times).1,
    decreases ops.len(),
{
    if ops.len() > 0 {
        assert forall|i: int| 0 <= i < ops.drop_last().len() implies !(#[trigger] ops.drop_last()[i] is Expire) by {
            assert(ops.drop_last()[i] == ops[i]);
        }
        law_commit_without_expire_succeeds(c, ops.drop_last(), times.drop_last());
        assert(!(ops[ops.len() - 1] is Expire));
    }
}

/// Writes to other keys leave an unbounded cache's entry for `k` as it is.
proof fn lemma_other_op_keeps(c: CacheView, op: OpView, now: u64, k: Seq<char>)
    requires
        c.wf(),
        c.capacity is None,
        op.key() != k,
        apply_op(c, op, now) is Some,
    ensures
        apply_op(c, op, now)->0.entries.contains_key(k) == c.entries.contains_key(k),
        c.entries.contains_key(k) ==> apply_op(c, op, now)->0.entries[k] == c.entries[k],
        apply_op(c, op, now)->0.capacity is None,
{
    match op {
        OpView::Put { key, value, ttl } => {
            lemma_without_key(c.recency, key);
            let rec = seq![key] + without_key(c.recency, key);
            if c.entries.contains_key(k) {
                assert(c.recency.to_set().contains(k));
                assert(without_key(c.recency, key).contains(k));
                let j = choose|j: int| 0 <= j < without_key(c.recency, key).len() && without_key(c.recency, key)[j] == k;
                assert(rec[j + 1] == k);
                assert(rec.to_set().contains(k));
            }
        },
        _ => {},
    }
}

/// Committing a transaction publishes its writes: in a cache without a
/// capacity bound, a key whose buffered write is a put without lifetime
/// holds the written value after a successful commit, and a key whose
/// buffered write is a delete is gone.
pub proof fn law_commit_publishes(
    c: CacheView,
    ops: Seq<OpView>,
    times: Seq<u64>,
    k: Seq<char>,
    at: u64,
)
    requires
        c.wf(),
        c.capacity is None,
        op_keys_unique(ops),
        times.len() == ops.len(),
        apply_ops(c, ops, times).1,
    ensures
        pending(ops, k) matches Some(OpView::Put { value, ttl: None, .. }) ==> apply_ops(
            c,
            ops,
            times,
        ).0.lookup(k, at) == Some(value),
        pending(ops, k) matches Some(OpView::Delete { .. }) ==> !apply_ops(
            c,
            ops,
            times,
        ).0.entries.contains_key(k),
    decreases ops.len(),
{
    if ops.len() > 0 {
        let d = ops.drop_last();
        let td = times.drop_last();
        assert(op_keys_unique(d)) by {
            assert forall|i: int, j: int| 0 <= i < d.len() && 0 <= j < d.len() && i != j implies #[trigger] d[i].key() != #[trigger] d[j].key() by {
                assert(d[i] == ops[i] && d[j] == ops[j]);
            }
        }
        let (c1, ok1) = apply_ops(c, d, td);
        law_apply_ops_keeps_wf(c, d, td);
        lemma_capacity_kept(c, d, td);
        let last = ops.last();
        assert(ok1);
        if last.key() == k {
            let n = ops.len() - 1;
            assert(ops[n] == last);
            assert(pending(ops, k) == Some(last)) by {
                assert(exists|i: int| 0 <= i < ops.len() && #[trigger] ops[i].key() == k);
                let i = choose|i: int| 0 <= i < ops.len() && #[trigger] ops[i].key() == k;
                assert(i == n);
            }
            match last {
                OpView::Put { key, value, ttl } => {
                    if ttl is None {
                        let rec = seq![key] + without_key(c1.recency, key);
                        assert(rec[0] == key);
                        assert(rec.to_set().contains(key));
                    }
                },
                _ => {},
            }
        } else {
            law_commit_publishes(c, d, td, k, at);
            lemma_other_op_keeps(c1, last, times.last(), k);
            assert(pending(ops, k) == pending(d, k)) by {
                if exists|i: int| 0 <= i < ops.len() && #[trigger] ops[i].key() == k {
                    let i = choose|i: int| 0 <= i < ops.len() && #[trigger] ops[i].key() == k;
                    assert(i != ops.len() - 1);
                    assert(d[i] == ops[i]);
                    assert(exists|j: int| 0 <= j < d.len() && #[trigger] d[j].key() == k);
                    let j = choose|j: int| 0 <= j < d.len() && #[trigger] d[j].key() == k;
                    assert(ops[j] == d[j]);
                } else {
                    if exists|j: int| 0 <= j < d.len() && #[trigger] d[j].key() == k {
                        let j = choose|j: int| 0 <= j < d.len() && #[trigger] d[j].key() == k;
                        assert(ops[j] == d[j]);
                    }
                }
            }
        }
    }
}

/// The writes of a transaction keep the capacity setting.
proof fn lemma_capacity_kept(c: CacheView, ops: Seq<OpView>, times: Seq<u64>)
    ensures
        apply_ops(c, ops, times).0.capacity == c.capacity,
    decreases ops.len(),
{
    if ops.len() > 0 {
        lemma_capacity_kept(c, ops.drop_last(), times.drop_last());
    }
}

/// The value a saved entry holds in the map of saved entries.
pub open spec fn saved_lookup(saved: Seq<(Seq<char>, EntryView)>, k: Seq<char>, now: u64) -> Option<Seq<u8>> {
    if has_key(saved, k) && !expired_at(pairs_map(saved)[k].expires_at, now) {
        Some(pairs_map(saved)[k].value)
    } else {
        None
    }
}

/// What was saved is what an opened database reads: restoring saved entries
/// with distinct keys, all at the time `now`, gives back at `now` the value
/// of every entry alive then, and nothing else.
pub proof fn law_restore_keeps_live_entries(
    saved: Seq<(Seq<char>, EntryView)>,
    now: u64,
    times: Seq<u64>,
    k: Seq<char>,
)
    requires
        keys_unique(saved),
        times.len() == saved.len(),
        forall|i: int| 0 <= i < times.len() ==> #[trigger] times[i] == now,
    ensures
        restore(empty_cache(), saved, now, times).lookup(k, now) == saved_lookup(saved, k, now),
    decreases saved.len(),
{
    lemma_restore_wf(saved, now, times);
    if saved.len() > 0 {
        let d = saved.drop_last();
        let td = times.drop_last();
        assert(keys_unique(d)) by {
            assert forall|i: int, j: int| 0 <= i < d.len() && 0 <= j < d.len() && i != j implies #[trigger] d[i].0 != #[trigger] d[j].0 by {
                assert(d[i] == saved[i] && d[j] == saved[j]);
            }
        }
        assert forall|i: int| 0 <= i < td.len() implies #[trigger] td[i] == now by {
            assert(td[i] == times[i]);
        }
        law_restore_keeps_live_entries(d, now, td, k);
        lemma_restore_wf(d, now, td);
        let (lk, le) = saved.last();
        let n = saved.len() - 1;
        assert(saved[n] == (lk, le));
        assert(!has_key(d, lk)) by {
            if has_key(d, lk) {
                let i = choose|i: int| 0 <= i < d.len() && #[trigger] d[i].0 == lk;
                assert(saved[i].0 == saved[n].0);
            }
        }
        lemma_pairs_map_push(d, lk, le);
        assert(saved =~= d.push((lk, le)));
        let c1 = restore(empty_cache(), d, now, td);
        assert(times.last() == now) by {
            assert(times[n] == now);
        }
        if !expired_at(le.expires_at, now) {
            if k == lk {
                law_read_after_write(c1, lk, le.value, remaining(le.expires_at, now), now);
            } else {
                lemma_without_key(c1.recency, lk);
                let rec = seq![lk] + without_key(c1.recency, lk);
                if c1.entries.contains_key(k) {
                    assert(c1.recency.to_set().contains(k));
                    assert(without_key(c1.recency, lk).contains(k));
                    let j = choose|j: int| 0 <= j < without_key(c1.recency, lk).len() && without_key(c1.recency, lk)[j] == k;
                    assert(rec[j + 1] == k);
                    assert(rec.to_set().contains(k));
                }
            }
        } else {
            if k == lk {
                assert(!c1.entries.contains_key(lk)) by {
                    assert(c1.lookup(lk, now) is None);
                    if c1.entries.contains_key(lk) {
                        lemma_restore_entries(d, now, td, lk);
                    }
                }
            }
        }
    }
}

/// Restoring keeps the model well formed, without a capacity bound.
proof fn lemma_restore_wf(saved: Seq<(Seq<char>, EntryView)>, now: u64, times: Seq<u64>)
    ensures
        restore(empty_cache(), saved, now, times).wf(),
        restore(empty_cache(), saved, now, times).capacity is None,
    decreases saved.len(),
{
    if saved.len() == 0 {
        assert(empty_cache().entries.dom() =~= empty_cache().recency.to_set());
    } else {
        lemma_restore_wf(saved.drop_last(), now, times.drop_last());
        let c1 = restore(empty_cache(), saved.drop_last(), now, times.drop_last());
        let (k, e) = saved.last();
        if !expired_at(e.expires_at, now) {
            law_write_keeps_capacity(c1, k, e.value, remaining(e.expires_at, now), times.last());
        }
    }
}

/// Every key stored after restoring is a saved key.
proof fn lemma_restore_entries(saved: Seq<(Seq<char>, EntryView)>, now: u64, times: Seq<u64>, k: Seq<char>)
    requires
        restore(empty_cache(), saved, now, times).entries.contains_key(k),
    ensures
        has_key(saved, k),
    decreases saved.len(),
{
    if saved.len() > 0 {
        let d = saved.drop_last();
        let c1 = restore(empty_cache(), d, now, times.drop_last());
        let (lk, le) = saved.last();
        if k != lk {
            if !expired_at(le.expires_at, now) {
                assert(c1.entries.contains_key(k));
            }
            lemma_restore_entries(d, now, times.drop_last(), k);
            let i = choose|i: int| 0 <= i < d.len() && #[trigger] d[i].0 == k;
            assert(saved[i].0 == k);
        } else {
            assert(saved[saved.len() - 1].0 == k);
        }
    }
}

/// Without a capacity bound, a write adds or replaces the entry of its key
/// and keeps every other entry as it was.
pub proof fn law_unbounded_put_keeps_others(
    c: CacheView,
    k: Seq<char>,
    value: Seq<u8>,
    ttl: Option<u64>,
    now: u64,
)
    requires
        c.wf(),
        c.capacity is None,
    ensures
        c.after_put(k, value, ttl, now).entries == c.entries.insert(
            k,
            EntryView { value, created_at: now, expires_at: expiry(now, ttl) },
        ),
        c.after_put(k, value, ttl, now).clock == c.clock,
        c.after_put(k, value, ttl, now).capacity == c.capacity,
{
    lemma_without_key(c.recency, k);
    let rec = seq![k] + without_key(c.recency, k);
    let e = EntryView { value, created_at: now, expires_at: expiry(now, ttl) };
    assert forall|x: Seq<char>| c.entries.insert(k, e).dom().contains(x) implies rec.to_set().contains(x) by {
        if x == k {
            assert(rec[0] == k);
        } else {
            assert(c.recency.to_set().contains(x));
            assert(without_key(c.recency, k).contains(x));
            let i = choose|i: int| 0 <= i < without_key(c.recency, k).len() && without_key(c.recency, k)[i] == x;
            assert(rec[i + 1] == x);
        }
    }
    assert(c.after_put(k, value, ttl, now).entries =~= c.entries.insert(k, e));
}

/// Reads at one time agree: the keys that a listing shows are the keys
/// alive then, and a read of a key finds the value that the listing shows
/// for it, or nothing when the listing does not show it.
pub proof fn law_reads_agree(c: CacheView, now: u64, k: Seq<char>)
    ensures
        c.live_values(now).dom() == c.live_keys(now),
        c.lookup(k, now) == if c.live_keys(now).contains(k) {
            Some(c.live_values(now)[k])
        } else {
            None::<Seq<u8>>
        },
        c.live_keys(now).contains(k) == c.is_live(k, now),
{
    assert(c.live_values(now).dom() =~= c.live_keys(now));
}

/// Setting a lifetime on a stored key changes only when that entry expires:
/// its value and creation time, the other entries and the recency order
/// stay as they were.
pub proof fn law_expire_sets_lifetime(c: CacheView, k: Seq<char>, ttl: u64, now: u64)
    requires
        c.wf(),
        c.entries.contains_key(k),
    ensures
        c.after_expire(k, ttl, now).wf(),
        c.after_expire(k, ttl, now).entries[k].expires_at == expiry(now, Some(ttl)),
        c.after_expire(k, ttl, now).entries[k].value == c.entries[k].value,
        c.after_expire(k, ttl, now).entries[k].created_at == c.entries[k].created_at,
        c.after_expire(k, ttl, now).entries.dom() == c.entries.dom(),
        forall|x: Seq<char>| x != k ==> #[trigger] c.after_expire(k, ttl, now).entries.index(x) == c.entries.index(x),
        c.after_expire(k, ttl, now).recency == c.recency,
{
    assert(c.after_expire(k, ttl, now).entries.dom() =~= c.entries.dom());
}

/// A second cleanup at the same time removes nothing.
pub proof fn law_cleanup_twice(c: CacheView, now: u64)
    requires
        c.wf(),
    ensures
        c.after_cleanup(now).after_cleanup(now) == c.after_cleanup(now),
{
    let c1 = c.after_cleanup(now);
    let live = |x: Seq<char>| c.is_live(x, now);
    let live1 = |x: Seq<char>| c1.is_live(x, now);
    crate::lru::lemma_filter_members(c.recency, live);
    assert forall|i: int| 0 <= i < c1.recency.len() implies live1(#[trigger] c1.recency[i]) by {
        let x = c1.recency[i];
        assert(c1.recency.contains(x));
        assert(c1.recency.to_set().contains(x));
    }
    crate::lru::lemma_filter_all(c1.recency, live1);
    assert(c1.entries.restrict(c1.recency.to_set()) =~= c1.entries);
}

/// Inside a transaction, a key has a value exactly when its buffered write
/// is a put, or when it has no buffered put or delete and the store holds
/// it; the value is the put's, or else the store's.
pub proof fn law_transaction_keys(m: Map<Seq<char>, Seq<u8>>, ops: Seq<OpView>, k: Seq<char>)
    requires
        op_keys_unique(ops),
    ensures
        overlay(m, ops).contains_key(k) == match pending(ops, k) {
            Some(OpView::Put { .. }) => true,
            Some(OpView::Delete { .. }) => false,
            _ => m.contains_key(k),
        },
        overlay(m, ops).contains_key(k) ==> overlay(m, ops)[k] == match pending(ops, k) {
            Some(OpView::Put { value, .. }) => value,
            _ => m[k],
        },
    decreases ops.len(),
{
    if ops.len() > 0 {
        let init = ops.drop_last();
        assert(op_keys_unique(init)) by {
            assert forall|i: int, j: int| 0 <= i < init.len() && 0 <= j < init.len() && i != j implies #[trigger] init[i].key() != #[trigger] init[j].key() by {
                assert(init[i] == ops[i] && init[j] == ops[j]);
            }
        }
        law_transaction_keys(m, init, k);
        let last = ops.last();
        lemma_pending_at(ops, ops.len() - 1);
        if last.key() != k {
            if exists|i: int| 0 <= i < init.len() && #[trigger] init[i].key() == k {
                let i = choose|i: int| 0 <= i < init.len() && #[trigger] init[i].key() == k;
                lemma_pending_at(init, i);
                assert(ops[i] == init[i]);
                lemma_pending_at(ops, i);
            } else {
                assert forall|i: int| 0 <= i < ops.len() implies #[trigger] ops[i].key() != k by {
                    if i < init.len() {
                        assert(ops[i] == init[i]);
                    }
                }
            }
        }
    }
}

/// A write evicts at most one entry: the key written longest ago, and only
/// when the key written is new and the cache is full.
pub proof fn law_put_evicts_at_most_oldest(
    c: CacheView,
    k: Seq<char>,
    value: Seq<u8>,
    ttl: Option<u64>,
    now: u64,
    x: Seq<char>,
)
    requires
        c.wf(),
        c.entries.contains_key(x),
        !c.after_put(k, value, ttl, now).entries.contains_key(x),
    ensures
        x != k,
        !c.entries.contains_key(k),
        x == c.recency.last(),
        c.capacity == Some(c.recency.len() as usize),
{
    lemma_without_key(c.recency, k);
    let w = without_key(c.recency, k);
    let rec = seq![k] + w;
    let kept = trim(rec, c.capacity);
    assert(c.after_put(k, value, ttl, now).entries.dom() =~= c.entries.insert(
        k,
        c.after_put(k, value, ttl, now).entries[k],
    ).dom().intersect(kept.to_set()));
    assert(c.recency.to_set().contains(x));
    assert(c.recency.contains(x));
    assert(c.recency.len() > 0);
    if x == k {
        assert(kept[0] == k);
        assert(kept.to_set().contains(k));
    }
    assert(x != k);
    assert(w.contains(x));
    let i = choose|i: int| 0 <= i < w.len() && w[i] == x;
    assert(rec[i + 1] == x);
    if c.capacity is None {
        assert(kept.to_set().contains(x));
    }
    let cap = c.capacity->0;
    if rec.len() <= cap {
        assert(kept.to_set().contains(x));
    }
    assert(rec.len() > cap);
    if i + 1 < cap {
        assert(kept[i + 1] == x);
        assert(kept.to_set().contains(x));
    }
    if c.recency.contains(k) {
        let p = choose|p: int| 0 <= p < c.recency.len() && c.recency[p] == k;
        assert(w == c.recency.remove(p));
    }
    assert(!c.recency.contains(k));
    assert(w == c.recency);
    assert(!c.entries.contains_key(k)) by {
        if c.entries.contains_key(k) {
            assert(c.recency.to_set().contains(k));
        }
    }
    assert(i == c.recency.len() - 1);
}

/// A cleanup keeps exactly the entries alive at that time: the reads at
/// that time do not change, and the number removed is the number of
/// expired entries.
pub proof fn law_cleanup_counts(c: CacheView, now: u64)
    requires
        c.wf(),
    ensures
        c.after_cleanup(now).entries.dom() == c.live_keys(now),
        c.after_cleanup(now).live_values(now) == c.live_values(now),
        c.after_cleanup(now).live_keys(now) == c.live_keys(now),
        c.entries.len() - c.after_cleanup(now).entries.len() == c.entries.dom().filter(
            |k: Seq<char>| !c.is_live(k, now),
        ).len(),
{
    let live = |x: Seq<char>| c.is_live(x, now);
    let dead = |x: Seq<char>| !c.is_live(x, now);
    let c1 = c.after_cleanup(now);
    crate::lru::lemma_filter_members(c.recency, live);
    assert forall|x: Seq<char>| c1.entries.dom().contains(x) <==> c.live_keys(now).contains(x) by {
        assert(c.recency.filter(live).to_set().contains(x) <==> c.recency.filter(live).contains(x));
        assert(c.recency.contains(x) <==> c.recency.to_set().contains(x));
    }
    assert(c1.entries.dom() =~= c.live_keys(now));
    assert(c1.live_values(now) =~= c.live_values(now));
    assert(c1.live_keys(now) =~= c.live_keys(now));
    c.recency.unique_seq_to_set();
    let a = c.live_keys(now);
    let b = c.entries.dom().filter(dead);
    c.entries.dom().lemma_len_filter(live);
    c.entries.dom().lemma_len_filter(dead);
    vstd::set_lib::lemma_set_disjoint_lens(a, b);
    assert(a.disjoint(b));
    assert(a + b =~= c.entries.dom());
}

/// A text written through the database is read back as the same text at
/// every later time within its lifetime, when the capacity admits an entry
/// and no other write touched the key in between.
pub proof fn law_text_read_within_lifetime(
    c: CacheView,
    k: Seq<char>,
    text: Seq<char>,
    ttl: Option<u64>,
    now: u64,
    later: u64,
)
    requires
        c.wf(),
        c.capacity != Some(0usize),
        bincode_read_text(bincode_text(text)) == Some(text),
        !expired_at(expiry(now, ttl), later),
    ensures
        c.after_put(k, bincode_text(text), ttl, now).lookup(k, later) matches Some(b)
            && bincode_read_text(b) == Some(text),
{
    law_read_within_lifetime(c, k, bincode_text(text), ttl, now, later);
}

/// Once the time is set, every read of the clock gives that time, so calls
/// that each read the clock read the same time and agree with one another.
pub proof fn law_set_time_reads_one_time(c: CacheView, a: u64, b: u64)
    requires
        c.clock is Some,
        c.reads(a),
        c.reads(b),
    ensures
        a == b,
        a == c.clock->0,
{
}

} // verus!
