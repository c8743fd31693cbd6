//! Transactions: writes are buffered, reads see the buffered writes, and a
//! commit applies them to the cache in order.

use vstd::prelude::*;
use crate::cache::{Cache, CacheView, pairs_view, texts, trim};
use crate::lru::{without_key, lemma_without_key};
use crate::codec::{decode_failure, encode_text, decode_text, decode_pairs, bincode_read_text, bincode_text, decodes_to, decodes_pairs, some_undecodable, text_pairs};
use crate::error::{Error, not_found, prefixed};
use crate::keymap::{KeyMap, keys_unique, pairs_map, has_key, lemma_pairs_map_push, lemma_pairs_map_values};

verus! {

/// A buffered write.
pub enum PendingOp {
    Put { key: String, value: Vec<u8>, ttl: Option<u64> },
    Delete { key: String },
    Expire { key: String, ttl: u64 },
}

/// A buffered write as a mathematical value.
pub enum OpView {
    Put { key: Seq<char>, value: Seq<u8>, ttl: Option<u64> },
    Delete { key: Seq<char> },
    Expire { key: Seq<char>, ttl: u64 },
}

impl OpView {
    /// The key the write is for.
    pub open spec fn key(self) -> Seq<char> {
        match self {
            OpView::Put { key, .. } => key,
            OpView::Delete { key } => key,
            OpView::Expire { key, .. } => key,
        }
    }
}

impl View for PendingOp {
    type V = OpView;

    open spec fn view(&self) -> OpView {
        match self {
            PendingOp::Put { key, value, ttl } => OpView::Put { key: key@, value: value@, ttl: *ttl },
            PendingOp::Delete { key } => OpView::Delete { key: key@ },
            PendingOp::Expire { key, ttl } => OpView::Expire { key: key@, ttl: *ttl },
        }
    }
}

/// The test "is for another key than `k`".
pub open spec fn for_other_key(k: Seq<char>) -> spec_fn(OpView) -> bool {
    |o: OpView| o.key() != k
}

/// No two buffered writes are for the same key.
pub open spec fn op_keys_unique(ops: Seq<OpView>) -> bool {
    forall|i: int, j: int|
        0 <= i < ops.len() && 0 <= j < ops.len() && i != j ==> #[trigger] ops[i].key()
            != #[trigger] ops[j].key()
}

/// The buffer after `op` was recorded: it replaces any earlier write for the
/// same key, and comes last.
pub open spec fn record(ops: Seq<OpView>, op: OpView) -> Seq<OpView> {
    ops.filter(for_other_key(op.key())).push(op)
}

/// The buffered write for `k`, if any.
pub open spec fn pending(ops: Seq<OpView>, k: Seq<char>) -> Option<OpView> {
    if exists|i: int| 0 <= i < ops.len() && #[trigger] ops[i].key() == k {
        Some(ops[choose|i: int| 0 <= i < ops.len() && #[trigger] ops[i].key() == k])
    } else {
        None
    }
}

/// The values `m` with the buffered writes laid over them, in order.
pub open spec fn overlay(m: Map<Seq<char>, Seq<u8>>, ops: Seq<OpView>) -> Map<Seq<char>, Seq<u8>>
    decreases ops.len(),
{
    if ops.len() == 0 {
        m
    } else {
        let m1 = overlay(m, ops.drop_last());
        match ops.last() {
            OpView::Put { key, value, .. } => m1.insert(key, value),
            OpView::Delete { key } => m1.remove(key),
            OpView::Expire { .. } => m1,
        }
    }
}

/// The buffered write that an expire of `k` records: a buffered put of `k`
/// keeps its value and takes the lifetime `ttl`; otherwise the expire
/// itself.
pub open spec fn expire_op(ops: Seq<OpView>, k: Seq<char>, ttl: u64) -> OpView {
    match pending(ops, k) {
        Some(OpView::Put { value, .. }) => OpView::Put { key: k, value, ttl: Some(ttl) },
        _ => OpView::Expire { key: k, ttl },
    }
}

/// One buffered write applied to the cache at `now`; `None` when it cannot
/// be applied (a lifetime set on a key that is not stored).
pub open spec fn apply_op(c: CacheView, op: OpView, now: u64) -> Option<CacheView> {
    match op {
        OpView::Put { key, value, ttl } => Some(c.after_put(key, value, ttl, now)),
        OpView::Delete { key } => Some(
            if c.entries.contains_key(key) {
                c.after_delete(key)
            } else {
                c
            },
        ),
        OpView::Expire { key, ttl } => if c.entries.contains_key(key) {
            Some(c.after_expire(key, ttl, now))
        } else {
            None
        },
    }
}

/// The buffered writes applied in order, the i-th at `times[i]`: the cache
/// they leave, and whether all of them applied. Application stops at the
/// first write that cannot be applied.
pub open spec fn apply_ops(c: CacheView, ops: Seq<OpView>, times: Seq<u64>) -> (CacheView, bool)
    decreases ops.len(),
{
    if ops.len() == 0 {
        (c, true)
    } else {
        let (c1, ok) = apply_ops(c, ops.drop_last(), times.drop_last());
        if !ok {
            (c1, false)
        } else {
            match apply_op(c1, ops.last(), times.last()) {
                Some(c2) => (c2, true),
                None => (c1, false),
            }
        }
    }
}

/// The stored keys, most recently written first, after `op` is applied to
/// a cache whose stored keys are `rec` and whose capacity is `cap`; `None`
/// when `op` cannot be applied.
pub open spec fn keys_after_op(rec: Seq<Seq<char>>, op: OpView, cap: Option<usize>) -> Option<
    Seq<Seq<char>>,
> {
    match op {
        OpView::Put { key, .. } => Some(trim(seq![key] + without_key(rec, key), cap)),
        OpView::Delete { key } => Some(
            if rec.contains(key) {
                without_key(rec, key)
            } else {
                rec
            },
        ),
        OpView::Expire { key, .. } => if rec.contains(key) {
            Some(rec)
        } else {
            None
        },
    }
}

/// The stored keys after the buffered writes `ops` are applied in order;
/// `None` when one of them cannot be applied.
pub open spec fn keys_after_ops(rec: Seq<Seq<char>>, ops: Seq<OpView>, cap: Option<usize>) -> Option<
    Seq<Seq<char>>,
>
    decreases ops.len(),
{
    if ops.len() == 0 {
        Some(rec)
    } else {
        match keys_after_ops(rec, ops.drop_last(), cap) {
            Some(r1) => keys_after_op(r1, ops.last(), cap),
            None => None,
        }
    }
}

/// Whether the buffered writes `ops` all apply to the cache `c`: that
/// depends on the stored keys alone, whatever the times of the writes.
pub open spec fn ops_apply(c: CacheView, ops: Seq<OpView>) -> bool {
    keys_after_ops(c.recency, ops, c.capacity) is Some
}

/// Applying writes to a well-formed cache succeeds exactly when the stored
/// keys allow it, and then leaves a well-formed cache with the same
/// capacity whose stored keys are the ones computed.
pub proof fn lemma_keys_after_ops(c: CacheView, ops: Seq<OpView>, times: Seq<u64>)
    requires
        c.wf(),
        times.len() == ops.len(),
    ensures
        apply_ops(c, ops, times).1 == (keys_after_ops(c.recency, ops, c.capacity) is Some),
        apply_ops(c, ops, times).1 ==> apply_ops(c, ops, times).0.wf() && apply_ops(
            c,
            ops,
            times,
        ).0.capacity == c.capacity && keys_after_ops(c.recency, ops, c.capacity) == Some(
            apply_ops(c, ops, times).0.recency,
        ),
    decreases ops.len(),
{
    if ops.len() > 0 {
        lemma_keys_after_ops(c, ops.drop_last(), times.drop_last());
        let (c1, ok) = apply_ops(c, ops.drop_last(), times.drop_last());
        if ok {
            crate::laws::law_apply_op_keeps_wf(c1, ops.last(), times.last());
            let k = ops.last().key();
            assert(c1.entries.contains_key(k) == c1.recency.contains(k)) by {
                if c1.recency.contains(k) {
                    assert(c1.recency.to_set().contains(k));
                }
                if c1.entries.contains_key(k) {
                    assert(c1.recency.to_set().contains(k));
                }
            }
        }
    }
}

/// Once all writes apply, every prefix of them applies too.
proof fn lemma_keys_after_prefix(rec: Seq<Seq<char>>, ops: Seq<OpView>, cap: Option<usize>, i: int)
    requires
        0 <= i <= ops.len(),
        keys_after_ops(rec, ops, cap) is Some,
    ensures
        keys_after_ops(rec, ops.take(i), cap) is Some,
    decreases ops.len(),
{
    if i < ops.len() {
        assert(ops.drop_last().take(i) =~= ops.take(i));
        lemma_keys_after_prefix(rec, ops.drop_last(), cap, i);
    } else {
        assert(ops.take(i) =~= ops);
    }
}

/// The buffered write for `k`, found from `i` on.
pub(crate) proof fn lemma_pending_at(ops: Seq<OpView>, i: int)
    requires
        op_keys_unique(ops),
        0 <= i < ops.len(),
    ensures
        pending(ops, ops[i].key()) == Some(ops[i]),
{
    let k = ops[i].key();
    assert(exists|j: int| 0 <= j < ops.len() && #[trigger] ops[j].key() == k);
    let j = choose|j: int| 0 <= j < ops.len() && #[trigger] ops[j].key() == k;
    assert(i == j);
}

/// Recording a write keeps the keys unique, and afterwards the write is the
/// one buffered for its key while the others stay.
pub proof fn lemma_record(ops: Seq<OpView>, op: OpView)
    requires
        op_keys_unique(ops),
    ensures
        op_keys_unique(record(ops, op)),
        pending(record(ops, op), op.key()) == Some(op),
        forall|k: Seq<char>| k != op.key() ==> pending(record(ops, op), k) == pending(ops, k),
{
    let f = ops.filter(for_other_key(op.key()));
    crate::lru::lemma_filter_members(ops, for_other_key(op.key()));
    broadcast use vstd::seq_lib::group_filter_ensures;
    let r = f.push(op);
    assert(f.no_duplicates() ==> true);
    assert forall|i: int, j: int| 0 <= i < f.len() && 0 <= j < f.len() && i != j implies #[trigger] f[i].key()
        != #[trigger] f[j].key() by {
        assert(f.contains(f[i]) && f.contains(f[j]));
        assert(ops.contains(f[i]) && ops.contains(f[j]));
        let a = choose|a: int| 0 <= a < ops.len() && ops[a] == f[i];
        let b = choose|b: int| 0 <= b < ops.len() && ops[b] == f[j];
        if a == b {
            assert(f[i] == f[j]);
            assert(ops.no_duplicates()) by {
                assert forall|x: int, y: int| 0 <= x < ops.len() && 0 <= y < ops.len() && x != y implies ops[x] != ops[y] by {
                    assert(ops[x].key() != ops[y].key());
                }
            }
            crate::lru::lemma_filter_members(ops, for_other_key(op.key()));
        }
    }
    assert forall|i: int, j: int| 0 <= i < r.len() && 0 <= j < r.len() && i != j implies #[trigger] r[i].key()
        != #[trigger] r[j].key() by {
        if i < f.len() && j < f.len() {
        } else if i < f.len() {
            assert(f.contains(f[i]));
            s_filter_pred(ops, op.key(), f[i]);
        } else {
            assert(f.contains(f[j]));
            s_filter_pred(ops, op.key(), f[j]);
        }
    }
    lemma_pending_at(r, f.len() as int);
    assert forall|k: Seq<char>| k != op.key() implies pending(r, k) == pending(ops, k) by {
        if exists|i: int| 0 <= i < ops.len() && #[trigger] ops[i].key() == k {
            let i = choose|i: int| 0 <= i < ops.len() && #[trigger] ops[i].key() == k;
            lemma_pending_at(ops, i);
            assert(for_other_key(op.key())(ops[i]));
            assert(f.contains(ops[i]));
            let j = choose|j: int| 0 <= j < f.len() && f[j] == ops[i];
            assert(r[j] == ops[i]);
            lemma_pending_at(r, j);
        } else {
            if exists|j: int| 0 <= j < r.len() && #[trigger] r[j].key() == k {
                let j = choose|j: int| 0 <= j < r.len() && #[trigger] r[j].key() == k;
                assert(j < f.len());
                assert(f.contains(f[j]));
                assert(ops.contains(f[j]));
                let i = choose|i: int| 0 <= i < ops.len() && ops[i] == f[j];
                assert(ops[i].key() == k);
            }
        }
    }
}

proof fn s_filter_pred(ops: Seq<OpView>, k: Seq<char>, x: OpView)
    requires
        ops.filter(for_other_key(k)).contains(x),
    ensures
        x.key() != k,
{
    crate::lru::lemma_filter_members(ops, for_other_key(k));
}


/// Taking out the one write for `k` from a buffer with unique keys is
/// removing its position; with no write for `k` the buffer stays.
proof fn lemma_filter_one(ops: Seq<OpView>, k: Seq<char>, j: Option<int>)
    requires
        op_keys_unique(ops),
        j matches Some(p) ==> 0 <= p < ops.len() && ops[p].key() == k,
        j is None ==> forall|i: int| 0 <= i < ops.len() ==> #[trigger] ops[i].key() != k,
    ensures
        ops.filter(for_other_key(k)) == match j {
            Some(p) => ops.remove(p),
            None => ops,
        },
{
    let pred = for_other_key(k);
    match j {
        None => {
            crate::lru::lemma_filter_all(ops, pred);
        },
        Some(p) => {
            let a = ops.take(p);
            let b = ops.skip(p + 1);
            assert(ops =~= a + seq![ops[p]] + b);
            crate::lru::lemma_filter_all(a, pred);
            assert forall|i: int| 0 <= i < b.len() implies pred(#[trigger] b[i]) by {
                assert(b[i] == ops[p + 1 + i]);
            }
            crate::lru::lemma_filter_all(b, pred);
            Seq::filter_distributes_over_add(a + seq![ops[p]], b, pred);
            Seq::filter_distributes_over_add(a, seq![ops[p]], pred);
            reveal_with_fuel(Seq::filter, 2);
            assert(seq![ops[p]].drop_last() =~= Seq::<OpView>::empty());
            assert(seq![ops[p]].filter(pred) =~= Seq::<OpView>::empty());
            assert(ops.remove(p) =~= a + b);
        },
    }
}

impl PendingOp {
    /// The key the write is for.
    fn key(&self) -> (k: &String)
        ensures
            k@ == self@.key(),
    {
        match self {
            PendingOp::Put { key, .. } => key,
            PendingOp::Delete { key } => key,
            PendingOp::Expire { key, .. } => key,
        }
    }
}

/// A transaction on a cache: its writes are buffered until commit.
pub struct Transaction<'a> {
    /// The cache, held for the whole transaction.
    pub guard: &'a mut Cache,
    /// The buffered writes, in the order they were made.
    pub ops: Vec<PendingOp>,
}

impl<'a> Transaction<'a> {
    /// The buffered writes as mathematical values.
    pub open spec fn ops_view(&self) -> Seq<OpView> {
        self.ops@.map_values(|o: PendingOp| o@)
    }

    /// The cache is well formed and no two buffered writes are for one key.
    pub open spec fn wf(&self) -> bool {
        &&& self.guard.wf()
        &&& op_keys_unique(self.ops_view())
    }

    /// A transaction on `guard` with nothing buffered.
    pub(crate) fn new(guard: &'a mut Cache) -> (t: Self)
        requires
            old(guard).wf(),
        ensures
            t.wf(),
            *t.guard == *old(guard),
            *final(t.guard) == *final(guard),
            t.ops_view() == Seq::<OpView>::empty(),
    {
        let t = Transaction { guard, ops: Vec::new() };
        assert(t.ops_view() =~= Seq::<OpView>::empty());
        t
    }

    /// Buffers `op`, replacing an earlier write for its key.
    fn record_op(&mut self, op: PendingOp)
        requires
            old(self).wf(),
        ensures
            final(self).wf(),
            final(self).guard == old(self).guard,
            final(self).ops_view() == record(old(self).ops_view(), op@),
    {
        let ghost ops = self.ops_view();
        let mut found: Option<usize> = None;
        let mut i: usize = 0;
        while i < self.ops.len()
            invariant_except_break
                found is None,
            invariant
                i <= self.ops.len(),
                ops == self.ops_view(),
                op_keys_unique(ops),
                forall|j: int| 0 <= j < i ==> #[trigger] ops[j].key() != op@.key(),
            ensures
                found matches Some(p) ==> p < ops.len() && ops[p as int].key() == op@.key(),
                found is None ==> forall|j: int| 0 <= j < ops.len() ==> #[trigger] ops[j].key() != op@.key(),
            decreases self.ops.len() - i,
        {
            if *self.ops[i].key() == *op.key() {
                found = Some(i);
                break;
            }
            i = i + 1;
        }
        proof {
            lemma_filter_one(ops, op@.key(), match found { Some(p) => Some(p as int), None => None });
            lemma_record(ops, op@);
        }
        match found {
            Some(p) => {
                self.ops.remove(p);
                assert(self.ops_view() =~= ops.remove(p as int));
            },
            None => {},
        }
        self.ops.push(op);
        assert(self.ops_view() =~= record(ops, op@));
    }

    /// Buffers writing `data`, already encoded, under `key`.
    pub fn put_bytes(&mut self, key: &str, data: Vec<u8>, ttl: Option<u64>)
        requires
            old(self).wf(),
        ensures
            final(self).wf(),
            final(self).guard == old(self).guard,
            final(self).ops_view() == record(
                old(self).ops_view(),
                OpView::Put { key: key@, value: data@, ttl },
            ),
    {
        let k: String = key.to_owned();
        self.record_op(PendingOp::Put { key: k, value: data, ttl });
    }

    /// Buffers writing the text `value` under `key`.
    pub fn put(&mut self, key: &str, value: &str, ttl: Option<u64>) -> (r: Result<(), Error>)
        requires
            old(self).wf(),
        ensures
            final(self).wf(),
            final(self).guard == old(self).guard,
            r is Ok,
            bincode_read_text(bincode_text(value@)) == Some(value@),
            final(self).ops_view() == record(
                old(self).ops_view(),
                OpView::Put { key: key@, value: bincode_text(value@), ttl },
            ),
    {
        match encode_text(value) {
            Ok(data) => {
                self.put_bytes(key, data, ttl);
                Ok(())
            },
            Err(e) => Err(e),
        }
    }

    /// Buffers deleting `key`.
    pub fn delete(&mut self, key: &str) -> (r: Result<(), Error>)
        requires
            old(self).wf(),
        ensures
            final(self).wf(),
            r is Ok,
            final(self).guard == old(self).guard,
            final(self).ops_view() == record(old(self).ops_view(), OpView::Delete { key: key@ }),
    {
        let k: String = key.to_owned();
        self.record_op(PendingOp::Delete { key: k });
        Ok(())
    }

    /// The value of a buffered write of `key`, if the buffered write of
    /// `key` is a put.
    fn pending_value(&self, key: &str) -> (r: Option<Vec<u8>>)
        requires
            self.wf(),
        ensures
            match pending(self.ops_view(), key@) {
                Some(OpView::Put { value, .. }) => r matches Some(v) && v@ == value,
                _ => r is None,
            },
    {
        let ghost ops = self.ops_view();
        let k: String = key.to_owned();
        let mut i = self.ops.len();
        while i > 0
            invariant
                i <= self.ops.len(),
                ops == self.ops_view(),
                op_keys_unique(ops),
                k@ == key@,
                forall|j: int| i <= j < ops.len() ==> #[trigger] ops[j].key() != key@,
            decreases i,
        {
            i = i - 1;
            if *self.ops[i].key() == k {
                proof {
                    lemma_pending_at(ops, i as int);
                }
                return match &self.ops[i] {
                    PendingOp::Put { value, .. } => Some(value.clone()),
                    _ => None,
                };
            }
        }
        proof {
            if exists|j: int| 0 <= j < ops.len() && #[trigger] ops[j].key() == key@ {
                let j = choose|j: int| 0 <= j < ops.len() && #[trigger] ops[j].key() == key@;
                lemma_pending_at(ops, j);
            }
        }
        None
    }

    /// Buffers setting `key` to expire `ttl` seconds after the commit. A
    /// buffered put of `key` keeps its value and takes the new lifetime.
    pub fn expire(&mut self, key: &str, ttl: u64) -> (r: Result<(), Error>)
        requires
            old(self).wf(),
        ensures
            final(self).wf(),
            r is Ok,
            final(self).guard == old(self).guard,
            final(self).ops_view() == record(
                old(self).ops_view(),
                expire_op(old(self).ops_view(), key@, ttl),
            ),
    {
        let k: String = key.to_owned();
        match self.pending_value(key) {
            Some(v) => self.record_op(PendingOp::Put { key: k, value: v, ttl: Some(ttl) }),
            None => self.record_op(PendingOp::Expire { key: k, ttl }),
        }
        Ok(())
    }

    /// Discards the buffered writes; the cache stays as it was.
    pub fn rollback(self)
        ensures
            *final(self.guard) == *old(self.guard),
    {
    }
}


/// Removes `k` from the list of keys `rec`, where it occurs at most once.
fn drop_key(rec: &mut Vec<String>, k: &String)
    requires
        texts(old(rec)@).no_duplicates(),
    ensures
        texts(final(rec)@) == without_key(texts(old(rec)@), k@),
{
    let ghost t = texts(rec@);
    proof {
        lemma_without_key(t, k@);
    }
    match position_of(rec, k) {
        Some(p) => {
            rec.remove(p);
            assert(texts(rec@) =~= t.remove(p as int));
        },
        None => {
            assert(!t.contains(k@)) by {
                if t.contains(k@) {
                    let j = choose|j: int| 0 <= j < t.len() && t[j] == k@;
                    assert(rec@[j]@ == k@);
                }
            }
        },
    }
}

/// The position of `k` in `v`, if it occurs.
fn position_of(v: &Vec<String>, k: &String) -> (r: Option<usize>)
    ensures
        match r {
            Some(p) => p < v@.len() && v@[p as int]@ == k@,
            None => forall|j: int| 0 <= j < v@.len() ==> (#[trigger] v@[j])@ != k@,
        },
{
    let mut i: usize = 0;
    while i < v.len()
        invariant
            i <= v.len(),
            forall|j: int| 0 <= j < i ==> (#[trigger] v@[j])@ != k@,
        decreases v.len() - i,
    {
        if v[i] == *k {
            return Some(i);
        }
        i = i + 1;
    }
    None
}

impl<'a> Transaction<'a> {
    /// The cache as it is while the transaction runs.
    pub open spec fn base(&self) -> CacheView {
        self.guard@
    }

    /// The value stored under `key`, the buffered writes taken into account.
    pub fn get_bytes(&self, key: &str) -> (r: Result<Vec<u8>, Error>)
        requires
            self.wf(),
        ensures
            match pending(self.ops_view(), key@) {
                Some(OpView::Put { value, .. }) => (r matches Ok(v) && v@ == value),
                Some(OpView::Delete { .. }) => r is Err && not_found(r->Err_0, key@),
                _ => exists|now: u64|
                    #[trigger] self.base().reads(now) && match r {
                        Ok(v) => self.base().lookup(key@, now) == Some(v@),
                        Err(e) => self.base().lookup(key@, now) is None && not_found(e, key@),
                    },
            },
    {
        let ghost ops = self.ops_view();
        let k: String = key.to_owned();
        let mut i = self.ops.len();
        while i > 0
            invariant
                i <= self.ops.len(),
                ops == self.ops_view(),
                op_keys_unique(ops),
                k@ == key@,
                forall|j: int|
                    i <= j < ops.len() ==> #[trigger] ops[j].key() != key@ || ops[j] is Expire,
            decreases i,
        {
            i = i - 1;
            match &self.ops[i] {
                PendingOp::Put { key: pk, value, .. } => {
                    if *pk == k {
                        proof {
                            assert(ops[i as int] == self.ops@[i as int]@);
                            assert(ops[i as int].key() == key@);
                            lemma_pending_at(ops, i as int);
                        }
                        let v = value.clone();
                        assert(v@ =~= value@);
                        return Ok(v);
                    }
                },
                PendingOp::Delete { key: pk } => {
                    if *pk == k {
                        proof {
                            assert(ops[i as int] == self.ops@[i as int]@);
                            assert(ops[i as int].key() == key@);
                            lemma_pending_at(ops, i as int);
                        }
                        return Err(Error::KeyNotFound(k));
                    }
                },
                PendingOp::Expire { .. } => {},
            }
        }
        proof {
            if exists|j: int| 0 <= j < ops.len() && #[trigger] ops[j].key() == key@ {
                let j = choose|j: int| 0 <= j < ops.len() && #[trigger] ops[j].key() == key@;
                lemma_pending_at(ops, j);
            }
        }
        self.guard.get(key)
    }

    /// The text stored under `key`, the buffered writes taken into account.
    pub fn get(&self, key: &str) -> (r: Result<String, Error>)
        requires
            self.wf(),
        ensures
            match pending(self.ops_view(), key@) {
                Some(OpView::Put { value, .. }) => decodes_to(r, value),
                Some(OpView::Delete { .. }) => r is Err && not_found(r->Err_0, key@),
                _ => exists|now: u64|
                    #[trigger] self.base().reads(now) && match self.base().lookup(key@, now) {
                        Some(b) => decodes_to(r, b),
                        None => r is Err && not_found(r->Err_0, key@),
                    },
            },
    {
        let data = self.get_bytes(key)?;
        decode_text(data.as_slice())
    }

    /// Whether `key` holds a live value, the buffered writes taken into
    /// account.
    pub fn contains_key(&self, key: &str) -> (b: bool)
        requires
            self.wf(),
        ensures
            match pending(self.ops_view(), key@) {
                Some(OpView::Put { .. }) => b,
                Some(OpView::Delete { .. }) => !b,
                _ => exists|now: u64|
                    #[trigger] self.base().reads(now) && b == self.base().is_live(key@, now),
            },
    {
        let ghost ops = self.ops_view();
        let k: String = key.to_owned();
        let mut i = self.ops.len();
        while i > 0
            invariant
                i <= self.ops.len(),
                ops == self.ops_view(),
                op_keys_unique(ops),
                k@ == key@,
                forall|j: int|
                    i <= j < ops.len() ==> #[trigger] ops[j].key() != key@ || ops[j] is Expire,
            decreases i,
        {
            i = i - 1;
            match &self.ops[i] {
                PendingOp::Put { key: pk, .. } => {
                    if *pk == k {
                        proof {
                            assert(ops[i as int] == self.ops@[i as int]@);
                            assert(ops[i as int].key() == key@);
                            lemma_pending_at(ops, i as int);
                        }
                        return true;
                    }
                },
                PendingOp::Delete { key: pk } => {
                    if *pk == k {
                        proof {
                            assert(ops[i as int] == self.ops@[i as int]@);
                            assert(ops[i as int].key() == key@);
                            lemma_pending_at(ops, i as int);
                        }
                        return false;
                    }
                },
                PendingOp::Expire { .. } => {},
            }
        }
        proof {
            if exists|j: int| 0 <= j < ops.len() && #[trigger] ops[j].key() == key@ {
                let j = choose|j: int| 0 <= j < ops.len() && #[trigger] ops[j].key() == key@;
                lemma_pending_at(ops, j);
            }
        }
        self.guard.contains_key(key)
    }

    /// The live values, the buffered writes laid over them, in no particular
    /// order.
    pub fn list_bytes(&self) -> (r: Vec<(String, Vec<u8>)>)
        requires
            self.wf(),
        ensures
            exists|now: u64|
                #[trigger] self.base().reads(now) && keys_unique(pairs_view(r@)) && pairs_map(
                    pairs_view(r@),
                ) == overlay(self.base().live_values(now), self.ops_view()),
    {
        let ghost ops = self.ops_view();
        let base = self.guard.list();
        let ghost now = choose|now: u64|
            #[trigger] self.base().reads(now) && keys_unique(pairs_view(base@)) && pairs_map(
                pairs_view(base@),
            ) == self.base().live_values(now);
        let ghost bv = pairs_view(base@);
        let mut map: KeyMap<Vec<u8>> = KeyMap::new();
        let mut i: usize = 0;
        while i < base.len()
            invariant
                i <= base.len(),
                bv == pairs_view(base@),
                keys_unique(bv),
                map.wf(),
                map.as_map().map_values(|v: Vec<u8>| v@) == pairs_map(bv.take(i as int)),
            decreases base.len() - i,
        {
            let k = base[i].0.clone();
            let v = base[i].1.clone();
            assert(v@ =~= base@[i as int].1@);
            let ghost before = map.as_map();
            map.insert(k, v);
            proof {
                let t = bv.take(i as int);
                assert(bv.take(i + 1) =~= t.push(bv[i as int]));
                assert(keys_unique(t)) by {
                    assert forall|a: int, b: int| 0 <= a < t.len() && 0 <= b < t.len() && a != b implies #[trigger] t[a].0 != #[trigger] t[b].0 by {
                        assert(t[a] == bv[a] && t[b] == bv[b]);
                    }
                }
                assert(!has_key(t, bv[i as int].0)) by {
                    if has_key(t, bv[i as int].0) {
                        let a = choose|a: int| 0 <= a < t.len() && #[trigger] t[a].0 == bv[i as int].0;
                        assert(bv[a].0 == bv[i as int].0);
                    }
                }
                lemma_pairs_map_push(t, bv[i as int].0, bv[i as int].1);
                assert(map.as_map().map_values(|v: Vec<u8>| v@) =~= pairs_map(bv.take(i + 1)));
            }
            i = i + 1;
        }
        assert(bv.take(base@.len() as int) =~= bv);
        let mut j: usize = 0;
        while j < self.ops.len()
            invariant
                j <= self.ops.len(),
                ops == self.ops_view(),
                map.wf(),
                map.as_map().map_values(|v: Vec<u8>| v@) == overlay(
                    self.base().live_values(now),
                    ops.take(j as int),
                ),
            decreases self.ops.len() - j,
        {
            proof {
                assert(ops.take(j + 1).drop_last() =~= ops.take(j as int));
                assert(ops.take(j + 1).last() == ops[j as int]);
            }
            match &self.ops[j] {
                PendingOp::Put { key, value, .. } => {
                    let v = value.clone();
                    assert(v@ =~= value@);
                    map.insert(key.clone(), v);
                },
                PendingOp::Delete { key } => {
                    map.remove(key);
                },
                PendingOp::Expire { .. } => {},
            }
            proof {
                assert(map.as_map().map_values(|v: Vec<u8>| v@) =~= overlay(
                    self.base().live_values(now),
                    ops.take(j + 1),
                ));
            }
            j = j + 1;
        }
        assert(ops.take(ops.len() as int) =~= ops);
        let ghost mp = map.pairs();
        let out = map.into_vec();
        proof {
            lemma_pairs_map_values(mp, pairs_view(out@), |v: Vec<u8>| v@);
        }
        out
    }

    /// The live values as text, the buffered writes laid over them.
    pub fn list(&self) -> (r: Result<Vec<(String, String)>, Error>)
        requires
            self.wf(),
        ensures
            exists|now: u64, raw: Seq<(Seq<char>, Seq<u8>)>|
                #![trigger self.base().reads(now), pairs_map(raw)]
                self.base().reads(now) && keys_unique(raw) && pairs_map(raw) == overlay(
                    self.base().live_values(now),
                    self.ops_view(),
                ) && match r {
                    Ok(out) => decodes_pairs(text_pairs(out@), raw),
                    Err(e) => decode_failure(e) && some_undecodable(raw),
                },
    {
        let items = self.list_bytes();
        decode_pairs(&items)
    }
}


/// Once a write fails to apply, the writes after it change nothing.
proof fn lemma_apply_ops_stops(c: CacheView, ops: Seq<OpView>, times: Seq<u64>, n: int)
    requires
        0 <= n <= ops.len(),
        times.len() == ops.len(),
        !apply_ops(c, ops.take(n), times.take(n)).1,
    ensures
        apply_ops(c, ops, times) == apply_ops(c, ops.take(n), times.take(n)),
    decreases ops.len() - n,
{
    if n < ops.len() {
        let m = n + 1;
        assert(ops.take(m).drop_last() =~= ops.take(n));
        assert(times.take(m).drop_last() =~= times.take(n));
        lemma_apply_ops_stops(c, ops, times, m);
    } else {
        assert(ops.take(n) =~= ops);
        assert(times.take(n) =~= times);
    }
}

impl<'a> Transaction<'a> {
    /// The keys with live values, the buffered writes taken into account, in
    /// no particular order.
    pub fn keys(&self) -> (r: Vec<String>)
        requires
            self.wf(),
        ensures
            exists|now: u64|
                #[trigger] self.base().reads(now) && texts(r@).no_duplicates() && texts(r@).to_set()
                    == overlay(self.base().live_values(now), self.ops_view()).dom(),
    {
        let ghost ops = self.ops_view();
        let mut base_keys = self.guard.keys();
        let ghost now = choose|now: u64|
            #[trigger] self.base().reads(now) && texts(base_keys@).no_duplicates() && texts(
                base_keys@,
            ).to_set() == self.base().live_keys(now);
        assert(self.base().live_keys(now) =~= self.base().live_values(now).dom());
        let mut j: usize = 0;
        while j < self.ops.len()
            invariant
                j <= self.ops.len(),
                ops == self.ops_view(),
                texts(base_keys@).no_duplicates(),
                texts(base_keys@).to_set() == overlay(
                    self.base().live_values(now),
                    ops.take(j as int),
                ).dom(),
            decreases self.ops.len() - j,
        {
            proof {
                assert(ops.take(j + 1).drop_last() =~= ops.take(j as int));
                assert(ops.take(j + 1).last() == ops[j as int]);
            }
            let ghost before = texts(base_keys@);
            match &self.ops[j] {
                PendingOp::Put { key, .. } => {
                    if position_of(&base_keys, key).is_none() {
                        base_keys.push(key.clone());
                        proof {
                            let t = texts(base_keys@);
                            assert(t =~= before.push(key@));
                            assert(!before.contains(key@)) by {
                                if before.contains(key@) {
                                    let a = choose|a: int| 0 <= a < before.len() && before[a] == key@;
                                    assert(base_keys@[a]@ == key@);
                                }
                            }
                            assert(t.no_duplicates()) by {
                                assert forall|a: int, b: int| 0 <= a < t.len() && 0 <= b < t.len() && a != b implies t[a] != t[b] by {
                                    if a < before.len() && b < before.len() {
                                    } else if a < before.len() {
                                        assert(before.contains(t[a]));
                                    } else {
                                        assert(before.contains(t[b]));
                                    }
                                }
                            }
                            assert forall|x: Seq<char>| t.contains(x) <==> before.to_set().insert(key@).contains(x) by {
                                if t.contains(x) && x != key@ {
                                    let a = choose|a: int| 0 <= a < t.len() && t[a] == x;
                                    assert(a < before.len());
                                    assert(before[a] == x);
                                }
                                if before.contains(x) {
                                    let a = choose|a: int| 0 <= a < before.len() && before[a] == x;
                                    assert(t[a] == x);
                                }
                                if x == key@ {
                                    assert(t[before.len() as int] == x);
                                }
                            }
                            assert(t.to_set() =~= before.to_set().insert(key@));
                        }
                    } else {
                        proof {
                            let p = choose|p: int| 0 <= p < base_keys@.len() && base_keys@[p]@ == key@;
                            assert(before[p] == key@);
                            assert(before.to_set().insert(key@) =~= before.to_set());
                        }
                    }
                },
                PendingOp::Delete { key } => {
                    match position_of(&base_keys, key) {
                        Some(p) => {
                            base_keys.remove(p);
                            proof {
                                let t = texts(base_keys@);
                                assert(before[p as int] == key@);
                                assert(t =~= before.remove(p as int));
                                assert forall|a: int| 0 <= a < t.len() implies #[trigger] t[a] == before[if a < p { a } else { a + 1 }] by {}
                                assert(t.no_duplicates()) by {
                                    assert forall|a: int, b: int| 0 <= a < t.len() && 0 <= b < t.len() && a != b implies t[a] != t[b] by {
                                        let a2 = if a < p { a } else { a + 1 };
                                        let b2 = if b < p { b } else { b + 1 };
                                        assert(t[a] == before[a2] && t[b] == before[b2]);
                                    }
                                }
                                assert(t.to_set() =~= before.to_set().remove(key@)) by {
                                    assert forall|x: Seq<char>| t.contains(x) <==> before.to_set().remove(key@).contains(x) by {
                                        if t.contains(x) {
                                            let a = choose|a: int| 0 <= a < t.len() && t[a] == x;
                                            let a2 = if a < p { a } else { a + 1 };
                                            assert(before[a2] == x);
                                            assert(a2 != p);
                                        }
                                        if before.contains(x) && x != key@ {
                                            let a = choose|a: int| 0 <= a < before.len() && before[a] == x;
                                            assert(a != p);
                                            if a < p {
                                                assert(t[a] == x);
                                            } else {
                                                assert(t[a - 1] == x);
                                            }
                                        }
                                    }
                                }
                            }
                        },
                        None => {
                            proof {
                                assert(!before.contains(key@)) by {
                                    if before.contains(key@) {
                                        let a = choose|a: int| 0 <= a < before.len() && before[a] == key@;
                                        assert(base_keys@[a]@ == key@);
                                    }
                                }
                                assert(before.to_set().remove(key@) =~= before.to_set());
                            }
                        },
                    }
                },
                PendingOp::Expire { .. } => {},
            }
            proof {
                assert(texts(base_keys@).to_set() =~= overlay(
                    self.base().live_values(now),
                    ops.take(j + 1),
                ).dom());
            }
            j = j + 1;
        }
        assert(ops.take(ops.len() as int) =~= ops);
        base_keys
    }

    /// The number of keys with live values, the buffered writes taken into
    /// account.
    pub fn len(&self) -> (n: usize)
        requires
            self.wf(),
        ensures
            exists|now: u64|
                #[trigger] self.base().reads(now) && n == overlay(
                    self.base().live_values(now),
                    self.ops_view(),
                ).dom().len(),
    {
        let keys = self.keys();
        proof {
            texts(keys@).unique_seq_to_set();
        }
        keys.len()
    }

    /// Whether no key has a live value, the buffered writes taken into
    /// account.
    pub fn is_empty(&self) -> (b: bool)
        requires
            self.wf(),
        ensures
            exists|now: u64|
                #[trigger] self.base().reads(now) && b == (overlay(
                    self.base().live_values(now),
                    self.ops_view(),
                ).dom().len() == 0),
    {
        self.len() == 0
    }

    /// Applies the buffered writes to the cache, in order, all or none: when
    /// a lifetime would be set on a key that is not stored at that point,
    /// the commit fails and the cache stays as it was.
    pub fn commit(self) -> (r: Result<(), Error>)
        requires
            self.wf(),
        ensures
            final(self.guard).wf(),
            (r is Ok) == ops_apply(old(self.guard)@, self.ops_view()),
            r is Ok ==> exists|times: Seq<u64>|
                times.len() == self.ops_view().len() && (forall|i: int|
                    0 <= i < times.len() ==> old(self.guard)@.reads(#[trigger] times[i]))
                    && #[trigger] apply_ops(old(self.guard)@, self.ops_view(), times) == (
                    final(self.guard)@,
                    true,
                ),
            r is Err ==> *final(self.guard) == *old(self.guard),
            r matches Err(e) ==> e is TransactionFailed,
    {
        let ghost ops = self.ops_view();
        let ghost c0 = self.base();
        let ghost any_time: u64 = match c0.clock {
            Some(c) => c,
            None => 0,
        };
        proof {
            self.guard.lemma_wf();
        }
        let mut rec = self.guard.recency();
        let cap = self.guard.get_capacity();
        let mut i: usize = 0;
        let ghost fin = *final(self.guard);
        let ghost start = *self.guard;
        let mut failure: Option<String> = None;
        while i < self.ops.len()
            invariant_except_break
                failure is None,
            invariant
                *final(self.guard) == fin,
                *self.guard == start,
                i <= self.ops.len(),
                ops == self.ops_view(),
                c0 == self.base(),
                c0.wf(),
                c0.reads(any_time),
                cap == c0.capacity,
                keys_after_ops(c0.recency, ops.take(i as int), cap) == Some(texts(rec@)),
                texts(rec@).no_duplicates(),
            ensures
                failure is Some ==> !ops_apply(c0, ops),
                failure is None ==> i == ops.len() && keys_after_ops(c0.recency, ops.take(i as int), cap) is Some,
            decreases self.ops.len() - i,
        {
            let ghost before = texts(rec@);
            proof {
                assert(ops[i as int] == self.ops@[i as int]@);
                assert(ops.take(i + 1).drop_last() =~= ops.take(i as int));
                assert(ops.take(i + 1).last() == ops[i as int]);
                lemma_without_key(before, ops[i as int].key());
            }
            match &self.ops[i] {
                PendingOp::Put { key, .. } => {
                    drop_key(&mut rec, key);
                    let ghost dropped = texts(rec@);
                    rec.insert(0, key.clone());
                    assert(texts(rec@) =~= seq![key@] + dropped);
                    match cap {
                        Some(c) => {
                            let ghost full = texts(rec@);
                            rec.truncate(c);
                            assert(texts(rec@) =~= trim(full, cap));
                        },
                        None => {},
                    }
                    assert(keys_after_op(before, ops[i as int], cap) == Some(texts(rec@)));
                },
                PendingOp::Delete { key } => {
                    drop_key(&mut rec, key);
                    assert(keys_after_op(before, ops[i as int], cap) == Some(texts(rec@)));
                },
                PendingOp::Expire { key, .. } => {
                    let found = position_of(&rec, key);
                    if found.is_none() {
                        proof {
                            assert(!before.contains(key@)) by {
                                if before.contains(key@) {
                                    let a = choose|a: int| 0 <= a < before.len() && before[a] == key@;
                                    assert(rec@[a]@ == key@);
                                }
                            }
                            if ops_apply(c0, ops) {
                                lemma_keys_after_prefix(c0.recency, ops, cap, i + 1);
                            }
                        }
                        failure = Some(prefixed("cannot expire non-existent key: ", key.as_str()));
                        break;
                    }
                    assert(keys_after_op(before, ops[i as int], cap) == Some(texts(rec@))) by {
                        let p = found.unwrap();
                        assert(before[p as int] == key@);
                    }
                },
            }
            proof {
                let t = Seq::new((i + 1) as nat, |x: int| any_time);
                lemma_keys_after_ops(c0, ops.take(i + 1), t);
            }
            i = i + 1;
        }
        match failure {
            Some(msg) => Err(Error::TransactionFailed(msg)),
            None => {
                proof {
                    assert(ops.take(ops.len() as int) =~= ops);
                }
                self.apply_all(Ghost(any_time))
            },
        }
    }

    /// Applies the buffered writes, which all apply, to the cache in order.
    fn apply_all(self, Ghost(any_time): Ghost<u64>) -> (r: Result<(), Error>)
        requires
            self.wf(),
            ops_apply(self.base(), self.ops_view()),
            self.base().reads(any_time),
        ensures
            r is Ok,
            final(self.guard).wf(),
            exists|times: Seq<u64>|
                times.len() == self.ops_view().len() && (forall|i: int|
                    0 <= i < times.len() ==> old(self.guard)@.reads(#[trigger] times[i]))
                    && #[trigger] apply_ops(old(self.guard)@, self.ops_view(), times) == (
                    final(self.guard)@,
                    true,
                ),
    {
        let ghost ops = self.ops_view();
        let ghost c0 = self.base();
        let mut i: usize = 0;
        let ghost mut times: Seq<u64> = Seq::empty();
        let ghost fin = *final(self.guard);
        proof {
            self.guard.lemma_wf();
        }
        while i < self.ops.len()
            invariant
                *final(self.guard) == fin,
                i <= self.ops.len(),
                ops == self.ops_view(),
                self.guard.wf(),
                c0.wf(),
                ops_apply(c0, ops),
                self.base().clock == c0.clock,
                c0.reads(any_time),
                times.len() == i,
                forall|j: int| 0 <= j < times.len() ==> c0.reads(#[trigger] times[j]),
                apply_ops(c0, ops.take(i as int), times) == (self.base(), true),
            decreases self.ops.len() - i,
        {
            let ghost before = self.base();
            proof {
                assert(ops.take(i + 1).drop_last() =~= ops.take(i as int));
                assert(ops.take(i + 1).last() == ops[i as int]);
                lemma_keys_after_ops(c0, ops.take(i as int), times);
                lemma_keys_after_prefix(c0.recency, ops, c0.capacity, i + 1);
            }
            match &self.ops[i] {
                PendingOp::Put { key, value, ttl } => {
                    let v = value.clone();
                    assert(v@ =~= value@);
                    self.guard.put(key.clone(), v, *ttl);
                    proof {
                        let t = choose|t: u64| #[trigger] before.reads(t) && self.base() == before.after_put(key@, value@, *ttl, t);
                        assert((times.push(t)).drop_last() =~= times);
                        times = times.push(t);
                    }
                },
                PendingOp::Delete { key } => {
                    let _ = self.guard.delete(key.as_str());
                    proof {
                        assert((times.push(any_time)).drop_last() =~= times);
                        times = times.push(any_time);
                    }
                },
                PendingOp::Expire { key, ttl } => {
                    proof {
                        assert(before.recency.to_set().contains(key@));
                    }
                    let _ = self.guard.expire(key.as_str(), *ttl);
                    proof {
                        let t = choose|t: u64| #[trigger] before.reads(t) && self.base() == before.after_expire(key@, *ttl, t);
                        assert((times.push(t)).drop_last() =~= times);
                        times = times.push(t);
                    }
                },
            }
            i = i + 1;
        }
        proof {
            assert(ops.take(ops.len() as int) =~= ops);
        }
        Ok(())
    }
}

} // verus!
