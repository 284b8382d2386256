//! The in-memory state of the browser object store: the cached log, the
//! committed index recovered from it, and the open write batch.
//!
//! Reads, writes and deletes work on this state; publishing a batch
//! appends one transaction to the log. The file itself is written by the
//! caller between [`OpfsLog::prepare_commit`] and [`OpfsLog::finish_commit`].

use std::collections::HashMap;
use vstd::prelude::*;

use crate::opfs::{
    append_delete_record, append_put_record, append_transaction_record, file_header, parse_log,
    Entry, LogError, BEGIN, COMMIT, HASH_LEN, RECORD_HEADER_LEN,
};

verus! {

broadcast use vstd::std_specs::hash::group_hash_axioms;

/// Whether some listed hash has value `k`.
pub open spec fn listed(hashes: Seq<crate::hash::Hash>, k: u64) -> bool {
    exists|j: int| 0 <= j < hashes.len() && (#[trigger] hashes[j])@ == k
}

spec fn listed_before(keys: Seq<u64>, i: int, k: u64) -> bool {
    exists|m: int| 0 <= m < i && #[trigger] keys[m] == k
}

/// The keys of a map, each once.
pub(crate) fn map_keys<V>(m: &HashMap<u64, V>) -> (r: Vec<u64>)
    ensures
        r@.no_duplicates(),
        r@.to_set() == m@.dom(),
{
    let mut out: Vec<u64> = Vec::new();
    let ghost s = vstd::std_specs::iter::IteratorSpec::remaining(
        &vstd::std_specs::hash::spec_keys_iter(m),
    );
    for k in it: m.keys()
        invariant
            it.seq() == s,
            out@ == it.seq().take(it.index()).map_values(|r: &u64| *r),
    {
        out.push(*k);
        proof {
            assert(out@ =~= it.seq().take(it.index() + 1).map_values(|r: &u64| *r));
        }
    }
    proof {
        assert(out@ =~= s.unref());
    }
    out
}

/// The largest integer that JavaScript represents exactly (`2^53 - 1`);
/// file offsets beyond it are refused.
pub const MAX_SAFE_INTEGER: u64 = 9007199254740991;

/// A change staged by the open batch.
#[derive(Clone, Copy, Debug, PartialEq, Eq)]
pub enum PendingChange {
    /// The object's bytes are `payloads[offset..offset + len]` of the batch.
    Put {
        /// Start of the bytes in the batch arena.
        offset: usize,
        /// Number of bytes.
        len: usize,
    },
    /// The committed object is deleted.
    Delete,
}

struct ActiveBatch {
    id: u64,
    start: u64,
    changes: HashMap<u64, PendingChange>,
    // One arena avoids an allocation for every object in a large import.
    payloads: Vec<u8>,
}

struct InFlight {
    id: u64,
    start: usize,
    end: u64,
    effects: Vec<(u64, Option<Entry>)>,
    changes: Ghost<Seq<(u64, Option<Seq<u8>>)>>,
}

/// The cached object log of the browser store, with its committed index
/// and the open batch.
pub struct OpfsLog {
    log: Vec<u8>,
    entries: HashMap<u64, Entry>,
    len: u64,
    next_transaction: u64,
    active: Option<ActiveBatch>,
    in_flight: Option<InFlight>,
}

/// Why an operation of the store fails.
#[derive(Clone, Copy, Debug, PartialEq, Eq)]
pub enum OpfsError {
    /// The log is rejected when opened.
    Log(LogError),
    /// A batch is already open.
    BatchActive,
    /// The operation needs an open batch.
    NoBatch,
    /// Different bytes are already stored under the address of the written bytes.
    Collision(crate::hash::Hash),
    /// No object has this address.
    NotFound(crate::hash::Hash),
    /// The transaction would not fit in memory or in exactly representable offsets.
    TooLarge,
    /// Serialized bytes of an earlier commit are still waiting to be published.
    OutOfSync,
    /// The name of the log file is not one plain file-name component.
    InvalidFileName,
}

/// Whether `name` is one plain file-name component: not empty, not `.`
/// or `..`, and without `/` or `\`.
pub open spec fn valid_file_name(name: Seq<char>) -> bool {
    &&& name.len() > 0
    &&& name != seq!['.']
    &&& name != seq!['.', '.']
    &&& forall|i: int| 0 <= i < name.len() ==> #[trigger] name[i] != '/' && name[i] != '\\'
}

/// Checks that `name` can name the object-log file in the origin's root
/// directory.
pub fn validate_file_name(name: &str) -> (r: Result<(), OpfsError>)
    ensures
        r is Ok <==> valid_file_name(name@),
        r is Err ==> r == Err::<(), OpfsError>(OpfsError::InvalidFileName),
{
    let chars = crate::text::str_chars(name);
    let n = chars.len();
    if n == 0 {
        return Err(OpfsError::InvalidFileName);
    }
    if n == 1 && chars[0] == '.' {
        assert(name@ =~= seq!['.']);
        return Err(OpfsError::InvalidFileName);
    }
    if n == 2 && chars[0] == '.' && chars[1] == '.' {
        assert(name@ =~= seq!['.', '.']);
        return Err(OpfsError::InvalidFileName);
    }
    let mut i: usize = 0;
    while i < n
        invariant
            chars@ == name@,
            n == chars@.len(),
            i <= n,
            forall|j: int| 0 <= j < i ==> #[trigger] chars@[j] != '/' && chars@[j] != '\\',
        decreases n - i,
    {
        if chars[i] == '/' || chars[i] == '\\' {
            return Err(OpfsError::InvalidFileName);
        }
        i = i + 1;
    }
    proof {
        if name@ == seq!['.'] {
            assert(name@.len() == 1 && name@[0] == '.');
        }
        if name@ == seq!['.', '.'] {
            assert(name@.len() == 2 && name@[0] == '.' && name@[1] == '.');
        }
    }
    Ok(())
}

/// The open batch: its transaction identifier and its changes, each the
/// new bytes of an object or `None` for its deletion.
pub struct BatchView {
    /// Transaction identifier.
    pub id: u64,
    /// Staged changes by address value.
    pub changes: Map<u64, Option<Seq<u8>>>,
}

/// What the store holds.
pub struct OpfsLogView {
    /// The published log.
    pub durable: Seq<u8>,
    /// Serialized bytes of a commit not yet published.
    pub unpublished: Seq<u8>,
    /// The committed objects by address value.
    pub committed: Map<u64, Seq<u8>>,
    /// The open batch.
    pub batch: Option<BatchView>,
    /// The identifier the next batch gets.
    pub next_transaction: u64,
    /// The changes of the commit being published, in the order written.
    pub in_flight: Option<(u64, Seq<(u64, Option<Seq<u8>>)>)>,
}

/// The objects of `base` with `changes` applied.
pub open spec fn overlay(base: Map<u64, Seq<u8>>, changes: Map<u64, Option<Seq<u8>>>) -> Map<
    u64,
    Seq<u8>,
> {
    Map::new(
        |k: u64|
            if changes.contains_key(k) {
                changes[k] is Some
            } else {
                base.contains_key(k)
            },
        |k: u64|
            if changes.contains_key(k) {
                changes[k]->0
            } else {
                base[k]
            },
    )
}

impl OpfsLogView {
    /// The objects that reads see: the committed ones with the open batch applied.
    pub open spec fn visible(self) -> Map<u64, Seq<u8>> {
        match self.batch {
            Some(b) => overlay(self.committed, b.changes),
            None => self.committed,
        }
    }

    /// The change the open batch stages for `k`, if any.
    pub open spec fn staged(self, k: u64) -> Option<Option<Seq<u8>>> {
        match self.batch {
            Some(b) => if b.changes.contains_key(k) {
                Some(b.changes[k])
            } else {
                None
            },
            None => None,
        }
    }

    /// Whether writing `data` under its address `k` meets different bytes
    /// already staged or committed there.
    pub open spec fn put_conflict(self, k: u64, data: Seq<u8>) -> bool {
        match self.staged(k) {
            Some(Some(d)) => d != data,
            _ => self.committed.contains_key(k) && self.committed[k] != data,
        }
    }

    /// The batch after writing `data` under its address `k`: staged bytes
    /// and committed objects are reused, a staged deletion of the same
    /// committed bytes is cancelled, and anything else is staged.
    pub open spec fn put_batch(self, k: u64, data: Seq<u8>) -> Option<BatchView> {
        match self.batch {
            Some(b) => match self.staged(k) {
                Some(Some(d)) => self.batch,
                Some(None) => if self.committed.contains_key(k) {
                    Some(BatchView { changes: b.changes.remove(k), ..b })
                } else {
                    Some(BatchView { changes: b.changes.insert(k, Some(data)), ..b })
                },
                None => if self.committed.contains_key(k) {
                    self.batch
                } else {
                    Some(BatchView { changes: b.changes.insert(k, Some(data)), ..b })
                },
            },
            None => None,
        }
    }

    /// The batch after deleting `k`: a staged put is dropped, a committed
    /// object is staged for deletion.
    pub open spec fn remove_batch(self, k: u64) -> Option<BatchView> {
        match self.batch {
            Some(b) => match self.staged(k) {
                Some(Some(d)) => Some(BatchView { changes: b.changes.remove(k), ..b }),
                Some(None) => self.batch,
                None => if self.committed.contains_key(k) {
                    Some(BatchView { changes: b.changes.insert(k, None), ..b })
                } else {
                    self.batch
                },
            },
            None => None,
        }
    }
}

/// The bytes of a staged change.
pub open spec fn change_bytes(payloads: Seq<u8>, c: PendingChange) -> Option<Seq<u8>> {
    match c {
        PendingChange::Put { offset, len } => Some(payloads.subrange(offset as int, offset + len)),
        PendingChange::Delete => None,
    }
}

/// The objects an index locates in a log.
pub open spec fn located(log: Seq<u8>, entries: Map<u64, Entry>) -> Map<u64, Seq<u8>> {
    Map::new(
        |k: u64| entries.contains_key(k),
        |k: u64| log.subrange(entries[k].offset as int, entries[k].offset + entries[k].len),
    )
}

spec fn batch_view(a: ActiveBatch) -> BatchView {
    BatchView {
        id: a.id,
        changes: a.changes@.map_values(|c: PendingChange| change_bytes(a.payloads@, c)),
    }
}

spec fn puts_in_range(a: ActiveBatch) -> bool {
    forall|k: u64|
        #![trigger a.changes@[k]]
        a.changes@.contains_key(k) ==> (a.changes@[k] matches PendingChange::Put { offset, len }
            ==> offset + len <= a.payloads@.len())
}

spec fn batch_wf(a: ActiveBatch, entries: Map<u64, Entry>, len: u64, next: u64) -> bool {
    &&& a.start == len
    &&& crate::opfs::succ_sat(a.id) <= next
    &&& forall|k: u64|
        #![trigger a.changes@[k]]
        a.changes@.contains_key(k) ==> match a.changes@[k] {
            PendingChange::Put { offset, len } => {
                &&& offset + len <= a.payloads@.len()
                &&& crate::hash::address_of(a.payloads@.subrange(offset as int, offset + len)) == k
                &&& !entries.contains_key(k)
            },
            PendingChange::Delete => entries.contains_key(k),
        }
}

/// The index operation of a published change.
pub open spec fn effect_op(e: (u64, Option<Entry>)) -> crate::opfs::LogOp {
    match e.1 {
        Some(en) => crate::opfs::LogOp::Put(e.0, en),
        None => crate::opfs::LogOp::Delete(e.0),
    }
}

/// Changes with pairwise distinct addresses.
pub open spec fn keys_distinct(cs: Seq<(u64, Option<Seq<u8>>)>) -> bool {
    forall|i: int, j: int| 0 <= i < j < cs.len() ==> #[trigger] cs[i].0 != #[trigger] cs[j].0
}

/// The changes as a map from address value to new bytes (or `None`).
pub open spec fn changes_map(cs: Seq<(u64, Option<Seq<u8>>)>) -> Map<u64, Option<Seq<u8>>> {
    Map::new(
        |k: u64| exists|i: int| 0 <= i < cs.len() && cs[i].0 == k,
        |k: u64| cs[choose|i: int| 0 <= i < cs.len() && cs[i].0 == k].1,
    )
}

spec fn in_flight_wf(f: InFlight, log: Seq<u8>, len: u64, next: u64) -> bool {
    let cs = f.changes@;
    &&& f.start == len
    &&& log == log.subrange(0, len as int) + crate::opfs::transaction_bytes(f.id, cs)
    &&& f.end == log.len()
    &&& f.end <= MAX_SAFE_INTEGER
    &&& f.end <= usize::MAX
    &&& crate::opfs::changes_addressed(cs)
    &&& keys_distinct(cs)
    &&& f.effects@.map_values(|e: (u64, Option<Entry>)| effect_op(e)) == crate::opfs::change_ops(
        cs,
        len + 17,
    )
    &&& crate::opfs::succ_sat(f.id) <= next
}

/// The summed record length of the changes under `keys`, in order.
spec fn keys_len(keys: Seq<u64>, m: Map<u64, Option<Seq<u8>>>) -> int
    decreases keys.len(),
{
    if keys.len() == 0 {
        0
    } else {
        keys_len(keys.drop_last(), m) + crate::opfs::change_len(m[keys.last()])
    }
}

/// The changes of `m` under `keys`, in the order of `keys`.
spec fn keyed_changes(keys: Seq<u64>, m: Map<u64, Option<Seq<u8>>>) -> Seq<(u64, Option<Seq<u8>>)> {
    keys.map_values(|k: u64| (k, m[k]))
}

proof fn lemma_keyed_records_len(keys: Seq<u64>, m: Map<u64, Option<Seq<u8>>>)
    ensures
        crate::opfs::change_records(keyed_changes(keys, m)).len() == keys_len(keys, m),
        keys_len(keys, m) >= 0,
    decreases keys.len(),
{
    if keys.len() > 0 {
        let cs = keyed_changes(keys, m);
        assert(cs.drop_last() =~= keyed_changes(keys.drop_last(), m));
        lemma_keyed_records_len(keys.drop_last(), m);
        vstd::bytes::lemma_auto_spec_u64_to_from_le_bytes();
        let k = keys.last();
        assert(cs.last() == (k, m[k]));
        match m[k] {
            Some(d) => crate::opfs::lemma_record_len(crate::opfs::PUT, crate::opfs::key_bytes(k) + d),
            None => crate::opfs::lemma_record_len(crate::opfs::DELETE, crate::opfs::key_bytes(k)),
        }
    }
}

proof fn lemma_keys_len_prefix(keys: Seq<u64>, m: Map<u64, Option<Seq<u8>>>, i: int)
    requires
        0 <= i <= keys.len(),
    ensures
        keys_len(keys.take(i), m) <= keys_len(keys, m),
    decreases keys.len(),
{
    if i < keys.len() {
        lemma_keys_len_prefix(keys.drop_last(), m, i);
        assert(keys.drop_last().take(i) =~= keys.take(i));
    } else {
        assert(keys.take(i) =~= keys);
    }
}

proof fn lemma_keys_len_agree(keys: Seq<u64>, m1: Map<u64, Option<Seq<u8>>>, m2: Map<u64, Option<Seq<u8>>>)
    requires
        forall|j: int| 0 <= j < keys.len() ==> m1[#[trigger] keys[j]] == m2[keys[j]],
    ensures
        keys_len(keys, m1) == keys_len(keys, m2),
    decreases keys.len(),
{
    if keys.len() > 0 {
        assert forall|j: int| 0 <= j < keys.drop_last().len() implies m1[#[trigger] keys.drop_last()[j]] == m2[keys.drop_last()[j]] by {
            assert(keys.drop_last()[j] == keys[j]);
        }
        lemma_keys_len_agree(keys.drop_last(), m1, m2);
        assert(m1[keys[keys.len() - 1]] == m2[keys[keys.len() - 1]]);
    }
}

/// Summing the changes in the order of a listing of their keys gives
/// [`crate::opfs::changes_len`].
proof fn lemma_keys_len_total(keys: Seq<u64>, m: Map<u64, Option<Seq<u8>>>)
    requires
        keys.no_duplicates(),
        keys.to_set() == m.dom(),
    ensures
        m.dom().finite(),
        keys_len(keys, m) == crate::opfs::changes_len(m),
    decreases keys.len(),
{
    vstd::seq_lib::seq_to_set_is_finite(keys);
    if keys.len() == 0 {
        assert(m.dom() =~= Set::<u64>::empty()) by {
            assert forall|k: u64| !m.dom().contains(k) by {
                if m.dom().contains(k) {
                    assert(keys.to_set().contains(k));
                }
            }
        }
    } else {
        let last = keys.last();
        let init = keys.drop_last();
        let m2 = m.remove(last);
        assert(keys.to_set().contains(last)) by {
            assert(keys[keys.len() - 1] == last);
        }
        assert(init.no_duplicates()) by {
            assert forall|a: int, b: int| 0 <= a < init.len() && 0 <= b < init.len() && a != b implies init[a] != init[b] by {
                assert(init[a] == keys[a]);
                assert(init[b] == keys[b]);
            }
        }
        assert(init.to_set() =~= m2.dom()) by {
            assert forall|k: u64| init.to_set().contains(k) implies m2.dom().contains(k) by {
                let j = choose|j: int| 0 <= j < init.len() && init[j] == k;
                assert(keys[j] == k);
                assert(keys.to_set().contains(k));
                assert(keys[keys.len() - 1] == last);
            }
            assert forall|k: u64| m2.dom().contains(k) implies init.to_set().contains(k) by {
                assert(keys.to_set().contains(k));
                let j = choose|j: int| 0 <= j < keys.len() && keys[j] == k;
                assert(j != keys.len() - 1);
                assert(init[j] == k);
            }
        }
        lemma_keys_len_total(init, m2);
        assert forall|j: int| 0 <= j < init.len() implies m[#[trigger] init[j]] == m2[init[j]] by {
            assert(init[j] == keys[j]);
            assert(keys[keys.len() - 1] == last);
        }
        lemma_keys_len_agree(init, m, m2);
        crate::opfs::lemma_changes_len_remove(m, last);
    }
}

/// The changes listed under distinct keys that cover the map are the map.
proof fn lemma_keyed_changes_map(keys: Seq<u64>, m: Map<u64, Option<Seq<u8>>>)
    requires
        keys.no_duplicates(),
        keys.to_set() == m.dom(),
    ensures
        keys_distinct(keyed_changes(keys, m)),
        changes_map(keyed_changes(keys, m)) == m,
{
    let cs = keyed_changes(keys, m);
    assert forall|i: int, j: int| 0 <= i < j < cs.len() implies #[trigger] cs[i].0 != #[trigger] cs[j].0 by {
        assert(cs[i].0 == keys[i]);
        assert(cs[j].0 == keys[j]);
    }
    assert forall|k: u64| #[trigger] changes_map(cs).contains_key(k) == m.contains_key(k) by {
        if m.contains_key(k) {
            assert(keys.to_set().contains(k));
            let j = choose|j: int| 0 <= j < keys.len() && keys[j] == k;
            assert(cs[j].0 == k);
        }
        if changes_map(cs).contains_key(k) {
            let j = choose|j: int| 0 <= j < cs.len() && cs[j].0 == k;
            assert(keys[j] == k);
            assert(keys.to_set().contains(k));
        }
    }
    assert forall|k: u64| #[trigger] m.contains_key(k) implies changes_map(cs)[k] == m[k] by {
        assert(keys.to_set().contains(k));
        let j0 = choose|j: int| 0 <= j < keys.len() && keys[j] == k;
        assert(cs[j0].0 == k);
        let j = choose|j: int| 0 <= j < cs.len() && cs[j].0 == k;
        assert(cs[j] == (keys[j], m[keys[j]]));
    }
    assert(changes_map(cs) =~= m);
}

/// Publishing a transaction of distinct changes after a log whose index
/// is sound gives the committed objects with the changes applied.
proof fn lemma_published_objects(
    durable: Seq<u8>,
    entries: Map<u64, Entry>,
    id: u64,
    cs: Seq<(u64, Option<Seq<u8>>)>,
)
    requires
        crate::opfs::entries_sound(durable, entries, durable.len() as int),
        keys_distinct(cs),
        durable.len() + crate::opfs::transaction_bytes(id, cs).len() <= usize::MAX,
    ensures
        located(
            durable + crate::opfs::transaction_bytes(id, cs),
            crate::opfs::apply_ops(entries, crate::opfs::change_ops(cs, durable.len() as int + 17)),
        ) == overlay(located(durable, entries), changes_map(cs)),
{
    let base = durable.len() as int + 17;
    let tx = crate::opfs::transaction_bytes(id, cs);
    let b2 = durable + tx;
    let ops = crate::opfs::change_ops(cs, base);
    let e2 = crate::opfs::apply_ops(entries, ops);
    let recs = crate::opfs::change_records(cs);
    let begin = crate::opfs::record_bytes(crate::opfs::BEGIN, crate::codec::be_bytes(id));
    crate::codec::lemma_be_u64_of_be_bytes(id);
    crate::opfs::lemma_record_len(crate::opfs::BEGIN, crate::codec::be_bytes(id));
    vstd::bytes::lemma_auto_spec_u64_to_from_le_bytes();
    if cs.len() > 0 {
        crate::opfs::lemma_change_layout(cs, base, 0);
    }
    assert forall|i: int| 0 <= i < cs.len() implies crate::opfs::op_key(#[trigger] ops[i]) == cs[i].0 by {
        crate::opfs::lemma_change_layout(cs, base, i);
    }
    assert forall|i: int, j: int| 0 <= i < j < ops.len() implies crate::opfs::op_key(#[trigger] ops[i])
        != crate::opfs::op_key(#[trigger] ops[j]) by {
        assert(crate::opfs::op_key(ops[i]) == cs[i].0);
        assert(crate::opfs::op_key(ops[j]) == cs[j].0);
    }
    crate::opfs::lemma_apply_distinct_ops(entries, ops);
    let lhs = located(b2, e2);
    let rhs = overlay(located(durable, entries), changes_map(cs));
    assert forall|k: u64| #[trigger] lhs.contains_key(k) == rhs.contains_key(k) && (lhs.contains_key(k) ==> lhs[k] == rhs[k]) by {
        if changes_map(cs).contains_key(k) {
            let i = choose|i: int| 0 <= i < cs.len() && cs[i].0 == k;
            crate::opfs::lemma_change_layout(cs, base, i);
            assert(crate::opfs::op_key(ops[i]) == k);
            match cs[i].1 {
                Some(d) => {
                    let r = crate::opfs::change_records(cs.take(i)).len() as int;
                    let rec = crate::opfs::change_record(cs[i]);
                    let o = base + r + 41;
                    assert(e2[k] == Entry { offset: o as u64, len: d.len() as u64 });
                    assert(rec == crate::opfs::record_bytes(crate::opfs::PUT, crate::opfs::key_bytes(k) + d));
                    crate::opfs::lemma_record_len(crate::opfs::PUT, crate::opfs::key_bytes(k) + d);
                    assert(tx == begin + recs + crate::opfs::record_bytes(crate::opfs::COMMIT, crate::codec::be_bytes(id)));
                    let s1 = b2.subrange(o, o + d.len());
                    let s2 = recs.subrange(r + 41, r + 41 + d.len());
                    let s3 = rec.subrange(41, 41 + d.len() as int);
                    let s4 = recs.subrange(r, r + rec.len());
                    assert(s4 == rec);
                    assert forall|x: int| 0 <= x < d.len() implies #[trigger] s1[x] == s2[x] by {
                        assert(b2[o + x] == tx[17 + r + 41 + x]);
                        assert(tx[17 + r + 41 + x] == (begin + recs)[17 + r + 41 + x]);
                        assert((begin + recs)[17 + r + 41 + x] == recs[r + 41 + x]);
                    }
                    assert forall|x: int| 0 <= x < d.len() implies #[trigger] s2[x] == s3[x] by {
                        assert(s4[41 + x] == recs[r + 41 + x]);
                    }
                    assert(s1 =~= s2);
                    assert(s2 =~= s3);
                    assert(rec.subrange(41, 41 + d.len() as int) =~= d);
                    assert(lhs[k] == d);
                    assert(rhs[k] == d);
                    assert(rec.subrange(41, 41 + d.len() as int) =~= d);
                },
                None => {},
            }
        } else {
            assert forall|i: int| 0 <= i < ops.len() implies crate::opfs::op_key(#[trigger] ops[i]) != k by {
                assert(crate::opfs::op_key(ops[i]) == cs[i].0);
                if cs[i].0 == k {
                    assert(changes_map(cs).contains_key(k));
                }
            }
            if entries.contains_key(k) {
                let e = entries[k];
                assert(e.offset + e.len <= durable.len());
                assert(b2.subrange(e.offset as int, e.offset + e.len) =~= durable.subrange(e.offset as int, e.offset + e.len));
            }
        }
    }
    assert(lhs =~= rhs);
}

/// The summed record length of the batch's changes in the order of
/// `keys`, or `None` when it exceeds `usize::MAX`.
fn records_len(a: &ActiveBatch, keys: &Vec<u64>) -> (r: Option<usize>)
    requires
        keys@.to_set() == a.changes@.dom(),
        puts_in_range(*a),
    ensures
        match r {
            Some(n) => n == keys_len(keys@, batch_view(*a).changes),
            None => keys_len(keys@, batch_view(*a).changes) > usize::MAX,
        },
{
    let ghost m = batch_view(*a).changes;
    let mut records: usize = 0;
    let mut i: usize = 0;
    while i < keys.len()
        invariant
            i <= keys@.len(),
            keys@.to_set() == a.changes@.dom(),
            m == batch_view(*a).changes,
            puts_in_range(*a),
            records == keys_len(keys@.take(i as int), m),
        decreases keys@.len() - i,
    {
        let k = keys[i];
        assert(keys@.to_set().contains(k));
        proof {
            assert(keys@.take(i + 1).drop_last() =~= keys@.take(i as int));
            assert(keys@.take(i + 1).last() == k);
            lemma_keys_len_prefix(keys@, m, i + 1);
            lemma_keyed_records_len(keys@.take(i as int), m);
            lemma_keyed_records_len(keys@, m);
        }
        let n: usize = match a.changes.get(&k) {
            Some(PendingChange::Put { len, .. }) => match len.checked_add(41) {
                Some(n) => n,
                None => {
                    return None;
                },
            },
            _ => 41,
        };
        assert(n == crate::opfs::change_len(m[k]));
        records = match records.checked_add(n) {
            Some(t) => t,
            None => {
                return None;
            },
        };
        i = i + 1;
    }
    assert(keys@.take(keys@.len() as int) =~= keys@);
    Some(records)
}

/// Appends the transaction of the batch's changes, in the order of `keys`,
/// to `log`, and returns the index operation of each change.
fn serialize_batch(
    log: &mut Vec<u8>,
    a: &ActiveBatch,
    keys: &Vec<u64>,
    tx_len: usize,
) -> (r: (Vec<(u64, Option<Entry>)>, Ghost<Seq<(u64, Option<Seq<u8>>)>>))
    requires
        keys@.to_set() == a.changes@.dom(),
        puts_in_range(*a),
        tx_len == keys_len(keys@, batch_view(*a).changes) + 34,
        old(log)@.len() + tx_len <= usize::MAX,
    ensures
        r.1@ == keyed_changes(keys@, batch_view(*a).changes),
        final(log)@ == old(log)@ + crate::opfs::transaction_bytes(a.id, r.1@),
        r.0@.map_values(|e: (u64, Option<Entry>)| effect_op(e)) == crate::opfs::change_ops(
            r.1@,
            old(log)@.len() as int + 17,
        ),
{
    let ghost m = batch_view(*a).changes;
    let ghost log0 = log@;
    let ghost id = a.id;
    let ghost start: int = log@.len() as int;
    append_transaction_record(log, BEGIN, a.id);
    proof {
        crate::codec::lemma_be_u64_of_be_bytes(a.id);
        crate::opfs::lemma_record_len(BEGIN, crate::codec::be_bytes(a.id));
        vstd::bytes::lemma_auto_spec_u64_to_from_le_bytes();
    }
    let mut effects: Vec<(u64, Option<Entry>)> = Vec::new();
    let ghost mut cs: Seq<(u64, Option<Seq<u8>>)> = Seq::empty();
    let mut i: usize = 0;
    while i < keys.len()
        invariant
            i <= keys@.len(),
            keys@.to_set() == a.changes@.dom(),
            m == batch_view(*a).changes,
            puts_in_range(*a),
            log0.len() == start,
            start + tx_len <= usize::MAX,
            tx_len == keys_len(keys@, m) + 34,
            cs == keyed_changes(keys@.take(i as int), m),
            log@ == log0 + crate::opfs::record_bytes(BEGIN, crate::codec::be_bytes(id))
                + crate::opfs::change_records(cs),
            crate::opfs::record_bytes(BEGIN, crate::codec::be_bytes(id)).len() == 17,
            effects@.map_values(|e: (u64, Option<Entry>)| effect_op(e)) == crate::opfs::change_ops(
                cs,
                start + 17,
            ),
            forall|x: u64| #[trigger] crate::opfs::key_bytes(x).len() == 32,
            forall|s: Seq<u8>|
                s.len() == 8 ==> #[trigger] vstd::bytes::spec_u64_to_le_bytes(
                    vstd::bytes::spec_u64_from_le_bytes(s),
                ) == s,
        decreases keys@.len() - i,
    {
        let k = keys[i];
        assert(keys@.to_set().contains(k));
        proof {
            lemma_keyed_records_len(keys@.take(i as int), m);
            lemma_keyed_records_len(keys@.take(i + 1), m);
            lemma_keys_len_prefix(keys@, m, i + 1);
            assert(keys@.take(i + 1).drop_last() =~= keys@.take(i as int));
            assert(keys@.take(i + 1).last() == k);
        }
        let h = crate::hash::Hash::from_u64(k);
        proof {
            assert(h.0@.len() == 8);
            assert(crate::opfs::key_bytes(k) == h.0@ + crate::opfs::zero_padding());
        }
        let record_start = log.len();
        let ghost c = (k, m[k]);
        match a.changes.get(&k) {
            Some(PendingChange::Put { offset, len }) => {
                let n = a.payloads.len();
                let data = vstd::slice::slice_subrange(a.payloads.as_slice(), *offset, *offset + *len);
                proof {
                    assert(m[k] == Some(data@));
                    crate::opfs::lemma_record_len(crate::opfs::PUT, crate::opfs::key_bytes(k) + data@);
                    assert(crate::opfs::key_bytes(k) + data@ == h.0@ + crate::opfs::zero_padding() + data@);
                }
                append_put_record(log, h, data);
                effects.push((k, Some(Entry { offset: (record_start + 41) as u64, len: *len as u64 })));
            },
            _ => {
                proof {
                    assert(m[k] == None::<Seq<u8>>);
                }
                append_delete_record(log, h);
                effects.push((k, None));
            },
        }
        proof {
            let cs2 = cs.push(c);
            assert(cs2 =~= keyed_changes(keys@.take(i + 1), m));
            assert(cs2.drop_last() =~= cs);
            assert(log@ =~= log0 + crate::opfs::record_bytes(BEGIN, crate::codec::be_bytes(id))
                + crate::opfs::change_records(cs2));
            assert(effects@.map_values(|e: (u64, Option<Entry>)| effect_op(e)) =~= crate::opfs::change_ops(
                cs2,
                start + 17,
            ));
            cs = cs2;
        }
        i = i + 1;
    }
    append_transaction_record(log, COMMIT, a.id);
    proof {
        assert(keys@.take(keys@.len() as int) =~= keys@);
        assert(log@ =~= log0 + crate::opfs::transaction_bytes(id, cs));
    }
    (effects, Ghost(cs))
}

impl View for OpfsLog {
    type V = OpfsLogView;

    closed spec fn view(&self) -> OpfsLogView {
        let durable = self.log@.subrange(0, self.len as int);
        OpfsLogView {
            durable,
            unpublished: self.log@.subrange(self.len as int, self.log@.len() as int),
            committed: located(durable, self.entries@),
            batch: match self.active {
                Some(a) => Some(batch_view(a)),
                None => None,
            },
            next_transaction: self.next_transaction,
            in_flight: match self.in_flight {
                Some(f) => Some((f.id, f.changes@)),
                None => None,
            },
        }
    }
}

/// Whether `r` is what opening the log file holding `bytes` gives (an
/// empty file is read as a bare header): the store of the committed
/// transactions, with no batch, or the reason the log is rejected.
pub open spec fn opened_from(bytes: Seq<u8>, r: Result<OpfsLog, OpfsError>) -> bool {
    let b = if bytes.len() == 0 {
        crate::opfs::file_header_spec()
    } else {
        bytes
    };
    match (r, crate::opfs::parse_log_spec(b)) {
        (Ok(s), Ok(p)) => {
            &&& s.wf()
            &&& s@.durable == b.subrange(0, p.valid_len)
            &&& s@.unpublished.len() == 0
            &&& s@.committed == located(b, p.entries)
            &&& s@.batch is None
            &&& s@.in_flight is None
            &&& s@.next_transaction == p.next_transaction
        },
        (Err(e), Err(f)) => e == OpfsError::Log(f),
        _ => false,
    }
}

impl OpfsLog {
    /// The store's invariant: the published log is made of committed
    /// transactions and reopening it yields the committed index; every
    /// indexed and every staged object has its address; staged puts are
    /// not committed and staged deletes are.
    pub closed spec fn wf(&self) -> bool {
        let durable = self.log@.subrange(0, self.len as int);
        &&& self.len <= self.log@.len()
        &&& crate::opfs::parse_log_spec(durable) matches Ok(p) && p.valid_len == self.len
            && p.entries == self.entries@ && p.next_transaction <= self.next_transaction
        &&& crate::opfs::entries_sound(durable, self.entries@, self.len as int)
        &&& match self.active {
            Some(a) => batch_wf(a, self.entries@, self.len, self.next_transaction),
            None => true,
        }
        &&& match self.in_flight {
            Some(f) => in_flight_wf(f, self.log@, self.len, self.next_transaction),
            None => self.log@.len() == self.len,
        }
    }

    /// Every visible object has its address; the published log reopens
    /// to the committed objects.
    pub proof fn lemma_wf_properties(&self)
        requires
            self.wf(),
        ensures
            forall|k: u64| #[trigger]
                self@.visible().contains_key(k) ==> crate::hash::address_of(self@.visible()[k])
                    == k,
            crate::opfs::parse_log_spec(self@.durable) matches Ok(p) && p.valid_len
                == self@.durable.len() && located(self@.durable, p.entries) == self@.committed,
    {
        let durable = self.log@.subrange(0, self.len as int);
        assert forall|k: u64| #[trigger]
            self@.visible().contains_key(k) implies crate::hash::address_of(self@.visible()[k])
            == k by {
            match self.active {
                Some(a) => {
                    if a.changes@.contains_key(k) {
                        let c = a.changes@[k];
                    } else {
                        assert(self.entries@[k] == self.entries@[k]);
                    }
                },
                None => {
                    assert(self.entries@[k] == self.entries@[k]);
                },
            }
        }
    }

    /// Opens the log held in `bytes` (an empty file gets a header). A
    /// crash tail after the last committed transaction is dropped from the
    /// cache; the caller truncates the file to [`OpfsLog::durable_len`].
    pub fn from_file_bytes(bytes: Vec<u8>) -> (r: Result<OpfsLog, OpfsError>)
        ensures
            opened_from(bytes@, r),
    {
        let mut log = if bytes.len() == 0 {
            crate::codec::to_vec(&file_header())
        } else {
            bytes
        };
        let parsed = match parse_log(log.as_slice()) {
            Ok(p) => p,
            Err(e) => {
                return Err(OpfsError::Log(e));
            },
        };
        let ghost b = log@;
        proof {
            crate::opfs::lemma_truncated_log_recovered(b);
            crate::opfs::lemma_recovered_entries_addressed(b);
        }
        log.truncate(parsed.valid_len as usize);
        let s = OpfsLog {
            log,
            entries: parsed.entries,
            len: parsed.valid_len,
            next_transaction: parsed.next_transaction,
            active: None,
            in_flight: None,
        };
        proof {
            let p = crate::opfs::parse_log_spec(b)->Ok_0;
            let durable = s.log@.subrange(0, s.len as int);
            assert(durable =~= b.subrange(0, p.valid_len));
            assert(s.log@ =~= durable);
            assert forall|k: u64| #[trigger]
                s.entries@.contains_key(k) implies b.subrange(
                s.entries@[k].offset as int,
                s.entries@[k].offset + s.entries@[k].len,
            ) =~= durable.subrange(
                s.entries@[k].offset as int,
                s.entries@[k].offset + s.entries@[k].len,
            ) by {
                assert(s.entries@[k] == p.entries[k]);
            }
            assert(s@.committed =~= located(b, p.entries));
            assert(crate::opfs::entries_sound(durable, s.entries@, s.len as int));
        }
        Ok(s)
    }

    /// Length of the published log.
    pub fn durable_len(&self) -> (n: u64)
        requires
            self.wf(),
        ensures
            n == self@.durable.len(),
    {
        self.len
    }

    /// The serialized bytes of a commit that the caller must still write at
    /// [`OpfsLog::durable_len`] and flush.
    pub fn unpublished(&self) -> (r: &[u8])
        requires
            self.wf(),
        ensures
            r@ == self@.unpublished,
    {
        vstd::slice::slice_subrange(self.log.as_slice(), self.len as usize, self.log.len())
    }

    /// Opens a batch with the next transaction identifier.
    pub fn begin(&mut self) -> (r: Result<(), OpfsError>)
        requires
            old(self).wf(),
        ensures
            final(self).wf(),
            old(self)@.batch is Some ==> r == Err::<(), OpfsError>(OpfsError::BatchActive)
                && final(self)@ == old(self)@,
            old(self)@.batch is None ==> r is Ok && final(self)@ == (OpfsLogView {
                batch: Some(BatchView { id: old(self)@.next_transaction, changes: Map::empty() }),
                next_transaction: crate::opfs::succ_sat(old(self)@.next_transaction),
                ..old(self)@
            }),
    {
        if self.active.is_some() {
            return Err(OpfsError::BatchActive);
        }
        let id = self.next_transaction;
        self.next_transaction = self.next_transaction.saturating_add(1);
        self.active = Some(
            ActiveBatch { id, start: self.len, changes: HashMap::new(), payloads: Vec::new() },
        );
        proof {
            let a = self.active->0;
            assert(batch_view(a).changes =~= Map::<u64, Option<Seq<u8>>>::empty());
        }
        Ok(())
    }

    /// Discards the open batch, if any.
    pub fn rollback(&mut self) -> (r: Result<(), OpfsError>)
        requires
            old(self).wf(),
        ensures
            final(self).wf(),
            r is Ok,
            final(self)@ == (OpfsLogView { batch: None, ..old(self)@ }),
    {
        self.active = None;
        Ok(())
    }

    fn entry_bytes(&self, e: Entry) -> (r: &[u8])
        requires
            e.offset + e.len <= self.len <= self.log@.len(),
        ensures
            r@ == self.log@.subrange(0, self.len as int).subrange(
                e.offset as int,
                e.offset + e.len,
            ),
    {
        proof {
            assert(self.log@.subrange(0, self.len as int).subrange(e.offset as int, e.offset + e.len)
                =~= self.log@.subrange(e.offset as int, e.offset + e.len));
        }
        let n = self.log.len();
        vstd::slice::slice_subrange(
            self.log.as_slice(),
            e.offset as usize,
            (e.offset + e.len) as usize,
        )
    }

    /// Reads the object stored under `hash`: a staged put, or else a
    /// committed object that is not staged for deletion.
    pub fn read(&self, hash: crate::hash::Hash) -> (r: Result<Vec<u8>, OpfsError>)
        requires
            self.wf(),
        ensures
            self@.visible().contains_key(hash@) ==> r is Ok && r->Ok_0@ == self@.visible()[hash@]
                && crate::hash::address_of(r->Ok_0@) == hash@,
            !self@.visible().contains_key(hash@) ==> r == Err::<Vec<u8>, OpfsError>(
                OpfsError::NotFound(hash),
            ),
    {
        proof {
            self.lemma_wf_properties();
        }
        let k = hash.to_u64();
        match &self.active {
            Some(a) => {
                match a.changes.get(&k) {
                    Some(change) => {
                        let n = a.payloads.len();
                        proof {
                            assert(a.changes@[k] == *change);
                        }
                        return match *change {
                            PendingChange::Put { offset, len } => {
                                Ok(
                                    crate::codec::to_vec(
                                        vstd::slice::slice_subrange(
                                            a.payloads.as_slice(),
                                            offset,
                                            offset + len,
                                        ),
                                    ),
                                )
                            },
                            PendingChange::Delete => Err(OpfsError::NotFound(hash)),
                        };
                    },
                    None => {},
                }
            },
            None => {},
        }
        match self.entries.get(&k) {
            Some(e) => Ok(crate::codec::to_vec(self.entry_bytes(*e))),
            None => Err(OpfsError::NotFound(hash)),
        }
    }

    /// Writes `data` under its address into the open batch (see
    /// [`OpfsLogView::put_batch`]); the written bytes are then visible.
    pub fn put(&mut self, data: &[u8]) -> (r: Result<crate::hash::Hash, OpfsError>)
        requires
            old(self).wf(),
        ensures
            final(self).wf(),
            ({
                let k = crate::hash::address_of(data@);
                let v = old(self)@;
                &&& r is Ok <==> !v.put_conflict(k, data@) && !(v.batch is None
                    && !v.committed.contains_key(k))
                &&& v.put_conflict(k, data@) ==> (r matches Err(OpfsError::Collision(h)) && h@ == k)
                &&& !v.put_conflict(k, data@) && v.batch is None && !v.committed.contains_key(k)
                    ==> r == Err::<crate::hash::Hash, OpfsError>(OpfsError::NoBatch)
                &&& r is Err ==> final(self)@ == v
                &&& r matches Ok(h) ==> (h@ == k && final(self)@ == (OpfsLogView {
                    batch: v.put_batch(k, data@),
                    ..v
                }) && final(self)@.visible() == v.visible().insert(k, data@))
            }),
    {
        let hash = crate::hash::Hash::digest(data);
        let k = hash.to_u64();
        let ghost v = self@;
        proof {
            self.lemma_wf_properties();
        }
        let staged: Option<PendingChange> = match &self.active {
            Some(a) => match a.changes.get(&k) {
                Some(c) => Some(*c),
                None => None,
            },
            None => None,
        };
        match staged {
            Some(PendingChange::Put { offset, len }) => {
                let a = self.active.as_ref().unwrap();
                let n = a.payloads.len();
                proof {
                    assert(a.changes@[k] == PendingChange::Put { offset, len });
                }
                let existing = vstd::slice::slice_subrange(a.payloads.as_slice(), offset, offset + len);
                if !crate::codec::bytes_equal(existing, data) {
                    return Err(OpfsError::Collision(hash));
                }
                proof {
                    assert(self@.visible() =~= v.visible().insert(k, data@));
                }
                return Ok(hash);
            },
            Some(PendingChange::Delete) => {
                match self.entries.get(&k) {
                    Some(e) => {
                        let existing = self.entry_bytes(*e);
                        if !crate::codec::bytes_equal(existing, data) {
                            return Err(OpfsError::Collision(hash));
                        }
                        let mut a = self.active.take().unwrap();
                        a.changes.remove(&k);
                        self.active = Some(a);
                        proof {
                            let a2 = self.active->0;
                            assert(batch_view(a2).changes =~= v.batch->0.changes.remove(k));
                            assert(self@.visible() =~= v.visible().insert(k, data@));
                        }
                        return Ok(hash);
                    },
                    None => {},
                }
            },
            None => {},
        }
        match self.entries.get(&k) {
            Some(e) => {
                let existing = self.entry_bytes(*e);
                if !crate::codec::bytes_equal(existing, data) {
                    return Err(OpfsError::Collision(hash));
                }
                proof {
                    assert(self@.visible() =~= v.visible().insert(k, data@));
                }
                return Ok(hash);
            },
            None => {},
        }
        if self.active.is_none() {
            return Err(OpfsError::NoBatch);
        }
        let mut a = self.active.take().unwrap();
        let offset = a.payloads.len();
        let ghost old_payloads = a.payloads@;
        crate::codec::push_all(&mut a.payloads, data);
        a.changes.insert(k, PendingChange::Put { offset, len: data.len() });
        self.active = Some(a);
        proof {
            let a2 = self.active->0;
            assert(a2.payloads@.subrange(offset as int, offset + data@.len()) =~= data@);
            assert forall|j: u64| #[trigger] a2.changes@.contains_key(j) && j != k implies
                change_bytes(a2.payloads@, a2.changes@[j]) == change_bytes(old_payloads, a2.changes@[j]) by {
                match a2.changes@[j] {
                    PendingChange::Put { offset: o, len: l } => {
                        assert(a2.payloads@.subrange(o as int, o + l) =~= old_payloads.subrange(o as int, o + l));
                    },
                    PendingChange::Delete => {},
                }
            }
            assert(batch_view(a2).changes =~= v.batch->0.changes.insert(k, Some(data@)));
            assert(self@.visible() =~= v.visible().insert(k, data@));
        }
        Ok(hash)
    }

    /// Deletes the object stored under `hash` in the open batch (see
    /// [`OpfsLogView::remove_batch`]); it is then no longer visible.
    pub fn remove(&mut self, hash: crate::hash::Hash) -> (r: Result<(), OpfsError>)
        requires
            old(self).wf(),
        ensures
            final(self).wf(),
            old(self)@.batch is None ==> r == Err::<(), OpfsError>(OpfsError::NoBatch)
                && final(self)@ == old(self)@,
            old(self)@.batch is Some ==> r is Ok && final(self)@ == (OpfsLogView {
                batch: old(self)@.remove_batch(hash@),
                ..old(self)@
            }) && final(self)@.visible() == old(self)@.visible().remove(hash@),
    {
        let ghost v = self@;
        proof {
            self.lemma_wf_properties();
        }
        let k = hash.to_u64();
        let mut a = match self.active.take() {
            Some(a) => a,
            None => {
                return Err(OpfsError::NoBatch);
            },
        };
        let staged: Option<PendingChange> = match a.changes.get(&k) {
            Some(c) => Some(*c),
            None => None,
        };
        match staged {
            Some(PendingChange::Put { .. }) => {
                a.changes.remove(&k);
            },
            Some(PendingChange::Delete) => {},
            None => {
                if self.entries.contains_key(&k) {
                    a.changes.insert(k, PendingChange::Delete);
                }
            },
        }
        self.active = Some(a);
        proof {
            let a2 = self.active->0;
            assert(batch_view(a2).changes =~= v.remove_batch(k)->0.changes);
            assert(self@.visible() =~= v.visible().remove(k));
        }
        Ok(())
    }

    /// The addresses of all visible objects, each once.
    pub fn list(&self) -> (r: Vec<crate::hash::Hash>)
        requires
            self.wf(),
        ensures
            forall|i: int| 0 <= i < r@.len() ==> self@.visible().contains_key(#[trigger] r@[i]@),
            forall|k: u64| #[trigger]
                self@.visible().contains_key(k) ==> listed(r@, k),
            forall|i: int, j: int| 0 <= i < j < r@.len() ==> #[trigger] r@[i]@ != #[trigger] r@[j]@,
    {
        let ghost vis = self@.visible();
        let keys = map_keys(&self.entries);
        let mut out: Vec<crate::hash::Hash> = Vec::new();
        let mut i: usize = 0;
        while i < keys.len()
            invariant
                self.wf(),
                vis == self@.visible(),
                keys@.no_duplicates(),
                keys@.to_set() == self.entries@.dom(),
                i <= keys@.len(),
                forall|j: int| 0 <= j < out@.len() ==> vis.contains_key(#[trigger] out@[j]@),
                forall|j: int| 0 <= j < out@.len() ==> self.entries@.contains_key(#[trigger] out@[j]@),
                forall|j: int| 0 <= j < out@.len() ==> listed_before(keys@, i as int, #[trigger] out@[j]@),
                forall|m: int| 0 <= m < i && vis.contains_key(#[trigger] keys@[m]) ==> listed(out@, keys@[m]),
                forall|a: int, b: int| 0 <= a < b < out@.len() ==> #[trigger] out@[a]@ != #[trigger] out@[b]@,
            decreases keys@.len() - i,
        {
            let k = keys[i];
            assert(keys@.to_set().contains(k));
            let hidden = match &self.active {
                Some(a) => match a.changes.get(&k) {
                    Some(PendingChange::Delete) => true,
                    _ => false,
                },
                None => false,
            };
            let ghost before = out@;
            if !hidden {
                out.push(crate::hash::Hash::from_u64(k));
            }
            proof {
                assert(hidden <==> !vis.contains_key(k));
                assert forall|j: int| 0 <= j < out@.len() implies listed_before(keys@, i + 1, #[trigger] out@[j]@) by {
                    if j < before.len() {
                        assert(out@[j] == before[j]);
                        let m = choose|m: int| 0 <= m < i && keys@[m] == before[j]@;
                        assert(keys@[m] == out@[j]@);
                    } else {
                        assert(keys@[i as int] == out@[j]@);
                    }
                }
                assert forall|m: int| 0 <= m < i + 1 && vis.contains_key(#[trigger] keys@[m]) implies listed(out@, keys@[m]) by {
                    if m < i {
                        let j = choose|j: int| 0 <= j < before.len() && before[j]@ == keys@[m];
                        assert(out@[j] == before[j]);
                    } else {
                        assert(out@[out@.len() - 1]@ == keys@[m]);
                    }
                }
                assert forall|x: int, y: int| 0 <= x < y < out@.len() implies #[trigger] out@[x]@ != #[trigger] out@[y]@ by {
                    if y == before.len() {
                        assert(out@[x] == before[x]);
                        let m = choose|m: int| 0 <= m < i && keys@[m] == before[x]@;
                        assert(keys@[m] != keys@[i as int]);
                    } else {
                        assert(out@[x] == before[x]);
                        assert(out@[y] == before[y]);
                    }
                }
            }
            i = i + 1;
        }
        proof {
            assert forall|k: u64| #[trigger] vis.contains_key(k) && self.entries@.contains_key(k) implies listed(out@, k) by {
                assert(keys@.to_set().contains(k));
                let m = choose|m: int| 0 <= m < keys@.len() && keys@[m] == k;
                assert(vis.contains_key(keys@[m]));
            }
        }
        match &self.active {
            Some(a) => {
                let staged = map_keys(&a.changes);
                let mut i: usize = 0;
                while i < staged.len()
                    invariant
                        self.wf(),
                        self.active == Some(*a),
                        vis == self@.visible(),
                        staged@.no_duplicates(),
                        staged@.to_set() == a.changes@.dom(),
                        i <= staged@.len(),
                        forall|j: int| 0 <= j < out@.len() ==> vis.contains_key(#[trigger] out@[j]@),
                        forall|j: int| 0 <= j < out@.len() ==> self.entries@.contains_key(#[trigger] out@[j]@)
                            || listed_before(staged@, i as int, out@[j]@),
                        forall|k: u64| #[trigger] vis.contains_key(k) && self.entries@.contains_key(k)
                            ==> listed(out@, k),
                        forall|m: int| 0 <= m < i && vis.contains_key(#[trigger] staged@[m]) ==> listed(out@, staged@[m]),
                        forall|a: int, b: int| 0 <= a < b < out@.len() ==> #[trigger] out@[a]@ != #[trigger] out@[b]@,
                    decreases staged@.len() - i,
                {
                    let k = staged[i];
                    assert(staged@.to_set().contains(k));
                    let is_put = match a.changes.get(&k) {
                        Some(PendingChange::Put { .. }) => true,
                        _ => false,
                    };
                    let ghost before = out@;
                    if is_put {
                        out.push(crate::hash::Hash::from_u64(k));
                    }
                    proof {
                        assert(is_put <==> vis.contains_key(k));
                        assert(is_put ==> !self.entries@.contains_key(k));
                        assert forall|j: int| 0 <= j < out@.len() implies self.entries@.contains_key(#[trigger] out@[j]@)
                            || listed_before(staged@, i + 1, out@[j]@) by {
                            if j < before.len() {
                                assert(out@[j] == before[j]);
                                if !self.entries@.contains_key(out@[j]@) {
                                    let m = choose|m: int| 0 <= m < i && staged@[m] == before[j]@;
                                    assert(staged@[m] == out@[j]@);
                                }
                            } else {
                                assert(staged@[i as int] == out@[j]@);
                            }
                        }
                        assert forall|kk: u64| #[trigger] vis.contains_key(kk) && self.entries@.contains_key(kk) implies listed(out@, kk) by {
                            let j = choose|j: int| 0 <= j < before.len() && before[j]@ == kk;
                            assert(out@[j] == before[j]);
                        }
                        assert forall|m: int| 0 <= m < i + 1 && vis.contains_key(#[trigger] staged@[m]) implies listed(out@, staged@[m]) by {
                            if m < i {
                                let j = choose|j: int| 0 <= j < before.len() && before[j]@ == staged@[m];
                                assert(out@[j] == before[j]);
                            } else {
                                assert(out@[out@.len() - 1]@ == staged@[m]);
                            }
                        }
                        assert forall|x: int, y: int| 0 <= x < y < out@.len() implies #[trigger] out@[x]@ != #[trigger] out@[y]@ by {
                            assert(out@[x] == before[x]);
                            if y == before.len() {
                                if !self.entries@.contains_key(before[x]@) {
                                    let m = choose|m: int| 0 <= m < i && staged@[m] == before[x]@;
                                    assert(staged@[m] != staged@[i as int]);
                                }
                            } else {
                                assert(out@[y] == before[y]);
                            }
                        }
                    }
                    i = i + 1;
                }
                proof {
                    assert forall|k: u64| #[trigger] vis.contains_key(k) implies listed(out@, k) by {
                        if !self.entries@.contains_key(k) {
                            assert(a.changes@.contains_key(k));
                            assert(staged@.to_set().contains(k));
                            let m = choose|m: int| 0 <= m < staged@.len() && staged@[m] == k;
                            assert(vis.contains_key(staged@[m]));
                        }
                    }
                }
            },
            None => {
                proof {
                    assert forall|k: u64| #[trigger] vis.contains_key(k) implies listed(out@, k) by {
                        assert(self.entries@.contains_key(k));
                    }
                }
            },
        }
        out
    }

    /// Serializes the open batch as one transaction after the published
    /// log, to be written by the caller and then settled with
    /// [`OpfsLog::finish_commit`]. An empty batch is simply closed and
    /// `Ok(false)` returned; `Ok(true)` means the bytes of
    /// [`OpfsLog::unpublished`] await publishing.
    pub fn prepare_commit(&mut self) -> (r: Result<bool, OpfsError>)
        requires
            old(self).wf(),
        ensures
            final(self).wf(),
            ({
                let v = old(self)@;
                match v.batch {
                    None => r == Err::<bool, OpfsError>(OpfsError::NoBatch) && final(self)@ == v,
                    Some(b) => if b.changes == Map::<u64, Option<Seq<u8>>>::empty() {
                        r == Ok::<bool, OpfsError>(false) && final(self)@ == (OpfsLogView {
                            batch: None,
                            ..v
                        })
                    } else if crate::opfs::changes_len(b.changes) + 34 > usize::MAX {
                        r == Err::<bool, OpfsError>(OpfsError::TooLarge) && final(self)@ == v
                    } else if v.in_flight is Some {
                        r == Err::<bool, OpfsError>(OpfsError::OutOfSync) && final(self)@ == v
                    } else if v.durable.len() + crate::opfs::changes_len(b.changes) + 34
                        > MAX_SAFE_INTEGER || v.durable.len() + crate::opfs::changes_len(b.changes)
                        + 34 > usize::MAX {
                        r == Err::<bool, OpfsError>(OpfsError::TooLarge) && final(self)@ == v
                    } else {
                        &&& r == Ok::<bool, OpfsError>(true)
                        &&& final(self)@.in_flight is Some
                        &&& {
                            let cs = (final(self)@.in_flight->0).1;
                            &&& keys_distinct(cs)
                            &&& changes_map(cs) == b.changes
                            &&& final(self)@ == (OpfsLogView {
                                unpublished: crate::opfs::transaction_bytes(b.id, cs),
                                in_flight: Some((b.id, cs)),
                                ..v
                            })
                        }
                    },
                }
            }),
    {
        let ghost v = self@;
        let a = match self.active.take() {
            Some(a) => a,
            None => {
                return Err(OpfsError::NoBatch);
            },
        };
        let ghost m = batch_view(a).changes;
        let keys = map_keys(&a.changes);
        proof {
            assert(m.dom() =~= a.changes@.dom());
            lemma_keys_len_total(keys@, m);
            lemma_keyed_changes_map(keys@, m);
        }
        if keys.len() == 0 {
            proof {
                assert(m =~= Map::<u64, Option<Seq<u8>>>::empty()) by {
                    assert forall|k: u64| !m.contains_key(k) by {
                        if m.contains_key(k) {
                            assert(keys@.to_set().contains(k));
                        }
                    }
                }
            }
            return Ok(false);
        }
        proof {
            assert(keys@.to_set().contains(keys@[0]));
            assert(m.contains_key(keys@[0]));
        }
        // The byte length of the transaction: every change record, then
        // the BEGIN and COMMIT records.
        let records = match records_len(&a, &keys) {
            Some(n) => n,
            None => {
                self.active = Some(a);
                return Err(OpfsError::TooLarge);
            },
        };
        let tx_len = match records.checked_add(2 * (RECORD_HEADER_LEN + 8)) {
            Some(t) => t,
            None => {
                self.active = Some(a);
                return Err(OpfsError::TooLarge);
            },
        };
        if self.in_flight.is_some() {
            self.active = Some(a);
            return Err(OpfsError::OutOfSync);
        }
        let start = self.len;
        let start_usize = self.log.len();
        if start_usize.checked_add(tx_len).is_none() {
            self.active = Some(a);
            return Err(OpfsError::TooLarge);
        }
        let end = match start.checked_add(tx_len as u64) {
            Some(e) => e,
            None => {
                self.active = Some(a);
                return Err(OpfsError::TooLarge);
            },
        };
        if end > MAX_SAFE_INTEGER {
            self.active = Some(a);
            return Err(OpfsError::TooLarge);
        }
        let ghost log0 = self.log@;
        let (effects, cs) = serialize_batch(&mut self.log, &a, &keys, tx_len);
        proof {
            assert(self.log@.subrange(0, start as int) =~= log0);
            let cs_ = cs@;
            lemma_keyed_records_len(keys@, m);
            crate::codec::lemma_be_u64_of_be_bytes(a.id);
            crate::opfs::lemma_record_len(BEGIN, crate::codec::be_bytes(a.id));
            crate::opfs::lemma_record_len(COMMIT, crate::codec::be_bytes(a.id));
            assert(self.log@.len() == end);
            assert forall|j: int| 0 <= j < cs_.len() implies ((#[trigger] cs_[j]).1 matches Some(d)
                ==> crate::hash::address_of(d) == cs_[j].0) by {
                let k = keys@[j];
                assert(cs_[j] == (k, m[k]));
                assert(keys@.to_set().contains(k));
            }
        }
        self.in_flight = Some(
            InFlight { id: a.id, start: start_usize, end, effects, changes: cs },
        );
        self.active = Some(a);
        proof {
            assert(self@.unpublished =~= crate::opfs::transaction_bytes(a.id, cs@));
            assert(self@.durable =~= v.durable);
        }
        Ok(true)
    }

    /// Writes `data` as the store's own write does: into the open batch, or,
    /// when none is open, in a batch of its own that is prepared for
    /// publishing at once and discarded if that fails. `Ok((h, true))`
    /// means the bytes of [`OpfsLog::unpublished`] must be published and
    /// settled with [`OpfsLog::finish_commit`].
    pub fn write_object(&mut self, data: &[u8]) -> (r: Result<(crate::hash::Hash, bool), OpfsError>)
        requires
            old(self).wf(),
        ensures
            final(self).wf(),
            ({
                let k = crate::hash::address_of(data@);
                let v = old(self)@;
                let closed = OpfsLogView {
                    next_transaction: crate::opfs::succ_sat(v.next_transaction),
                    ..v
                };
                let b = BatchView {
                    id: v.next_transaction,
                    changes: Map::<u64, Option<Seq<u8>>>::empty().insert(k, Some(data@)),
                };
                let n = crate::opfs::changes_len(b.changes) + 34;
                &&& v.put_conflict(k, data@) ==> (r matches Err(OpfsError::Collision(h)) && h@ == k)
                &&& v.batch is Some && v.put_conflict(k, data@) ==> final(self)@ == v
                &&& v.batch is Some && !v.put_conflict(k, data@) ==> (r matches Ok((h, p)) && h@ == k
                    && !p && final(self)@ == (OpfsLogView { batch: v.put_batch(k, data@), ..v }))
                &&& v.batch is None && v.put_conflict(k, data@) ==> final(self)@ == closed
                &&& v.batch is None && !v.put_conflict(k, data@) && v.committed.contains_key(k)
                    ==> (r matches Ok((h, p)) && h@ == k && !p && final(self)@ == closed)
                &&& v.batch is None && !v.committed.contains_key(k) ==> {
                    &&& n > usize::MAX ==> r == Err::<(crate::hash::Hash, bool), OpfsError>(
                        OpfsError::TooLarge,
                    ) && final(self)@ == closed
                    &&& n <= usize::MAX && v.in_flight is Some ==> r == Err::<
                        (crate::hash::Hash, bool),
                        OpfsError,
                    >(OpfsError::OutOfSync) && final(self)@ == closed
                    &&& n <= usize::MAX && v.in_flight is None && (v.durable.len() + n
                        > MAX_SAFE_INTEGER || v.durable.len() + n > usize::MAX) ==> r == Err::<
                        (crate::hash::Hash, bool),
                        OpfsError,
                    >(OpfsError::TooLarge) && final(self)@ == closed
                    &&& n <= usize::MAX && v.in_flight is None && v.durable.len() + n
                        <= MAX_SAFE_INTEGER && v.durable.len() + n <= usize::MAX ==> {
                        &&& r matches Ok((h, p)) && h@ == k && p
                        &&& final(self)@.in_flight is Some
                        &&& {
                            let cs = (final(self)@.in_flight->0).1;
                            &&& keys_distinct(cs)
                            &&& changes_map(cs) == b.changes
                            &&& final(self)@ == (OpfsLogView {
                                unpublished: crate::opfs::transaction_bytes(b.id, cs),
                                in_flight: Some((b.id, cs)),
                                batch: Some(b),
                                ..closed
                            })
                        }
                    }
                }
            }),
    {
        let automatic = self.active.is_none();
        if automatic {
            let _ = self.begin();
        }
        match self.put(data) {
            Ok(h) => {
                if automatic {
                    match self.prepare_commit() {
                        Ok(pending) => Ok((h, pending)),
                        Err(e) => {
                            let _ = self.rollback();
                            Err(e)
                        },
                    }
                } else {
                    Ok((h, false))
                }
            },
            Err(e) => {
                if automatic {
                    let _ = self.rollback();
                }
                Err(e)
            },
        }
    }

    /// Deletes the object under `hash` as the store's own delete does: in
    /// the open batch, or, when none is open, in a batch of its own that is
    /// prepared for publishing at once and discarded if that fails.
    /// `Ok(true)` means the bytes of [`OpfsLog::unpublished`] must be
    /// published and settled with [`OpfsLog::finish_commit`].
    pub fn delete_object(&mut self, hash: crate::hash::Hash) -> (r: Result<bool, OpfsError>)
        requires
            old(self).wf(),
        ensures
            final(self).wf(),
            ({
                let k = hash@;
                let v = old(self)@;
                let closed = OpfsLogView {
                    next_transaction: crate::opfs::succ_sat(v.next_transaction),
                    ..v
                };
                let b = BatchView {
                    id: v.next_transaction,
                    changes: Map::<u64, Option<Seq<u8>>>::empty().insert(k, None),
                };
                let n = crate::opfs::changes_len(b.changes) + 34;
                &&& v.batch is Some ==> r == Ok::<bool, OpfsError>(false) && final(self)@ == (
                OpfsLogView { batch: v.remove_batch(k), ..v })
                &&& v.batch is None && !v.committed.contains_key(k) ==> r == Ok::<bool, OpfsError>(
                    false,
                ) && final(self)@ == closed
                &&& v.batch is None && v.committed.contains_key(k) ==> {
                    &&& n > usize::MAX ==> r == Err::<bool, OpfsError>(OpfsError::TooLarge)
                        && final(self)@ == closed
                    &&& n <= usize::MAX && v.in_flight is Some ==> r == Err::<bool, OpfsError>(
                        OpfsError::OutOfSync,
                    ) && final(self)@ == closed
                    &&& n <= usize::MAX && v.in_flight is None && (v.durable.len() + n
                        > MAX_SAFE_INTEGER || v.durable.len() + n > usize::MAX) ==> r == Err::<
                        bool,
                        OpfsError,
                    >(OpfsError::TooLarge) && final(self)@ == closed
                    &&& n <= usize::MAX && v.in_flight is None && v.durable.len() + n
                        <= MAX_SAFE_INTEGER && v.durable.len() + n <= usize::MAX ==> {
                        &&& r == Ok::<bool, OpfsError>(true)
                        &&& final(self)@.in_flight is Some
                        &&& {
                            let cs = (final(self)@.in_flight->0).1;
                            &&& keys_distinct(cs)
                            &&& changes_map(cs) == b.changes
                            &&& final(self)@ == (OpfsLogView {
                                unpublished: crate::opfs::transaction_bytes(b.id, cs),
                                in_flight: Some((b.id, cs)),
                                batch: Some(b),
                                ..closed
                            })
                        }
                    }
                }
            }),
    {
        let automatic = self.active.is_none();
        if automatic {
            let _ = self.begin();
        }
        let _ = self.remove(hash);
        if automatic {
            match self.prepare_commit() {
                Ok(pending) => Ok(pending),
                Err(e) => {
                    let _ = self.rollback();
                    Err(e)
                },
            }
        } else {
            Ok(false)
        }
    }

    /// Settles the serialized commit: when `published` (the caller wrote
    /// and flushed [`OpfsLog::unpublished`] at [`OpfsLog::durable_len`]) its
    /// changes are committed and the batch is closed; otherwise the bytes
    /// are dropped from the cache and the batch stays open.
    pub fn finish_commit(&mut self, published: bool) -> (r: Result<(), OpfsError>)
        requires
            old(self).wf(),
        ensures
            final(self).wf(),
            ({
                let v = old(self)@;
                match v.in_flight {
                    None => r == Err::<(), OpfsError>(OpfsError::OutOfSync) && final(self)@ == v,
                    Some((id, cs)) => r is Ok && if published {
                        final(self)@ == (OpfsLogView {
                            durable: v.durable + v.unpublished,
                            unpublished: Seq::<u8>::empty(),
                            committed: overlay(v.committed, changes_map(cs)),
                            batch: None,
                            in_flight: None,
                            ..v
                        })
                    } else {
                        final(self)@ == (OpfsLogView {
                            unpublished: Seq::<u8>::empty(),
                            in_flight: None,
                            ..v
                        })
                    },
                }
            }),
    {
        let ghost v = self@;
        let f = match self.in_flight.take() {
            Some(f) => f,
            None => {
                return Err(OpfsError::OutOfSync);
            },
        };
        if !published {
            self.log.truncate(f.start);
            proof {
                assert(self.log@ =~= v.durable);
                assert(self.log@.subrange(0, self.len as int) =~= v.durable);
                assert(self@.unpublished =~= Seq::<u8>::empty());
                assert(self@.durable =~= v.durable);
                assert(self@ == (OpfsLogView { unpublished: Seq::<u8>::empty(), in_flight: None, ..v }));
                assert(self@.durable =~= v.durable);
            }
            return Ok(());
        }
        let ghost old_log = self.log@;
        let ghost durable = old_log.subrange(0, self.len as int);
        let ghost cs = f.changes@;
        let ghost entries0 = self.entries@;
        let ghost ops = crate::opfs::change_ops(cs, self.len + 17);
        let n = self.log.len();
        proof {
            assert(old_log =~= durable + crate::opfs::transaction_bytes(f.id, cs));
            crate::opfs::lemma_committed_transaction_recovered(durable, f.id, cs);
            lemma_published_objects(durable, entries0, f.id, cs);
            crate::opfs::lemma_recovered_entries_addressed(old_log);
        }
        let mut i: usize = 0;
        while i < f.effects.len()
            invariant
                i <= f.effects@.len(),
                f.effects@.map_values(|e: (u64, Option<Entry>)| effect_op(e)) == ops,
                self.entries@ == crate::opfs::apply_ops(entries0, ops.take(i as int)),
                self.log@ == old_log,
                self.len == v.durable.len(),
                self.next_transaction == v.next_transaction,
                self.in_flight is None,
            decreases f.effects@.len() - i,
        {
            let (k, e) = f.effects[i];
            proof {
                assert(ops.take(i + 1).drop_last() =~= ops.take(i as int));
                assert(ops[i as int] == effect_op(f.effects@[i as int]));
            }
            match e {
                Some(en) => {
                    self.entries.insert(k, en);
                },
                None => {
                    self.entries.remove(&k);
                },
            }
            i = i + 1;
        }
        proof {
            assert(ops.take(ops.len() as int) =~= ops);
        }
        self.len = f.end;
        self.active = None;
        proof {
            assert(self.log@.subrange(0, self.len as int) =~= old_log);
            assert(v.durable + v.unpublished =~= old_log);
            assert(self@.unpublished =~= Seq::<u8>::empty());
            assert(self@.committed == overlay(v.committed, changes_map(cs)));
        }
        Ok(())
    }
}

/// A crash while a prepared commit is being written, leaving any proper
/// prefix of its bytes after the published log, reopens to the objects
/// committed before it.
pub proof fn lemma_crash_during_publish(s: OpfsLog, cut: int)
    requires
        s.wf(),
        s@.in_flight is Some,
        0 <= cut < s@.unpublished.len(),
    ensures
        ({
            let b = s@.durable + s@.unpublished.subrange(0, cut);
            &&& crate::opfs::parse_log_spec(b) is Ok
            &&& crate::opfs::parse_log_spec(b)->Ok_0.valid_len == s@.durable.len()
            &&& located(b, crate::opfs::parse_log_spec(b)->Ok_0.entries) == s@.committed
        }),
{
    let durable = s.log@.subrange(0, s.len as int);
    let f = s.in_flight->0;
    let cs = f.changes@;
    let tx = crate::opfs::transaction_bytes(f.id, cs);
    assert(s@.unpublished =~= tx);
    assert(s.log@.len() == durable.len() + tx.len());
    crate::opfs::lemma_incomplete_transaction_ignored(durable, f.id, cs, cut);
    let b = durable + tx.subrange(0, cut);
    let q = crate::opfs::parse_log_spec(b)->Ok_0;
    assert forall|k: u64| #[trigger] s.entries@.contains_key(k) implies b.subrange(
        s.entries@[k].offset as int,
        s.entries@[k].offset + s.entries@[k].len,
    ) =~= durable.subrange(s.entries@[k].offset as int, s.entries@[k].offset + s.entries@[k].len) by {
        assert(s.entries@[k] == s.entries@[k]);
    }
    assert(located(b, q.entries) =~= located(durable, s.entries@));
}

/// Publishing a batch whose changes are those of the open batch commits
/// exactly the objects that reads saw while it was open.
pub proof fn lemma_publish_commits_visible(v: OpfsLogView, cs: Seq<(u64, Option<Seq<u8>>)>)
    requires
        v.batch is Some,
        changes_map(cs) == v.batch->0.changes,
    ensures
        overlay(v.committed, changes_map(cs)) == v.visible(),
{
}

/// Reopening keeps what was published: opening the published bytes of a
/// store, as the file holds them after a commit, gives a store with the
/// same published log and the same committed objects, and no batch.
pub proof fn lemma_reopen_keeps_committed(s: OpfsLog, r: Result<OpfsLog, OpfsError>)
    requires
        s.wf(),
        opened_from(s@.durable, r),
    ensures
        r matches Ok(s2) && s2.wf() && s2@.durable == s@.durable && s2@.committed == s@.committed
            && s2@.batch is None && s2@.in_flight is None,
{
    s.lemma_wf_properties();
    let b = s@.durable;
    let p = crate::opfs::parse_log_spec(b)->Ok_0;
    assert(b.len() >= 8);
    assert(b.subrange(0, p.valid_len) =~= b);
}

/// Rolling back forgets the batch: once a batch begun on `before` (with no
/// batch open) has staged any changes in `during`, discarding it leaves
/// the published log and the objects that reads see as they were before
/// it began.
pub proof fn lemma_rollback_restores(before: OpfsLogView, during: OpfsLogView)
    requires
        before.batch is None,
        during.batch is Some,
        during.durable == before.durable,
        during.unpublished == before.unpublished,
        during.committed == before.committed,
    ensures
        (OpfsLogView { batch: None, ..during }).visible() == before.visible(),
        (OpfsLogView { batch: None, ..during }).durable == before.durable,
        (OpfsLogView { batch: None, ..during }).batch is None,
{
}
} // verus!
