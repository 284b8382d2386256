//! The append-only object-log format of the browser object store.
//!
//! A log starts with an eight-byte header and is followed by records of
//! the form `kind: u8`, `length: u64` (big-endian), `payload`. Objects are
//! written in transactions: a BEGIN record, PUT and DELETE records, and a
//! COMMIT record carrying the same transaction identifier. Reopening a log
//! applies only transactions that were committed; an incomplete final
//! transaction or a truncated final record is a crash tail, and structural
//! corruption before it is rejected.

use vstd::prelude::*;

use crate::codec::{push_all, push_u64_be, read_u64_be};

verus! {

broadcast use vstd::std_specs::hash::group_hash_axioms;

/// Length of a record header: the kind byte and the big-endian length.
pub const RECORD_HEADER_LEN: usize = 9;

/// Length of the address field of a PUT or DELETE record: the eight
/// address bytes, then zero padding.
pub const HASH_LEN: usize = 32;

/// Record kind that opens a transaction; its payload is the identifier.
pub const BEGIN: u8 = 1;

/// Record kind that stores an object: its address, then its bytes.
pub const PUT: u8 = 2;

/// Record kind that deletes the object with the address in its payload.
pub const DELETE: u8 = 3;

/// Record kind that commits the open transaction; its payload is the identifier.
pub const COMMIT: u8 = 4;

/// The file header: `CHOP`, format version 1, three reserved zeros.
pub open spec fn file_header_spec() -> Seq<u8> {
    seq![0x43u8, 0x48u8, 0x4fu8, 0x50u8, 1u8, 0u8, 0u8, 0u8]
}

/// The file header: `CHOP`, format version 1, three reserved zeros.
pub fn file_header() -> (h: [u8; 8])
    ensures
        h@ == file_header_spec(),
{
    let h: [u8; 8] = [0x43u8, 0x48u8, 0x4fu8, 0x50u8, 1u8, 0u8, 0u8, 0u8];
    assert(h@ =~= file_header_spec());
    h
}

/// Where the bytes of a committed object lie in the log.
#[derive(Clone, Copy, Debug, PartialEq, Eq)]
pub struct Entry {
    /// Offset of the object bytes.
    pub offset: u64,
    /// Number of object bytes.
    pub len: u64,
}

/// An operation of an open transaction; objects are named by their address value.
#[derive(Clone, Copy, Debug, PartialEq, Eq)]
pub enum LogOp {
    /// The object with this address is stored at this entry.
    Put(u64, Entry),
    /// The object with this address is deleted.
    Delete(u64),
}

/// Why a log is rejected.
#[derive(Clone, Copy, Debug, PartialEq, Eq)]
pub enum LogError {
    /// The file does not start with the header.
    InvalidHeader,
    /// A record length does not fit this platform's `usize`.
    RecordTooLarge,
    /// A record's end offset overflows `usize`.
    LengthOverflow,
    /// A BEGIN record inside a transaction, or with a payload other than eight bytes.
    InvalidBegin,
    /// A PUT record outside a transaction.
    PutOutsideTransaction,
    /// A PUT record shorter than an address.
    TruncatedPut,
    /// A PUT record whose bytes do not have the address it names.
    CorruptPut,
    /// A DELETE record outside a transaction.
    DeleteOutsideTransaction,
    /// A DELETE record whose payload is not an address.
    InvalidDelete,
    /// A COMMIT record with a payload other than eight bytes.
    InvalidCommit,
    /// A COMMIT record outside a transaction.
    CommitWithoutTransaction,
    /// A COMMIT record whose identifier differs from its BEGIN.
    TransactionMismatch,
    /// A record of an unknown kind.
    UnknownKind(u8),
}

/// An open transaction met while scanning.
pub struct PendingView {
    /// Its identifier.
    pub id: u64,
    /// Offset of its BEGIN record.
    pub start: int,
    /// Its operations so far, in log order.
    pub ops: Seq<LogOp>,
}

/// The state of a scan between two records.
pub struct ScanState {
    /// The committed index.
    pub entries: Map<u64, Entry>,
    /// The open transaction, if any.
    pub pending: Option<PendingView>,
    /// End of the last committed transaction.
    pub valid_len: int,
    /// One more than the largest transaction identifier seen (at least 1).
    pub next_transaction: u64,
}

/// What reopening a log yields.
pub struct ParsedLogView {
    /// The committed index.
    pub entries: Map<u64, Entry>,
    /// Length of the prefix made of committed transactions.
    pub valid_len: int,
    /// The identifier to use for the next transaction.
    pub next_transaction: u64,
}

/// One step of a scan.
pub enum ScanStep {
    /// The scan stops here: no further complete record.
    Stop,
    /// The next record is consumed; the scan continues at this offset.
    Next(int, ScanState),
    /// The log is rejected.
    Fail(LogError),
}

/// The address value of eight little-endian bytes.
pub open spec fn le_key(s: Seq<u8>) -> u64 {
    vstd::bytes::spec_u64_from_le_bytes(s)
}

/// Applies one committed operation to an index.
pub open spec fn apply_op(entries: Map<u64, Entry>, op: LogOp) -> Map<u64, Entry> {
    match op {
        LogOp::Put(k, e) => entries.insert(k, e),
        LogOp::Delete(k) => entries.remove(k),
    }
}

/// Applies committed operations to an index, in order.
pub open spec fn apply_ops(entries: Map<u64, Entry>, ops: Seq<LogOp>) -> Map<u64, Entry>
    decreases ops.len(),
{
    if ops.len() == 0 {
        entries
    } else {
        apply_op(apply_ops(entries, ops.drop_last()), ops.last())
    }
}

/// `saturating_add(id, 1)`.
pub open spec fn succ_sat(id: u64) -> u64 {
    if id == u64::MAX {
        u64::MAX
    } else {
        (id + 1) as u64
    }
}

/// The larger of two identifiers.
pub open spec fn max_u64(a: u64, b: u64) -> u64 {
    if a >= b {
        a
    } else {
        b
    }
}

/// The zero bytes that pad an eight-byte address to its field.
pub open spec fn zero_padding() -> Seq<u8> {
    Seq::new(24, |i: int| 0u8)
}

/// Reads the record at `off` and decides what the scan does with it.
pub open spec fn scan_step(b: Seq<u8>, off: int, st: ScanState) -> ScanStep {
    if off >= b.len() || b.len() - off < 9 {
        ScanStep::Stop
    } else {
        let kind = b[off];
        let len = crate::codec::be_u64(b.subrange(off + 1, off + 9)) as int;
        let start = off + 9;
        let end = start + len;
        if len > usize::MAX {
            ScanStep::Fail(LogError::RecordTooLarge)
        } else if end > usize::MAX {
            ScanStep::Fail(LogError::LengthOverflow)
        } else if end > b.len() {
            ScanStep::Stop
        } else {
            let p = b.subrange(start, end);
            if kind == BEGIN {
                if st.pending is Some || len != 8 {
                    ScanStep::Fail(LogError::InvalidBegin)
                } else {
                    let id = crate::codec::be_u64(p);
                    ScanStep::Next(
                        end,
                        ScanState {
                            pending: Some(PendingView { id, start: off, ops: seq![] }),
                            next_transaction: max_u64(st.next_transaction, succ_sat(id)),
                            ..st
                        },
                    )
                }
            } else if kind == PUT {
                if st.pending is None {
                    ScanStep::Fail(LogError::PutOutsideTransaction)
                } else if len < 32 {
                    ScanStep::Fail(LogError::TruncatedPut)
                } else if p.subrange(8, 32) != zero_padding() || crate::hash::address_of(
                    p.subrange(32, len),
                ) != le_key(p.subrange(0, 8)) {
                    ScanStep::Fail(LogError::CorruptPut)
                } else {
                    let t = st.pending->0;
                    let op = LogOp::Put(
                        le_key(p.subrange(0, 8)),
                        Entry { offset: (start + 32) as u64, len: (len - 32) as u64 },
                    );
                    ScanStep::Next(
                        end,
                        ScanState {
                            pending: Some(PendingView { ops: t.ops.push(op), ..t }),
                            ..st
                        },
                    )
                }
            } else if kind == DELETE {
                if st.pending is None {
                    ScanStep::Fail(LogError::DeleteOutsideTransaction)
                } else if len != 32 || p.subrange(8, 32) != zero_padding() {
                    ScanStep::Fail(LogError::InvalidDelete)
                } else {
                    let t = st.pending->0;
                    let op = LogOp::Delete(le_key(p.subrange(0, 8)));
                    ScanStep::Next(
                        end,
                        ScanState {
                            pending: Some(PendingView { ops: t.ops.push(op), ..t }),
                            ..st
                        },
                    )
                }
            } else if kind == COMMIT {
                if len != 8 {
                    ScanStep::Fail(LogError::InvalidCommit)
                } else if st.pending is None {
                    ScanStep::Fail(LogError::CommitWithoutTransaction)
                } else if st.pending->0.id != crate::codec::be_u64(p) {
                    ScanStep::Fail(LogError::TransactionMismatch)
                } else {
                    ScanStep::Next(
                        end,
                        ScanState {
                            entries: apply_ops(st.entries, st.pending->0.ops),
                            pending: None,
                            valid_len: end,
                            next_transaction: st.next_transaction,
                        },
                    )
                }
            } else {
                ScanStep::Fail(LogError::UnknownKind(kind))
            }
        }
    }
}

/// The result of a scan that stops in state `st`: an open transaction is
/// a crash tail, so the valid prefix ends where it began.
pub open spec fn finish(st: ScanState) -> ParsedLogView {
    ParsedLogView {
        entries: st.entries,
        valid_len: match st.pending {
            Some(t) => t.start,
            None => st.valid_len,
        },
        next_transaction: st.next_transaction,
    }
}

/// Scans the records of `b` from offset `off` in state `st`.
pub open spec fn scan(b: Seq<u8>, off: int, st: ScanState) -> Result<ParsedLogView, LogError>
    decreases b.len() - off,
{
    match scan_step(b, off, st) {
        ScanStep::Stop => Ok(finish(st)),
        ScanStep::Fail(e) => Err(e),
        ScanStep::Next(n, s2) => if off < n <= b.len() {
            scan(b, n, s2)
        } else {
            Ok(finish(st))
        },
    }
}

/// The state before the first record.
pub open spec fn initial_scan_state() -> ScanState {
    ScanState { entries: Map::empty(), pending: None, valid_len: 8, next_transaction: 1 }
}

/// What reopening the log `b` yields, or why it is rejected.
pub open spec fn parse_log_spec(b: Seq<u8>) -> Result<ParsedLogView, LogError> {
    if b.len() < 8 || b.subrange(0, 8) != file_header_spec() {
        Err(LogError::InvalidHeader)
    } else {
        scan(b, 8, initial_scan_state())
    }
}

/// The bytes of one record.
pub open spec fn record_bytes(kind: u8, payload: Seq<u8>) -> Seq<u8> {
    seq![kind] + crate::codec::be_bytes(payload.len() as u64) + payload
}

/// Appends one record.
pub fn append_record(bytes: &mut Vec<u8>, kind: u8, payload: &[u8])
    ensures
        final(bytes)@ == old(bytes)@ + record_bytes(kind, payload@),
{
    bytes.push(kind);
    push_u64_be(bytes, payload.len() as u64);
    push_all(bytes, payload);
    assert(bytes@ =~= old(bytes)@ + record_bytes(kind, payload@));
}

/// Appends a BEGIN or COMMIT record for transaction `id`.
pub fn append_transaction_record(bytes: &mut Vec<u8>, kind: u8, id: u64)
    ensures
        final(bytes)@ == old(bytes)@ + record_bytes(kind, crate::codec::be_bytes(id)),
{
    let mut payload: Vec<u8> = Vec::new();
    push_u64_be(&mut payload, id);
    assert(payload@ =~= crate::codec::be_bytes(id));
    append_record(bytes, kind, payload.as_slice());
}

/// A BEGIN or COMMIT record for transaction `id`.
pub fn transaction_record(kind: u8, id: u64) -> (r: Vec<u8>)
    ensures
        r@ == record_bytes(kind, crate::codec::be_bytes(id)),
{
    let mut bytes: Vec<u8> = Vec::with_capacity(RECORD_HEADER_LEN + 8);
    append_transaction_record(&mut bytes, kind, id);
    assert(bytes@ =~= record_bytes(kind, crate::codec::be_bytes(id)));
    bytes
}

/// Appends the zero padding of an address field.
fn push_padding(bytes: &mut Vec<u8>)
    ensures
        final(bytes)@ == old(bytes)@ + zero_padding(),
{
    let mut i: usize = 0;
    while i < 24
        invariant
            i <= 24,
            bytes@ == old(bytes)@ + zero_padding().subrange(0, i as int),
        decreases 24 - i,
    {
        bytes.push(0u8);
        i = i + 1;
        assert(bytes@ =~= old(bytes)@ + zero_padding().subrange(0, i as int));
    }
    assert(zero_padding().subrange(0, 24) =~= zero_padding());
}

/// Appends a PUT record storing `data` under `hash`: the address field
/// holds the hash bytes, zero-padded.
pub fn append_put_record(bytes: &mut Vec<u8>, hash: crate::hash::Hash, data: &[u8])
    requires
        data@.len() + HASH_LEN <= usize::MAX,
    ensures
        final(bytes)@ == old(bytes)@ + record_bytes(PUT, hash.0@ + zero_padding() + data@),
{
    bytes.push(PUT);
    push_u64_be(bytes, (HASH_LEN + data.len()) as u64);
    push_all(bytes, &hash.0);
    push_padding(bytes);
    push_all(bytes, data);
    assert(bytes@ =~= old(bytes)@ + record_bytes(PUT, hash.0@ + zero_padding() + data@));
}

/// A PUT record storing `data` under `hash`.
pub fn put_record(hash: crate::hash::Hash, data: &[u8]) -> (r: Vec<u8>)
    requires
        data@.len() + HASH_LEN + RECORD_HEADER_LEN <= usize::MAX,
    ensures
        r@ == record_bytes(PUT, hash.0@ + zero_padding() + data@),
{
    let mut bytes: Vec<u8> = Vec::with_capacity(RECORD_HEADER_LEN + HASH_LEN + data.len());
    append_put_record(&mut bytes, hash, data);
    assert(bytes@ =~= record_bytes(PUT, hash.0@ + zero_padding() + data@));
    bytes
}

/// Appends a DELETE record for `hash`: its payload is the address field,
/// the hash bytes zero-padded.
pub fn append_delete_record(bytes: &mut Vec<u8>, hash: crate::hash::Hash)
    ensures
        final(bytes)@ == old(bytes)@ + record_bytes(DELETE, hash.0@ + zero_padding()),
{
    let mut field: Vec<u8> = Vec::with_capacity(HASH_LEN);
    push_all(&mut field, &hash.0);
    push_padding(&mut field);
    assert(field@ =~= hash.0@ + zero_padding());
    append_record(bytes, DELETE, field.as_slice());
}

/// A DELETE record for `hash`.
pub fn delete_record(hash: crate::hash::Hash) -> (r: Vec<u8>)
    ensures
        r@ == record_bytes(DELETE, hash.0@ + zero_padding()),
{
    let mut bytes: Vec<u8> = Vec::with_capacity(RECORD_HEADER_LEN + HASH_LEN);
    append_delete_record(&mut bytes, hash);
    assert(bytes@ =~= record_bytes(DELETE, hash.0@ + zero_padding()));
    bytes
}

/// The committed index recovered from a log.
#[derive(Debug)]
pub struct ParsedLog {
    /// Committed objects by address value.
    pub entries: std::collections::HashMap<u64, Entry>,
    /// Length of the prefix made of committed transactions.
    pub valid_len: u64,
    /// The identifier to use for the next transaction.
    pub next_transaction: u64,
}

impl View for ParsedLog {
    type V = ParsedLogView;

    open spec fn view(&self) -> ParsedLogView {
        ParsedLogView {
            entries: self.entries@,
            valid_len: self.valid_len as int,
            next_transaction: self.next_transaction,
        }
    }
}

struct PendingTransaction {
    id: u64,
    start: usize,
    operations: Vec<LogOp>,
}

impl PendingTransaction {
    spec fn view(&self) -> PendingView {
        PendingView { id: self.id, start: self.start as int, ops: self.operations@ }
    }
}

spec fn pending_view(p: Option<PendingTransaction>) -> Option<PendingView> {
    match p {
        Some(t) => Some(t.view()),
        None => None,
    }
}

/// Reads eight bytes at `at` as an address value.
fn read_key(bytes: &[u8], at: usize) -> (k: u64)
    requires
        at + 8 <= bytes@.len(),
    ensures
        k == le_key(bytes@.subrange(at as int, at + 8)),
{
    let n = bytes.len();
    let s = vstd::slice::slice_subrange(bytes, at, at + 8);
    vstd::bytes::u64_from_le_bytes(s)
}

/// Whether the 24 bytes at `at` are zero padding.
fn zero_padded(bytes: &[u8], at: usize) -> (r: bool)
    requires
        at + 24 <= bytes@.len(),
    ensures
        r == (bytes@.subrange(at as int, at + 24) == zero_padding()),
{
    let n = bytes.len();
    let mut i: usize = 0;
    while i < 24
        invariant
            i <= 24,
            n == bytes@.len(),
            at + 24 <= bytes@.len(),
            forall|j: int| at <= j < at + i ==> #[trigger] bytes@[j] == 0u8,
        decreases 24 - i,
    {
        if bytes[at + i] != 0u8 {
            assert(bytes@.subrange(at as int, at + 24)[i as int] == bytes@[at + i]);
            return false;
        }
        i = i + 1;
    }
    assert(bytes@.subrange(at as int, at + 24) =~= zero_padding());
    true
}

proof fn lemma_subrange_of_subrange(b: Seq<u8>, start: int, end: int, i: int, j: int)
    requires
        0 <= start <= end <= b.len(),
        0 <= i <= j <= end - start,
    ensures
        b.subrange(start, end).subrange(i, j) == b.subrange(start + i, start + j),
{
    assert(b.subrange(start, end).subrange(i, j) =~= b.subrange(start + i, start + j));
}

/// Scans a log, returning the committed index, the length of its valid
/// prefix and the next transaction identifier.
pub fn parse_log(bytes: &[u8]) -> (r: Result<ParsedLog, LogError>)
    ensures
        match (r, parse_log_spec(bytes@)) {
            (Ok(p), Ok(v)) => p@ == v,
            (Err(e), Err(f)) => e == f,
            _ => false,
        },
{
    let header = file_header();
    if bytes.len() < 8 || !crate::codec::bytes_equal(
        vstd::slice::slice_subrange(bytes, 0, 8),
        &header,
    ) {
        return Err(LogError::InvalidHeader);
    }
    let mut entries: std::collections::HashMap<u64, Entry> = std::collections::HashMap::new();
    let mut pending: Option<PendingTransaction> = None;
    let mut offset: usize = 8;
    let mut valid_len: usize = offset;
    let mut next_transaction: u64 = 1;
    assert(entries@ =~= Map::<u64, Entry>::empty());

    while offset < bytes.len()
        invariant
            8 <= offset <= bytes@.len(),
            parse_log_spec(bytes@) == scan(
                bytes@,
                offset as int,
                ScanState {
                    entries: entries@,
                    pending: pending_view(pending),
                    valid_len: valid_len as int,
                    next_transaction,
                },
            ),
        decreases bytes@.len() - offset,
    {
        let ghost st = ScanState {
            entries: entries@,
            pending: pending_view(pending),
            valid_len: valid_len as int,
            next_transaction,
        };
        let record_start = offset;
        if bytes.len() - offset < RECORD_HEADER_LEN {
            return Ok(finished(entries, pending, valid_len, next_transaction));
        }
        let kind = bytes[offset];
        let len = read_u64_be(bytes, offset + 1);
        if len > usize::MAX as u64 {
            return Err(LogError::RecordTooLarge);
        }
        let len = len as usize;
        let start = offset + RECORD_HEADER_LEN;
        let end = match start.checked_add(len) {
            Some(end) => end,
            None => {
                return Err(LogError::LengthOverflow);
            },
        };
        if end > bytes.len() {
            return Ok(finished(entries, pending, valid_len, next_transaction));
        }
        proof {
            if len >= 8 {
                lemma_subrange_of_subrange(bytes@, start as int, end as int, 0, 8);
                lemma_subrange_of_subrange(bytes@, start as int, end as int, 8, len as int);
            }
            if len >= 32 {
                lemma_subrange_of_subrange(bytes@, start as int, end as int, 8, 32);
                lemma_subrange_of_subrange(bytes@, start as int, end as int, 32, len as int);
            }
        }
        let ghost p = bytes@.subrange(start as int, end as int);
        if kind == BEGIN {
            if pending.is_some() || len != 8 {
                return Err(LogError::InvalidBegin);
            }
            let id = read_u64_be(bytes, start);
            let bumped = id.saturating_add(1);
            if bumped > next_transaction {
                next_transaction = bumped;
            }
            pending = Some(PendingTransaction { id, start: record_start, operations: Vec::new() });
            proof {
                assert(pending_view(pending) == Some(
                    PendingView { id, start: record_start as int, ops: Seq::<LogOp>::empty() },
                ));
            }
        } else if kind == PUT {
            if pending.is_none() {
                return Err(LogError::PutOutsideTransaction);
            }
            if len < HASH_LEN {
                return Err(LogError::TruncatedPut);
            }
            let key = read_key(bytes, start);
            if !zero_padded(bytes, start + 8) {
                return Err(LogError::CorruptPut);
            }
            let data = vstd::slice::slice_subrange(bytes, start + HASH_LEN, end);
            let expected = crate::hash::Hash::from_u64(key);
            if expected.verify(data).is_err() {
                return Err(LogError::CorruptPut);
            }
            let op = LogOp::Put(
                key,
                Entry { offset: (start + HASH_LEN) as u64, len: (len - HASH_LEN) as u64 },
            );
            let mut t = pending.take().unwrap();
            t.operations.push(op);
            pending = Some(t);
        } else if kind == DELETE {
            if pending.is_none() {
                return Err(LogError::DeleteOutsideTransaction);
            }
            if len != HASH_LEN || !zero_padded(bytes, start + 8) {
                return Err(LogError::InvalidDelete);
            }
            let key = read_key(bytes, start);
            let mut t = pending.take().unwrap();
            t.operations.push(LogOp::Delete(key));
            pending = Some(t);
        } else if kind == COMMIT {
            if len != 8 {
                return Err(LogError::InvalidCommit);
            }
            let id = read_u64_be(bytes, start);
            let transaction = match pending.take() {
                Some(t) => t,
                None => {
                    return Err(LogError::CommitWithoutTransaction);
                },
            };
            if transaction.id != id {
                return Err(LogError::TransactionMismatch);
            }
            let mut i: usize = 0;
            while i < transaction.operations.len()
                invariant
                    i <= transaction.operations@.len(),
                    entries@ == apply_ops(
                        st.entries,
                        transaction.operations@.subrange(0, i as int),
                    ),
                decreases transaction.operations@.len() - i,
            {
                let op = transaction.operations[i];
                match op {
                    LogOp::Put(k, e) => {
                        entries.insert(k, e);
                    },
                    LogOp::Delete(k) => {
                        entries.remove(&k);
                    },
                }
                proof {
                    let ops = transaction.operations@.subrange(0, i + 1);
                    assert(ops.drop_last() =~= transaction.operations@.subrange(0, i as int));
                }
                i = i + 1;
            }
            assert(transaction.operations@.subrange(0, transaction.operations@.len() as int)
                =~= transaction.operations@);
            valid_len = end;
        } else {
            return Err(LogError::UnknownKind(kind));
        }
        offset = end;
        assert(scan_step(bytes@, record_start as int, st) == ScanStep::Next(
            end as int,
            ScanState {
                entries: entries@,
                pending: pending_view(pending),
                valid_len: valid_len as int,
                next_transaction,
            },
        ));
    }
    Ok(finished(entries, pending, valid_len, next_transaction))
}

fn finished(
    entries: std::collections::HashMap<u64, Entry>,
    pending: Option<PendingTransaction>,
    valid_len: usize,
    next_transaction: u64,
) -> (p: ParsedLog)
    ensures
        p@ == finish(
            ScanState {
                entries: entries@,
                pending: pending_view(pending),
                valid_len: valid_len as int,
                next_transaction,
            },
        ),
{
    let valid_len = match &pending {
        Some(t) => t.start,
        None => valid_len,
    };
    ParsedLog { entries, valid_len: valid_len as u64, next_transaction }
}

} // verus!

verus! {

/// How a scan may be placed between records: no open transaction means the
/// last committed transaction ends here; an open one began earlier.
pub open spec fn scan_inv(off: int, st: ScanState) -> bool {
    &&& 8 <= st.valid_len <= off
    &&& match st.pending {
        None => st.valid_len == off,
        Some(t) => st.valid_len <= t.start < off,
    }
}

/// Unfolds one consumed record.
proof fn lemma_scan_next(b: Seq<u8>, off: int, st: ScanState)
    requires
        scan_step(b, off, st) is Next,
    ensures
        ({
            let n = scan_step(b, off, st)->Next_0;
            let s2 = scan_step(b, off, st)->Next_1;
            &&& off + 9 <= n <= b.len()
            &&& scan(b, off, st) == scan(b, n, s2)
            &&& (scan_inv(off, st) ==> scan_inv(n, s2))
            &&& s2.next_transaction >= st.next_transaction
        }),
{
}

/// A consumed record is read from its own bytes only.
proof fn lemma_step_local(b1: Seq<u8>, b2: Seq<u8>, off: int, st: ScanState)
    requires
        scan_step(b1, off, st) is Next,
        0 <= off,
        scan_step(b1, off, st)->Next_0 <= b2.len(),
        b1.subrange(off, scan_step(b1, off, st)->Next_0) == b2.subrange(
            off,
            scan_step(b1, off, st)->Next_0,
        ),
    ensures
        scan_step(b2, off, st) == scan_step(b1, off, st),
{
    let n = scan_step(b1, off, st)->Next_0;
    let r1 = b1.subrange(off, n);
    let r2 = b2.subrange(off, n);
    assert(b1[off] == r1[0]);
    assert(b2[off] == r2[0]);
    assert(b1.subrange(off + 1, off + 9) =~= r1.subrange(1, 9));
    assert(b2.subrange(off + 1, off + 9) =~= r2.subrange(1, 9));
    assert(b1.subrange(off + 9, n) =~= r1.subrange(9, n - off));
    assert(b2.subrange(off + 9, n) =~= r2.subrange(9, n - off));
}

/// Where a scan's valid prefix can end: at or after the current offset,
/// or at the start of the transaction open now, which then never commits
/// and leaves the index as it is.
proof fn lemma_scan_bounds(b: Seq<u8>, off: int, st: ScanState)
    requires
        scan_inv(off, st),
        off <= b.len(),
        scan(b, off, st) is Ok,
    ensures
        ({
            let p = scan(b, off, st)->Ok_0;
            &&& p.next_transaction >= st.next_transaction
            &&& p.valid_len <= b.len()
            &&& (p.valid_len >= off || (st.pending is Some && p.valid_len
                == st.pending->0.start && p.entries == st.entries))
        }),
    decreases b.len() - off,
{
    match scan_step(b, off, st) {
        ScanStep::Next(n, s2) => {
            lemma_scan_next(b, off, st);
            lemma_scan_bounds(b, n, s2);
        },
        _ => {},
    }
}

/// Cutting a log at the end of its valid prefix keeps the recovered index.
proof fn lemma_scan_truncate(b: Seq<u8>, off: int, st: ScanState)
    requires
        scan_inv(off, st),
        off <= b.len(),
        scan(b, off, st) is Ok,
        off <= scan(b, off, st)->Ok_0.valid_len,
    ensures
        ({
            let p = scan(b, off, st)->Ok_0;
            let q = scan(b.subrange(0, p.valid_len), off, st);
            &&& q is Ok
            &&& q->Ok_0.entries == p.entries
            &&& q->Ok_0.valid_len == p.valid_len
            &&& q->Ok_0.next_transaction <= p.next_transaction
        }),
    decreases b.len() - off,
{
    let p = scan(b, off, st)->Ok_0;
    let v = p.valid_len;
    lemma_scan_bounds(b, off, st);
    let c = b.subrange(0, v);
    match scan_step(b, off, st) {
        ScanStep::Next(n, s2) => {
            lemma_scan_next(b, off, st);
            lemma_scan_bounds(b, n, s2);
            if n <= v {
                assert(b.subrange(off, n) =~= c.subrange(off, n));
                lemma_step_local(b, c, off, st);
                lemma_scan_next(c, off, st);
                lemma_scan_truncate(b, n, s2);
            } else {
                assert(c.len() == off);
            }
        },
        _ => {
            assert(c.len() == off);
        },
    }
}

/// Whether a COMMIT record ends at offset `end` of `b`: the seventeen bytes
/// before it are the COMMIT kind, the length eight and a transaction id.
pub open spec fn commit_ends_at(b: Seq<u8>, end: int) -> bool {
    &&& 17 <= end <= b.len()
    &&& b[end - 17] == COMMIT
    &&& crate::codec::be_u64(b.subrange(end - 16, end - 8)) == 8
}

/// Where a scan's committed prefix can end: right after the header or
/// right after a COMMIT record; an open transaction begins there.
spec fn prefix_ends_well(b: Seq<u8>, st: ScanState) -> bool {
    &&& (st.valid_len == 8 || commit_ends_at(b, st.valid_len))
    &&& (st.pending matches Some(t) ==> t.start == st.valid_len)
}

/// A scan that succeeds ends its valid prefix right after the header or
/// right after a COMMIT record.
proof fn lemma_scan_ends_at_commit(b: Seq<u8>, off: int, st: ScanState)
    requires
        scan_inv(off, st),
        prefix_ends_well(b, st),
        off <= b.len(),
        scan(b, off, st) is Ok,
    ensures
        ({
            let v = scan(b, off, st)->Ok_0.valid_len;
            v == 8 || commit_ends_at(b, v)
        }),
    decreases b.len() - off,
{
    match scan_step(b, off, st) {
        ScanStep::Next(n, s2) => {
            lemma_scan_next(b, off, st);
            if b[off] == COMMIT {
                assert(n == off + 17);
                assert(b.subrange(n - 16, n - 8) =~= b.subrange(off + 1, off + 9));
            }
            assert(prefix_ends_well(b, s2));
            lemma_scan_ends_at_commit(b, n, s2);
        },
        _ => {},
    }
}

/// The state in which a scan stands right after the committed prefix `p`.
pub open spec fn committed_state(p: ParsedLogView) -> ScanState {
    ScanState {
        entries: p.entries,
        pending: None,
        valid_len: p.valid_len,
        next_transaction: p.next_transaction,
    }
}

/// Bytes appended after a log made only of committed transactions are
/// scanned from the state that ends it.
proof fn lemma_scan_extend(b: Seq<u8>, t: Seq<u8>, off: int, st: ScanState)
    requires
        scan_inv(off, st),
        off <= b.len(),
        scan(b, off, st) is Ok,
        scan(b, off, st)->Ok_0.valid_len == b.len(),
    ensures
        scan(b + t, off, st) == scan(b + t, b.len() as int, committed_state(scan(b, off, st)->Ok_0)),
    decreases b.len() - off,
{
    let p = scan(b, off, st)->Ok_0;
    lemma_scan_bounds(b, off, st);
    match scan_step(b, off, st) {
        ScanStep::Next(n, s2) => {
            lemma_scan_next(b, off, st);
            assert(b.subrange(off, n) =~= (b + t).subrange(off, n));
            lemma_step_local(b, b + t, off, st);
            lemma_scan_next(b + t, off, st);
            lemma_scan_extend(b, t, n, s2);
        },
        _ => {
            assert(st == committed_state(p));
        },
    }
}

} // verus!

verus! {

/// The address field of an address value: its eight little-endian bytes,
/// zero-padded.
pub open spec fn key_bytes(k: u64) -> Seq<u8> {
    vstd::bytes::spec_u64_to_le_bytes(k) + zero_padding()
}

/// The record of one change of a transaction: the object bytes stored
/// under an address, or `None` for its deletion.
pub open spec fn change_record(c: (u64, Option<Seq<u8>>)) -> Seq<u8> {
    match c.1 {
        Some(d) => record_bytes(PUT, key_bytes(c.0) + d),
        None => record_bytes(DELETE, key_bytes(c.0)),
    }
}

/// The records of a transaction's changes, in order.
pub open spec fn change_records(cs: Seq<(u64, Option<Seq<u8>>)>) -> Seq<u8>
    decreases cs.len(),
{
    if cs.len() == 0 {
        seq![]
    } else {
        change_records(cs.drop_last()) + change_record(cs.last())
    }
}

/// The index operations that the records of `cs`, written at offset `base`, denote.
pub open spec fn change_ops(cs: Seq<(u64, Option<Seq<u8>>)>, base: int) -> Seq<LogOp>
    decreases cs.len(),
{
    if cs.len() == 0 {
        seq![]
    } else {
        let pos = base + change_records(cs.drop_last()).len();
        let c = cs.last();
        change_ops(cs.drop_last(), base).push(
            match c.1 {
                Some(d) => LogOp::Put(c.0, Entry { offset: (pos + 41) as u64, len: d.len() as u64 }),
                None => LogOp::Delete(c.0),
            },
        )
    }
}

/// The bytes of a whole transaction.
pub open spec fn transaction_bytes(id: u64, cs: Seq<(u64, Option<Seq<u8>>)>) -> Seq<u8> {
    record_bytes(BEGIN, crate::codec::be_bytes(id)) + change_records(cs) + record_bytes(COMMIT, crate::codec::be_bytes(id))
}

/// Every stored object of the changes has the address it is stored under.
pub open spec fn changes_addressed(cs: Seq<(u64, Option<Seq<u8>>)>) -> bool {
    forall|i: int|
        0 <= i < cs.len() ==> ((#[trigger] cs[i]).1 matches Some(d) ==> crate::hash::address_of(d) == cs[i].0)
}

pub proof fn lemma_record_len(kind: u8, payload: Seq<u8>)
    ensures
        record_bytes(kind, payload).len() == 9 + payload.len(),
{
    crate::codec::lemma_be_u64_of_be_bytes(payload.len() as u64);
}

proof fn lemma_change_records_len(cs: Seq<(u64, Option<Seq<u8>>)>)
    ensures
        change_records(cs).len() >= 17 * cs.len(),
    decreases cs.len(),
{
    if cs.len() > 0 {
        lemma_change_records_len(cs.drop_last());
        vstd::bytes::lemma_auto_spec_u64_to_from_le_bytes();
        let c = cs.last();
        match c.1 {
            Some(d) => lemma_record_len(PUT, key_bytes(c.0) + d),
            None => lemma_record_len(DELETE, key_bytes(c.0)),
        }
    }
}

/// Scanning one record at `off` of `b` where `b` holds `record_bytes(kind, payload)`.
proof fn lemma_step_record(b: Seq<u8>, off: int, kind: u8, payload: Seq<u8>)
    requires
        0 <= off,
        off + 9 + payload.len() <= b.len(),
        b.len() <= usize::MAX,
        b.subrange(off, off + 9 + payload.len()) == record_bytes(kind, payload),
    ensures
        b[off] == kind,
        crate::codec::be_u64(b.subrange(off + 1, off + 9)) == payload.len(),
        b.subrange(off + 9, off + 9 + payload.len()) == payload,
{
    lemma_record_len(kind, payload);
    crate::codec::lemma_be_u64_of_be_bytes(payload.len() as u64);
    let r = record_bytes(kind, payload);
    assert(b[off] == r[0]);
    assert(b.subrange(off + 1, off + 9) =~= r.subrange(1, 9));
    assert(r.subrange(1, 9) =~= crate::codec::be_bytes(payload.len() as u64));
    assert(b.subrange(off + 9, off + 9 + payload.len()) =~= r.subrange(9, 9 + payload.len() as int));
    assert(r.subrange(9, 9 + payload.len() as int) =~= payload);
}

/// Scanning the change records of an open transaction appends their
/// operations to it.
proof fn lemma_scan_changes(b: Seq<u8>, off: int, st: ScanState, cs: Seq<(u64, Option<Seq<u8>>)>)
    requires
        scan_inv(off, st),
        st.pending is Some,
        changes_addressed(cs),
        off + change_records(cs).len() <= b.len(),
        b.len() <= usize::MAX,
        b.subrange(off, off + change_records(cs).len()) == change_records(cs),
    ensures
        scan(b, off, st) == scan(
            b,
            off + change_records(cs).len(),
            ScanState {
                pending: Some(
                    PendingView { ops: st.pending->0.ops + change_ops(cs, off), ..st.pending->0 },
                ),
                ..st
            },
        ),
    decreases cs.len(),
{
    let t = st.pending->0;
    if cs.len() == 0 {
        assert(t.ops + change_ops(cs, off) =~= t.ops);
    } else {
        let init = cs.drop_last();
        let c = cs.last();
        let m = off + change_records(init).len();
        let rec = change_record(c);
        assert(change_records(cs) == change_records(init) + rec);
        assert(b.subrange(off, m) =~= b.subrange(off, off + change_records(cs).len()).subrange(
            0,
            change_records(init).len() as int,
        ));
        assert((change_records(init) + rec).subrange(0, change_records(init).len() as int)
            =~= change_records(init));
        assert forall|i: int| 0 <= i < init.len() implies ((#[trigger] init[i]).1 matches Some(d)
            ==> crate::hash::address_of(d) == init[i].0) by {
            assert(init[i] == cs[i]);
        }
        lemma_scan_changes(b, off, st, init);
        let s1 = ScanState {
            pending: Some(PendingView { ops: t.ops + change_ops(init, off), ..t }),
            ..st
        };
        lemma_change_records_len(init);
        vstd::bytes::lemma_auto_spec_u64_to_from_le_bytes();
        let payload = match c.1 {
            Some(d) => key_bytes(c.0) + d,
            None => key_bytes(c.0),
        };
        let kind = match c.1 {
            Some(d) => PUT,
            None => DELETE,
        };
        assert(rec == record_bytes(kind, payload));
        lemma_record_len(kind, payload);
        assert(b.subrange(m, m + 9 + payload.len()) =~= b.subrange(
            off,
            off + change_records(cs).len(),
        ).subrange(m - off, change_records(cs).len() as int));
        assert((change_records(init) + rec).subrange(
            change_records(init).len() as int,
            change_records(cs).len() as int,
        ) =~= rec);
        lemma_step_record(b, m, kind, payload);
        assert(payload.subrange(0, 32) =~= key_bytes(c.0));
        assert(payload.subrange(0, 8) =~= vstd::bytes::spec_u64_to_le_bytes(c.0));
        assert(payload.subrange(8, 32) =~= zero_padding());
        let p = b.subrange(m + 9, m + 9 + payload.len());
        assert(le_key(p.subrange(0, 8)) == c.0);
        match c.1 {
            Some(d) => {
                assert(payload.subrange(32, payload.len() as int) =~= d);
                assert(cs[cs.len() - 1] == c);
            },
            None => {},
        }
        assert(s1.pending->0.ops.push(change_ops(cs, off).last()) =~= t.ops + change_ops(
            cs,
            off,
        ));
        lemma_scan_next(b, m, s1);
    }
}

/// Scanning a whole transaction from the end of a committed prefix
/// commits its changes.
proof fn lemma_scan_transaction(
    b: Seq<u8>,
    off: int,
    st: ScanState,
    id: u64,
    cs: Seq<(u64, Option<Seq<u8>>)>,
)
    requires
        scan_inv(off, st),
        st.pending is None,
        changes_addressed(cs),
        off + transaction_bytes(id, cs).len() <= b.len(),
        b.len() <= usize::MAX,
        b.subrange(off, off + transaction_bytes(id, cs).len()) == transaction_bytes(id, cs),
    ensures
        transaction_bytes(id, cs).len() == 34 + change_records(cs).len(),
        scan(b, off, st) == scan(
            b,
            off + transaction_bytes(id, cs).len(),
            ScanState {
                entries: apply_ops(st.entries, change_ops(cs, off + 17)),
                pending: None,
                valid_len: off + transaction_bytes(id, cs).len(),
                next_transaction: max_u64(st.next_transaction, succ_sat(id)),
            },
        ),
{
    let tx = transaction_bytes(id, cs);
    let body = change_records(cs);
    crate::codec::lemma_be_u64_of_be_bytes(id);
    lemma_record_len(BEGIN, crate::codec::be_bytes(id));
    lemma_record_len(COMMIT, crate::codec::be_bytes(id));
    let end = off + tx.len();
    // BEGIN
    assert(b.subrange(off, off + 17) =~= tx.subrange(0, 17));
    assert(tx.subrange(0, 17) =~= record_bytes(BEGIN, crate::codec::be_bytes(id)));
    lemma_step_record(b, off, BEGIN, crate::codec::be_bytes(id));
    let s1 = ScanState {
        pending: Some(PendingView { id, start: off, ops: seq![] }),
        next_transaction: max_u64(st.next_transaction, succ_sat(id)),
        ..st
    };
    lemma_scan_next(b, off, st);
    assert(scan(b, off, st) == scan(b, off + 17, s1));
    // changes
    assert(b.subrange(off + 17, off + 17 + body.len()) =~= tx.subrange(17, 17 + body.len() as int));
    assert(tx.subrange(17, 17 + body.len() as int) =~= body);
    lemma_scan_changes(b, off + 17, s1, cs);
    let ops = change_ops(cs, off + 17);
    let s2 = ScanState {
        pending: Some(PendingView { id, start: off, ops: seq![] + ops }),
        ..s1
    };
    assert(seq![] + ops =~= ops);
    // COMMIT
    let c = off + 17 + body.len();
    assert(b.subrange(c, c + 17) =~= tx.subrange(17 + body.len() as int, tx.len() as int));
    assert(tx.subrange(17 + body.len() as int, tx.len() as int) =~= record_bytes(COMMIT, crate::codec::be_bytes(id)));
    lemma_step_record(b, c, COMMIT, crate::codec::be_bytes(id));
    lemma_scan_next(b, c, s2);
}

/// A log made only of committed transactions, followed by one more
/// complete transaction, is recovered with that transaction's changes
/// applied to the index.
pub proof fn lemma_committed_transaction_recovered(
    b: Seq<u8>,
    id: u64,
    cs: Seq<(u64, Option<Seq<u8>>)>,
)
    requires
        parse_log_spec(b) is Ok,
        parse_log_spec(b)->Ok_0.valid_len == b.len(),
        changes_addressed(cs),
        b.len() + transaction_bytes(id, cs).len() <= usize::MAX,
    ensures
        ({
            let p = parse_log_spec(b)->Ok_0;
            parse_log_spec(b + transaction_bytes(id, cs)) == Ok::<ParsedLogView, LogError>(
                ParsedLogView {
                    entries: apply_ops(p.entries, change_ops(cs, b.len() as int + 17)),
                    valid_len: b.len() + transaction_bytes(id, cs).len() as int,
                    next_transaction: max_u64(p.next_transaction, succ_sat(id)),
                },
            )
        }),
{
    let p = parse_log_spec(b)->Ok_0;
    let tx = transaction_bytes(id, cs);
    let b2 = b + tx;
    assert(b2.subrange(0, 8) =~= b.subrange(0, 8));
    lemma_scan_extend(b, tx, 8, initial_scan_state());
    let s = committed_state(p);
    assert(b2.subrange(b.len() as int, b.len() + tx.len() as int) =~= tx);
    lemma_scan_transaction(b2, b.len() as int, s, id, cs);
}

} // verus!

verus! {

/// A record cut short stops the scan.
proof fn lemma_partial_record_stops(
    b: Seq<u8>,
    off: int,
    st: ScanState,
    kind: u8,
    payload: Seq<u8>,
)
    requires
        0 <= off <= b.len(),
        b.len() - off < 9 + payload.len(),
        off + 9 + payload.len() <= usize::MAX,
        b.subrange(off, b.len() as int) == record_bytes(kind, payload).subrange(
            0,
            b.len() - off,
        ),
    ensures
        scan_step(b, off, st) == ScanStep::Stop,
{
    lemma_record_len(kind, payload);
    crate::codec::lemma_be_u64_of_be_bytes(payload.len() as u64);
    if b.len() - off >= 9 {
        let r = record_bytes(kind, payload);
        let k = b.len() - off;
        assert(b.subrange(off + 1, off + 9) =~= b.subrange(off, b.len() as int).subrange(1, 9));
        assert(r.subrange(0, k).subrange(1, 9) =~= r.subrange(1, 9));
        assert(b.subrange(off + 1, off + 9) =~= r.subrange(1, 9));
        assert(r.subrange(1, 9) =~= crate::codec::be_bytes(payload.len() as u64));
    }
}

/// Scanning a prefix of the change records of an open transaction, up to
/// the end of the bytes, leaves the committed index and the valid prefix
/// where they were.
proof fn lemma_scan_partial_changes(
    b: Seq<u8>,
    off: int,
    st: ScanState,
    cs: Seq<(u64, Option<Seq<u8>>)>,
)
    requires
        scan_inv(off, st),
        st.pending is Some,
        changes_addressed(cs),
        off <= b.len() <= off + change_records(cs).len(),
        off + change_records(cs).len() <= usize::MAX,
        b.subrange(off, b.len() as int) == change_records(cs).subrange(0, b.len() - off),
    ensures
        scan(b, off, st) == Ok::<ParsedLogView, LogError>(
            ParsedLogView {
                entries: st.entries,
                valid_len: st.pending->0.start,
                next_transaction: st.next_transaction,
            },
        ),
    decreases cs.len(),
{
    if cs.len() == 0 {
        assert(b.len() == off);
    } else {
        let init = cs.drop_last();
        let c = cs.last();
        let ri = change_records(init);
        let rec = change_record(c);
        assert(change_records(cs) == ri + rec);
        assert forall|i: int| 0 <= i < init.len() implies ((#[trigger] init[i]).1 matches Some(d)
            ==> crate::hash::address_of(d) == init[i].0) by {
            assert(init[i] == cs[i]);
        }
        if b.len() - off <= ri.len() {
            assert(ri.subrange(0, b.len() - off) =~= (ri + rec).subrange(0, b.len() - off));
            lemma_scan_partial_changes(b, off, st, init);
        } else {
            let m = off + ri.len();
            assert(b.subrange(off, m) =~= b.subrange(off, b.len() as int).subrange(
                0,
                ri.len() as int,
            ));
            assert((ri + rec).subrange(0, b.len() - off).subrange(0, ri.len() as int) =~= ri);
            lemma_scan_changes(b, off, st, init);
            let t = st.pending->0;
            let s1 = ScanState {
                pending: Some(PendingView { ops: t.ops + change_ops(init, off), ..t }),
                ..st
            };
            vstd::bytes::lemma_auto_spec_u64_to_from_le_bytes();
            let payload = match c.1 {
                Some(d) => key_bytes(c.0) + d,
                None => key_bytes(c.0),
            };
            let kind = match c.1 {
                Some(d) => PUT,
                None => DELETE,
            };
            assert(rec == record_bytes(kind, payload));
            lemma_record_len(kind, payload);
            assert(b.subrange(m, b.len() as int) =~= b.subrange(off, b.len() as int).subrange(
                ri.len() as int,
                b.len() - off,
            ));
            assert((ri + rec).subrange(0, b.len() - off).subrange(ri.len() as int, b.len() - off)
                =~= rec.subrange(0, b.len() - m));
            if b.len() - m < rec.len() {
                lemma_partial_record_stops(b, m, s1, kind, payload);
            } else {
                assert(rec.subrange(0, b.len() - m) =~= rec);
                assert(b.len() == off + change_records(cs).len());
                assert(change_records(cs).subrange(0, b.len() - off) =~= change_records(cs));
                lemma_scan_changes(b, off, st, cs);
            }
        }
    }
}

/// Recovery keeps the log up to the end of its last COMMIT record (or just
/// the header), and cutting the log there keeps what reopening it yields.
pub proof fn lemma_truncated_log_recovered(b: Seq<u8>)
    requires
        parse_log_spec(b) is Ok,
    ensures
        ({
            let p = parse_log_spec(b)->Ok_0;
            let q = parse_log_spec(b.subrange(0, p.valid_len));
            &&& 8 <= p.valid_len <= b.len()
            &&& (p.valid_len == 8 || commit_ends_at(b, p.valid_len))
            &&& q is Ok
            &&& q->Ok_0.entries == p.entries
            &&& q->Ok_0.valid_len == p.valid_len
            &&& q->Ok_0.next_transaction <= p.next_transaction
        }),
{
    let p = parse_log_spec(b)->Ok_0;
    lemma_scan_bounds(b, 8, initial_scan_state());
    lemma_scan_truncate(b, 8, initial_scan_state());
    lemma_scan_ends_at_commit(b, 8, initial_scan_state());
    assert(b.subrange(0, p.valid_len).subrange(0, 8) =~= b.subrange(0, 8));
}

/// A log made only of committed transactions, followed by any proper
/// prefix of one more transaction (a write cut short by a crash), is
/// recovered as if the cut transaction had never been written.
pub proof fn lemma_incomplete_transaction_ignored(
    b: Seq<u8>,
    id: u64,
    cs: Seq<(u64, Option<Seq<u8>>)>,
    cut: int,
)
    requires
        parse_log_spec(b) is Ok,
        parse_log_spec(b)->Ok_0.valid_len == b.len(),
        changes_addressed(cs),
        b.len() + transaction_bytes(id, cs).len() <= usize::MAX,
        0 <= cut < transaction_bytes(id, cs).len(),
    ensures
        ({
            let p = parse_log_spec(b)->Ok_0;
            let q = parse_log_spec(b + transaction_bytes(id, cs).subrange(0, cut));
            &&& q is Ok
            &&& q->Ok_0.entries == p.entries
            &&& q->Ok_0.valid_len == b.len()
        }),
{
    let p = parse_log_spec(b)->Ok_0;
    let tx = transaction_bytes(id, cs);
    let part = tx.subrange(0, cut);
    let b2 = b + part;
    let base = b.len() as int;
    assert(b2.subrange(0, 8) =~= b.subrange(0, 8));
    lemma_scan_extend(b, part, 8, initial_scan_state());
    let s = committed_state(p);
    crate::codec::lemma_be_u64_of_be_bytes(id);
    lemma_record_len(BEGIN, crate::codec::be_bytes(id));
    lemma_record_len(COMMIT, crate::codec::be_bytes(id));
    let body = change_records(cs);
    assert(b2.subrange(base, b2.len() as int) =~= part);
    if cut < 17 {
        assert(part =~= record_bytes(BEGIN, crate::codec::be_bytes(id)).subrange(0, cut));
        lemma_partial_record_stops(b2, base, s, BEGIN, crate::codec::be_bytes(id));
    } else {
        assert(b2.subrange(base, base + 17) =~= tx.subrange(0, 17));
        lemma_incomplete_after_begin(b2, base, s, id, cs);
    }
}

proof fn lemma_incomplete_after_begin(
    b2: Seq<u8>,
    base: int,
    s: ScanState,
    id: u64,
    cs: Seq<(u64, Option<Seq<u8>>)>,
)
    requires
        scan_inv(base, s),
        s.pending is None,
        changes_addressed(cs),
        base + 17 <= b2.len() < base + transaction_bytes(id, cs).len(),
        base + transaction_bytes(id, cs).len() <= usize::MAX,
        b2.subrange(base, b2.len() as int) == transaction_bytes(id, cs).subrange(
            0,
            b2.len() - base,
        ),
    ensures
        scan(b2, base, s) == Ok::<ParsedLogView, LogError>(
            ParsedLogView {
                entries: s.entries,
                valid_len: base,
                next_transaction: max_u64(s.next_transaction, succ_sat(id)),
            },
        ),
{
    let tx = transaction_bytes(id, cs);
    let body = change_records(cs);
    let cut = b2.len() - base;
    crate::codec::lemma_be_u64_of_be_bytes(id);
    lemma_record_len(BEGIN, crate::codec::be_bytes(id));
    lemma_record_len(COMMIT, crate::codec::be_bytes(id));
    assert(b2.subrange(base, base + 17) =~= b2.subrange(base, b2.len() as int).subrange(0, 17));
    assert(tx.subrange(0, cut).subrange(0, 17) =~= record_bytes(BEGIN, crate::codec::be_bytes(id)));
    lemma_step_record(b2, base, BEGIN, crate::codec::be_bytes(id));
    lemma_scan_next(b2, base, s);
    let s1 = ScanState {
        pending: Some(PendingView { id, start: base, ops: seq![] }),
        next_transaction: max_u64(s.next_transaction, succ_sat(id)),
        ..s
    };
    assert(b2.subrange(base + 17, b2.len() as int) =~= b2.subrange(base, b2.len() as int).subrange(
        17,
        cut,
    ));
    if cut - 17 <= body.len() {
        assert(tx.subrange(0, cut).subrange(17, cut) =~= body.subrange(0, cut - 17));
        lemma_scan_partial_changes(b2, base + 17, s1, cs);
    } else {
        let c = base + 17 + body.len();
        assert(b2.subrange(base + 17, c) =~= b2.subrange(base, b2.len() as int).subrange(
            17,
            17 + body.len() as int,
        ));
        assert(tx.subrange(0, cut).subrange(17, 17 + body.len() as int) =~= body);
        lemma_scan_changes(b2, base + 17, s1, cs);
        assert(b2.subrange(c, b2.len() as int) =~= b2.subrange(base, b2.len() as int).subrange(
            17 + body.len() as int,
            cut,
        ));
        assert(tx.subrange(0, cut).subrange(17 + body.len() as int, cut) =~= record_bytes(
            COMMIT,
            crate::codec::be_bytes(id),
        ).subrange(0, b2.len() - c));
        lemma_partial_record_stops(
            b2,
            c,
            ScanState {
                pending: Some(PendingView { id, start: base, ops: seq![] + change_ops(cs, base + 17) }),
                ..s1
            },
            COMMIT,
            crate::codec::be_bytes(id),
        );
    }
}

} // verus!

verus! {

/// Every indexed object lies below `limit` in `b` and has its address.
pub open spec fn entries_sound(b: Seq<u8>, entries: Map<u64, Entry>, limit: int) -> bool {
    forall|k: u64|
        #![trigger entries[k]]
        entries.contains_key(k) ==> {
            &&& entries[k].offset + entries[k].len <= limit
            &&& limit <= b.len()
            &&& crate::hash::address_of(
                b.subrange(entries[k].offset as int, entries[k].offset + entries[k].len),
            ) == k
        }
}

/// Every stored object of the operations lies below `limit` in `b` and has its address.
pub open spec fn ops_sound(b: Seq<u8>, ops: Seq<LogOp>, limit: int) -> bool {
    forall|i: int|
        0 <= i < ops.len() ==> match #[trigger] ops[i] {
            LogOp::Put(k, e) => {
                &&& e.offset + e.len <= limit
                &&& limit <= b.len()
                &&& crate::hash::address_of(b.subrange(e.offset as int, e.offset + e.len)) == k
            },
            LogOp::Delete(_) => true,
        }
}

proof fn lemma_apply_ops_sound(b: Seq<u8>, entries: Map<u64, Entry>, ops: Seq<LogOp>, limit: int)
    requires
        entries_sound(b, entries, limit),
        ops_sound(b, ops, limit),
    ensures
        entries_sound(b, apply_ops(entries, ops), limit),
    decreases ops.len(),
{
    if ops.len() > 0 {
        assert(ops_sound(b, ops.drop_last(), limit)) by {
            assert forall|i: int| 0 <= i < ops.drop_last().len() implies match #[trigger] ops.drop_last()[i] {
                LogOp::Put(k, e) => {
                    &&& e.offset + e.len <= limit
                    &&& limit <= b.len()
                    &&& crate::hash::address_of(b.subrange(e.offset as int, e.offset + e.len)) == k
                },
                LogOp::Delete(_) => true,
            } by {
                assert(ops.drop_last()[i] == ops[i]);
            }
        }
        lemma_apply_ops_sound(b, entries, ops.drop_last(), limit);
        assert(ops.last() == ops[ops.len() - 1]);
    }
}

proof fn lemma_entries_sound_grow(b: Seq<u8>, entries: Map<u64, Entry>, limit: int, limit2: int)
    requires
        entries_sound(b, entries, limit),
        limit <= limit2 <= b.len(),
    ensures
        entries_sound(b, entries, limit2),
{
}

proof fn lemma_scan_sound(b: Seq<u8>, off: int, st: ScanState)
    requires
        scan_inv(off, st),
        off <= b.len(),
        scan(b, off, st) is Ok,
        entries_sound(b, st.entries, st.valid_len),
        st.pending matches Some(t) ==> ops_sound(b, t.ops, off),
    ensures
        entries_sound(b, scan(b, off, st)->Ok_0.entries, scan(b, off, st)->Ok_0.valid_len),
    decreases b.len() - off,
{
    lemma_scan_bounds(b, off, st);
    let p = scan(b, off, st)->Ok_0;
    match scan_step(b, off, st) {
        ScanStep::Next(n, s2) => {
            lemma_scan_next(b, off, st);
            let start = off + 9;
            let len = n - start;
            let kind = b[off];
            if kind == PUT {
                let t = st.pending->0;
                let pl = b.subrange(start, n);
                assert(pl.subrange(32, len) =~= b.subrange(start + 32, n));
                let t2 = s2.pending->0;
                assert forall|i: int| 0 <= i < t2.ops.len() implies match #[trigger] t2.ops[i] {
                    LogOp::Put(k, e) => {
                        &&& e.offset + e.len <= n
                        &&& n <= b.len()
                        &&& crate::hash::address_of(b.subrange(e.offset as int, e.offset + e.len)) == k
                    },
                    LogOp::Delete(_) => true,
                } by {
                    if i < t.ops.len() {
                        assert(t2.ops[i] == t.ops[i]);
                    }
                }
            } else if kind == DELETE {
                let t = st.pending->0;
                let t2 = s2.pending->0;
                assert forall|i: int| 0 <= i < t2.ops.len() implies match #[trigger] t2.ops[i] {
                    LogOp::Put(k, e) => {
                        &&& e.offset + e.len <= n
                        &&& n <= b.len()
                        &&& crate::hash::address_of(b.subrange(e.offset as int, e.offset + e.len)) == k
                    },
                    LogOp::Delete(_) => true,
                } by {
                    if i < t.ops.len() {
                        assert(t2.ops[i] == t.ops[i]);
                    }
                }
            } else if kind == COMMIT {
                let t = st.pending->0;
                lemma_entries_sound_grow(b, st.entries, st.valid_len, n);
                assert forall|i: int| 0 <= i < t.ops.len() implies match #[trigger] t.ops[i] {
                    LogOp::Put(k, e) => {
                        &&& e.offset + e.len <= n
                        &&& n <= b.len()
                        &&& crate::hash::address_of(b.subrange(e.offset as int, e.offset + e.len)) == k
                    },
                    LogOp::Delete(_) => true,
                } by {}
                lemma_apply_ops_sound(b, st.entries, t.ops, n);
            }
            lemma_scan_sound(b, n, s2);
        },
        _ => {},
    }
}

/// Every object indexed by reopening a log lies inside its valid prefix
/// and has the address it is indexed under.
pub proof fn lemma_recovered_entries_addressed(b: Seq<u8>)
    requires
        parse_log_spec(b) is Ok,
    ensures
        entries_sound(b, parse_log_spec(b)->Ok_0.entries, parse_log_spec(b)->Ok_0.valid_len),
{
    lemma_scan_sound(b, 8, initial_scan_state());
}

} // verus!

verus! {

/// The address an operation is about.
pub open spec fn op_key(op: LogOp) -> u64 {
    match op {
        LogOp::Put(k, _) => k,
        LogOp::Delete(k) => k,
    }
}

/// Applying operations on pairwise distinct addresses: each address takes
/// the effect of its own operation, and other addresses keep their entry.
pub proof fn lemma_apply_distinct_ops(entries: Map<u64, Entry>, ops: Seq<LogOp>)
    requires
        forall|i: int, j: int| 0 <= i < j < ops.len() ==> op_key(#[trigger] ops[i]) != op_key(#[trigger] ops[j]),
    ensures
        forall|i: int|
            0 <= i < ops.len() ==> match #[trigger] ops[i] {
                LogOp::Put(k, e) => apply_ops(entries, ops).contains_key(k) && apply_ops(
                    entries,
                    ops,
                )[k] == e,
                LogOp::Delete(k) => !apply_ops(entries, ops).contains_key(k),
            },
        forall|k: u64|
            (forall|i: int| 0 <= i < ops.len() ==> op_key(#[trigger] ops[i]) != k) ==> (
            #[trigger] apply_ops(entries, ops).contains_key(k) == entries.contains_key(k) && (
            entries.contains_key(k) ==> apply_ops(entries, ops)[k] == entries[k])),
    decreases ops.len(),
{
    if ops.len() > 0 {
        let init = ops.drop_last();
        assert forall|i: int, j: int| 0 <= i < j < init.len() implies op_key(#[trigger] init[i])
            != op_key(#[trigger] init[j]) by {
            assert(init[i] == ops[i]);
            assert(init[j] == ops[j]);
        }
        lemma_apply_distinct_ops(entries, init);
        let last = ops.last();
        assert forall|i: int| 0 <= i < ops.len() implies match #[trigger] ops[i] {
            LogOp::Put(k, e) => apply_ops(entries, ops).contains_key(k) && apply_ops(entries, ops)[k]
                == e,
            LogOp::Delete(k) => !apply_ops(entries, ops).contains_key(k),
        } by {
            if i < ops.len() - 1 {
                assert(init[i] == ops[i]);
                assert(op_key(ops[i]) != op_key(ops[ops.len() - 1]));
            }
        }
        assert forall|k: u64|
            (forall|i: int| 0 <= i < ops.len() ==> op_key(#[trigger] ops[i]) != k) implies (
            #[trigger] apply_ops(entries, ops).contains_key(k) == entries.contains_key(k) && (
            entries.contains_key(k) ==> apply_ops(entries, ops)[k] == entries[k])) by {
            assert forall|i: int| 0 <= i < init.len() implies op_key(#[trigger] init[i]) != k by {
                assert(init[i] == ops[i]);
            }
            assert(op_key(ops[ops.len() - 1]) != k);
            assert(apply_ops(entries, init).contains_key(k) == entries.contains_key(k));
            assert(apply_ops(entries, ops) == apply_op(apply_ops(entries, init), last));
        }
    }
}

/// Where the record of each change lies, and the operation it denotes.
pub proof fn lemma_change_layout(cs: Seq<(u64, Option<Seq<u8>>)>, base: int, i: int)
    requires
        0 <= i < cs.len(),
    ensures
        change_ops(cs, base).len() == cs.len(),
        ({
            let r = change_records(cs.take(i)).len() as int;
            let rec = change_record(cs[i]);
            &&& r + rec.len() <= change_records(cs).len()
            &&& change_records(cs).subrange(r, r + rec.len()) == rec
            &&& change_ops(cs, base)[i] == match cs[i].1 {
                Some(d) => LogOp::Put(
                    cs[i].0,
                    Entry { offset: (base + r + 41) as u64, len: d.len() as u64 },
                ),
                None => LogOp::Delete(cs[i].0),
            }
        }),
    decreases cs.len(),
{
    let init = cs.drop_last();
    lemma_change_ops_len(cs, base);
    if i < cs.len() - 1 {
        lemma_change_layout(init, base, i);
        assert(init.take(i) =~= cs.take(i));
        assert(init[i] == cs[i]);
        let r = change_records(cs.take(i)).len() as int;
        let rec = change_record(cs[i]);
        assert(change_records(cs) == change_records(init) + change_record(cs.last()));
        assert(change_records(cs).subrange(r, r + rec.len()) =~= change_records(init).subrange(
            r,
            r + rec.len(),
        ));
    } else {
        assert(cs.take(i) =~= init);
        assert(change_records(cs) == change_records(init) + change_record(cs.last()));
        let r = change_records(init).len() as int;
        assert(change_records(cs).subrange(r, r + change_record(cs[i]).len()) =~= change_record(
            cs[i],
        ));
    }
}

proof fn lemma_change_ops_len(cs: Seq<(u64, Option<Seq<u8>>)>, base: int)
    ensures
        change_ops(cs, base).len() == cs.len(),
    decreases cs.len(),
{
    if cs.len() > 0 {
        lemma_change_ops_len(cs.drop_last(), base);
    }
}

/// The byte length of one change's record.
pub open spec fn change_len(c: Option<Seq<u8>>) -> int {
    match c {
        Some(d) => 41 + d.len() as int,
        None => 41,
    }
}

/// The byte length of the records of a set of changes.
pub open spec fn changes_len(m: Map<u64, Option<Seq<u8>>>) -> int
    decreases m.dom().len(),
    when m.dom().finite()
{
    if m.dom().len() == 0 {
        0
    } else {
        let k = m.dom().choose();
        change_len(m[k]) + changes_len(m.remove(k))
    }
}

/// Any change can be taken out of the sum first.
pub proof fn lemma_changes_len_remove(m: Map<u64, Option<Seq<u8>>>, k: u64)
    requires
        m.dom().finite(),
        m.contains_key(k),
    ensures
        changes_len(m) == change_len(m[k]) + changes_len(m.remove(k)),
    decreases m.dom().len(),
{
    let c = m.dom().choose();
    assert(m.dom().contains(c));
    if c != k {
        assert(m.remove(c).dom() =~= m.dom().remove(c));
        assert(m.remove(k).dom() =~= m.dom().remove(k));
        lemma_changes_len_remove(m.remove(c), k);
        lemma_changes_len_remove(m.remove(k), c);
        assert(m.remove(c).remove(k) =~= m.remove(k).remove(c));
        let mk = m.remove(k);
        assert(mk.dom().len() > 0);
    } else {
        assert(m.dom().len() > 0);
    }
}

} // verus!
