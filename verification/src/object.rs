//! The object model: chunk blobs, trees that map chunk coordinates to
//! blob addresses, and commits, with their canonical byte encoding.
//!
//! Every object starts with the envelope `CHLG`, format version 1 and a
//! type tag; integers are big-endian and addresses are their eight
//! little-endian bytes:
//!
//! | Tag | Type | Body |
//! | ---: | --- | --- |
//! | 1 | Blob | `u64` length, the bytes |
//! | 2 | Tree | `u64` entry count, then entries sorted by coordinates: `i32 x`, `i32 z`, blob address |
//! | 4 | Commit | tree address, parent flag (0 or 1) and parent address, `u64` Unix timestamp, `u64` length of the UTF-8 message, the message |
//!
//! Decoding rejects anything else: another envelope or tag, a length that
//! does not match, unsorted or repeated coordinates, a bad parent flag and
//! invalid UTF-8. So an object has exactly one encoding.

use std::collections::BTreeMap;
use vstd::prelude::*;

use crate::codec::{be_bytes, be_bytes32, be_u32, be_u64};

verus! {

broadcast use vstd::std_specs::btree::group_btree_axioms;

/// Chunk coordinates in a voxel world.
pub type ChunkCoords = (i32, i32);

/// Type tag of a blob.
pub const BLOB_TAG: u8 = 1;

/// Type tag of a tree.
pub const TREE_TAG: u8 = 2;

/// Type tag of a commit.
pub const COMMIT_TAG: u8 = 4;

/// Metadata for a single commit.
#[derive(Debug, Clone, PartialEq, Eq)]
pub struct Commit {
    /// Hash of the root tree of this commit.
    pub tree: crate::hash::Hash,
    /// Hash of the parent commit, or `None` for the first commit.
    pub parent: Option<crate::hash::Hash>,
    /// Unix timestamp (seconds) of the commit.
    pub timestamp: u64,
    /// Commit message.
    pub message: String,
}

/// An immutable, structured object in the store.
#[derive(Debug, Clone, PartialEq, Eq)]
pub enum Object {
    /// Chunk data.
    Blob(Vec<u8>),
    /// Mapping of chunk coordinates to blob hashes.
    Tree(BTreeMap<ChunkCoords, crate::hash::Hash>),
    /// A commit referencing a root tree.
    Commit(Commit),
}

/// The error returned when bytes are not the encoding of an object.
#[derive(Debug, Clone, Copy, PartialEq, Eq)]
pub struct DecodeError;

/// What a commit holds, with addresses as their values.
pub struct CommitView {
    /// Address of the root tree.
    pub tree: u64,
    /// Address of the parent commit.
    pub parent: Option<u64>,
    /// Unix timestamp in seconds.
    pub timestamp: u64,
    /// The message.
    pub message: Seq<char>,
}

/// What an object holds, with addresses as their values.
pub enum ObjectView {
    /// Chunk bytes.
    Blob(Seq<u8>),
    /// Chunk coordinates mapped to blob addresses.
    Tree(Map<(i32, i32), u64>),
    /// A commit.
    Commit(CommitView),
}

/// The address values of optional hashes.
pub open spec fn option_address(h: Option<crate::hash::Hash>) -> Option<u64> {
    match h {
        Some(h) => Some(h@),
        None => None,
    }
}

impl View for Commit {
    type V = CommitView;

    open spec fn view(&self) -> CommitView {
        CommitView {
            tree: self.tree@,
            parent: option_address(self.parent),
            timestamp: self.timestamp,
            message: self.message@,
        }
    }
}

/// A tree's entries with addresses as their values.
pub open spec fn tree_view(t: Map<(i32, i32), crate::hash::Hash>) -> Map<(i32, i32), u64> {
    t.map_values(|h: crate::hash::Hash| h@)
}

impl View for Object {
    type V = ObjectView;

    open spec fn view(&self) -> ObjectView {
        match self {
            Object::Blob(d) => ObjectView::Blob(d@),
            Object::Tree(t) => ObjectView::Tree(tree_view(t@)),
            Object::Commit(c) => ObjectView::Commit(c@),
        }
    }
}

/// The first bytes of every encoded object of type `tag`.
pub open spec fn object_header(tag: u8) -> Seq<u8> {
    seq![0x43u8, 0x48u8, 0x4cu8, 0x47u8, 1u8, tag]
}

/// Whether `a` comes before `b`: by `x`, then by `z`.
pub open spec fn coord_lt(a: (i32, i32), b: (i32, i32)) -> bool {
    a.0 < b.0 || (a.0 == b.0 && a.1 < b.1)
}

/// Coordinates in strictly increasing order.
pub open spec fn coords_sorted(s: Seq<(i32, i32)>) -> bool {
    forall|i: int, j: int| 0 <= i < j < s.len() ==> coord_lt(#[trigger] s[i], #[trigger] s[j])
}

/// The coordinates of a finite set in increasing order.
pub open spec fn sorted_coords(d: Set<(i32, i32)>) -> Seq<(i32, i32)> {
    choose|s: Seq<(i32, i32)>| coords_sorted(s) && s.to_set() == d
}

/// The eight little-endian bytes of an address value.
pub open spec fn address_bytes(h: u64) -> Seq<u8> {
    vstd::bytes::spec_u64_to_le_bytes(h)
}

/// The address value of eight little-endian bytes.
pub open spec fn address_value(s: Seq<u8>) -> u64 {
    vstd::bytes::spec_u64_from_le_bytes(s)
}

/// The bytes of one tree entry.
pub open spec fn entry_bytes(c: (i32, i32), h: u64) -> Seq<u8> {
    be_bytes32(c.0 as u32) + be_bytes32(c.1 as u32) + address_bytes(h)
}

/// The bytes of tree entries, in order.
pub open spec fn entries_bytes(es: Seq<((i32, i32), u64)>) -> Seq<u8>
    decreases es.len(),
{
    if es.len() == 0 {
        seq![]
    } else {
        entries_bytes(es.drop_last()) + entry_bytes(es.last().0, es.last().1)
    }
}

/// The entries of a tree in increasing order of coordinates.
pub open spec fn tree_entries(m: Map<(i32, i32), u64>) -> Seq<((i32, i32), u64)> {
    sorted_coords(m.dom()).map_values(|c: (i32, i32)| (c, m[c]))
}

/// The parent flag and, if any, the parent address.
pub open spec fn parent_bytes(p: Option<u64>) -> Seq<u8> {
    match p {
        Some(h) => seq![1u8] + address_bytes(h),
        None => seq![0u8],
    }
}

/// The canonical encoding of an object.
pub open spec fn encode_object(o: ObjectView) -> Seq<u8> {
    match o {
        ObjectView::Blob(d) => object_header(BLOB_TAG) + be_bytes(d.len() as u64) + d,
        ObjectView::Tree(m) => object_header(TREE_TAG) + be_bytes(m.dom().len() as u64)
            + entries_bytes(tree_entries(m)),
        ObjectView::Commit(c) => object_header(COMMIT_TAG) + address_bytes(c.tree) + parent_bytes(
            c.parent,
        ) + be_bytes(c.timestamp) + be_bytes(vstd::utf8::encode_utf8(c.message).len() as u64)
            + vstd::utf8::encode_utf8(c.message),
    }
}

/// Whether every length of the object fits its 64-bit field.
pub open spec fn encodable(o: ObjectView) -> bool {
    match o {
        ObjectView::Blob(d) => d.len() <= u64::MAX,
        ObjectView::Tree(m) => m.dom().finite() && m.dom().len() <= u64::MAX,
        ObjectView::Commit(c) => vstd::utf8::encode_utf8(c.message).len() <= u64::MAX,
    }
}

/// The coordinates stored at `at`.
pub open spec fn coord_at(b: Seq<u8>, at: int) -> (i32, i32) {
    (be_u32(b.subrange(at, at + 4)) as i32, be_u32(b.subrange(at + 4, at + 8)) as i32)
}

/// The `i`th entry of an encoded tree.
pub open spec fn tree_entry_at(b: Seq<u8>, i: int) -> ((i32, i32), u64) {
    (coord_at(b, 14 + 16 * i), address_value(b.subrange(14 + 16 * i + 8, 14 + 16 * i + 16)))
}

/// The first `n` entries of an encoded tree.
pub open spec fn tree_entries_of(b: Seq<u8>, n: nat) -> Seq<((i32, i32), u64)> {
    Seq::new(n, |i: int| tree_entry_at(b, i))
}

/// The coordinates of entries.
pub open spec fn entry_coords(es: Seq<((i32, i32), u64)>) -> Seq<(i32, i32)> {
    es.map_values(|e: ((i32, i32), u64)| e.0)
}

/// The map built by inserting entries in order.
pub open spec fn entries_map(es: Seq<((i32, i32), u64)>) -> Map<(i32, i32), u64>
    decreases es.len(),
{
    if es.len() == 0 {
        Map::empty()
    } else {
        entries_map(es.drop_last()).insert(es.last().0, es.last().1)
    }
}

/// The blob encoded by `b`, if it is one.
pub open spec fn decode_blob(b: Seq<u8>) -> Option<ObjectView> {
    if b.len() >= 14 && be_u64(b.subrange(6, 14)) == b.len() - 14 {
        Some(ObjectView::Blob(b.subrange(14, b.len() as int)))
    } else {
        None
    }
}

/// The tree encoded by `b`, if it is one.
pub open spec fn decode_tree(b: Seq<u8>) -> Option<ObjectView> {
    if b.len() >= 14 && b.len() - 14 == 16 * be_u64(b.subrange(6, 14)) && coords_sorted(
        entry_coords(tree_entries_of(b, be_u64(b.subrange(6, 14)) as nat)),
    ) {
        Some(ObjectView::Tree(entries_map(tree_entries_of(b, be_u64(b.subrange(6, 14)) as nat))))
    } else {
        None
    }
}

/// The commit encoded by `b` with `parent`, whose timestamp starts at `at`.
pub open spec fn decode_commit_from(b: Seq<u8>, parent: Option<u64>, at: int) -> Option<
    ObjectView,
> {
    if b.len() >= at + 16 && be_u64(b.subrange(at + 8, at + 16)) == b.len() - (at + 16)
        && vstd::utf8::valid_utf8(b.subrange(at + 16, b.len() as int)) {
        Some(
            ObjectView::Commit(
                CommitView {
                    tree: address_value(b.subrange(6, 14)),
                    parent,
                    timestamp: be_u64(b.subrange(at, at + 8)),
                    message: vstd::utf8::decode_utf8(b.subrange(at + 16, b.len() as int)),
                },
            ),
        )
    } else {
        None
    }
}

/// The commit encoded by `b`, if it is one.
pub open spec fn decode_commit(b: Seq<u8>) -> Option<ObjectView> {
    if b.len() < 15 {
        None
    } else if b[14] == 0 {
        decode_commit_from(b, None, 15)
    } else if b[14] == 1 && b.len() >= 23 {
        decode_commit_from(b, Some(address_value(b.subrange(15, 23))), 23)
    } else {
        None
    }
}

/// The object encoded by `b`, if any.
pub open spec fn decode_object(b: Seq<u8>) -> Option<ObjectView> {
    if b.len() < 6 || b.subrange(0, 5) != object_header(0).subrange(0, 5) {
        None
    } else if b[5] == BLOB_TAG {
        decode_blob(b)
    } else if b[5] == TREE_TAG {
        decode_tree(b)
    } else if b[5] == COMMIT_TAG {
        decode_commit(b)
    } else {
        None
    }
}

// ---------------------------------------------------------------------------
// Sorted coordinates

proof fn lemma_sorted_no_first(s: Seq<(i32, i32)>)
    requires
        coords_sorted(s),
        s.len() > 0,
    ensures
        coords_sorted(s.drop_first()),
        s.drop_first().to_set() == s.to_set().remove(s[0]),
{
    let t = s.drop_first();
    assert forall|i: int, j: int| 0 <= i < j < t.len() implies coord_lt(#[trigger] t[i], #[trigger] t[j]) by {
        assert(t[i] == s[i + 1]);
        assert(t[j] == s[j + 1]);
    }
    assert forall|x: (i32, i32)| t.to_set().contains(x) == s.to_set().remove(s[0]).contains(x) by {
        if t.to_set().contains(x) {
            let i = choose|i: int| 0 <= i < t.len() && t[i] == x;
            assert(s[i + 1] == x);
            assert(coord_lt(s[0], s[i + 1]));
        }
        if s.to_set().remove(s[0]).contains(x) {
            let i = choose|i: int| 0 <= i < s.len() && s[i] == x;
            assert(i != 0);
            assert(t[i - 1] == x);
        }
    }
    assert(t.to_set() =~= s.to_set().remove(s[0]));
}

/// Two increasing listings of the same coordinates are the same.
pub proof fn lemma_sorted_coords_unique(s1: Seq<(i32, i32)>, s2: Seq<(i32, i32)>)
    requires
        coords_sorted(s1),
        coords_sorted(s2),
        s1.to_set() == s2.to_set(),
    ensures
        s1 == s2,
    decreases s1.len(),
{
    if s1.len() == 0 {
        if s2.len() > 0 {
            assert(s2.to_set().contains(s2[0]));
        }
        assert(s1 =~= s2);
    } else {
        assert(s1.to_set().contains(s1[0]));
        assert(s2.len() > 0);
        assert(s2.to_set().contains(s2[0]));
        let i = choose|i: int| 0 <= i < s2.len() && s2[i] == s1[0];
        let j = choose|j: int| 0 <= j < s1.len() && s1[j] == s2[0];
        if i > 0 {
            assert(coord_lt(s2[0], s2[i]));
            if j > 0 {
                assert(coord_lt(s1[0], s1[j]));
            }
        }
        assert(s1[0] == s2[0]);
        lemma_sorted_no_first(s1);
        lemma_sorted_no_first(s2);
        lemma_sorted_coords_unique(s1.drop_first(), s2.drop_first());
        assert(s1 =~= seq![s1[0]] + s1.drop_first());
        assert(s2 =~= seq![s2[0]] + s2.drop_first());
    }
}

proof fn lemma_least_coord(d: Set<(i32, i32)>) -> (m: (i32, i32))
    requires
        d.finite(),
        d.len() > 0,
    ensures
        d.contains(m),
        forall|y: (i32, i32)| d.contains(y) && y != m ==> coord_lt(m, y),
    decreases d.len(),
{
    let x = d.choose();
    let rest = d.remove(x);
    if rest.len() == 0 {
        assert forall|y: (i32, i32)| d.contains(y) && y != x implies coord_lt(x, y) by {
            assert(rest.contains(y));
        }
        x
    } else {
        let m2 = lemma_least_coord(rest);
        if coord_lt(x, m2) {
            x
        } else {
            m2
        }
    }
}

/// Every finite set of coordinates has an increasing listing.
pub proof fn lemma_sorted_coords(d: Set<(i32, i32)>)
    requires
        d.finite(),
    ensures
        coords_sorted(sorted_coords(d)),
        sorted_coords(d).to_set() == d,
    decreases d.len(),
{
    if d.len() == 0 {
        let s = Seq::<(i32, i32)>::empty();
        assert(s.to_set() =~= d) by {
            assert forall|x: (i32, i32)| !d.contains(x) by {
                if d.contains(x) {
                    assert(d.remove(x).len() < d.len());
                }
            }
        }
        assert(coords_sorted(s) && s.to_set() == d);
    } else {
        let m = lemma_least_coord(d);
        let rest = d.remove(m);
        lemma_sorted_coords(rest);
        let t = sorted_coords(rest);
        let s = seq![m] + t;
        assert forall|i: int, j: int| 0 <= i < j < s.len() implies coord_lt(#[trigger] s[i], #[trigger] s[j]) by {
            if i == 0 {
                assert(s[j] == t[j - 1]);
                assert(t.to_set().contains(t[j - 1]));
            } else {
                assert(s[i] == t[i - 1]);
                assert(s[j] == t[j - 1]);
            }
        }
        assert forall|x: (i32, i32)| s.to_set().contains(x) == d.contains(x) by {
            if s.to_set().contains(x) {
                let i = choose|i: int| 0 <= i < s.len() && s[i] == x;
                if i > 0 {
                    assert(t[i - 1] == x);
                    assert(t.to_set().contains(x));
                }
            }
            if d.contains(x) {
                if x == m {
                    assert(s[0] == x);
                } else {
                    assert(rest.contains(x));
                    let i = choose|i: int| 0 <= i < t.len() && t[i] == x;
                    assert(s[i + 1] == x);
                }
            }
        }
        assert(s.to_set() =~= d);
        assert(coords_sorted(s) && s.to_set() == d);
    }
}

// ---------------------------------------------------------------------------
// Entry layout

proof fn lemma_entry_len(c: (i32, i32), h: u64)
    ensures
        entry_bytes(c, h).len() == 16,
{
    vstd::bytes::lemma_auto_spec_u64_to_from_le_bytes();
    assert(address_bytes(h).len() == 8);
    assert(be_bytes32(c.0 as u32).len() == 4);
    assert(be_bytes32(c.1 as u32).len() == 4);
}

/// Where each entry lies in the bytes of a run of entries.
proof fn lemma_entries_layout(es: Seq<((i32, i32), u64)>)
    ensures
        entries_bytes(es).len() == 16 * es.len(),
        forall|i: int|
            0 <= i < es.len() ==> entries_bytes(es).subrange(16 * i, 16 * i + 16) == entry_bytes(
                #[trigger] es[i].0,
                es[i].1,
            ),
    decreases es.len(),
{
    if es.len() > 0 {
        let init = es.drop_last();
        lemma_entries_layout(init);
        lemma_entry_len(es.last().0, es.last().1);
        let b = entries_bytes(es);
        assert forall|i: int| 0 <= i < es.len() implies b.subrange(16 * i, 16 * i + 16) == entry_bytes(
            #[trigger] es[i].0,
            es[i].1,
        ) by {
            if i < es.len() - 1 {
                assert(init[i] == es[i]);
                assert(b.subrange(16 * i, 16 * i + 16) =~= entries_bytes(init).subrange(
                    16 * i,
                    16 * i + 16,
                ));
            } else {
                assert(b.subrange(16 * i, 16 * i + 16) =~= entry_bytes(es.last().0, es.last().1));
            }
        }
    }
}

/// Reading an entry back from its bytes.
proof fn lemma_entry_read(b: Seq<u8>, i: int, c: (i32, i32), h: u64)
    requires
        0 <= i,
        14 + 16 * i + 16 <= b.len(),
        b.subrange(14 + 16 * i, 14 + 16 * i + 16) == entry_bytes(c, h),
    ensures
        tree_entry_at(b, i) == (c, h),
{
    let at = 14 + 16 * i;
    let e = entry_bytes(c, h);
    lemma_entry_len(c, h);
    assert(b.subrange(at, at + 4) =~= e.subrange(0, 4));
    assert(e.subrange(0, 4) =~= be_bytes32(c.0 as u32));
    assert(b.subrange(at + 4, at + 8) =~= e.subrange(4, 8));
    assert(e.subrange(4, 8) =~= be_bytes32(c.1 as u32));
    assert(b.subrange(at + 8, at + 16) =~= e.subrange(8, 16));
    assert(e.subrange(8, 16) =~= address_bytes(h));
    crate::codec::lemma_be_u32_of_be_bytes32(c.0 as u32);
    crate::codec::lemma_be_u32_of_be_bytes32(c.1 as u32);
    crate::codec::lemma_i32_bits(c.0);
    crate::codec::lemma_i32_bits(c.1);
    vstd::bytes::lemma_auto_spec_u64_to_from_le_bytes();
}

/// The bytes of an entry read back are the bytes it was read from.
proof fn lemma_entry_canonical(b: Seq<u8>, i: int)
    requires
        0 <= i,
        14 + 16 * i + 16 <= b.len(),
    ensures
        entry_bytes(tree_entry_at(b, i).0, tree_entry_at(b, i).1) == b.subrange(
            14 + 16 * i,
            14 + 16 * i + 16,
        ),
{
    let at = 14 + 16 * i;
    let u0 = be_u32(b.subrange(at, at + 4));
    let u1 = be_u32(b.subrange(at + 4, at + 8));
    crate::codec::lemma_u32_bits(u0);
    crate::codec::lemma_u32_bits(u1);
    crate::codec::lemma_be_bytes32_of_be_u32(b.subrange(at, at + 4));
    crate::codec::lemma_be_bytes32_of_be_u32(b.subrange(at + 4, at + 8));
    vstd::bytes::lemma_auto_spec_u64_to_from_le_bytes();
    assert(address_bytes(address_value(b.subrange(at + 8, at + 16))) == b.subrange(at + 8, at + 16));
    assert(b.subrange(at, at + 16) =~= b.subrange(at, at + 4) + b.subrange(at + 4, at + 8)
        + b.subrange(at + 8, at + 16));
}

/// Entries with distinct increasing coordinates: the map built from them
/// holds exactly them.
proof fn lemma_entries_map(es: Seq<((i32, i32), u64)>)
    requires
        coords_sorted(entry_coords(es)),
    ensures
        entries_map(es).dom() == entry_coords(es).to_set(),
        forall|i: int| 0 <= i < es.len() ==> entries_map(es)[#[trigger] es[i].0] == es[i].1,
    decreases es.len(),
{
    if es.len() > 0 {
        let init = es.drop_last();
        assert(entry_coords(init) =~= entry_coords(es).drop_last());
        assert forall|i: int, j: int| 0 <= i < j < entry_coords(init).len() implies coord_lt(
            #[trigger] entry_coords(init)[i],
            #[trigger] entry_coords(init)[j],
        ) by {
            assert(entry_coords(init)[i] == entry_coords(es)[i]);
            assert(entry_coords(init)[j] == entry_coords(es)[j]);
        }
        lemma_entries_map(init);
        let n = es.len() - 1;
        assert forall|i: int| 0 <= i < es.len() implies entries_map(es)[#[trigger] es[i].0] == es[i].1 by {
            if i < n {
                assert(init[i] == es[i]);
                assert(coord_lt(entry_coords(es)[i], entry_coords(es)[n]));
            }
        }
        assert(entry_coords(es)[n] == es.last().0);
        assert forall|x: (i32, i32)| entries_map(es).dom().contains(x) == entry_coords(es).to_set().contains(x) by {
            if x == es.last().0 {
                assert(entry_coords(es).to_set().contains(entry_coords(es)[n]));
            }
            if entry_coords(init).to_set().contains(x) {
                let i = choose|i: int| 0 <= i < entry_coords(init).len() && entry_coords(init)[i] == x;
                assert(entry_coords(es)[i] == x);
            }
            if entry_coords(es).to_set().contains(x) {
                let i = choose|i: int| 0 <= i < entry_coords(es).len() && entry_coords(es)[i] == x;
                if i < n {
                    assert(entry_coords(init)[i] == x);
                }
            }
        }
        assert(entries_map(es).dom() =~= entry_coords(es).to_set());
    } else {
        assert(entry_coords(es).to_set() =~= Set::empty());
        assert(entries_map(es).dom() =~= Set::empty());
    }
}

proof fn lemma_entries_bytes_of(b: Seq<u8>, n: nat)
    requires
        14 + 16 * n <= b.len(),
    ensures
        entries_bytes(tree_entries_of(b, n)) == b.subrange(14, 14 + 16 * n as int),
    decreases n,
{
    if n == 0 {
        assert(b.subrange(14, 14) =~= Seq::<u8>::empty());
    } else {
        let es = tree_entries_of(b, n);
        assert(es.drop_last() =~= tree_entries_of(b, (n - 1) as nat));
        lemma_entries_bytes_of(b, (n - 1) as nat);
        lemma_entry_canonical(b, n - 1);
        assert(es.last() == tree_entry_at(b, n - 1));
        assert(b.subrange(14, 14 + 16 * n as int) =~= b.subrange(14, 14 + 16 * (n - 1)) + b.subrange(
            14 + 16 * (n - 1),
            14 + 16 * (n - 1) + 16,
        ));
    }
}

proof fn lemma_sorted_len(s: Seq<(i32, i32)>)
    requires
        coords_sorted(s),
    ensures
        s.no_duplicates(),
        s.to_set().len() == s.len(),
        s.to_set().finite(),
{
    assert forall|i: int, j: int| 0 <= i < s.len() && 0 <= j < s.len() && i != j implies s[i] != s[j] by {
        if i < j {
            assert(coord_lt(s[i], s[j]));
        } else {
            assert(coord_lt(s[j], s[i]));
        }
    }
    s.unique_seq_to_set();
    vstd::seq_lib::seq_to_set_is_finite(s);
}

proof fn lemma_decode_encode_tree(m: Map<(i32, i32), u64>)
    requires
        encodable(ObjectView::Tree(m)),
    ensures
        decode_object(encode_object(ObjectView::Tree(m))) == Some(ObjectView::Tree(m)),
{
    let b = encode_object(ObjectView::Tree(m));
    vstd::bytes::lemma_auto_spec_u64_to_from_le_bytes();
    let n = m.dom().len();
    crate::codec::lemma_be_u64_of_be_bytes(n as u64);
    lemma_sorted_coords(m.dom());
    let keys = sorted_coords(m.dom());
    lemma_sorted_len(keys);
    let es = tree_entries(m);
    lemma_entries_layout(es);
    assert(b.subrange(0, 5) =~= object_header(0).subrange(0, 5));
    assert(b.subrange(6, 14) =~= be_bytes(n as u64));
    let body = entries_bytes(es);
    assert forall|i: int| 0 <= i < n implies tree_entry_at(b, i) == #[trigger] es[i] by {
        assert(body.subrange(16 * i, 16 * i + 16) == entry_bytes(es[i].0, es[i].1));
        assert(b.subrange(14 + 16 * i, 14 + 16 * i + 16) =~= body.subrange(16 * i, 16 * i + 16));
        lemma_entry_read(b, i, es[i].0, es[i].1);
    }
    assert(tree_entries_of(b, n) =~= es);
    assert(entry_coords(es) =~= keys);
    lemma_entries_map(es);
    assert forall|c: (i32, i32)| #[trigger] m.contains_key(c) implies entries_map(es)[c] == m[c] by {
        assert(keys.to_set().contains(c));
        let i = choose|i: int| 0 <= i < keys.len() && keys[i] == c;
        assert(es[i].0 == c);
    }
    assert(entries_map(es) =~= m);
}

proof fn lemma_decode_encode_commit(c: CommitView)
    requires
        encodable(ObjectView::Commit(c)),
    ensures
        decode_object(encode_object(ObjectView::Commit(c))) == Some(ObjectView::Commit(c)),
{
    let b = encode_object(ObjectView::Commit(c));
    vstd::bytes::lemma_auto_spec_u64_to_from_le_bytes();
    let msg = vstd::utf8::encode_utf8(c.message);
    crate::codec::lemma_be_u64_of_be_bytes(c.timestamp);
    crate::codec::lemma_be_u64_of_be_bytes(msg.len() as u64);
    vstd::utf8::encode_utf8_valid_utf8(c.message);
    vstd::utf8::encode_utf8_decode_utf8(c.message);
    assert(b.subrange(0, 5) =~= object_header(0).subrange(0, 5));
    assert(b.subrange(6, 14) =~= address_bytes(c.tree));
    let at: int = match c.parent {
        Some(p) => 23,
        None => 15,
    };
    match c.parent {
        Some(p) => {
            assert(b.subrange(15, 23) =~= address_bytes(p));
        },
        None => {},
    }
    assert(b.subrange(at, at + 8) =~= be_bytes(c.timestamp));
    assert(b.subrange(at + 8, at + 16) =~= be_bytes(msg.len() as u64));
    assert(b.subrange(at + 16, b.len() as int) =~= msg);
}

/// Decoding the encoding of an object gives the object back.
pub proof fn lemma_decode_encode(o: ObjectView)
    requires
        encodable(o),
    ensures
        decode_object(encode_object(o)) == Some(o),
{
    match o {
        ObjectView::Blob(d) => {
            let b = encode_object(o);
            crate::codec::lemma_be_u64_of_be_bytes(d.len() as u64);
            assert(b.subrange(0, 5) =~= object_header(0).subrange(0, 5));
            assert(b.subrange(6, 14) =~= be_bytes(d.len() as u64));
            assert(b.subrange(14, b.len() as int) =~= d);
        },
        ObjectView::Tree(m) => lemma_decode_encode_tree(m),
        ObjectView::Commit(c) => lemma_decode_encode_commit(c),
    }
}

proof fn lemma_encode_decode_tree(b: Seq<u8>)
    requires
        b.len() >= 6,
        b.subrange(0, 5) == object_header(0).subrange(0, 5),
        b[5] == TREE_TAG,
        decode_tree(b) is Some,
    ensures
        encodable(decode_tree(b)->0),
        encode_object(decode_tree(b)->0) == b,
{
    vstd::bytes::lemma_auto_spec_u64_to_from_le_bytes();
    let n = be_u64(b.subrange(6, 14)) as nat;
    let es = tree_entries_of(b, n);
    let keys = entry_coords(es);
    lemma_sorted_len(keys);
    lemma_entries_map(es);
    let m = entries_map(es);
    lemma_sorted_coords(m.dom());
    lemma_sorted_coords_unique(sorted_coords(m.dom()), keys);
    assert(tree_entries(m) =~= es) by {
        assert forall|i: int| 0 <= i < es.len() implies #[trigger] tree_entries(m)[i] == es[i] by {
            assert(keys[i] == es[i].0);
        }
    }
    lemma_entries_bytes_of(b, n);
    crate::codec::lemma_be_bytes_of_be_u64(b.subrange(6, 14));
    assert(b.subrange(0, 6) =~= object_header(TREE_TAG)) by {
        assert(b.subrange(0, 6) =~= b.subrange(0, 5) + seq![b[5]]);
    }
    assert(b =~= object_header(TREE_TAG) + b.subrange(6, 14) + b.subrange(14, 14 + 16 * n as int));
}

proof fn lemma_encode_decode_commit(b: Seq<u8>)
    requires
        b.len() >= 6,
        b.subrange(0, 5) == object_header(0).subrange(0, 5),
        b[5] == COMMIT_TAG,
        decode_commit(b) is Some,
    ensures
        encodable(decode_commit(b)->0),
        encode_object(decode_commit(b)->0) == b,
{
    vstd::bytes::lemma_auto_spec_u64_to_from_le_bytes();
    let at: int = if b[14] == 0 { 15 } else { 23 };
    let msg = b.subrange(at + 16, b.len() as int);
    vstd::utf8::decode_utf8_encode_utf8(msg);
    crate::codec::lemma_be_bytes_of_be_u64(b.subrange(at, at + 8));
    crate::codec::lemma_be_bytes_of_be_u64(b.subrange(at + 8, at + 16));
    assert(address_bytes(address_value(b.subrange(6, 14))) == b.subrange(6, 14));
    if b[14] == 0 {
        assert(parent_bytes(None) =~= b.subrange(14, 15));
    } else {
        assert(address_bytes(address_value(b.subrange(15, 23))) == b.subrange(15, 23));
        assert(parent_bytes(Some(address_value(b.subrange(15, 23)))) =~= b.subrange(14, 23));
    }
    assert(b.subrange(0, 6) =~= object_header(COMMIT_TAG)) by {
        assert(b.subrange(0, 6) =~= b.subrange(0, 5) + seq![b[5]]);
    }
    assert(b =~= object_header(COMMIT_TAG) + b.subrange(6, 14) + b.subrange(14, at) + b.subrange(
        at,
        at + 8,
    ) + b.subrange(at + 8, at + 16) + msg);
}

/// An accepted encoding is the encoding of what it decodes to: every
/// object has exactly one encoding.
pub proof fn lemma_encode_decode(b: Seq<u8>)
    requires
        decode_object(b) is Some,
    ensures
        encodable(decode_object(b)->0),
        encode_object(decode_object(b)->0) == b,
{
    if b[5] == BLOB_TAG {
        crate::codec::lemma_be_bytes_of_be_u64(b.subrange(6, 14));
        assert(b.subrange(0, 6) =~= object_header(BLOB_TAG)) by {
            assert(b.subrange(0, 6) =~= b.subrange(0, 5) + seq![b[5]]);
        }
        assert(b =~= object_header(BLOB_TAG) + b.subrange(6, 14) + b.subrange(14, b.len() as int));
    } else if b[5] == TREE_TAG {
        lemma_encode_decode_tree(b);
    } else {
        lemma_encode_decode_commit(b);
    }
}

// ---------------------------------------------------------------------------
// Encoding and decoding

/// Whether coordinates obey the laws of the standard tuple order.
pub(crate) open spec fn coords_ordered() -> bool {
    vstd::laws_cmp::obeys_cmp::<(i32, i32)>()
}

/// Coordinates are ordered by the standard tuple order, which `BTreeMap` keeps.
pub(crate) proof fn lemma_coords_ordered()
    ensures
        coords_ordered(),
        vstd::std_specs::btree::key_obeys_cmp_spec::<(i32, i32)>(),
        vstd::laws_cmp::obeys_cmp::<(i32, i32)>(),
{
    broadcast use vstd::laws_cmp::group_laws_cmp;
    broadcast use vstd::std_specs::btree::axiom_key_obeys_cmp_spec_meaning;

}

/// Keys that `BTreeMap` hands out in increasing order are sorted coordinates.
proof fn lemma_increasing_coords(s: Seq<(i32, i32)>)
    requires
        vstd::std_specs::btree::increasing_seq(s),
    ensures
        coords_sorted(s),
{
    broadcast use vstd::laws_cmp::group_laws_cmp;
    broadcast use vstd::std_specs::btree::axiom_increasing_seq_meaning;

    assert forall|i: int, j: int| 0 <= i < j < s.len() implies coord_lt(#[trigger] s[i], #[trigger] s[j]) by {
        assert(vstd::std_specs::cmp::OrdSpec::cmp_spec(&s[i], &s[j]) is Less);
    }
}

/// The entries that iterating a map with coordinate keys hands out, in
/// increasing order of coordinates.
pub(crate) proof fn lemma_iter_entries<V>(t: BTreeMap<(i32, i32), V>, s: Seq<(&(i32, i32), &V)>)
    requires
        s == vstd::std_specs::iter::IteratorSpec::remaining(
            &vstd::std_specs::btree::spec_btree_map_iter(&t),
        ),
        vstd::std_specs::btree::increasing_seq(s.map_values(|kv: (&(i32, i32), &V)| *kv.0)),
    ensures
        t@.dom().finite(),
        s.map_values(|kv: (&(i32, i32), &V)| *kv.0) == sorted_coords(t@.dom()),
        forall|i: int| 0 <= i < s.len() ==> t@.contains_key(*(#[trigger] s[i]).0) && t@[*s[i].0] == *s[i].1,
{
    let keys = s.map_values(|kv: (&(i32, i32), &V)| *kv.0);
    lemma_increasing_coords(keys);
    assert forall|i: int| 0 <= i < s.len() implies t@.contains_key(*(#[trigger] s[i]).0) && t@[*s[i].0] == *s[i].1 by {
        assert(t@.contains_key(*s[i].0));
    }
    assert forall|k: (i32, i32)| keys.to_set().contains(k) == t@.dom().contains(k) by {
        if keys.to_set().contains(k) {
            let i = choose|i: int| 0 <= i < keys.len() && keys[i] == k;
            assert(t@.contains_key(*s[i].0));
        }
        if t@.dom().contains(k) {
            assert(s.contains((&k, &t@[k])));
            let i = choose|i: int| 0 <= i < s.len() && s[i] == (&k, &t@[k]);
            assert(keys[i] == k);
        }
    }
    assert(keys.to_set() =~= t@.dom());
    vstd::seq_lib::seq_to_set_is_finite(keys);
    lemma_sorted_coords(t@.dom());
    lemma_sorted_coords_unique(keys, sorted_coords(t@.dom()));
}

fn push_header(out: &mut Vec<u8>, tag: u8)
    ensures
        final(out)@ == old(out)@ + object_header(tag),
{
    out.push(0x43u8);
    out.push(0x48u8);
    out.push(0x4cu8);
    out.push(0x47u8);
    out.push(1u8);
    out.push(tag);
    assert(out@ =~= old(out)@ + object_header(tag));
}

fn push_entry(out: &mut Vec<u8>, c: (i32, i32), h: crate::hash::Hash)
    ensures
        final(out)@ == old(out)@ + entry_bytes(c, h@),
{
    crate::codec::push_u32_be(out, c.0 as u32);
    crate::codec::push_u32_be(out, c.1 as u32);
    crate::codec::push_all(out, &h.0);
    proof {
        vstd::bytes::lemma_auto_spec_u64_to_from_le_bytes();
        assert(h.0@.len() == 8);
        assert(address_bytes(h@) == h.0@);
    }
    assert(out@ =~= old(out)@ + entry_bytes(c, h@));
}

fn push_tree_entries(out: &mut Vec<u8>, t: &BTreeMap<(i32, i32), crate::hash::Hash>)
    ensures
        final(out)@ == old(out)@ + entries_bytes(tree_entries(tree_view(t@))),
{
    proof {
        lemma_coords_ordered();
    }
    let ghost s = vstd::std_specs::iter::IteratorSpec::remaining(
        &vstd::std_specs::btree::spec_btree_map_iter(t),
    );
    let ghost pairs = s.map_values(
        |kv: (&(i32, i32), &crate::hash::Hash)| (*kv.0, (*kv.1)@),
    );
    let ghost keys = s.map_values(|kv: (&(i32, i32), &crate::hash::Hash)| *kv.0);
    for kv in it: t.iter()
        invariant
            it.seq() == s,
            pairs == s.map_values(|kv: (&(i32, i32), &crate::hash::Hash)| (*kv.0, (*kv.1)@)),
            out@ == old(out)@ + entries_bytes(pairs.take(it.index())),
    {
        push_entry(out, *kv.0, *kv.1);
        proof {
            assert(pairs.take(it.index() + 1).drop_last() =~= pairs.take(it.index()));
        }
    }
    proof {
        assert(pairs.take(pairs.len() as int) =~= pairs);
        let m = tree_view(t@);
        lemma_iter_entries(*t, s);
        assert(m.dom() =~= t@.dom());
        assert(keys == sorted_coords(m.dom()));
        assert(pairs.len() == tree_entries(m).len());
        assert forall|i: int| 0 <= i < pairs.len() implies #[trigger] pairs[i] == tree_entries(m)[i] by {
            assert(t@[*s[i].0] == *s[i].1);
            assert(keys[i] == *s[i].0);
        }
        assert(pairs =~= tree_entries(m));
    }
}

impl Object {
    /// Serializes this object to its canonical bytes.
    pub fn to_bytes(&self) -> (r: Vec<u8>)
        ensures
            r@ == encode_object(self@),
    {
        let mut out: Vec<u8> = Vec::new();
        match self {
            Object::Blob(d) => {
                push_header(&mut out, BLOB_TAG);
                crate::codec::push_u64_be(&mut out, d.len() as u64);
                crate::codec::push_all(&mut out, d.as_slice());
            },
            Object::Tree(t) => {
                proof {
                    lemma_coords_ordered();
                    assert(tree_view(t@).dom() =~= t@.dom());
                }
                push_header(&mut out, TREE_TAG);
                crate::codec::push_u64_be(&mut out, t.len() as u64);
                push_tree_entries(&mut out, t);
            },
            Object::Commit(c) => {
                push_header(&mut out, COMMIT_TAG);
                crate::codec::push_all(&mut out, &c.tree.0);
                match c.parent {
                    Some(p) => {
                        out.push(1u8);
                        crate::codec::push_all(&mut out, &p.0);
                    },
                    None => {
                        out.push(0u8);
                    },
                }
                crate::codec::push_u64_be(&mut out, c.timestamp);
                let msg = c.message.as_str().as_bytes();
                crate::codec::push_u64_be(&mut out, msg.len() as u64);
                crate::codec::push_all(&mut out, msg);
                proof {
                    vstd::bytes::lemma_auto_spec_u64_to_from_le_bytes();
                    assert(c.tree.0@.len() == 8);
                    assert(address_bytes(c.tree@) == c.tree.0@);
                    match c.parent {
                        Some(p) => {
                            assert(p.0@.len() == 8);
                            assert(address_bytes(p@) == p.0@);
                        },
                        None => {},
                    }
                }
            },
        }
        proof {
            match self {
                Object::Commit(c) => {
                    match c.parent {
                        Some(p) => {
                            assert(out@ =~= encode_object(self@));
                        },
                        None => {
                            assert(out@ =~= encode_object(self@));
                        },
                    }
                },
                _ => {
                    assert(out@ =~= encode_object(self@));
                },
            }
        }
        out
    }

    /// Computes the content hash of this object: the address of its bytes.
    pub fn hash(&self) -> (h: crate::hash::Hash)
        ensures
            h@ == crate::hash::address_of(encode_object(self@)),
    {
        crate::hash::Hash::digest(self.to_bytes().as_slice())
    }

    /// Deserializes an object from its canonical bytes; anything that is
    /// not exactly such an encoding is refused.
    pub fn from_bytes(bytes: &[u8]) -> (r: Result<Object, DecodeError>)
        ensures
            match decode_object(bytes@) {
                Some(o) => r is Ok && r->Ok_0@ == o,
                None => r == Err::<Object, DecodeError>(DecodeError),
            },
    {
        if bytes.len() < 6 || bytes[0] != 0x43u8 || bytes[1] != 0x48u8 || bytes[2] != 0x4cu8
            || bytes[3] != 0x47u8 || bytes[4] != 1u8 {
            proof {
                if bytes@.len() >= 6 {
                    assert(bytes@.subrange(0, 5)[0] == bytes@[0]);
                    assert(bytes@.subrange(0, 5)[1] == bytes@[1]);
                    assert(bytes@.subrange(0, 5)[2] == bytes@[2]);
                    assert(bytes@.subrange(0, 5)[3] == bytes@[3]);
                    assert(bytes@.subrange(0, 5)[4] == bytes@[4]);
                }
            }
            return Err(DecodeError);
        }
        assert(bytes@.subrange(0, 5) =~= object_header(0).subrange(0, 5));
        let tag = bytes[5];
        if tag == BLOB_TAG {
            decode_blob_bytes(bytes)
        } else if tag == TREE_TAG {
            decode_tree_bytes(bytes)
        } else if tag == COMMIT_TAG {
            decode_commit_bytes(bytes)
        } else {
            Err(DecodeError)
        }
    }
}

fn read_hash(bytes: &[u8], at: usize) -> (h: crate::hash::Hash)
    requires
        at + 8 <= bytes@.len(),
    ensures
        h@ == address_value(bytes@.subrange(at as int, at + 8)),
{
    let h = crate::hash::Hash(
        [
            bytes[at],
            bytes[at + 1],
            bytes[at + 2],
            bytes[at + 3],
            bytes[at + 4],
            bytes[at + 5],
            bytes[at + 6],
            bytes[at + 7],
        ],
    );
    assert(h.0@ =~= bytes@.subrange(at as int, at + 8));
    h
}

fn decode_blob_bytes(bytes: &[u8]) -> (r: Result<Object, DecodeError>)
    requires
        bytes@.len() >= 6,
    ensures
        match decode_blob(bytes@) {
            Some(o) => r is Ok && r->Ok_0@ == o,
            None => r == Err::<Object, DecodeError>(DecodeError),
        },
{
    if bytes.len() < 14 {
        return Err(DecodeError);
    }
    let n = crate::codec::read_u64_be(bytes, 6);
    if n != (bytes.len() - 14) as u64 {
        return Err(DecodeError);
    }
    let data = crate::codec::to_vec(vstd::slice::slice_subrange(bytes, 14, bytes.len()));
    Ok(Object::Blob(data))
}

fn decode_tree_bytes(bytes: &[u8]) -> (r: Result<Object, DecodeError>)
    requires
        bytes@.len() >= 6,
    ensures
        match decode_tree(bytes@) {
            Some(o) => r is Ok && r->Ok_0@ == o,
            None => r == Err::<Object, DecodeError>(DecodeError),
        },
{
    if bytes.len() < 14 {
        return Err(DecodeError);
    }
    let n = crate::codec::read_u64_be(bytes, 6);
    let body = bytes.len() - 14;
    if body % 16 != 0 || (body / 16) as u64 != n {
        return Err(DecodeError);
    }
    let count = body / 16;
    let ghost b = bytes@;
    proof {
        lemma_coords_ordered();
    }
    let mut tree: BTreeMap<(i32, i32), crate::hash::Hash> = BTreeMap::new();
    let mut prev: (i32, i32) = (0, 0);
    let mut i: usize = 0;
    while i < count
        invariant
            b == bytes@,
            count == n,
            body == b.len() - 14,
            16 * count == body,
            i <= count,
            coords_ordered(),
            tree_view(tree@) == entries_map(tree_entries_of(b, i as nat)),
            coords_sorted(entry_coords(tree_entries_of(b, i as nat))),
            i > 0 ==> prev == tree_entry_at(b, i - 1).0,
        decreases count - i,
    {
        let at = 14 + 16 * i;
        let x = crate::codec::read_u32_be(bytes, at) as i32;
        let z = crate::codec::read_u32_be(bytes, at + 4) as i32;
        let h = read_hash(bytes, at + 8);
        let c = (x, z);
        proof {
            assert(tree_entry_at(b, i as int) == (c, h@));
        }
        if i > 0 && !(prev.0 < x || (prev.0 == x && prev.1 < z)) {
            proof {
                let es = tree_entries_of(b, n as nat);
                assert(entry_coords(es)[i - 1] == prev);
                assert(entry_coords(es)[i as int] == c);
            }
            return Err(DecodeError);
        }
        let ghost before = tree_entries_of(b, i as nat);
        tree.insert(c, h);
        proof {
            let after = tree_entries_of(b, (i + 1) as nat);
            assert(after.drop_last() =~= before);
            assert(after.last() == (c, h@));
            assert(tree_view(tree@) =~= entries_map(after));
            assert forall|p: int, q: int| 0 <= p < q < entry_coords(after).len() implies coord_lt(
                #[trigger] entry_coords(after)[p],
                #[trigger] entry_coords(after)[q],
            ) by {
                assert(entry_coords(after)[p] == after[p].0);
                assert(entry_coords(after)[q] == after[q].0);
                if q < i {
                    assert(entry_coords(before)[p] == before[p].0);
                    assert(entry_coords(before)[q] == before[q].0);
                } else if p < i - 1 {
                    assert(entry_coords(before)[p] == before[p].0);
                    assert(entry_coords(before)[i - 1] == before[i - 1].0);
                }
            }
        }
        prev = c;
        i = i + 1;
    }
    Ok(Object::Tree(tree))
}

fn decode_commit_bytes(bytes: &[u8]) -> (r: Result<Object, DecodeError>)
    requires
        bytes@.len() >= 6,
    ensures
        match decode_commit(bytes@) {
            Some(o) => r is Ok && r->Ok_0@ == o,
            None => r == Err::<Object, DecodeError>(DecodeError),
        },
{
    if bytes.len() < 15 {
        return Err(DecodeError);
    }
    let (parent, at) = if bytes[14] == 0 {
        (None, 15usize)
    } else if bytes[14] == 1 && bytes.len() >= 23 {
        (Some(read_hash(bytes, 15)), 23usize)
    } else {
        return Err(DecodeError);
    };
    if bytes.len() < 14 || bytes.len() - 14 < at + 2 {
        return Err(DecodeError);
    }
    if bytes.len() < at + 16 {
        return Err(DecodeError);
    }
    let timestamp = crate::codec::read_u64_be(bytes, at);
    let len = crate::codec::read_u64_be(bytes, at + 8);
    if len != (bytes.len() - (at + 16)) as u64 {
        return Err(DecodeError);
    }
    let msg = vstd::slice::slice_subrange(bytes, at + 16, bytes.len());
    let text = match crate::text::utf8_str(msg) {
        Some(t) => t,
        None => {
            return Err(DecodeError);
        },
    };
    proof {
        vstd::utf8::encode_utf8_decode_utf8(text@);
    }
    let tree = read_hash(bytes, 6);
    Ok(
        Object::Commit(
            Commit { tree, parent, timestamp, message: text.to_owned() },
        ),
    )
}
} // verus!
