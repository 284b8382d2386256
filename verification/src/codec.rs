//! Fixed-width big-endian integer fields, as used by every on-disk format
//! of this crate.

use vstd::prelude::*;

verus! {

/// The eight big-endian bytes of `x`.
pub open spec fn be_bytes(x: u64) -> Seq<u8> {
    seq![
        ((x >> 56u64) & 0xffu64) as u8,
        ((x >> 48u64) & 0xffu64) as u8,
        ((x >> 40u64) & 0xffu64) as u8,
        ((x >> 32u64) & 0xffu64) as u8,
        ((x >> 24u64) & 0xffu64) as u8,
        ((x >> 16u64) & 0xffu64) as u8,
        ((x >> 8u64) & 0xffu64) as u8,
        (x & 0xffu64) as u8,
    ]
}

/// The value of eight big-endian bytes.
pub open spec fn be_u64(s: Seq<u8>) -> u64
    recommends
        s.len() == 8,
{
    (s[0] as u64) << 56u64 | (s[1] as u64) << 48u64 | (s[2] as u64) << 40u64 | (s[3] as u64)
        << 32u64 | (s[4] as u64) << 24u64 | (s[5] as u64) << 16u64 | (s[6] as u64) << 8u64 | (
    s[7] as u64)
}

/// Encoding then decoding a `u64` gives it back.
pub proof fn lemma_be_u64_of_be_bytes(x: u64)
    ensures
        be_bytes(x).len() == 8,
        be_u64(be_bytes(x)) == x,
{
    let b0 = ((x >> 56u64) & 0xffu64) as u8;
    let b1 = ((x >> 48u64) & 0xffu64) as u8;
    let b2 = ((x >> 40u64) & 0xffu64) as u8;
    let b3 = ((x >> 32u64) & 0xffu64) as u8;
    let b4 = ((x >> 24u64) & 0xffu64) as u8;
    let b5 = ((x >> 16u64) & 0xffu64) as u8;
    let b6 = ((x >> 8u64) & 0xffu64) as u8;
    let b7 = (x & 0xffu64) as u8;
    assert(((b0 as u64) << 56u64 | (b1 as u64) << 48u64 | (b2 as u64) << 40u64 | (b3 as u64)
        << 32u64 | (b4 as u64) << 24u64 | (b5 as u64) << 16u64 | (b6 as u64) << 8u64 | (b7 as u64))
        == x) by (bit_vector)
        requires
            b0 == ((x >> 56u64) & 0xffu64) as u8,
            b1 == ((x >> 48u64) & 0xffu64) as u8,
            b2 == ((x >> 40u64) & 0xffu64) as u8,
            b3 == ((x >> 32u64) & 0xffu64) as u8,
            b4 == ((x >> 24u64) & 0xffu64) as u8,
            b5 == ((x >> 16u64) & 0xffu64) as u8,
            b6 == ((x >> 8u64) & 0xffu64) as u8,
            b7 == (x & 0xffu64) as u8,
    ;
}

/// Decoding then encoding eight bytes gives them back.
pub proof fn lemma_be_bytes_of_be_u64(s: Seq<u8>)
    requires
        s.len() == 8,
    ensures
        be_bytes(be_u64(s)) == s,
{
    let x = be_u64(s);
    let (b0, b1, b2, b3, b4, b5, b6, b7) = (s[0], s[1], s[2], s[3], s[4], s[5], s[6], s[7]);
    assert(((x >> 56u64) & 0xffu64) as u8 == b0 && ((x >> 48u64) & 0xffu64) as u8 == b1 && ((x
        >> 40u64) & 0xffu64) as u8 == b2 && ((x >> 32u64) & 0xffu64) as u8 == b3 && ((x >> 24u64)
        & 0xffu64) as u8 == b4 && ((x >> 16u64) & 0xffu64) as u8 == b5 && ((x >> 8u64) & 0xffu64)
        as u8 == b6 && (x & 0xffu64) as u8 == b7) by (bit_vector)
        requires
            x == (b0 as u64) << 56u64 | (b1 as u64) << 48u64 | (b2 as u64) << 40u64 | (b3 as u64)
                << 32u64 | (b4 as u64) << 24u64 | (b5 as u64) << 16u64 | (b6 as u64) << 8u64 | (
            b7 as u64),
    ;
    assert(be_bytes(x) =~= s);
}

/// Appends the big-endian bytes of `x`.
pub fn push_u64_be(out: &mut Vec<u8>, x: u64)
    ensures
        final(out)@ == old(out)@ + be_bytes(x),
{
    out.push(((x >> 56u64) & 0xffu64) as u8);
    out.push(((x >> 48u64) & 0xffu64) as u8);
    out.push(((x >> 40u64) & 0xffu64) as u8);
    out.push(((x >> 32u64) & 0xffu64) as u8);
    out.push(((x >> 24u64) & 0xffu64) as u8);
    out.push(((x >> 16u64) & 0xffu64) as u8);
    out.push(((x >> 8u64) & 0xffu64) as u8);
    out.push((x & 0xffu64) as u8);
    assert(out@ =~= old(out)@ + be_bytes(x));
}

/// Reads the big-endian `u64` stored at `bytes[at..at + 8]`.
pub fn read_u64_be(bytes: &[u8], at: usize) -> (r: u64)
    requires
        at + 8 <= bytes@.len(),
    ensures
        r == be_u64(bytes@.subrange(at as int, at + 8)),
{
    let s = Ghost(bytes@.subrange(at as int, at + 8));
    (bytes[at] as u64) << 56u64 | (bytes[at + 1] as u64) << 48u64 | (bytes[at + 2] as u64) << 40u64
        | (bytes[at + 3] as u64) << 32u64 | (bytes[at + 4] as u64) << 24u64 | (bytes[at + 5] as u64)
        << 16u64 | (bytes[at + 6] as u64) << 8u64 | (bytes[at + 7] as u64)
}

/// Appends all of `data`.
pub fn push_all(out: &mut Vec<u8>, data: &[u8])
    ensures
        final(out)@ == old(out)@ + data@,
{
    let mut i: usize = 0;
    while i < data.len()
        invariant
            i <= data@.len(),
            out@ == old(out)@ + data@.subrange(0, i as int),
        decreases data@.len() - i,
    {
        out.push(data[i]);
        i = i + 1;
        assert(data@.subrange(0, i as int) =~= data@.subrange(0, i - 1) + seq![data@[i - 1]]);
    }
    assert(data@.subrange(0, data@.len() as int) =~= data@);
}

/// Whether `a` and `b` hold the same bytes.
pub fn bytes_equal(a: &[u8], b: &[u8]) -> (r: bool)
    ensures
        r == (a@ == b@),
{
    if a.len() != b.len() {
        return false;
    }
    let mut i: usize = 0;
    while i < a.len()
        invariant
            a@.len() == b@.len(),
            i <= a@.len(),
            forall|j: int| 0 <= j < i ==> a@[j] == b@[j],
        decreases a@.len() - i,
    {
        if a[i] != b[i] {
            return false;
        }
        i = i + 1;
    }
    assert(a@ =~= b@);
    true
}

/// A copy of `data` as an owned vector.
pub fn to_vec(data: &[u8]) -> (r: Vec<u8>)
    ensures
        r@ == data@,
{
    let mut out: Vec<u8> = Vec::new();
    push_all(&mut out, data);
    assert(out@ =~= data@);
    out
}

/// The four big-endian bytes of `x`.
pub open spec fn be_bytes32(x: u32) -> Seq<u8> {
    seq![
        ((x >> 24u32) & 0xffu32) as u8,
        ((x >> 16u32) & 0xffu32) as u8,
        ((x >> 8u32) & 0xffu32) as u8,
        (x & 0xffu32) as u8,
    ]
}

/// The value of four big-endian bytes.
pub open spec fn be_u32(s: Seq<u8>) -> u32
    recommends
        s.len() == 4,
{
    (s[0] as u32) << 24u32 | (s[1] as u32) << 16u32 | (s[2] as u32) << 8u32 | (s[3] as u32)
}

/// Encoding then decoding a `u32` gives it back.
pub proof fn lemma_be_u32_of_be_bytes32(x: u32)
    ensures
        be_bytes32(x).len() == 4,
        be_u32(be_bytes32(x)) == x,
{
    let b0 = ((x >> 24u32) & 0xffu32) as u8;
    let b1 = ((x >> 16u32) & 0xffu32) as u8;
    let b2 = ((x >> 8u32) & 0xffu32) as u8;
    let b3 = (x & 0xffu32) as u8;
    assert(((b0 as u32) << 24u32 | (b1 as u32) << 16u32 | (b2 as u32) << 8u32 | (b3 as u32)) == x)
        by (bit_vector)
        requires
            b0 == ((x >> 24u32) & 0xffu32) as u8,
            b1 == ((x >> 16u32) & 0xffu32) as u8,
            b2 == ((x >> 8u32) & 0xffu32) as u8,
            b3 == (x & 0xffu32) as u8,
    ;
}

/// Decoding then encoding four bytes gives them back.
pub proof fn lemma_be_bytes32_of_be_u32(s: Seq<u8>)
    requires
        s.len() == 4,
    ensures
        be_bytes32(be_u32(s)) == s,
{
    let x = be_u32(s);
    let (b0, b1, b2, b3) = (s[0], s[1], s[2], s[3]);
    assert(((x >> 24u32) & 0xffu32) as u8 == b0 && ((x >> 16u32) & 0xffu32) as u8 == b1 && ((x
        >> 8u32) & 0xffu32) as u8 == b2 && (x & 0xffu32) as u8 == b3) by (bit_vector)
        requires
            x == (b0 as u32) << 24u32 | (b1 as u32) << 16u32 | (b2 as u32) << 8u32 | (b3 as u32),
    ;
    assert(be_bytes32(x) =~= s);
}

/// A signed value survives the round trip through its two's-complement bits.
pub proof fn lemma_i32_bits(x: i32)
    ensures
        (x as u32) as i32 == x,
{
    assert((x as u32) as i32 == x) by (bit_vector);
}

/// Two's-complement bits survive the round trip through the signed value.
pub proof fn lemma_u32_bits(u: u32)
    ensures
        (u as i32) as u32 == u,
{
    assert((u as i32) as u32 == u) by (bit_vector);
}

/// Appends the big-endian bytes of `x`.
pub fn push_u32_be(out: &mut Vec<u8>, x: u32)
    ensures
        final(out)@ == old(out)@ + be_bytes32(x),
{
    out.push(((x >> 24u32) & 0xffu32) as u8);
    out.push(((x >> 16u32) & 0xffu32) as u8);
    out.push(((x >> 8u32) & 0xffu32) as u8);
    out.push((x & 0xffu32) as u8);
    assert(out@ =~= old(out)@ + be_bytes32(x));
}

/// Reads the big-endian `u32` stored at `bytes[at..at + 4]`.
pub fn read_u32_be(bytes: &[u8], at: usize) -> (r: u32)
    requires
        at + 4 <= bytes@.len(),
    ensures
        r == be_u32(bytes@.subrange(at as int, at + 4)),
{
    let s = Ghost(bytes@.subrange(at as int, at + 4));
    (bytes[at] as u32) << 24u32 | (bytes[at + 1] as u32) << 16u32 | (bytes[at + 2] as u32) << 8u32
        | (bytes[at + 3] as u32)
}
} // verus!
