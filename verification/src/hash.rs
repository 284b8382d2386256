//! Content addresses: the XXH3 digest of a byte string, and its hex text.

use vstd::bytes::{u64_from_le_bytes, u64_to_le_bytes};
use vstd::prelude::*;

use crate::text::utf8_str;

verus! {

/// Names the value that `xxhash_rust::xxh3::xxh3_64` returns for `data`.
pub uninterp spec fn xxh3_64_of(data: Seq<u8>) -> u64;

/// Calls `xxhash_rust::xxh3::xxh3_64` (seed 0, default secret). The
/// contract claims only that the result is the named XXH3 value of the
/// bytes: a deterministic function of them alone.
#[verifier::external_body]
fn xxh3_64(data: &[u8]) -> (r: u64)
    ensures
        r == xxh3_64_of(data@),
{
    xxhash_rust::xxh3::xxh3_64(data)
}

/// A content hash (XXH3 64-bit), stored as its eight little-endian bytes.
///
/// Hashes identify objects in a store and are derived from the object's
/// bytes, which makes them deterministic and content-addressed.
#[derive(Debug, Clone, Copy, PartialEq, Eq, Hash, PartialOrd, Ord)]
pub struct Hash(
    /// The raw hash bytes.
    pub [u8; 8],
);

impl View for Hash {
    type V = u64;

    /// The 64-bit value whose little-endian bytes the hash holds.
    open spec fn view(&self) -> u64 {
        vstd::bytes::spec_u64_from_le_bytes(self.0@)
    }
}

/// The address of `data`: the XXH3 value of its bytes.
pub open spec fn address_of(data: Seq<u8>) -> u64 {
    xxh3_64_of(data)
}

/// The error returned when bytes do not match the address they are read under.
#[derive(Debug, Clone, Copy, PartialEq, Eq)]
pub struct IntegrityError {
    /// The address the bytes were expected to have.
    pub expected: Hash,
}

/// The error returned by [`parse_hash`].
#[derive(Debug, Clone, Copy, PartialEq, Eq)]
pub enum ParseHashError {
    /// The text is not sixteen bytes long.
    InvalidLength,
    /// A two-character group is not a hexadecimal byte.
    InvalidDigit,
}

impl Hash {
    /// The hash whose value is `value`.
    pub fn from_u64(value: u64) -> (h: Hash)
        ensures
            h@ == value,
    {
        let v = u64_to_le_bytes(value);
        let h = Hash([v[0], v[1], v[2], v[3], v[4], v[5], v[6], v[7]]);
        proof {
            vstd::bytes::lemma_auto_spec_u64_to_from_le_bytes();
            assert(h.0@ =~= v@);
        }
        h
    }

    /// The 64-bit value of this hash, used as its key in indexes.
    pub fn to_u64(&self) -> (value: u64)
        ensures
            value == self@,
    {
        u64_from_le_bytes(&self.0)
    }

    /// The content address of `data`.
    pub fn digest(data: &[u8]) -> (h: Hash)
        ensures
            h@ == address_of(data@),
    {
        Hash::from_u64(xxh3_64(data))
    }

    /// Succeeds exactly when `data` is addressed by this hash.
    pub fn verify(&self, data: &[u8]) -> (r: Result<(), IntegrityError>)
        ensures
            r is Ok <==> address_of(data@) == self@,
            r matches Err(e) ==> e.expected == *self,
    {
        if xxh3_64(data) == self.to_u64() {
            Ok(())
        } else {
            Err(IntegrityError { expected: *self })
        }
    }

    /// The sixteen lowercase hexadecimal digits of the hash bytes, in order;
    /// this is the text form that [`parse_hash`] reads back.
    pub fn to_hex(&self) -> (s: String)
        ensures
            s@ == crate::text::byte_chars(hex_text(self.0@)),
    {
        let mut out: Vec<u8> = Vec::new();
        let mut i: usize = 0;
        while i < 8
            invariant
                i <= 8,
                out@ == hex_text(self.0@.subrange(0, i as int)),
            decreases 8 - i,
        {
            let b = self.0[i];
            out.push(hex_digit(b / 16));
            out.push(hex_digit(b % 16));
            i = i + 1;
            assert(hex_text(self.0@.subrange(0, i as int)) =~= hex_text(
                self.0@.subrange(0, i - 1),
            ) + seq![hex_digit_spec(b / 16), hex_digit_spec(b % 16)]);
        }
        assert(self.0@.subrange(0, 8) =~= self.0@);
        proof {
            lemma_hex_text_is_ascii(self.0@);
            crate::text::lemma_ascii_bytes_utf8(out@);
        }
        let text = utf8_str(out.as_slice());
        match text {
            Some(t) => {
                proof {
                    crate::text::lemma_ascii_bytes_decode(out@, t@);
                }
                t.to_owned()
            },
            None => {
                assert(false);
                String::new()
            },
        }
    }
}

/// The ASCII code of the lowercase hexadecimal digit for `n` (below 16).
pub open spec fn hex_digit_spec(n: u8) -> u8 {
    if n < 10 {
        (n + 48) as u8
    } else {
        (n - 10 + 97) as u8
    }
}

fn hex_digit(n: u8) -> (c: u8)
    requires
        n < 16,
    ensures
        c == hex_digit_spec(n),
{
    if n < 10 {
        n + 48
    } else {
        n - 10 + 97
    }
}

/// Two lowercase hex digits per byte, most significant digit first.
pub open spec fn hex_text(bytes: Seq<u8>) -> Seq<u8> {
    Seq::new(
        2 * bytes.len(),
        |i: int|
            if i % 2 == 0 {
                hex_digit_spec(bytes[i / 2] / 16)
            } else {
                hex_digit_spec(bytes[i / 2] % 16)
            },
    )
}

/// Hex text is ASCII.
pub proof fn lemma_hex_text_is_ascii(bytes: Seq<u8>)
    ensures
        forall|i: int| 0 <= i < hex_text(bytes).len() ==> #[trigger] hex_text(bytes)[i] < 128,
{
}

/// The value of the hex digit with ASCII code `c`, if it is one
/// (`0-9`, `a-f`, `A-F`).
pub open spec fn hex_value(c: u8) -> Option<u8> {
    if 48 <= c <= 57 {
        Some((c - 48) as u8)
    } else if 97 <= c <= 102 {
        Some((c - 87) as u8)
    } else if 65 <= c <= 70 {
        Some((c - 55) as u8)
    } else {
        None
    }
}

/// The byte that a two-character group of hex digits denotes.
pub open spec fn hex_pair(c0: u8, c1: u8) -> Option<u8> {
    match (hex_value(c0), hex_value(c1)) {
        (Some(h), Some(l)) => Some((16 * h + l) as u8),
        _ => None,
    }
}

/// Whether every two-byte group of sixteen bytes of text is a hex byte.
pub open spec fn hash_text_valid(text: Seq<u8>) -> bool {
    &&& text.len() == 16
    &&& forall|i: int| 0 <= i < 8 ==> (#[trigger] hex_pair(text[2 * i], text[2 * i + 1])) is Some
}

/// The eight bytes that valid hash text denotes.
pub open spec fn hash_text_bytes(text: Seq<u8>) -> Seq<u8> {
    Seq::new(8, |i: int| hex_pair(text[2 * i], text[2 * i + 1])->0)
}

fn hex_value_exec(c: u8) -> (r: Option<u8>)
    ensures
        r == hex_value(c),
{
    if 48 <= c && c <= 57 {
        Some(c - 48)
    } else if 97 <= c && c <= 102 {
        Some(c - 87)
    } else if 65 <= c && c <= 70 {
        Some(c - 55)
    } else {
        None
    }
}

fn hex_pair_exec(c0: u8, c1: u8) -> (r: Option<u8>)
    ensures
        r == hex_pair(c0, c1),
{
    match (hex_value_exec(c0), hex_value_exec(c1)) {
        (Some(h), Some(l)) => Some(16 * h + l),
        _ => None,
    }
}

/// Parses a 16-character hex string into a [`Hash`].
///
/// The text must be exactly sixteen ASCII hex digits, upper- or
/// lowercase; each pair of digits is one byte.
pub fn parse_hash(s: &str) -> (r: Result<Hash, ParseHashError>)
    ensures
        vstd::utf8::encode_utf8(s@).len() != 16 ==> r == Err::<Hash, ParseHashError>(
            ParseHashError::InvalidLength,
        ),
        vstd::utf8::encode_utf8(s@).len() == 16 ==> (r is Ok <==> hash_text_valid(vstd::utf8::encode_utf8(s@))),
        r is Err && vstd::utf8::encode_utf8(s@).len() == 16 ==> r == Err::<Hash, ParseHashError>(
            ParseHashError::InvalidDigit,
        ),
        r matches Ok(h) ==> h.0@ == hash_text_bytes(vstd::utf8::encode_utf8(s@)),
{
    let text = s.as_bytes();
    if text.len() != 16 {
        return Err(ParseHashError::InvalidLength);
    }
    let mut out: [u8; 8] = [0u8; 8];
    let mut i: usize = 0;
    while i < 8
        invariant
            text@ == vstd::utf8::encode_utf8(s@),
            text@.len() == 16,
            i <= 8,
            forall|j: int| 0 <= j < i ==> (#[trigger] hex_pair(text@[2 * j], text@[2 * j + 1])) is Some,
            forall|j: int|
                0 <= j < i ==> out@[j] == #[trigger] hex_pair(text@[2 * j], text@[2 * j + 1])->0,
        decreases 8 - i,
    {
        match hex_pair_exec(text[2 * i], text[2 * i + 1]) {
            Some(b) => {
                out[i] = b;
            },
            None => {
                return Err(ParseHashError::InvalidDigit);
            },
        }
        i = i + 1;
    }
    assert(out@ =~= hash_text_bytes(vstd::utf8::encode_utf8(s@)));
    Ok(Hash(out))
}

/// Formatting a hash and parsing the text gives the same hash back.
pub proof fn lemma_parse_hash_of_to_hex(h: Hash)
    ensures
        hash_text_valid(hex_text(h.0@)),
        hash_text_bytes(hex_text(h.0@)) == h.0@,
{
    let t = hex_text(h.0@);
    assert forall|i: int| 0 <= i < 8 implies (#[trigger] hex_pair(t[2 * i], t[2 * i + 1])) is Some
        && hex_pair(t[2 * i], t[2 * i + 1])->0 == h.0@[i] by {
        assert((2 * i) / 2 == i);
        assert((2 * i + 1) / 2 == i);
        assert((2 * i) % 2 == 0);
        assert((2 * i + 1) % 2 == 1);
        let b = h.0@[i];
        assert(16 * (b / 16) + b % 16 == b);
    }
    assert(hash_text_bytes(t) =~= h.0@);
}

} // verus!
