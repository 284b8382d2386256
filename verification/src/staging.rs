//! The incremental patch that the command line stages.
//!
//! Files named `<x>,<z>` in the staging directory are chunk upserts; the
//! optional `.remove` file lists one `<x>,<z>` coordinate per non-empty
//! line (lines starting with `#` are comments). A coordinate may not be
//! both staged and removed. The caller reads the directory and hands each
//! file to [`stage_chunk_file`] or [`stage_removals`].

use std::collections::{BTreeMap, BTreeSet};
use vstd::prelude::*;

use crate::object::ChunkCoords;

verus! {

broadcast use vstd::std_specs::btree::group_btree_axioms;

/// An incremental patch: chunks to write and coordinates to remove.
#[derive(Debug, Clone, PartialEq, Eq)]
pub struct ChangeSet {
    /// Chunks to write, by coordinates.
    pub upserts: BTreeMap<ChunkCoords, Vec<u8>>,
    /// Coordinates to remove.
    pub removals: BTreeSet<ChunkCoords>,
}

/// Why the staged patch is refused.
#[derive(Debug, Clone, PartialEq, Eq)]
pub enum StagingError {
    /// A staged chunk file name is not `<x>,<z>`.
    InvalidName(String),
    /// This line (counted from 1) of the removals file is not `<x>,<z>`.
    InvalidRemoval(usize),
    /// The coordinates `x`, `z` are both staged and removed.
    Conflict(i32, i32),
}

/// Whether `c` is an ASCII decimal digit.
pub open spec fn is_digit(c: char) -> bool {
    '0' <= c && c <= '9'
}

/// The value of decimal digits.
pub open spec fn digits_value(d: Seq<char>) -> int
    decreases d.len(),
{
    if d.len() == 0 {
        0
    } else {
        10 * digits_value(d.drop_last()) + (d.last() as int - '0' as int)
    }
}

/// The digits part of decimal text: after an optional sign.
pub open spec fn unsigned_part(t: Seq<char>) -> Seq<char> {
    if t.len() > 0 && (t[0] == '-' || t[0] == '+') {
        t.drop_first()
    } else {
        t
    }
}

/// The `i32` that decimal text denotes, as `str::parse` reads it: an
/// optional `+` or `-` sign, then one or more digits, within range.
pub open spec fn decimal_i32(t: Seq<char>) -> Option<i32> {
    let neg = t.len() > 0 && t[0] == '-';
    let d = unsigned_part(t);
    let v = if neg {
        -digits_value(d)
    } else {
        digits_value(d)
    };
    if d.len() == 0 || !(forall|i: int| 0 <= i < d.len() ==> is_digit(#[trigger] d[i])) {
        None
    } else if i32::MIN <= v && v <= i32::MAX {
        Some(v as i32)
    } else {
        None
    }
}

/// Whether `i` is the position of the first comma of `s`.
pub open spec fn first_comma(s: Seq<char>, i: int) -> bool {
    0 <= i < s.len() && s[i] == ',' && forall|j: int| 0 <= j < i ==> #[trigger] s[j] != ','
}

/// The coordinates that `<x>,<z>` text denotes.
pub open spec fn coords_of(s: Seq<char>) -> Option<ChunkCoords> {
    if exists|i: int| first_comma(s, i) {
        let i = choose|i: int| first_comma(s, i);
        match (decimal_i32(s.subrange(0, i)), decimal_i32(s.subrange(i + 1, s.len() as int))) {
            (Some(x), Some(z)) => Some((x, z)),
            _ => None,
        }
    } else {
        None
    }
}

proof fn lemma_digits_grow(d: Seq<char>, k: int)
    requires
        0 <= k <= d.len(),
        forall|i: int| 0 <= i < d.len() ==> is_digit(#[trigger] d[i]),
    ensures
        0 <= digits_value(d.take(k)) <= digits_value(d),
    decreases d.len(),
{
    if k < d.len() {
        assert forall|i: int| 0 <= i < d.drop_last().len() implies is_digit(
            #[trigger] d.drop_last()[i],
        ) by {
            assert(d.drop_last()[i] == d[i]);
        }
        lemma_digits_grow(d.drop_last(), k);
        assert(d.drop_last().take(k) =~= d.take(k));
        assert(is_digit(d[d.len() - 1]));
    } else {
        assert(d.take(k) =~= d);
        if d.len() > 0 {
            assert forall|i: int| 0 <= i < d.drop_last().len() implies is_digit(
                #[trigger] d.drop_last()[i],
            ) by {
                assert(d.drop_last()[i] == d[i]);
            }
            lemma_digits_grow(d.drop_last(), d.len() - 1);
            assert(d.drop_last().take(d.len() - 1) =~= d.drop_last());
            assert(is_digit(d[d.len() - 1]));
        }
    }
}

proof fn lemma_decimal_none(t: Seq<char>)
    requires
        !(forall|i: int| 0 <= i < unsigned_part(t).len() ==> is_digit(#[trigger] unsigned_part(t)[i]))
        || (forall|i: int| 0 <= i < unsigned_part(t).len() ==> is_digit(#[trigger] unsigned_part(t)[i]))
            && digits_value(unsigned_part(t)) > 2147483648,
    ensures
        decimal_i32(t) is None,
{
}

/// Parses `t[from..to]` as a decimal `i32`.
fn parse_i32(t: &Vec<char>, from: usize, to: usize) -> (r: Option<i32>)
    requires
        from <= to <= t@.len(),
    ensures
        r == decimal_i32(t@.subrange(from as int, to as int)),
{
    let ghost s = t@.subrange(from as int, to as int);
    let mut start = from;
    let mut neg = false;
    if from < to && (t[from] == '-' || t[from] == '+') {
        neg = t[from] == '-';
        start = from + 1;
    }
    let ghost d = t@.subrange(start as int, to as int);
    proof {
        if from < to && (t@[from as int] == '-' || t@[from as int] == '+') {
            assert(d =~= s.drop_first());
        } else {
            assert(d =~= s);
        }
    }
    if start == to {
        return None;
    }
    let mut acc: i64 = 0;
    let mut i = start;
    while i < to
        invariant
            from <= start <= i <= to <= t@.len(),
            d == t@.subrange(start as int, to as int),
            d.len() > 0,
            s == t@.subrange(from as int, to as int),
            neg == (s.len() > 0 && s[0] == '-'),
            d == (if s.len() > 0 && (s[0] == '-' || s[0] == '+') {
                s.drop_first()
            } else {
                s
            }),
            forall|j: int| start <= j < i ==> is_digit(#[trigger] t@[j]),
            acc == digits_value(d.take(i - start)),
            0 <= acc <= 2147483648,
        decreases to - i,
    {
        let c = t[i];
        if !('0' <= c && c <= '9') {
            proof {
                assert(d[i - start] == c);
                assert(!is_digit(d[i - start]));
                lemma_decimal_none(s);
            }
            return None;
        }
        let digit = (c as u32 - '0' as u32) as i64;
        proof {
            assert(d.take(i - start + 1).drop_last() =~= d.take(i - start));
            assert(d.take(i - start + 1).last() == c);
        }
        acc = acc * 10 + digit;
        assert(acc == digits_value(d.take(i - start + 1)));
        if acc > 2147483648 {
            proof {
                if forall|j: int| 0 <= j < d.len() ==> is_digit(#[trigger] d[j]) {
                    lemma_digits_grow(d, i - start + 1);
                }
                lemma_decimal_none(s);
            }
            return None;
        }
        i = i + 1;
    }
    proof {
        assert(d.take(to - start) =~= d);
        assert forall|j: int| 0 <= j < d.len() implies is_digit(#[trigger] d[j]) by {
            assert(d[j] == t@[start + j]);
        }
    }
    if neg {
        if acc > 2147483648 {
            return None;
        }
        Some((0 - acc) as i32)
    } else {
        if acc > 2147483647 {
            return None;
        }
        Some(acc as i32)
    }
}

/// Parses `<x>,<z>` chunk coordinates.
pub fn parse_coords(name: &str) -> (r: Option<ChunkCoords>)
    ensures
        r == coords_of(name@),
{
    let chars = crate::text::str_chars(name);
    let mut i: usize = 0;
    while i < chars.len()
        invariant
            chars@ == name@,
            i <= chars@.len(),
            forall|j: int| 0 <= j < i ==> #[trigger] chars@[j] != ',',
        decreases chars@.len() - i,
    {
        if chars[i] == ',' {
            assert(first_comma(name@, i as int));
            let x = parse_i32(&chars, 0, i);
            let z = parse_i32(&chars, i + 1, chars.len());
            proof {
                let k = choose|k: int| first_comma(name@, k);
                assert(k == i) by {
                    if k < i {
                        assert(chars@[k] != ',');
                    }
                    if k > i {
                        assert(name@[i as int] != ',');
                    }
                }
            }
            return match (x, z) {
                (Some(x), Some(z)) => Some((x, z)),
                _ => None,
            };
        }
        i = i + 1;
    }
    None
}

/// The character of the decimal digit `d` (below ten).
pub open spec fn digit_char(d: int) -> char {
    if d == 0 {
        '0'
    } else if d == 1 {
        '1'
    } else if d == 2 {
        '2'
    } else if d == 3 {
        '3'
    } else if d == 4 {
        '4'
    } else if d == 5 {
        '5'
    } else if d == 6 {
        '6'
    } else if d == 7 {
        '7'
    } else if d == 8 {
        '8'
    } else {
        '9'
    }
}

/// The decimal digits of `n`, most significant first, with no leading
/// zero (`0` for zero).
pub open spec fn nat_digits(n: nat) -> Seq<char>
    decreases n,
{
    if n < 10 {
        seq![digit_char(n as int)]
    } else {
        nat_digits(n / 10).push(digit_char((n % 10) as int))
    }
}

/// The decimal text of `v`: a `-` sign for a negative number, then its
/// digits.
pub open spec fn decimal_text(v: int) -> Seq<char> {
    if v < 0 {
        seq!['-'] + nat_digits((-v) as nat)
    } else {
        nat_digits(v as nat)
    }
}

/// The `<x>,<z>` text of coordinates, as a chunk file is named.
pub open spec fn coords_text(c: ChunkCoords) -> Seq<char> {
    decimal_text(c.0 as int) + seq![','] + decimal_text(c.1 as int)
}

proof fn lemma_nat_digits(n: nat)
    ensures
        nat_digits(n).len() > 0,
        forall|i: int| 0 <= i < nat_digits(n).len() ==> is_digit(#[trigger] nat_digits(n)[i]),
        digits_value(nat_digits(n)) == n,
    decreases n,
{
    if n >= 10 {
        lemma_nat_digits(n / 10);
        let d = nat_digits(n);
        assert(d.drop_last() =~= nat_digits(n / 10));
        assert(d.last() == digit_char((n % 10) as int));
        assert(digit_char((n % 10) as int) as int - '0' as int == n % 10);
        assert(10 * (n / 10) + n % 10 == n) by (nonlinear_arith);
        assert(digits_value(d) == 10 * digits_value(d.drop_last()) + (d.last() as int - '0' as int));
        assert(digits_value(d.drop_last()) == n / 10);
        assert(digits_value(d) == n);
    } else {
        let d = nat_digits(n);
        assert(d.drop_last() =~= Seq::<char>::empty());
        assert(digit_char(n as int) as int - '0' as int == n);
        assert(digits_value(d) == 10 * digits_value(d.drop_last()) + (d.last() as int - '0' as int));
        assert(digits_value(d) == n);
    }
}

proof fn lemma_decimal_text(v: int)
    requires
        i32::MIN <= v <= i32::MAX,
    ensures
        decimal_i32(decimal_text(v)) == Some(v as i32),
        forall|i: int| 0 <= i < decimal_text(v).len() ==> #[trigger] decimal_text(v)[i] != ',',
{
    let t = decimal_text(v);
    if v < 0 {
        lemma_nat_digits((-v) as nat);
        assert(t.drop_first() =~= nat_digits((-v) as nat));
        assert(unsigned_part(t) == nat_digits((-v) as nat));
        assert forall|i: int| 0 <= i < t.len() implies #[trigger] t[i] != ',' by {
            if i > 0 {
                assert(t[i] == nat_digits((-v) as nat)[i - 1]);
            }
        }
    } else {
        lemma_nat_digits(v as nat);
        assert(is_digit(t[0]));
        assert(unsigned_part(t) == t);
        assert forall|i: int| 0 <= i < t.len() implies #[trigger] t[i] != ',' by {
            assert(is_digit(t[i]));
        }
    }
}

/// Formatting coordinates as `<x>,<z>` and parsing the text gives them
/// back.
pub proof fn lemma_coords_text_parses(c: ChunkCoords)
    ensures
        coords_of(coords_text(c)) == Some(c),
{
    let s = coords_text(c);
    let a = decimal_text(c.0 as int);
    let b = decimal_text(c.1 as int);
    lemma_decimal_text(c.0 as int);
    lemma_decimal_text(c.1 as int);
    let k = a.len() as int;
    assert(s[k] == ',');
    assert forall|j: int| 0 <= j < k implies #[trigger] s[j] != ',' by {
        assert(s[j] == a[j]);
    }
    assert(first_comma(s, k));
    let i = choose|i: int| first_comma(s, i);
    if i < k {
        assert(s[i] == a[i]);
    }
    assert(i == k);
    assert(s.subrange(0, k) =~= a);
    assert(s.subrange(k + 1, s.len() as int) =~= b);
}

/// The index of the first `\n` of `s` at or after `i`, or the length of
/// `s` when there is none.
pub open spec fn line_end(s: Seq<char>, i: int) -> int
    decreases s.len() - i,
{
    if i >= s.len() {
        s.len() as int
    } else if s[i] == '\n' {
        i
    } else {
        line_end(s, i + 1)
    }
}

/// Where the first line of the rest of `s` from `i` ends.
pub proof fn lemma_line_end_bounds(s: Seq<char>, i: int)
    requires
        0 <= i <= s.len(),
    ensures
        i <= line_end(s, i) <= s.len(),
    decreases s.len() - i,
{
    if i < s.len() && s[i] != '\n' {
        lemma_line_end_bounds(s, i + 1);
    }
}

/// A line ended by `\r\n` loses its `\r`.
pub open spec fn without_cr(line: Seq<char>) -> Seq<char> {
    if line.len() > 0 && line.last() == '\r' {
        line.drop_last()
    } else {
        line
    }
}

/// The lines of `s` as `str::lines` splits them: at each `\n`, and at each
/// `\r\n`, without the line ending; a final line ending adds no empty
/// line, and a final line without one is kept as it is.
pub open spec fn lines_of(s: Seq<char>) -> Seq<Seq<char>>
    decreases s.len(),
{
    if s.len() == 0 {
        seq![]
    } else {
        let e = line_end(s, 0);
        proof {
            lemma_line_end_bounds(s, 0);
        }
        if e >= s.len() {
            seq![s]
        } else {
            seq![without_cr(s.subrange(0, e))] + lines_of(s.subrange(e + 1, s.len() as int))
        }
    }
}

/// Calls `str::lines` and collects the lines, which, as its documentation
/// states, are split at `\n` and at `\r\n`, without the line endings, a
/// final line ending adding no empty line.
#[verifier::external_body]
fn text_lines(s: &str) -> (r: Vec<&str>)
    ensures
        r@.map_values(|l: &str| l@) == lines_of(s@),
{
    s.lines().collect()
}

/// Whether a trimmed line of the removals file is skipped: empty, or a
/// `#` comment.
pub open spec fn skipped_line(t: Seq<char>) -> bool {
    t.len() == 0 || t[0] == '#'
}

/// The removals after reading `lines` from index `i` on, or the first
/// error, given the staged upserts `up` and the removals `rem` so far.
pub open spec fn removals_from(
    up: Set<ChunkCoords>,
    rem: Set<ChunkCoords>,
    lines: Seq<Seq<char>>,
    i: int,
) -> Result<Set<ChunkCoords>, StagingError>
    decreases lines.len() - i,
    when 0 <= i <= lines.len()
{
    if i == lines.len() {
        Ok(rem)
    } else {
        let t = crate::text::trimmed(lines[i]);
        if skipped_line(t) {
            removals_from(up, rem, lines, i + 1)
        } else {
            match coords_of(t) {
                None => Err(StagingError::InvalidRemoval((i + 1) as usize)),
                Some(c) => if up.contains(c) {
                    Err(StagingError::Conflict(c.0, c.1))
                } else {
                    removals_from(up, rem.insert(c), lines, i + 1)
                },
            }
        }
    }
}

/// A line of the removals file that trims to nothing is skipped: reading
/// the lines from it on gives what reading them from the next one gives.
pub proof fn lemma_blank_removal_line_skipped(
    up: Set<ChunkCoords>,
    rem: Set<ChunkCoords>,
    lines: Seq<Seq<char>>,
    i: int,
)
    requires
        0 <= i < lines.len(),
        crate::text::trimmed(lines[i]).len() == 0,
    ensures
        removals_from(up, rem, lines, i) == removals_from(up, rem, lines, i + 1),
{
}

/// A line of the removals file that trims to a `#` comment is skipped.
pub proof fn lemma_comment_removal_line_skipped(
    up: Set<ChunkCoords>,
    rem: Set<ChunkCoords>,
    lines: Seq<Seq<char>>,
    i: int,
)
    requires
        0 <= i < lines.len(),
        crate::text::trimmed(lines[i]).len() > 0,
        crate::text::trimmed(lines[i])[0] == '#',
    ensures
        removals_from(up, rem, lines, i) == removals_from(up, rem, lines, i + 1),
{
}

/// A line of the removals file that trims to `<x>,<z>` removes those
/// coordinates, unless they are staged as an upsert, which is a conflict.
pub proof fn lemma_coordinate_removal_line(
    up: Set<ChunkCoords>,
    rem: Set<ChunkCoords>,
    lines: Seq<Seq<char>>,
    i: int,
    c: ChunkCoords,
)
    requires
        0 <= i < lines.len(),
        coords_of(crate::text::trimmed(lines[i])) == Some(c),
    ensures
        !up.contains(c) ==> removals_from(up, rem, lines, i) == removals_from(
            up,
            rem.insert(c),
            lines,
            i + 1,
        ),
        up.contains(c) ==> removals_from(up, rem, lines, i) == Err::<Set<ChunkCoords>, StagingError>(
            StagingError::Conflict(c.0, c.1),
        ),
{
    let t = crate::text::trimmed(lines[i]);
    let k = choose|k: int| first_comma(t, k);
    assert(t.len() > 0);
    if t[0] == '#' {
        assert(!is_digit(t.subrange(0, k)[0]));
    }
}

/// A line of the removals file that is neither blank, a comment nor
/// `<x>,<z>` is reported by its number, counted from 1.
pub proof fn lemma_bad_removal_line_reported(
    up: Set<ChunkCoords>,
    rem: Set<ChunkCoords>,
    lines: Seq<Seq<char>>,
    i: int,
)
    requires
        0 <= i < lines.len(),
        crate::text::trimmed(lines[i]).len() > 0,
        crate::text::trimmed(lines[i])[0] != '#',
        coords_of(crate::text::trimmed(lines[i])) is None,
    ensures
        removals_from(up, rem, lines, i) == Err::<Set<ChunkCoords>, StagingError>(
            StagingError::InvalidRemoval((i + 1) as usize),
        ),
{
}

/// Reading the removals file from line `i` on succeeds exactly when every
/// line trims to nothing, to a `#` comment, or to `<x>,<z>` coordinates
/// not staged as an upsert; the removals are then `rem` and the
/// coordinates of those lines.
pub proof fn lemma_removals_outcome(
    up: Set<ChunkCoords>,
    rem: Set<ChunkCoords>,
    lines: Seq<Seq<char>>,
    i: int,
)
    requires
        0 <= i <= lines.len(),
    ensures
        removals_from(up, rem, lines, i) is Ok <==> (forall|j: int|
            i <= j < lines.len() ==> {
                let t = #[trigger] crate::text::trimmed(lines[j]);
                ||| t.len() == 0
                ||| t[0] == '#'
                ||| (coords_of(t) matches Some(c) && !up.contains(c))
            }),
        removals_from(up, rem, lines, i) matches Ok(s) ==> forall|c: ChunkCoords|
            s.contains(c) <==> (rem.contains(c) || exists|j: int|
                i <= j < lines.len() && {
                    let t = #[trigger] crate::text::trimmed(lines[j]);
                    &&& t.len() > 0
                    &&& t[0] != '#'
                    &&& coords_of(t) == Some(c)
                }),
    decreases lines.len() - i,
{
    if i < lines.len() {
        let t = crate::text::trimmed(lines[i]);
        if t.len() == 0 || t[0] == '#' {
            lemma_removals_outcome(up, rem, lines, i + 1);
        } else {
            match coords_of(t) {
                None => {},
                Some(c) => {
                    if !up.contains(c) {
                        lemma_removals_outcome(up, rem.insert(c), lines, i + 1);
                        if removals_from(up, rem, lines, i) is Ok {
                            let s = removals_from(up, rem, lines, i)->Ok_0;
                            assert forall|x: ChunkCoords| s.contains(x) <==> (rem.contains(x)
                                || exists|j: int|
                                i <= j < lines.len() && {
                                    let tj = #[trigger] crate::text::trimmed(lines[j]);
                                    &&& tj.len() > 0
                                    &&& tj[0] != '#'
                                    &&& coords_of(tj) == Some(x)
                                }) by {
                                if x == c {
                                    assert(crate::text::trimmed(lines[i]) == t);
                                }
                                if exists|j: int|
                                    i <= j < lines.len() && {
                                        let tj = #[trigger] crate::text::trimmed(lines[j]);
                                        &&& tj.len() > 0
                                        &&& tj[0] != '#'
                                        &&& coords_of(tj) == Some(x)
                                    } {
                                    let j = choose|j: int|
                                        i <= j < lines.len() && {
                                            let tj = #[trigger] crate::text::trimmed(lines[j]);
                                            &&& tj.len() > 0
                                            &&& tj[0] != '#'
                                            &&& coords_of(tj) == Some(x)
                                        };
                                    if j == i {
                                        assert(x == c);
                                    }
                                }
                            }
                        }
                    } else {
                        assert(!(removals_from(up, rem, lines, i) is Ok));
                    }
                },
            }
            if !(coords_of(t) matches Some(c) && !up.contains(c)) {
                assert(!(removals_from(up, rem, lines, i) is Ok));
            }
        }
    }
}

impl ChangeSet {
    /// An empty patch.
    pub fn new() -> (r: Self)
        ensures
            r.upserts@ == Map::<ChunkCoords, Vec<u8>>::empty(),
            r.removals@ == Set::<ChunkCoords>::empty(),
    {
        ChangeSet { upserts: BTreeMap::new(), removals: BTreeSet::new() }
    }

    /// Whether the patch changes nothing.
    pub fn is_empty(&self) -> (r: bool)
        ensures
            r == (self.upserts@.is_empty() && self.removals@.is_empty()),
    {
        proof {
            crate::object::lemma_coords_ordered();
        }
        self.upserts.is_empty() && self.removals.is_empty()
    }
}

/// Stages the file `name` of the staging directory with `contents`: a
/// chunk file named `<x>,<z>` becomes an upsert (`Ok(true)`), a hidden
/// file is skipped (`Ok(false)`). The caller hands the removals file to
/// [`stage_removals`] instead.
pub fn stage_chunk_file(changes: &mut ChangeSet, name: &str, contents: Vec<u8>) -> (r: Result<
    bool,
    StagingError,
>)
    ensures
        name@.len() > 0 && name@[0] == '.' ==> (r == Ok::<bool, StagingError>(false)
            && *final(changes) == *old(changes)),
        !(name@.len() > 0 && name@[0] == '.') ==> match coords_of(name@) {
            None => (r matches Err(StagingError::InvalidName(n)) && n@ == name@) && *final(changes)
                == *old(changes),
            Some(c) => if old(changes).removals@.contains(c) {
                (r == Err::<bool, StagingError>(StagingError::Conflict(c.0, c.1))
                    && *final(changes) == *old(changes))
            } else {
                (r == Ok::<bool, StagingError>(true)
                    && final(changes).upserts@ == old(changes).upserts@.insert(c, contents)
                    && final(changes).removals@ == old(changes).removals@)
            },
        },
{
    proof {
        crate::object::lemma_coords_ordered();
    }
    let chars = crate::text::str_chars(name);
    if chars.len() > 0 && chars[0] == '.' {
        return Ok(false);
    }
    let c = match parse_coords(name) {
        Some(c) => c,
        None => {
            return Err(StagingError::InvalidName(name.to_owned()));
        },
    };
    if changes.removals.contains(&c) {
        return Err(StagingError::Conflict(c.0, c.1));
    }
    changes.upserts.insert(c, contents);
    Ok(true)
}

/// Stages the removals file with text `text`: each line, trimmed, that is
/// neither empty nor a `#` comment must be `<x>,<z>` and not staged as an
/// upsert (see [`removals_from`]). The lines are those of `str::lines`;
/// [`stage_removal_lines`] does the rest.
pub fn stage_removals(changes: &mut ChangeSet, text: &str) -> (r: Result<(), StagingError>)
    ensures
        match removals_from(
            old(changes).upserts@.dom(),
            old(changes).removals@,
            lines_of(text@),
            0,
        ) {
            Ok(set) => (r is Ok && final(changes).removals@ == set
                && final(changes).upserts@ == old(changes).upserts@),
            Err(e) => r == Err::<(), StagingError>(e),
        },
{
    let lines = text_lines(text);
    stage_removal_lines(changes, lines.as_slice())
}

/// Stages the lines of a removals file, in order: each line, trimmed, that
/// is neither empty nor a `#` comment must be `<x>,<z>` and not staged as an
/// upsert; the first line that breaks this is reported with its 1-based
/// number (see [`removals_from`]).
pub fn stage_removal_lines(changes: &mut ChangeSet, lines: &[&str]) -> (r: Result<
    (),
    StagingError,
>)
    ensures
        match removals_from(
            old(changes).upserts@.dom(),
            old(changes).removals@,
            lines@.map_values(|l: &str| l@),
            0,
        ) {
            Ok(set) => (r is Ok && final(changes).removals@ == set
                && final(changes).upserts@ == old(changes).upserts@),
            Err(e) => r == Err::<(), StagingError>(e),
        },
{
    proof {
        crate::object::lemma_coords_ordered();
    }
    let ghost ls = lines@.map_values(|l: &str| l@);
    let ghost up = changes.upserts@.dom();
    let ghost goal = removals_from(up, changes.removals@, ls, 0);
    let mut i: usize = 0;
    while i < lines.len()
        invariant
            crate::object::coords_ordered(),
            ls == lines@.map_values(|l: &str| l@),
            ls.len() == lines@.len(),
            goal == removals_from(old(changes).upserts@.dom(), old(changes).removals@, ls, 0),
            i <= lines@.len(),
            up == changes.upserts@.dom(),
            changes.upserts@ == old(changes).upserts@,
            goal == removals_from(up, changes.removals@, ls, i as int),
        decreases lines@.len() - i,
    {
        let line = crate::text::trim(lines[i]);
        assert(ls[i as int] == lines@[i as int]@);
        let chars = crate::text::str_chars(line);
        if chars.len() == 0 || chars[0] == '#' {
            i = i + 1;
            continue;
        }
        let c = match parse_coords(line) {
            Some(c) => c,
            None => {
                assert(goal == Err::<Set<ChunkCoords>, StagingError>(
                    StagingError::InvalidRemoval((i + 1) as usize),
                ));
                return Err(StagingError::InvalidRemoval(i + 1));
            },
        };
        if changes.upserts.contains_key(&c) {
            assert(goal == Err::<Set<ChunkCoords>, StagingError>(StagingError::Conflict(c.0, c.1)));
            return Err(StagingError::Conflict(c.0, c.1));
        }
        changes.removals.insert(c);
        i = i + 1;
    }
    Ok(())
}
} // verus!
