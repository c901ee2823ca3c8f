//! Parsing of input lines.
//!
//! Each input line reads `station;measurement`, where the measurement is a
//! signed decimal with exactly one fractional digit.  A measurement is turned
//! into a fixed-point value: ten times its decimal value, so `-3.2` becomes
//! `-32`.  A line missing the `;` delimiter, a non-numeric measurement, a
//! missing or extra fractional digit, or a value outside the 16-bit
//! fixed-point range is malformed; parsing reports that instead of guessing.

use vstd::prelude::*;
use vstd::slice::slice_subrange;
use vstd::slice::slice_to_vec;

verus! {

/// ASCII code of `0`.
pub const DIGIT_ZERO: u8 = 48;

/// ASCII code of `9`.
pub const DIGIT_NINE: u8 = 57;

/// ASCII code of the space character.
pub const SPACE: u8 = 32;

/// ASCII code of the horizontal tab.
pub const TAB: u8 = 9;

/// ASCII code of the carriage return.
pub const CARRIAGE_RETURN: u8 = 13;

/// ASCII code of the line feed that ends every record.
pub const NEWLINE: u8 = 10;

/// ASCII code of `-`.
pub const MINUS: u8 = 45;

/// ASCII code of `.`.
pub const DOT: u8 = 46;

/// ASCII code of `;`, the field delimiter.
pub const SEMICOLON: u8 = 59;

/// ASCII decimal digit.
pub open spec fn is_digit(b: u8) -> bool {
    DIGIT_ZERO <= b && b <= DIGIT_NINE
}

/// ASCII whitespace trimmed from a line's end (space, tab, carriage return,
/// line feed).
pub open spec fn is_space(b: u8) -> bool {
    b == SPACE || b == TAB || b == CARRIAGE_RETURN || b == NEWLINE
}

/// Every byte of the sequence is a decimal digit.
pub open spec fn all_digits(s: Seq<u8>) -> bool {
    forall|i: int| 0 <= i < s.len() ==> is_digit(#[trigger] s[i])
}

/// The number written by a sequence of decimal digits, most significant
/// first; leading zeros are allowed.
pub open spec fn digits_val(s: Seq<u8>) -> int
    decreases s.len(),
{
    if s.len() == 0 {
        0
    } else {
        digits_val(s.drop_last()) * 10 + (s.last() - DIGIT_ZERO)
    }
}

/// A digit string never reads as a negative number.
pub proof fn lemma_digits_val_nonneg(s: Seq<u8>)
    requires
        all_digits(s),
    ensures
        digits_val(s) >= 0,
    decreases s.len(),
{
    if s.len() > 0 {
        lemma_digits_val_nonneg(s.drop_last());
    }
}

/// Appending digits can only grow the number a digit string reads as.
pub proof fn lemma_digits_val_prefix(s: Seq<u8>, i: int)
    requires
        all_digits(s),
        0 <= i <= s.len(),
    ensures
        digits_val(s.take(i)) <= digits_val(s),
    decreases s.len() - i,
{
    if i < s.len() {
        lemma_digits_val_prefix(s.drop_last(), i);
        assert(s.drop_last().take(i) =~= s.take(i));
        assert(all_digits(s.drop_last()));
        lemma_digits_val_nonneg(s.drop_last());
    } else {
        assert(s.take(i) =~= s);
    }
}

/// The measurement's shape: an optional minus sign, one or more integer
/// digits, a dot, and exactly one fractional digit.
pub open spec fn valid_measurement(s: Seq<u8>) -> bool {
    let body = if s.len() > 0 && s[0] == MINUS {
        s.skip(1)
    } else {
        s
    };
    &&& body.len() >= 3
    &&& body[body.len() - 2] == DOT
    &&& is_digit(body.last())
    &&& all_digits(body.take(body.len() - 2))
}

/// The fixed-point value a well-shaped measurement denotes: ten times the
/// integer part plus the fractional digit, negated after a minus sign.
pub open spec fn measurement_val(s: Seq<u8>) -> int {
    let neg = s.len() > 0 && s[0] == MINUS;
    let body = if neg {
        s.skip(1)
    } else {
        s
    };
    let mag = digits_val(body.take(body.len() - 2)) * 10 + (body.last() - DIGIT_ZERO);
    if neg {
        -mag
    } else {
        mag
    }
}

/// Whether a well-shaped measurement also fits the 16-bit fixed-point range.
pub open spec fn measurement_ok(s: Seq<u8>) -> bool {
    &&& valid_measurement(s)
    &&& i16::MIN <= measurement_val(s) <= i16::MAX
}

/// Parse a measurement into its fixed-point value.  Returns the value
/// exactly when the bytes are a well-shaped measurement in range, and
/// nothing otherwise.
pub fn parse_measurement(b: &[u8]) -> (r: Option<i16>)
    ensures
        r is Some <==> measurement_ok(b@),
        r is Some ==> r->0 as int == measurement_val(b@),
{
    let len: usize = b.len();
    let neg: bool = len > 0 && b[0] == MINUS;
    let start: usize = if neg {
        1
    } else {
        0
    };
    let ghost body = if neg {
        b@.skip(1)
    } else {
        b@
    };
    proof {
        assert(body.len() == len - start);
        assert(forall|j: int| 0 <= j < body.len() ==> body[j] == b@[start + j]);
    }
    if len < 3 + start {
        return None;
    }
    if b[len - 2] != DOT {
        proof {
            assert(body[body.len() - 2] == b@[len - 2]);
        }
        return None;
    }
    let frac = b[len - 1];
    if frac < DIGIT_ZERO || frac > DIGIT_NINE {
        proof {
            assert(body.last() == b@[len - 1]);
        }
        return None;
    }
    let ghost intpart = body.take(body.len() - 2);
    let mut acc: u32 = 0;
    let mut i: usize = start;
    while i < len - 2
        invariant
            start <= i <= len - 2 <= b@.len(),
            acc <= 3276,
            body == (if neg {
                b@.skip(1)
            } else {
                b@
            }),
            neg == (b@.len() > 0 && b@[0] == MINUS),
            start == (if neg {
                1int
            } else {
                0int
            }),
            intpart == body.take(body.len() - 2),
            body.len() == len - start >= 3,
            len == b@.len(),
            all_digits(intpart.take(i - start)),
            acc == digits_val(intpart.take(i - start)),
        decreases len - i,
    {
        let d = b[i];
        if d < DIGIT_ZERO || d > DIGIT_NINE {
            proof {
                assert(intpart[i - start] == b@[i as int]);
                assert(!is_digit(intpart[i - start]));
            }
            return None;
        }
        let next: u32 = acc * 10 + (d - DIGIT_ZERO) as u32;
        proof {
            assert(intpart.take(i - start + 1).drop_last() =~= intpart.take(i - start));
            assert(intpart.take(i - start + 1).last() == b@[i as int]);
            assert(next == digits_val(intpart.take(i - start + 1)));
        }
        if next > 3276 {
            proof {
                if measurement_ok(b@) {
                    assert(all_digits(intpart));
                    lemma_digits_val_prefix(intpart, i - start + 1);
                    lemma_digits_val_nonneg(intpart);
                    assert(digits_val(intpart) >= next > 3276);
                    assert(measurement_val(b@) > i16::MAX || measurement_val(b@) < i16::MIN);
                }
            }
            return None;
        }
        acc = next;
        i = i + 1;
    }
    proof {
        assert(intpart.take(i - start) =~= intpart);
        assert(body.last() == b@[len - 1]);
    }
    let mag: u32 = acc * 10 + (frac - DIGIT_ZERO) as u32;
    if neg {
        if mag > 32768 {
            return None;
        }
        let v: i32 = -(mag as i32);
        Some(v as i16)
    } else {
        if mag > 32767 {
            return None;
        }
        Some(mag as i16)
    }
}

/// Whether a byte is whitespace a line is trimmed of.
fn is_space_byte(b: u8) -> (r: bool)
    ensures
        r == is_space(b),
{
    b == SPACE || b == TAB || b == CARRIAGE_RETURN || b == NEWLINE
}

/// The line with its trailing whitespace removed.
pub open spec fn trim_trailing(s: Seq<u8>) -> Seq<u8>
    decreases s.len(),
{
    if s.len() > 0 && is_space(s.last()) {
        trim_trailing(s.drop_last())
    } else {
        s
    }
}

/// The index of the first occurrence of `c`, or the length if there is none.
pub open spec fn find_byte(s: Seq<u8>, c: u8) -> int
    decreases s.len(),
{
    if s.len() == 0 {
        0
    } else if s[0] == c {
        0
    } else {
        1 + find_byte(s.skip(1), c)
    }
}

/// What `find_byte` returns: an in-range index, nothing equal to `c` before
/// it, and `c` at it unless it is the length.
pub proof fn lemma_find_byte(s: Seq<u8>, c: u8)
    ensures
        0 <= find_byte(s, c) <= s.len(),
        forall|j: int| 0 <= j < find_byte(s, c) ==> s[j] != c,
        find_byte(s, c) < s.len() ==> s[find_byte(s, c)] == c,
    decreases s.len(),
{
    if s.len() > 0 && s[0] != c {
        lemma_find_byte(s.skip(1), c);
        assert(forall|j: int| 1 <= j < 1 + find_byte(s.skip(1), c) ==> s[j] == s.skip(1)[j - 1]);
    }
}

/// Any index with those properties is `find_byte`'s result.
pub proof fn lemma_find_byte_is(s: Seq<u8>, c: u8, i: int)
    requires
        0 <= i <= s.len(),
        forall|j: int| 0 <= j < i ==> s[j] != c,
        i < s.len() ==> s[i] == c,
    ensures
        find_byte(s, c) == i,
    decreases s.len(),
{
    if s.len() == 0 {
    } else if s[0] == c {
        assert(i == 0);
    } else {
        assert(i >= 1);
        assert(forall|j: int| 0 <= j < i - 1 ==> s.skip(1)[j] == s[j + 1]);
        assert(i - 1 < s.skip(1).len() ==> s.skip(1)[i - 1] == s[i as int]);
        lemma_find_byte_is(s.skip(1), c, i - 1);
    }
}

/// A line is well formed when, after trimming trailing whitespace, it has a
/// `;` and everything after the first `;` is a measurement in range.
pub open spec fn valid_line(line: Seq<u8>) -> bool {
    let t = trim_trailing(line);
    let p = find_byte(t, SEMICOLON);
    &&& p < t.len()
    &&& measurement_ok(t.skip(p + 1))
}

/// The station name of a well-formed line: what stands before the first `;`.
pub open spec fn line_name(line: Seq<u8>) -> Seq<u8> {
    let t = trim_trailing(line);
    t.take(find_byte(t, SEMICOLON))
}

/// The fixed-point value of a well-formed line.
pub open spec fn line_value(line: Seq<u8>) -> int {
    let t = trim_trailing(line);
    measurement_val(t.skip(find_byte(t, SEMICOLON) + 1))
}

/// Split one line at its first `;`, trim trailing whitespace, and parse the
/// measurement.  Returns the name and fixed-point value exactly when the
/// line is well formed, and nothing otherwise.
pub fn parse_line(line: &[u8]) -> (r: Option<(Vec<u8>, i16)>)
    ensures
        r is Some <==> valid_line(line@),
        r is Some ==> (r->0).0@ == line_name(line@) && (r->0).1 as int == line_value(line@),
{
    let len: usize = line.len();
    let mut end: usize = len;
    proof {
        assert(line@.take(len as int) =~= line@);
    }
    while end > 0 && is_space_byte(line[end - 1])
        invariant
            0 <= end <= len == line@.len(),
            trim_trailing(line@.take(end as int)) == trim_trailing(line@),
        decreases end,
    {
        proof {
            assert(line@.take(end as int).last() == line@[end - 1]);
            assert(line@.take(end as int).drop_last() =~= line@.take(end - 1));
        }
        end = end - 1;
    }
    proof {
        assert(line@.take(len as int) =~= line@);
        if end > 0 {
            assert(line@.take(end as int).last() == line@[end - 1]);
        }
        assert(trim_trailing(line@.take(end as int)) == line@.take(end as int));
    }
    let ghost t = trim_trailing(line@);
    let mut p: usize = 0;
    while p < end && line[p] != SEMICOLON
        invariant
            0 <= p <= end <= line@.len(),
            t == line@.take(end as int),
            forall|j: int| 0 <= j < p ==> t[j] != SEMICOLON,
        decreases end - p,
    {
        p = p + 1;
    }
    proof {
        lemma_find_byte_is(t, SEMICOLON, p as int);
    }
    if p == end {
        return None;
    }
    let name = slice_to_vec(slice_subrange(line, 0, p));
    let meas = slice_subrange(line, p + 1, end);
    proof {
        assert(meas@ =~= t.skip(p + 1));
        assert(name@ =~= t.take(p as int));
    }
    match parse_measurement(meas) {
        None => None,
        Some(v) => Some((name, v)),
    }
}

} // verus!
