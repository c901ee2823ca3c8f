//! Rendering the final report.
//!
//! One line per station, in the table's (byte-lexicographic) order:
//! `name:min/mean/max;` with each number rescaled from fixed point back to
//! one decimal digit.  The mean is the truncating division of the
//! fixed-point sum by the count, rescaled the same way.

use crate::aggregate::Aggregate;
use crate::parse::DIGIT_ZERO;
use crate::parse::DOT;
use crate::parse::MINUS;
use crate::parse::NEWLINE;
use crate::parse::SEMICOLON;
use crate::table::StationTable;
use vstd::prelude::*;

verus! {

/// ASCII code of `:`, between the name and the numbers.
pub const COLON: u8 = 58;

/// ASCII code of `/`, between the numbers.
pub const SLASH: u8 = 47;

/// The decimal digits of `n`, most significant first.
pub open spec fn dec_digits(n: nat) -> Seq<u8>
    decreases n,
{
    if n < 10 {
        seq![(n + DIGIT_ZERO) as u8]
    } else {
        dec_digits(n / 10).push((n % 10 + DIGIT_ZERO) as u8)
    }
}

/// Truncating (toward zero) division of a fixed-point sum by a count.
pub open spec fn mean_fixed(sum: int, count: int) -> int {
    if sum >= 0 {
        sum / count
    } else {
        -((-sum) / count)
    }
}

/// A fixed-point value rescaled to one decimal: sign, integer part, dot,
/// fractional digit.  `-32` reads `-3.2`, `7` reads `0.7`.
pub open spec fn fixed_bytes(v: int) -> Seq<u8> {
    let mag = if v < 0 {
        (-v) as nat
    } else {
        v as nat
    };
    let digits = dec_digits(mag / 10) + seq![DOT, (mag % 10 + DIGIT_ZERO) as u8];
    if v < 0 {
        seq![MINUS] + digits
    } else {
        digits
    }
}

/// One report line: `name:min/mean/max;` and a line feed.
pub open spec fn entry_bytes(name: Seq<u8>, a: Aggregate) -> Seq<u8> {
    name + seq![COLON] + fixed_bytes(a.min as int) + seq![SLASH] + fixed_bytes(
        mean_fixed(a.sum as int, a.count as int),
    ) + seq![SLASH] + fixed_bytes(a.max as int) + seq![SEMICOLON, NEWLINE]
}

/// The whole report: every entry's line, in table order.
pub open spec fn report_bytes(s: Seq<(Vec<u8>, Aggregate)>) -> Seq<u8>
    decreases s.len(),
{
    if s.len() == 0 {
        Seq::empty()
    } else {
        report_bytes(s.drop_last()) + entry_bytes(s.last().0@, s.last().1)
    }
}

/// Append the decimal digits of `n`.
fn push_decimal(out: &mut Vec<u8>, n: u128)
    ensures
        final(out)@ == old(out)@ + dec_digits(n as nat),
    decreases n,
{
    if n < 10 {
        out.push((n as u8) + DIGIT_ZERO);
        proof {
            assert(final(out)@ =~= old(out)@ + dec_digits(n as nat));
        }
    } else {
        push_decimal(out, n / 10);
        out.push(((n % 10) as u8) + DIGIT_ZERO);
        proof {
            assert((n % 10) as u8 + DIGIT_ZERO == ((n as nat) % 10 + DIGIT_ZERO) as u8);
            assert(final(out)@ =~= old(out)@ + dec_digits(n as nat));
        }
    }
}

/// Append a fixed-point value rescaled to one decimal.
fn push_fixed(out: &mut Vec<u8>, v: i128)
    requires
        -0x1_0000_0000_0000_0000_0000 < v < 0x1_0000_0000_0000_0000_0000,
    ensures
        final(out)@ == old(out)@ + fixed_bytes(v as int),
{
    let mag: u128 = if v < 0 {
        out.push(MINUS);
        (-v) as u128
    } else {
        v as u128
    };
    push_decimal(out, mag / 10);
    out.push(DOT);
    out.push(((mag % 10) as u8) + DIGIT_ZERO);
    proof {
        assert(final(out)@ =~= old(out)@ + fixed_bytes(v as int));
    }
}

/// Render the report for a table: one line per station, in the table's
/// sorted order, `name:min/mean/max;` with one decimal digit each.
pub fn render_report(t: &StationTable) -> (out: Vec<u8>)
    requires
        t.wf(),
    ensures
        out@ == report_bytes(t.entries@),
{
    let mut out: Vec<u8> = Vec::new();
    let n = t.entries.len();
    let mut i: usize = 0;
    proof {
        assert(out@ =~= report_bytes(t.entries@.take(0)));
    }
    while i < n
        invariant
            0 <= i <= n == t.entries@.len(),
            t.wf(),
            out@ == report_bytes(t.entries@.take(i as int)),
        decreases n - i,
    {
        let ghost start = out@;
        let a = t.entries[i].1;
        proof {
            assert(t.entries@[i as int].1.wf());
            a.lemma_sum_bound();
        }
        let name_len = t.entries[i].0.len();
        let mut j: usize = 0;
        while j < name_len
            invariant
                0 <= j <= name_len == t.entries@[i as int].0@.len(),
                0 <= i < t.entries@.len(),
                out@ == start + t.entries@[i as int].0@.take(j as int),
            decreases name_len - j,
        {
            out.push(t.entries[i].0[j]);
            proof {
                assert(out@ =~= start + t.entries@[i as int].0@.take(j + 1));
            }
            j = j + 1;
        }
        proof {
            assert(t.entries@[i as int].0@.take(name_len as int) =~= t.entries@[i as int].0@);
        }
        out.push(COLON);
        push_fixed(&mut out, a.min as i128);
        out.push(SLASH);
        let mean: i128 = if a.sum >= 0 {
            ((a.sum as u128) / (a.count as u128)) as i128
        } else {
            -((((-a.sum) as u128) / (a.count as u128)) as i128)
        };
        proof {
            assert(mean as int == mean_fixed(a.sum as int, a.count as int));
        }
        push_fixed(&mut out, mean);
        out.push(SLASH);
        push_fixed(&mut out, a.max as i128);
        out.push(SEMICOLON);
        out.push(NEWLINE);
        proof {
            assert(out@ =~= start + entry_bytes(t.entries@[i as int].0@, a));
            assert(t.entries@.take(i + 1).drop_last() =~= t.entries@.take(i as int));
            assert(t.entries@.take(i + 1).last() == t.entries@[i as int]);
            assert(out@ =~= report_bytes(t.entries@.take(i + 1)));
        }
        i = i + 1;
    }
    proof {
        assert(t.entries@.take(n as int) =~= t.entries@);
    }
    out
}

} // verus!
