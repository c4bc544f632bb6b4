//! Human-readable rendering of a duration given in nanoseconds.

use vstd::prelude::*;
use crate::strutil::{dec_str, digit_char, u64_to_string};

verus! {

/// A three-digit zero-padded fraction, with its leading decimal point
/// (meaningful for `f < 1000`).
pub open spec fn frac3_str(f: nat) -> Seq<char> {
    seq!['.'] + (if f < 10 {
        seq!['0', '0']
    } else if f < 100 {
        seq!['0']
    } else {
        Seq::empty()
    }) + dec_str(f)
}

/// `n` scaled down by `div` and rendered with exactly three decimal
/// places; the fraction is rounded half up, carrying into the integer
/// part when it rounds to one whole unit.
pub open spec fn scaled_str(n: nat, div: nat) -> Seq<char> {
    let whole = n / div;
    let frac = (n % div * 1000 + div / 2) / div;
    if frac == 1000 {
        dec_str(whole + 1) + frac3_str(0)
    } else {
        dec_str(whole) + frac3_str(frac)
    }
}

/// The rendering of a duration of `n` nanoseconds: seconds,
/// milliseconds or microseconds with three decimals, or whole
/// nanoseconds below one microsecond.
pub open spec fn duration_str(n: nat) -> Seq<char> {
    if n >= 1_000_000_000 {
        scaled_str(n, 1_000_000_000) + "s"@
    } else if n >= 1_000_000 {
        scaled_str(n, 1_000_000) + "ms"@
    } else if n >= 1_000 {
        scaled_str(n, 1_000) + "µs"@
    } else {
        dec_str(n) + "ns"@
    }
}

/// Renders the fraction part, matching `frac3_str`.
fn push_frac3(out: &mut String, f: u64)
    requires
        f < 1000,
    ensures
        final(out)@ == old(out)@ + frac3_str(f as nat),
{
    proof {
        reveal_strlit(".");
        reveal_strlit("00");
        reveal_strlit("0");
    }
    out.append(".");
    if f < 10 {
        out.append("00");
    } else if f < 100 {
        out.append("0");
    }
    let digits = u64_to_string(f);
    out.append(digits.as_str());
    proof {
        assert(old(out)@ + frac3_str(f as nat) =~= out@);
    }
}

/// Renders `n / div` with three rounded decimal places, matching
/// `scaled_str`.
fn push_scaled(out: &mut String, n: u64, div: u64)
    requires
        1000 <= div <= 1_000_000_000,
    ensures
        final(out)@ == old(out)@ + scaled_str(n as nat, div as nat),
{
    let whole = n / div;
    let rem = n % div;
    proof {
        vstd::arithmetic::div_mod::lemma_div_is_ordered_by_denominator(
            n as int,
            1000,
            div as int,
        );
        assert(rem <= 999_999_999);
        assert(rem as int * 1000 <= 999_999_999_000) by (nonlinear_arith)
            requires rem <= 999_999_999;
        assert(div as int / 2 <= 500_000_000);
        assert(rem as int * 1000 + div as int / 2 <= 1_000_500_000_000);
    }
    let frac = (rem * 1000 + div / 2) / div;
    proof {
        assert(frac as int <= 1000) by (nonlinear_arith)
            requires
                rem < div,
                1000 <= div,
                frac as int == (rem as int * 1000 + div as int / 2) / (div as int);
    }
    if frac == 1000 {
        let digits = u64_to_string(whole + 1);
        out.append(digits.as_str());
        push_frac3(out, 0);
    } else {
        let digits = u64_to_string(whole);
        out.append(digits.as_str());
        push_frac3(out, frac);
    }
}

/// Renders a duration of `nanos` nanoseconds in the most fitting unit,
/// with three decimal places above the nanosecond range.
pub fn format_duration(nanos: u64) -> (r: String)
    ensures
        r@ == duration_str(nanos as nat),
{
    let mut out = String::new();
    if nanos >= 1_000_000_000 {
        push_scaled(&mut out, nanos, 1_000_000_000);
        out.append("s");
    } else if nanos >= 1_000_000 {
        push_scaled(&mut out, nanos, 1_000_000);
        out.append("ms");
    } else if nanos >= 1_000 {
        push_scaled(&mut out, nanos, 1_000);
        out.append("µs");
    } else {
        let digits = u64_to_string(nanos);
        out.append(digits.as_str());
        out.append("ns");
    }
    out
}

} // verus!
