//! Stabilities written out in decimal digits.

use vstd::prelude::*;

verus! {

/// The character of a decimal digit.
pub open spec fn digit_char(d: int) -> char {
    if d == 0 {
        '0'
    } else if d == 1 {
        '1'
    } else if d == 2 {
        '2'
    } else if d == 3 {
        '3'
    } else if d == 4 {
        '4'
    } else if d == 5 {
        '5'
    } else if d == 6 {
        '6'
    } else if d == 7 {
        '7'
    } else if d == 8 {
        '8'
    } else {
        '9'
    }
}

/// A number in decimal digits, without leading zeros.
pub open spec fn decimal(n: nat) -> Seq<char>
    decreases n,
{
    if n < 10 {
        seq![digit_char(n as int)]
    } else {
        decimal(n / 10).push(digit_char((n % 10) as int))
    }
}

/// A stability in hundredths, the nearest; a half counts upward.
pub open spec fn hundredths(v: u64) -> nat {
    (v / 10_000 + if v % 10_000 >= 5_000 {
        1int
    } else {
        0int
    }) as nat
}

/// A stability written with two decimal places, as in `0.45`.
pub open spec fn two_decimals(v: u64) -> Seq<char> {
    let h = hundredths(v);
    decimal(h / 100) + seq!['.', digit_char(((h / 10) % 10) as int), digit_char((h % 10) as int)]
}

/// The character of a digit.
fn digit(d: u64) -> (c: char)
    requires
        d < 10,
    ensures
        c == digit_char(d as int),
{
    if d == 0 {
        '0'
    } else if d == 1 {
        '1'
    } else if d == 2 {
        '2'
    } else if d == 3 {
        '3'
    } else if d == 4 {
        '4'
    } else if d == 5 {
        '5'
    } else if d == 6 {
        '6'
    } else if d == 7 {
        '7'
    } else if d == 8 {
        '8'
    } else {
        '9'
    }
}

/// Appends a number in decimal digits.
fn push_decimal(out: &mut String, n: u64)
    ensures
        final(out)@ == old(out)@ + decimal(n as nat),
    decreases n,
{
    if n >= 10 {
        push_decimal(out, n / 10);
    }
    out.push(digit(n % 10));
    proof {
        if n < 10 {
            assert(out@ =~= old(out)@ + decimal(n as nat));
        } else {
            assert(out@ =~= old(out)@ + decimal(n as nat));
        }
    }
}

/// Appends a stability with two decimal places.
pub fn push_stability(out: &mut String, v: u64)
    ensures
        final(out)@ == old(out)@ + two_decimals(v),
{
    let h: u64 = v / 10_000 + if v % 10_000 >= 5_000 {
        1
    } else {
        0
    };
    push_decimal(out, h / 100);
    out.push('.');
    out.push(digit((h / 10) % 10));
    out.push(digit(h % 10));
    proof {
        assert(out@ =~= old(out)@ + two_decimals(v));
    }
}

} // verus!
