//! Decimal notation.

use vstd::arithmetic::power::{lemma_pow_positive, pow};
use vstd::prelude::*;

verus! {

/// The character of the decimal digit `d`.
pub open spec fn digit_char(d: int) -> char {
    if d == 0 {
        '0'
    } else if d == 1 {
        '1'
    } else if d == 2 {
        '2'
    } else if d == 3 {
        '3'
    } else if d == 4 {
        '4'
    } else if d == 5 {
        '5'
    } else if d == 6 {
        '6'
    } else if d == 7 {
        '7'
    } else if d == 8 {
        '8'
    } else {
        '9'
    }
}

/// The decimal digits of `n`, most significant first, with no leading zero;
/// zero is written `0`.
pub open spec fn decimal(n: nat) -> Seq<char>
    decreases n,
{
    if n < 10 {
        seq![digit_char(n as int)]
    } else {
        decimal(n / 10).push(digit_char((n % 10) as int))
    }
}

/// The decimal notation of an integer: a `-` before the digits of a negative
/// number.
pub open spec fn signed_decimal(v: int) -> Seq<char> {
    if v < 0 {
        seq!['-'] + decimal((-v) as nat)
    } else {
        decimal(v as nat)
    }
}

/// `10^e`.
pub open spec fn pow10(e: nat) -> int {
    pow(10, e)
}

/// Each power of ten is ten times the one before, and positive.
pub proof fn lemma_pow10_step(e: nat)
    ensures
        pow10(e + 1) == 10 * pow10(e),
        pow10(e) >= 1,
{
    reveal_with_fuel(pow, 2);
    lemma_pow_positive(10, e);
}

/// `c` is one of the ten decimal digits.
pub open spec fn is_digit(c: char) -> bool {
    exists|d: int| 0 <= d <= 9 && c == digit_char(d)
}

/// The decimal notation of a natural number holds digits only.
pub proof fn lemma_decimal_digits(n: nat)
    ensures
        decimal(n).len() >= 1,
        forall|i: int| 0 <= i < decimal(n).len() ==> is_digit(#[trigger] decimal(n)[i]),
    decreases n,
{
    if n < 10 {
        assert(is_digit(digit_char(n as int)));
    } else {
        lemma_decimal_digits(n / 10);
        assert(is_digit(digit_char((n % 10) as int)));
    }
}

/// A number from `lead * 10^(d - 1)` up to, and not including,
/// `(lead + 1) * 10^(d - 1)` is written with `d` digits, the first of which
/// is `lead`.
pub proof fn lemma_decimal_leading(n: nat, d: nat, lead: int)
    requires
        d >= 1,
        1 <= lead <= 9,
        lead * pow10((d - 1) as nat) <= n < (lead + 1) * pow10((d - 1) as nat),
    ensures
        decimal(n).len() == d,
        decimal(n)[0] == digit_char(lead),
    decreases d,
{
    reveal_with_fuel(pow, 2);
    if d == 1 {
        assert(pow10(0) == 1);
        assert(n == lead);
    } else {
        let s = pow10((d - 2) as nat);
        lemma_pow_positive(10, (d - 2) as nat);
        assert(pow10((d - 1) as nat) == 10 * s);
        assert(lead * (10 * s) == 10 * (lead * s) && (lead + 1) * (10 * s) == 10 * ((lead + 1)
            * s) && lead * s >= 1) by (nonlinear_arith)
            requires
                s >= 1,
                lead >= 1,
        ;
        lemma_decimal_leading(n / 10, (d - 1) as nat, lead);
    }
}

} // verus!
