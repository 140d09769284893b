//! The digits of pi.
//!
//! With `(P, Q, T)` the triple of the first `n` indices of the series and
//! `x / y` an approximation of the square root of 10005,
//! `426880 * x * Q / ((A * Q + T) * y)` approximates pi. [`compute_pi`] writes
//! the first digits of this fraction: the leading `3` is the first of them,
//! there is no decimal point, and the last digit is not rounded.
//!
//! What is proved of the digits is that they are those of this fraction,
//! that there are as many as were asked for, and that the first is `3`.
//! One index more than `digits / 14` is summed, where each index adds more
//! than 14 digits, and the square root is taken ten digits further than is
//! asked for. [`crate::precision`] proves that this is enough: no further
//! index and no further step of the recurrence moves the fraction by more than
//! `10^(-digits - 2)`. That the limit is pi is the Chudnovsky brothers'
//! theorem, which is not proved here.

use crate::decimal::{
    is_digit, lemma_decimal_digits, lemma_decimal_leading, pow10, signed_decimal,
};
use crate::integer::{
    big_add, big_div, big_from_i128, big_gt, big_mul, big_pow, big_to_string,
};
use crate::pell::{
    lemma_pell_index, lemma_pell_invariant, lemma_ratio_bounds, norm, pell_index, pell_seq,
    target_exponent, Convergent, Pair, SquareRoot,
};
use crate::rational::{Fraction, Ratio};
use crate::series::{lemma_prefix_small, range_triple, Triple, A};
use crate::splitting::{Pqt, Segment};
use crate::summation::{lemma_mul_swap, lemma_triple_is_partial_sum, partial_sum};
use vstd::arithmetic::div_mod::{
    lemma_div_is_ordered, lemma_div_multiples_vanish, lemma_fundamental_div_mod, lemma_mod_bound,
    lemma_multiply_divide_lt,
};
use vstd::arithmetic::mul::{
    lemma_mul_is_associative, lemma_mul_is_commutative, lemma_mul_is_distributive_add_other_way,
};
use vstd::arithmetic::power::lemma_pow_positive;
use vstd::prelude::*;

verus! {

/// The rational factor of `426880 * sqrt(10005)`.
pub const SCALE: u64 = 426880;

/// Each index of the series adds more than this many digits.
pub const DIGITS_PER_TERM: u32 = 14;

/// The approximation of pi made of a triple of the series and an
/// approximation `x / y` of the square root of 10005.
pub open spec fn pi_fraction(t: Triple, c: Pair) -> Fraction {
    Fraction { num: SCALE * (c.x * t.q), den: (A * t.q + t.t) * c.y }
}

/// The same fraction with a positive denominator: both parts change sign
/// where the denominator is negative.
pub open spec fn upright(f: Fraction) -> Fraction {
    if f.den < 0 {
        Fraction { num: -f.num, den: -f.den }
    } else {
        f
    }
}

/// `f * 10^(digits - 1)`, rounded down to a whole number, whatever the signs
/// of the two parts of `f`. For an `f` with one digit before the decimal
/// point this is the integer written by its first `digits` digits.
pub open spec fn leading_digits(f: Fraction, digits: u32) -> int {
    upright(f).num * pow10((digits - 1) as nat) / upright(f).den
}

/// `f` is at least one and less than ten.
pub open spec fn from_one_to_ten(f: Fraction) -> bool {
    upright(f).den > 0 && upright(f).den <= upright(f).num < 10 * upright(f).den
}

/// The number of indices of the series summed for `digits` digits.
pub open spec fn terms_for(digits: u32) -> nat {
    (digits / DIGITS_PER_TERM + 1) as nat
}

/// The fraction that stands for pi when `digits` digits are asked for.
pub open spec fn pi_approximation(digits: u32) -> Fraction {
    pi_fraction(
        range_triple(0, terms_for(digits) as int),
        pell_seq(pell_index(pow10(target_exponent(digits)))),
    )
}

/// The first `digits` digits of pi as this library computes them.
pub open spec fn pi_decimal(digits: u32) -> Seq<char> {
    signed_decimal(leading_digits(pi_approximation(digits), digits))
}

/// Where `T` is small against `Q` and `x / y` has norm one, the fraction for
/// pi has a positive denominator and lies from three up to, and not
/// including, four.
pub proof fn lemma_pi_fraction_bounds(t: Triple, c: Pair)
    requires
        t.q >= 1,
        -t.q < t.t < t.q,
        norm(c) == 1,
        c.x >= 1,
        c.y >= 1,
    ensures
        ({
            let f = pi_fraction(t, c);
            f.den > 0 && 3 * f.den <= f.num < 4 * f.den
        }),
{
    lemma_ratio_bounds(c);
    let (q, x, y) = (t.q, c.x, c.y);
    let s = A * q + t.t;
    let qy = q * y;
    assert(qy >= 1 && x * q >= 100 * qy + q && x * q <= 101 * qy - q) by (nonlinear_arith)
        requires
            qy == q * y,
            q >= 1,
            y >= 1,
            100 * y + 1 <= x <= 101 * y - 1,
    ;
    assert(13591408 * qy + y <= s * y <= 13591410 * qy - y) by (nonlinear_arith)
        requires
            qy == q * y,
            y >= 1,
            13591408 * q + 1 <= s <= 13591410 * q - 1,
    ;
}

/// The fraction for pi is `426880 * (x / y)` divided by the sum of the terms
/// `0, ..., n` of the series, where the triple is that of the first `n`
/// indices.
pub proof fn lemma_pi_fraction_is_quotient(n: nat, c: Pair)
    ensures
        ({
            let f = pi_fraction(range_triple(0, n as int), c);
            let s = partial_sum(n);
            f.num * (s.num * c.y) == f.den * ((SCALE * c.x) * s.den)
        }),
{
    let t = range_triple(0, n as int);
    let s = partial_sum(n);
    let sum = A * t.q + t.t;
    let sx = SCALE * c.x;
    lemma_triple_is_partial_sum(n);
    assert(sum * s.den == s.num * t.q);
    lemma_mul_is_associative(SCALE as int, c.x, t.q);
    // (sx Q) (N y) == (sx y) (Q N) and (sum y) (sx D) == (sx y) (sum D)
    lemma_mul_is_commutative(s.num, c.y);
    lemma_mul_swap(sx, t.q, c.y, s.num);
    lemma_mul_is_commutative(sum, c.y);
    lemma_mul_swap(c.y, sum, sx, s.den);
    lemma_mul_is_commutative(c.y, sx);
    lemma_mul_is_commutative(t.q, s.num);
}

/// Bounds on a fraction carry over to its leading digits.
pub proof fn lemma_leading_digits_bounds(f: Fraction, digits: u32, lead: int)
    requires
        digits >= 1,
        f.den > 0,
        lead * f.den <= f.num < (lead + 1) * f.den,
    ensures
        ({
            let unit = pow10((digits - 1) as nat);
            lead * unit <= leading_digits(f, digits) < (lead + 1) * unit
        }),
{
    let s = pow10((digits - 1) as nat);
    lemma_pow_positive(10, (digits - 1) as nat);
    let (num, den) = (f.num, f.den);
    assert(den * (lead * s) <= num * s < den * ((lead + 1) * s)) by (nonlinear_arith)
        requires
            s >= 1,
            lead * den <= num < (lead + 1) * den,
    ;
    lemma_div_is_ordered(den * (lead * s), num * s, den);
    lemma_div_multiples_vanish(lead * s, den);
    lemma_multiply_divide_lt(num * s, den, (lead + 1) * s);
}

/// The number of indices of the series summed for `digits` digits:
/// one more than `digits / 14`, rounded down.
pub fn term_count(digits: u32) -> (n: u64)
    ensures
        n == terms_for(digits),
        n >= 1,
        DIGITS_PER_TERM * n > digits,
{
    (digits / DIGITS_PER_TERM) as u64 + 1
}

/// The fraction for pi made of the triple `pqt` and the approximation `root`
/// of the square root of 10005. Both are used up.
pub fn assemble(pqt: Pqt, root: Convergent) -> (r: Ratio)
    ensures
        r@ == pi_fraction(pqt@, root@),
        r.num.is_shortest() && r.den.is_shortest(),
{
    let num = big_mul(&big_from_i128(SCALE as i128), &big_mul(&root.x, &pqt.q));
    let sum = big_add(&big_mul(&big_from_i128(A as i128), &pqt.q), &pqt.t);
    let den = big_mul(&sum, &root.y);
    Ratio { num, den }
}

/// [`leading_digits`] is the floor: the greatest whole number that is not
/// above `f * 10^(digits - 1)`.
pub proof fn lemma_leading_digits_floor(f: Fraction, digits: u32)
    requires
        digits >= 1,
        f.den != 0,
    ensures
        ({
            let u = upright(f);
            let v = leading_digits(f, digits);
            let scaled = u.num * pow10((digits - 1) as nat);
            u.den > 0 && v * u.den <= scaled < (v + 1) * u.den
        }),
{
    let u = upright(f);
    let scaled = u.num * pow10((digits - 1) as nat);
    lemma_fundamental_div_mod(scaled, u.den);
    lemma_mod_bound(scaled, u.den);
    lemma_mul_is_commutative(u.den, scaled / u.den);
    lemma_mul_is_distributive_add_other_way(u.den, scaled / u.den, 1);
}

/// The first `digits` digits of a fraction from one up to ten are `digits`
/// characters, all of them digits.
pub proof fn lemma_leading_digits_length(f: Fraction, digits: u32)
    requires
        digits >= 1,
        from_one_to_ten(f),
    ensures
        leading_digits(f, digits) >= 1,
        signed_decimal(leading_digits(f, digits)).len() == digits,
        forall|i: int|
            0 <= i < digits ==> is_digit(#[trigger] signed_decimal(leading_digits(f, digits))[i]),
{
    let u = upright(f);
    let lead = u.num / u.den;
    lemma_fundamental_div_mod(u.num, u.den);
    lemma_mod_bound(u.num, u.den);
    lemma_mul_is_commutative(u.den, lead);
    lemma_mul_is_distributive_add_other_way(u.den, lead, 1);
    assert(1 <= lead <= 9) by (nonlinear_arith)
        requires
            u.den > 0,
            u.den <= u.num < 10 * u.den,
            lead * u.den <= u.num < (lead + 1) * u.den,
    ;
    assert(upright(u) == u);
    assert(leading_digits(u, digits) == leading_digits(f, digits));
    lemma_leading_digits_bounds(u, digits, lead);
    let v = leading_digits(f, digits);
    lemma_pow_positive(10, (digits - 1) as nat);
    assert(v >= 1) by (nonlinear_arith)
        requires
            v >= lead * pow10((digits - 1) as nat),
            lead >= 1,
            pow10((digits - 1) as nat) >= 1,
    ;
    lemma_decimal_leading(v as nat, digits as nat, lead);
    lemma_decimal_digits(v as nat);
}

/// The decimal notation of `ratio * 10^(digits - 1)`, rounded down to a whole
/// number, whatever the signs of the two parts of `ratio`. For a ratio from
/// one up to ten these are its first `digits` digits: `digits` characters,
/// without a decimal point and without rounding.
pub fn render(ratio: &Ratio, digits: u32) -> (s: String)
    requires
        digits >= 1,
        ratio@.den != 0,
    ensures
        s@ == signed_decimal(leading_digits(ratio@, digits)),
        from_one_to_ten(ratio@) ==> s@.len() == digits && forall|i: int|
            0 <= i < digits ==> is_digit(#[trigger] s@[i]),
{
    let shift = big_pow(&big_from_i128(10), digits - 1);
    let zero = big_from_i128(0);
    let quotient = if big_gt(&ratio.den, &zero) {
        big_div(&big_mul(&ratio.num, &shift), &ratio.den)
    } else {
        let minus = big_from_i128(-1);
        let num = big_mul(&ratio.num, &minus);
        let den = big_mul(&ratio.den, &minus);
        proof {
            let (n, d, m) = (ratio.num@, ratio.den@, minus@);
            assert(n * m == -n && d * m == -d) by (nonlinear_arith)
                requires
                    m == -1,
            ;
        }
        big_div(&big_mul(&num, &shift), &den)
    };
    proof {
        if from_one_to_ten(ratio@) {
            lemma_leading_digits_length(ratio@, digits);
        }
    }
    big_to_string(&quotient)
}

/// The first digits of pi from the two parts of the computation, for a caller
/// that has had them computed side by side: as many digits as `root` is good
/// for. There is a result where that number is not zero and `series` covers
/// the indices that this number of digits takes, and it is that of
/// [`compute_pi`].
pub fn pi_from_parts(series: Segment, root: SquareRoot) -> (r: Option<String>)
    ensures
        r is Some <==> root.digits() >= 1 && series.start() == 0 && series.end() == terms_for(
            root.digits(),
        ),
        r matches Some(s) ==> {
            &&& s@ == pi_decimal(root.digits())
            &&& s@.len() == root.digits()
            &&& s@[0] == '3'
            &&& forall|i: int| 0 <= i < s@.len() ==> is_digit(#[trigger] s@[i])
        },
{
    let digits = root.for_digits();
    let (n1, n2) = series.range();
    if digits == 0 || n1 != 0 || n2 != term_count(digits) {
        return None;
    }
    let pqt = series.into_pqt();
    let pair = root.into_convergent();
    let ghost k = pell_index(pow10(target_exponent(digits)));
    let ghost (triple, c) = (pqt@, pair@);
    let ratio = assemble(pqt, pair);
    proof {
        lemma_prefix_small(n2 as nat);
        lemma_pell_index(target_exponent(digits));
        lemma_pow_positive(10, target_exponent(digits));
        lemma_pell_invariant(k);
        lemma_pi_fraction_bounds(triple, c);
        lemma_leading_digits_bounds(ratio@, digits, 3);
        let v = leading_digits(ratio@, digits);
        lemma_pow_positive(10, (digits - 1) as nat);
        lemma_decimal_leading(v as nat, digits as nat, 3);
        lemma_decimal_digits(v as nat);
    }
    Some(render(&ratio, digits))
}

/// The first `digits` digits of pi, the leading `3` included, without a
/// decimal point and without rounding. There is no result for no digits.
pub fn compute_pi(digits: u32) -> (r: Option<String>)
    ensures
        r is None <==> digits == 0,
        r matches Some(s) ==> {
            &&& s@ == pi_decimal(digits)
            &&& s@.len() == digits
            &&& s@[0] == '3'
            &&& forall|i: int| 0 <= i < s@.len() ==> is_digit(#[trigger] s@[i])
        },
{
    match Segment::compute(0, term_count(digits)) {
        Some(series) => pi_from_parts(series, SquareRoot::compute(digits)),
        None => None,
    }
}

} // verus!
