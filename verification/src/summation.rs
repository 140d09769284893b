//! The series term by term, and the proof that binary splitting sums it.
//!
//! The term of index `k` of the Chudnovsky series is
//! `(-1)^k * (6k)! * (A + B * k) / ((3k)! * (k!)^3 * C^(3k))`.
//! With `(P, Q, T)` the triple of the first `n` indices, `(A * Q + T) / Q` is
//! the sum of the terms `0, ..., n`.

use crate::rational::Fraction;
use crate::series::{
    leaf, lemma_c3_24, lemma_range_bounds, range_triple, term_p, A, B, C, C3_24,
};
use vstd::arithmetic::mul::{
    lemma_mul_is_associative, lemma_mul_is_commutative, lemma_mul_is_distributive_add_other_way,
};
use vstd::arithmetic::power::{lemma_pow_adds, lemma_pow_distributes, lemma_pow_positive, pow};
use vstd::prelude::*;

verus! {

/// `n!`.
pub open spec fn factorial(n: nat) -> nat
    decreases n,
{
    if n == 0 {
        1
    } else {
        n * factorial((n - 1) as nat)
    }
}

/// The numerator of the term of index `k`: `(-1)^k * (6k)! * (A + B * k)`.
pub open spec fn summand_num(k: nat) -> int {
    if k % 2 == 0 {
        factorial(6 * k) * (A + B * k)
    } else {
        -(factorial(6 * k) * (A + B * k))
    }
}

/// The denominator of the term of index `k`: `(3k)! * (k!)^3 * C^(3k)`.
pub open spec fn summand_den(k: nat) -> int {
    factorial(3 * k) * pow(factorial(k) as int, 3) * pow(C as int, 3 * k)
}

/// The sum of the terms `0, ..., n`, added as fractions without reducing.
pub open spec fn partial_sum(n: nat) -> Fraction
    decreases n,
{
    if n == 0 {
        Fraction { num: summand_num(0), den: summand_den(0) }
    } else {
        let s = partial_sum((n - 1) as nat);
        Fraction {
            num: s.num * summand_den(n) + summand_num(n) * s.den,
            den: s.den * summand_den(n),
        }
    }
}

/// `3n * (3n - 1) * (3n - 2)`, the quotient of `(3n)!` by `(3n - 3)!`.
spec fn falling(n: int) -> int {
    (3 * n) * (3 * n - 1) * (3 * n - 2)
}

/// In a product of two products the inner factors may change places.
pub proof fn lemma_mul_swap(a: int, b: int, c: int, d: int)
    ensures
        (a * b) * (c * d) == (a * c) * (b * d),
{
    lemma_mul_is_associative(a, b, c * d);
    lemma_mul_is_associative(b, c, d);
    lemma_mul_is_commutative(b, c);
    lemma_mul_is_associative(c, b, d);
    lemma_mul_is_associative(a, c, b * d);
}

/// Six factors in descending order, regrouped into those at even and those at
/// odd places.
proof fn lemma_regroup_six(a: int, b: int, c: int, d: int, e: int, g: int, f: int)
    ensures
        a * (b * (c * (d * (e * (g * f))))) == ((a * c * e) * (b * d * g)) * f,
{
    let t1 = g * f;
    let t2 = e * t1;
    let t3 = d * t2;
    let t4 = c * t3;
    let t5 = b * t4;
    assert(t2 == (e * g) * f) by (nonlinear_arith)
        requires
            t2 == e * (g * f),
    ;
    assert(t3 == (e * (d * g)) * f) by (nonlinear_arith)
        requires
            t3 == d * t2,
            t2 == (e * g) * f,
    ;
    assert(t4 == ((c * e) * (d * g)) * f) by (nonlinear_arith)
        requires
            t4 == c * t3,
            t3 == (e * (d * g)) * f,
    ;
    assert(t5 == ((c * e) * (b * d * g)) * f) by (nonlinear_arith)
        requires
            t5 == b * t4,
            t4 == ((c * e) * (d * g)) * f,
    ;
    assert(a * t5 == ((a * c * e) * (b * d * g)) * f) by (nonlinear_arith)
        requires
            t5 == ((c * e) * (b * d * g)) * f,
    ;
}

/// The quotient of `(6n)!` by `(6n - 6)!` is `24 * P(n) * 3n * (3n - 1) * (3n - 2)`.
proof fn lemma_six_factors(n: int, f: int)
    ensures
        (6 * n) * ((6 * n - 1) * ((6 * n - 2) * ((6 * n - 3) * ((6 * n - 4) * ((6 * n - 5) * f)))))
            == (24 * term_p(n)) * (falling(n) * f),
{
    let even = (6 * n) * (6 * n - 2) * (6 * n - 4);
    let odd = (6 * n - 1) * (6 * n - 3) * (6 * n - 5);
    lemma_regroup_six(6 * n, 6 * n - 1, 6 * n - 2, 6 * n - 3, 6 * n - 4, 6 * n - 5, f);
    assert(even == 8 * falling(n)) by (nonlinear_arith)
        requires
            even == (6 * n) * (6 * n - 2) * (6 * n - 4),
            falling(n) == (3 * n) * (3 * n - 1) * (3 * n - 2),
    ;
    assert(odd == 3 * term_p(n)) by (nonlinear_arith)
        requires
            odd == (6 * n - 1) * (6 * n - 3) * (6 * n - 5),
            term_p(n) == (2 * n - 1) * (6 * n - 1) * (6 * n - 5),
    ;
    let (p, r) = (term_p(n), falling(n));
    assert(((8 * r) * (3 * p)) * f == (24 * p) * (r * f)) by (nonlinear_arith);
}

proof fn lemma_factorial_step6(n: nat)
    requires
        n >= 1,
    ensures
        factorial(6 * n) == (24 * term_p(n as int)) * (falling(n as int) * factorial(
            (6 * n - 6) as nat,
        )),
{
    reveal_with_fuel(factorial, 7);
    lemma_six_factors(n as int, factorial((6 * n - 6) as nat) as int);
}

proof fn lemma_factorial_step3(n: nat)
    requires
        n >= 1,
    ensures
        factorial(3 * n) == falling(n as int) * factorial((3 * n - 3) as nat),
{
    reveal_with_fuel(factorial, 4);
    let f = factorial((3 * n - 3) as nat) as int;
    let m = 3 * n as int;
    assert(m * ((m - 1) * ((m - 2) * f)) == (m * (m - 1) * (m - 2)) * f) by (nonlinear_arith);
}

/// The denominator of a term is that of the term before, times
/// `3n * (3n - 1) * (3n - 2) * n^3 * C^3`.
proof fn lemma_den_step(n: nat)
    requires
        n >= 1,
    ensures
        summand_den(n) == (falling(n as int) * (n * n * n) * (24 * C3_24)) * summand_den(
            (n - 1) as nat,
        ),
{
    let r = falling(n as int);
    let f3 = factorial((3 * n - 3) as nat) as int;
    let f1 = factorial((n - 1) as nat) as int;
    let c3 = pow(f1, 3);
    let e = pow(C as int, (3 * n - 3) as nat);
    let cube = n * n * n;
    lemma_factorial_step3(n);
    assert(pow(factorial(n) as int, 3) == cube * c3) by {
        lemma_pow_distributes(n as int, f1, 3);
        reveal_with_fuel(pow, 4);
        assert(n * (n * (n * 1)) == n * n * n) by (nonlinear_arith);
    }
    assert(pow(C as int, 3 * n) == (24 * C3_24) * e) by {
        lemma_pow_adds(C as int, 3, (3 * n - 3) as nat);
        reveal_with_fuel(pow, 4);
        lemma_c3_24();
    }
    assert(((r * f3) * (cube * c3)) * ((24 * C3_24) * e) == (r * cube * (24 * C3_24)) * ((f3 * c3)
        * e)) by (nonlinear_arith);
}

/// With `(P, Q, T)` the triple of the first `n` indices,
/// `P * (3n)! * (n!)^3 * C^(3n) == (6n)! * Q`.
proof fn lemma_product_link(n: nat)
    ensures
        ({
            let r = range_triple(0, n as int);
            r.p * summand_den(n) == factorial(6 * n) * r.q
        }),
    decreases n,
{
    if n == 0 {
        reveal_with_fuel(pow, 4);
        assert(summand_den(0) == 1);
    } else {
        let before = range_triple(0, n - 1);
        let (pp, qq) = (before.p, before.q);
        let d = summand_den((n - 1) as nat);
        let f = factorial((6 * n - 6) as nat) as int;
        let p = term_p(n as int);
        let r = falling(n as int);
        let cube = n * n * n;
        lemma_product_link((n - 1) as nat);
        lemma_den_step(n);
        lemma_factorial_step6(n);
        let k = r * cube * (24 * C3_24);
        let whole = range_triple(0, n as int);
        assert(whole.p == pp * p && whole.q == qq * (C3_24 * cube));
        assert(pp * d == f * qq);
        assert(summand_den(n) == k * d);
        lemma_mul_swap(pp, p, k, d);
        lemma_mul_is_commutative(pp, k);
        lemma_mul_swap(k, pp, p, d);
        lemma_mul_is_commutative(k, p);
        assert((pp * p) * (k * d) == (p * k) * (pp * d));
        assert(((24 * p) * (r * f)) * (qq * (C3_24 * cube)) == (p * k) * (f * qq))
            by (nonlinear_arith)
            requires
                k == r * cube * (24 * C3_24),
        ;
        assert(whole.p * summand_den(n) == factorial(6 * n) * whole.q);
    }
}

/// With `P` of the first `n - 1` indices, `T` of the index `n` and `Q` of the
/// first `n` indices, `P * T` over `Q` is the term of index `n`.
proof fn lemma_term_link(n: nat)
    requires
        n >= 1,
    ensures
        ({
            let before = range_triple(0, n - 1);
            let r = range_triple(0, n as int);
            (before.p * leaf(n as int).t) * summand_den(n) == summand_num(n) * r.q
        }),
{
    let pp = range_triple(0, n - 1).p;
    let p = term_p(n as int);
    let a = A + B * n;
    let d = summand_den(n);
    let f = factorial(6 * n) as int;
    let q = range_triple(0, n as int).q;
    lemma_product_link(n);
    assert((pp * p) * d == f * q);
    assert((pp * (a * p)) * d == (f * a) * q) by (nonlinear_arith)
        requires
            (pp * p) * d == f * q,
    ;
    assert((pp * (-(a * p))) * d == (-(f * a)) * q) by (nonlinear_arith)
        requires
            (pp * (a * p)) * d == (f * a) * q,
    ;
}

/// The denominator of a term is positive.
pub proof fn lemma_summand_den_positive(k: nat)
    ensures
        summand_den(k) > 0,
{
    lemma_factorial_positive(k);
    lemma_factorial_positive(3 * k);
    lemma_pow_positive(factorial(k) as int, 3);
    lemma_pow_positive(C as int, 3 * k);
    let (x, y, z) = (factorial(3 * k) as int, pow(factorial(k) as int, 3), pow(C as int, 3 * k));
    assert(x * y * z > 0) by (nonlinear_arith)
        requires
            x > 0,
            y > 0,
            z > 0,
    ;
}

/// A factorial is positive.
pub proof fn lemma_factorial_positive(n: nat)
    ensures
        factorial(n) > 0,
    decreases n,
{
    if n >= 1 {
        lemma_factorial_positive((n - 1) as nat);
        let f = factorial((n - 1) as nat);
        assert(n * f > 0) by (nonlinear_arith)
            requires
                n >= 1,
                f > 0,
        ;
    }
}

/// Binary splitting sums the series: with `(P, Q, T)` the triple of the first
/// `n` indices, `(A * Q + T) / Q` equals the sum of the terms `0, ..., n`.
pub proof fn lemma_triple_is_partial_sum(n: nat)
    ensures
        ({
            let r = range_triple(0, n as int);
            let s = partial_sum(n);
            &&& s.den > 0
            &&& r.q > 0
            &&& (A * r.q + r.t) * s.den == s.num * r.q
        }),
    decreases n,
{
    lemma_summand_den_positive(n);
    lemma_range_bounds(0, n);
    if n == 0 {
        reveal_with_fuel(factorial, 2);
        reveal_with_fuel(pow, 4);
        assert(summand_den(0) == 1);
        assert(summand_num(0) == A);
    } else {
        let before = range_triple(0, n - 1);
        let l = leaf(n as int);
        let s = partial_sum((n - 1) as nat);
        let (pp, qq, tt) = (before.p, before.q, before.t);
        let (q, t) = (l.q, l.t);
        let (u, d) = (summand_num(n), summand_den(n));
        let a = A as int;
        lemma_triple_is_partial_sum((n - 1) as nat);
        lemma_term_link(n);
        assert(s.den * d > 0) by (nonlinear_arith)
            requires
                s.den > 0,
                d > 0,
        ;
        let (nn, dd) = (s.num, s.den);
        let m = a * qq + tt;
        // The left side is (M q + P' t) (D' d), with M D' == N' Q'.
        assert(a * (qq * q) + (tt * q + pp * t) == m * q + pp * t) by {
            lemma_mul_is_associative(a, qq, q);
            lemma_mul_is_distributive_add_other_way(q, a * qq, tt);
        }
        lemma_mul_is_distributive_add_other_way(dd * d, m * q, pp * t);
        lemma_mul_swap(m, q, dd, d);
        lemma_mul_is_commutative(dd, d);
        lemma_mul_is_associative(pp * t, d, dd);
        // The right side is (N' d + u D') (Q' q).
        lemma_mul_is_distributive_add_other_way(qq * q, nn * d, u * dd);
        lemma_mul_swap(nn, d, qq, q);
        lemma_mul_is_commutative(d, q);
        lemma_mul_is_associative(u, dd, qq * q);
        lemma_mul_is_commutative(dd, qq * q);
        lemma_mul_is_associative(u, qq * q, dd);
    }
}

} // verus!
