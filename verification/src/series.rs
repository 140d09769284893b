//! The Chudnovsky series as a product of triples.
//!
//! Each index `n >= 1` of the series contributes a triple `(P, Q, T)` of
//! integers. Triples over adjacent index ranges are joined by [`merge`], which
//! is associative with unit [`unit`], so the triple of a range does not depend
//! on where the range is cut. With `(P, Q, T)` the triple of `(0, n]`, the
//! partial sum of the series up to index `n` is `(A * Q + T) / Q`.

use vstd::arithmetic::mul::{
    lemma_mul_is_associative, lemma_mul_is_distributive_add,
    lemma_mul_is_distributive_add_other_way,
};
use vstd::arithmetic::power::{lemma_pow_adds, lemma_pow_positive, pow};
use vstd::prelude::*;

verus! {

/// Constant term of the linear factor `A + B * n`.
pub const A: u64 = 13591409;

/// Slope of the linear factor `A + B * n`.
pub const B: u64 = 545140134;

/// The series converges like powers of `1 / C^3`.
pub const C: u64 = 640320;

/// `C^3 / 24`.
pub const C3_24: u64 = 10939058860032000;

/// A partial sum of the series over a range of indices, in the form that
/// binary splitting keeps.
pub struct Triple {
    pub p: int,
    pub q: int,
    pub t: int,
}

/// `P` at the single index `n`.
pub open spec fn term_p(n: int) -> int {
    (2 * n - 1) * (6 * n - 1) * (6 * n - 5)
}

/// `Q` at the single index `n`.
pub open spec fn term_q(n: int) -> int {
    C3_24 * (n * n * n)
}

/// `T` at the single index `n`: `(-1)^n * (A + B * n) * P(n)`.
pub open spec fn term_t(n: int) -> int {
    if n % 2 == 0 {
        (A + B * n) * term_p(n)
    } else {
        -((A + B * n) * term_p(n))
    }
}

/// The triple of the single index `n`.
pub open spec fn leaf(n: int) -> Triple {
    Triple { p: term_p(n), q: term_q(n), t: term_t(n) }
}

/// The triple of the union of two adjacent ranges, the left one first.
pub open spec fn merge(a: Triple, b: Triple) -> Triple {
    Triple { p: a.p * b.p, q: a.q * b.q, t: a.t * b.q + a.p * b.t }
}

/// The triple of an empty range.
pub open spec fn unit() -> Triple {
    Triple { p: 1, q: 1, t: 0 }
}

/// The triple of the indices `n1 + 1, ..., n2`, joined one at a time from the
/// left.
pub open spec fn range_triple(n1: int, n2: int) -> Triple
    decreases n2 - n1,
{
    if n2 <= n1 {
        unit()
    } else {
        merge(range_triple(n1, n2 - 1), leaf(n2))
    }
}

/// `C3_24` is what its name says.
pub proof fn lemma_c3_24()
    ensures
        24 * C3_24 == C * C * C,
{
    assert(640320 * 640320 == 410009702400int);
    assert(410009702400int * 640320 == 262537412640768000int);
}

/// Merging is associative.
pub proof fn lemma_merge_associative(a: Triple, b: Triple, c: Triple)
    ensures
        merge(merge(a, b), c) == merge(a, merge(b, c)),
{
    lemma_mul_is_associative(a.p, b.p, c.p);
    lemma_mul_is_associative(a.q, b.q, c.q);
    lemma_mul_is_distributive_add_other_way(c.q, a.t * b.q, a.p * b.t);
    lemma_mul_is_associative(a.t, b.q, c.q);
    lemma_mul_is_associative(a.p, b.t, c.q);
    lemma_mul_is_associative(a.p, b.p, c.t);
    lemma_mul_is_distributive_add(a.p, b.t * c.q, b.p * c.t);
}

/// The triple of an empty range is a unit of merging on both sides.
pub proof fn lemma_merge_unit(a: Triple)
    ensures
        merge(unit(), a) == a,
        merge(a, unit()) == a,
{
}

/// A range may be cut anywhere: the triples of the two parts merge to the
/// triple of the whole.
pub proof fn lemma_range_split(n1: int, m: int, n2: int)
    requires
        n1 <= m <= n2,
    ensures
        range_triple(n1, n2) == merge(range_triple(n1, m), range_triple(m, n2)),
    decreases n2 - m,
{
    if m == n2 {
        lemma_merge_unit(range_triple(n1, m));
    } else {
        lemma_range_split(n1, m, n2 - 1);
        lemma_merge_associative(range_triple(n1, m), range_triple(m, n2 - 1), leaf(n2));
    }
}

/// A range of one index has the triple of that index.
pub proof fn lemma_range_single(n: int)
    ensures
        range_triple(n - 1, n) == leaf(n),
{
    assert(range_triple(n - 1, n) == merge(range_triple(n - 1, n - 1), leaf(n)));
    lemma_merge_unit(leaf(n));
}

/// The absolute value.
pub open spec fn abs(v: int) -> int {
    if v < 0 {
        -v
    } else {
        v
    }
}

/// At an index `n >= 1`, `P` is positive and `Q` is more than `10^14` times
/// `P`.
pub proof fn lemma_leaf_bounds(n: int)
    requires
        n >= 1,
    ensures
        term_p(n) >= 1,
        term_q(n) >= 100_000_000_000_002 * term_p(n),
        abs(term_t(n)) == (A + B * n) * term_p(n),
{
    let cube = n * n * n;
    let p = term_p(n);
    assert(1 <= (2 * n - 1) * (6 * n - 1) * (6 * n - 5) <= 72 * cube) by (nonlinear_arith)
        requires
            n >= 1,
            cube == n * n * n,
    ;
    assert((A + B * n) * p >= 0) by (nonlinear_arith)
        requires
            n >= 1,
            p >= 1,
    ;
    assert(C3_24 * cube >= 100_000_000_000_002 * p) by (nonlinear_arith)
        requires
            p <= 72 * cube,
            cube >= 0,
            C3_24 == 10939058860032000,
    ;
}

/// One more index keeps the bound of [`lemma_range_bounds`]: `big` is the
/// triple of a range that ends at `n - 1`, `l` that of the index `n`, and `f`
/// the bound's right-hand factor.
proof fn lemma_bound_step(n: int, f: int, big: Triple, l: Triple)
    requires
        n >= 1,
        big.p >= 1,
        big.q >= 1,
        100_000_000_000_000 * abs(big.t) + big.p * (A + B * n) <= f * big.q,
        l.p >= 1,
        l.q >= 100_000_000_000_002 * l.p,
        abs(l.t) == (A + B * n) * l.p,
    ensures
        ({
            let r = merge(big, l);
            &&& r.p >= 1
            &&& r.q >= 1
            &&& 100_000_000_000_000 * abs(r.t) + r.p * (A + B * (n + 1)) <= f * r.q
        }),
{
    let a = A + B * n;
    let a1 = A + B * (n + 1);
    let (pp, qq, tt) = (big.p, big.q, big.t);
    let (p, q, t) = (l.p, l.q, l.t);
    let at = abs(tt);
    let m = pp * a;
    assert(pp * p >= 1 && qq * q >= 1) by (nonlinear_arith)
        requires
            pp >= 1,
            p >= 1,
            qq >= 1,
            q >= 1,
    ;
    assert(m >= 1) by (nonlinear_arith)
        requires
            m == pp * a,
            pp >= 1,
            a >= 1,
    ;
    // |T q + P t| <= |T| q + (P a) p
    assert(abs(tt * q + pp * t) <= at * q + m * p) by (nonlinear_arith)
        requires
            at == abs(tt),
            abs(t) == a * p,
            m == pp * a,
            q >= 1,
            pp >= 1,
    ;
    // 10^14 |T| q <= f (Q q) - (P a) q
    assert(100_000_000_000_000 * (at * q) <= f * (qq * q) - m * q) by (nonlinear_arith)
        requires
            100_000_000_000_000 * at + m <= f * qq,
            q >= 1,
    ;
    // (P p) a' <= 2 (P a) p
    assert((pp * p) * a1 <= 2 * (m * p)) by (nonlinear_arith)
        requires
            m == pp * a,
            pp >= 1,
            p >= 1,
            0 <= a1 <= 2 * a,
    ;
    // (P a) q >= (10^14 + 2) (P a) p
    assert(m * q >= 100_000_000_000_002 * (m * p)) by (nonlinear_arith)
        requires
            m >= 1,
            q >= 100_000_000_000_002 * p,
    ;
}

/// The triple `(P, Q, T)` of the indices `n1 + 1, ..., n2` has positive `P`
/// and `Q`, and `T` is small against `Q`:
/// `10^14 * |T| + P * (A + B * (n2 + 1)) <= (A + B * (n1 + 1)) * Q`.
pub proof fn lemma_range_bounds(n1: nat, n2: nat)
    requires
        n1 <= n2,
    ensures
        ({
            let r = range_triple(n1 as int, n2 as int);
            &&& r.p >= 1
            &&& r.q >= 1
            &&& 100_000_000_000_000 * abs(r.t) + r.p * (A + B * (n2 + 1)) <= (A + B * (n1 + 1))
                * r.q
        }),
    decreases n2 - n1,
{
    if n1 < n2 {
        lemma_range_bounds(n1, (n2 - 1) as nat);
        lemma_leaf_bounds(n2 as int);
        lemma_bound_step(
            n2 as int,
            A + B * (n1 + 1),
            range_triple(n1 as int, n2 - 1),
            leaf(n2 as int),
        );
    }
}

/// Each index adds fourteen digits: in the triple of the first `n` indices,
/// `P / Q` is at most `10^(-14 * n)`. The term of index `n` of the series is
/// `(A + B * n) * P / Q`.
pub proof fn lemma_digits_per_term(n: nat)
    ensures
        ({
            let r = range_triple(0, n as int);
            r.p * pow(10, 14 * n) <= r.q
        }),
    decreases n,
{
    reveal_with_fuel(pow, 1);
    if n > 0 {
        let before = range_triple(0, n - 1);
        let (pp, qq) = (before.p, before.q);
        let (p, q) = (term_p(n as int), term_q(n as int));
        let e = pow(10, (14 * n - 14) as nat);
        lemma_digits_per_term((n - 1) as nat);
        lemma_range_bounds(0, (n - 1) as nat);
        lemma_leaf_bounds(n as int);
        lemma_pow_positive(10, (14 * n - 14) as nat);
        assert(pow(10, 14 * n) == e * 100_000_000_000_000) by {
            lemma_pow_adds(10, (14 * n - 14) as nat, 14);
            reveal_with_fuel(pow, 15);
        }
        let cube = n * n * n;
        assert(1 <= p <= 72 * cube) by (nonlinear_arith)
            requires
                n >= 1,
                cube == n * n * n,
                p == (2 * n - 1) * (6 * n - 1) * (6 * n - 5),
        ;
        assert(p * 100_000_000_000_000 <= q) by (nonlinear_arith)
            requires
                1 <= p <= 72 * cube,
                q == 10939058860032000 * cube,
        ;
        assert((pp * p) * (e * 100_000_000_000_000) <= qq * q) by (nonlinear_arith)
            requires
                pp >= 1,
                p >= 1,
                e >= 1,
                pp * e <= qq,
                p * 100_000_000_000_000 <= q,
        ;
    }
}

/// In the triple of the first `n` indices, `Q` is positive and `T` lies
/// strictly between `-Q` and `Q`.
pub proof fn lemma_prefix_small(n: nat)
    ensures
        ({
            let r = range_triple(0, n as int);
            r.q >= 1 && -r.q < r.t < r.q
        }),
{
    lemma_range_bounds(0, n);
    let r = range_triple(0, n as int);
    let a1 = A + B * (n + 1);
    let f = (A + B) as int;
    assert(r.p * a1 >= 1) by (nonlinear_arith)
        requires
            r.p >= 1,
            a1 >= 1,
    ;
    assert(f * r.q <= 100_000_000_000_000 * r.q) by (nonlinear_arith)
        requires
            r.q >= 1,
            f <= 100_000_000_000_000,
    ;
}

/// In the triple of the first `n >= 1` indices `T` is negative: the sum of
/// the series lies below its first term `A`.
pub proof fn lemma_prefix_negative(n: nat)
    requires
        n >= 1,
    ensures
        range_triple(0, n as int).t < 0,
{
    let rest = range_triple(1, n as int);
    lemma_range_split(0, 1, n as int);
    lemma_range_single(1);
    lemma_range_bounds(1, n);
    let first = leaf(1);
    let one = 1int;
    assert(term_p(one) == 5) by (nonlinear_arith)
        requires
            one == 1,
            term_p(one) == (2 * one - 1) * (6 * one - 1) * (6 * one - 5),
    ;
    assert(first.t == -5 * (A + B)) by (nonlinear_arith)
        requires
            first.t == -((A + B * one) * term_p(one)),
            term_p(one) == 5,
            one == 1,
    ;
    let (q, t) = (rest.q, rest.t);
    assert(rest.p * (A + B * (n + 1)) >= 0) by (nonlinear_arith)
        requires
            rest.p >= 1,
    ;
    // T == -5 (A + B) q + 5 t, and 10^14 |t| <= (A + 2 B) q.
    let whole = first.t * q + first.p * t;
    assert(whole < 0) by (nonlinear_arith)
        requires
            whole == (-5 * 558731543) * q + 5 * t,
            q >= 1,
            100_000_000_000_000 * t <= 1103871677 * q,
    ;
}

} // verus!
