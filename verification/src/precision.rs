//! How close the fraction for pi is to its limit.
//!
//! Summing more indices of the series, or taking the recurrence for the
//! square root further, moves the fraction for `digits` digits by no more
//! than `10^(-digits - 2)`. The fraction therefore lies that close to the
//! limit of all such fractions, and its digits are those of the limit unless
//! the limit is within `10^(-digits - 2)` of a number of `digits` digits.

use crate::decimal::pow10;
use crate::pell::{
    lemma_pell_index, lemma_pell_invariant, lemma_pell_monotone, lemma_ratio_bounds, norm,
    pell_index, pell_seq, target_exponent, Pair,
};
use crate::pi::{pi_approximation, pi_fraction, terms_for, SCALE};
use crate::series::{
    abs, lemma_digits_per_term, lemma_prefix_small, lemma_range_bounds, lemma_range_split,
    range_triple, Triple, A, B,
};
use crate::summation::lemma_mul_swap;
use vstd::arithmetic::mul::lemma_mul_is_commutative;
use vstd::arithmetic::power::{lemma_pow_adds, lemma_pow_increases, lemma_pow_positive, pow};
use vstd::prelude::*;

verus! {

/// With `(P, Q, T)` the triple of the first `n` indices and `(P', Q', T')`
/// that of the first `m >= n`, `T' / Q'` and `T / Q` differ by at most
/// `(A + B * (n + 1)) / 10^(14 * (n + 1))`.
pub proof fn lemma_tail(n: nat, m: nat)
    requires
        n <= m,
    ensures
        ({
            let near = range_triple(0, n as int);
            let far = range_triple(0, m as int);
            let gap = abs(near.q * far.t - far.q * near.t);
            gap * pow(10, 14 * (n + 1)) <= (A + B * (n + 1)) * (near.q * far.q)
        }),
{
    let head = range_triple(0, n as int);
    let rest = range_triple(n as int, m as int);
    let whole = range_triple(0, m as int);
    let a = A + B * (n + 1);
    let k = pow(10, 14 * n);
    let c = 100_000_000_000_000int;
    lemma_range_split(0, n as int, m as int);
    lemma_range_bounds(0, n);
    lemma_range_bounds(n, m);
    lemma_digits_per_term(n);
    lemma_pow_positive(10, 14 * n);
    assert(pow(10, 14 * (n + 1)) == k * c) by {
        lemma_pow_adds(10, 14 * n, 14);
        reveal_with_fuel(pow, 15);
    }
    let (p, q, t) = (head.p, head.q, head.t);
    let (pr, qr, tr) = (rest.p, rest.q, rest.t);
    let d = q * whole.t - whole.q * t;
    assert(d == (q * p) * tr) by (nonlinear_arith)
        requires
            d == q * (t * qr + p * tr) - (q * qr) * t,
    ;
    let at = abs(tr);
    assert(abs(d) == (q * p) * at) by (nonlinear_arith)
        requires
            d == (q * p) * tr,
            at == abs(tr),
            abs(d) == if d < 0 {
                -d
            } else {
                d
            },
            q >= 1,
            p >= 1,
    ;
    assert(pr * (A + B * (m + 1)) >= 0) by (nonlinear_arith)
        requires
            pr >= 1,
    ;
    assert(((q * p) * at) * (k * c) <= a * (q * (q * qr))) by (nonlinear_arith)
        requires
            c * at <= a * qr,
            p * k <= q,
            q >= 1,
            p >= 1,
            at >= 0,
            k >= 1,
            a >= 0,
            qr >= 1,
            c >= 1,
    ;
}

/// Two pairs of norm one lie close together: with `a.y <= b.y`, the difference of
/// `a.x / a.y` and `b.x / b.y` is at least zero and at most
/// `1 / (200 * a.y^2)`.
pub proof fn lemma_root_close(a: Pair, b: Pair)
    requires
        norm(a) == 1,
        norm(b) == 1,
        a.x >= 1,
        b.x >= 1,
        1 <= a.y <= b.y,
    ensures
        0 <= a.x * b.y - b.x * a.y,
        (a.x * b.y - b.x * a.y) * (200 * a.y) <= b.y,
{
    lemma_ratio_bounds(a);
    lemma_ratio_bounds(b);
    let (x, y, u, v) = (a.x, a.y, b.x, b.y);
    let delta = x * v - u * y;
    let s = x * v + u * y;
    assert(delta * s == v * v - y * y) by {
        let (g, h) = (x * v, u * y);
        let (xx, yy, uu, vv) = (x * x, y * y, u * u, v * v);
        assert((g - h) * (g + h) == g * g - h * h) by (nonlinear_arith);
        lemma_mul_swap(x, v, x, v);
        lemma_mul_swap(u, y, u, y);
        assert(xx * vv - uu * yy == vv - yy) by (nonlinear_arith)
            requires
                xx == 10005 * yy + 1,
                uu == 10005 * vv + 1,
        ;
    }
    assert(s >= 200 * (y * v) && y * v >= 1 && v * v - y * y >= 0) by (nonlinear_arith)
        requires
            s == x * v + u * y,
            x > 100 * y,
            u > 100 * v,
            1 <= y <= v,
    ;
    assert(delta >= 0) by (nonlinear_arith)
        requires
            delta * s >= 0,
            s >= 1,
    ;
    assert(delta * (200 * y) <= v) by (nonlinear_arith)
        requires
            delta >= 0,
            delta * s == v * v - y * y,
            s >= 200 * (y * v),
            1 <= y <= v,
    ;
}

/// The part of the difference that comes from the series: `alpha`, which is
/// at most `101 * a * z / k`, is less than half of `den >= (A - 1)^2 * z`
/// even when scaled by `2 * SCALE * w`, where `k >= 10^13 * w`.
proof fn lemma_series_part(alpha: int, a: int, z: int, k: int, w: int, den: int)
    requires
        alpha >= 0,
        0 <= a <= 200_000_000_000_000_000,
        z >= 0,
        w >= 1,
        k >= 10_000_000_000_000 * w,
        alpha * k <= 101 * (a * z),
        den >= 184726371422464 * z,
    ensures
        2 * (SCALE * (w * alpha)) <= den,
{
    let aw = w * alpha;
    assert(aw * 10_000_000_000_000 <= alpha * k) by (nonlinear_arith)
        requires
            aw == w * alpha,
            alpha >= 0,
            k >= 10_000_000_000_000 * w,
    ;
    let az = a * z;
    assert(az <= 200_000_000_000_000_000 * z) by (nonlinear_arith)
        requires
            az == a * z,
            0 <= a <= 200_000_000_000_000_000,
            z >= 0,
    ;
}

/// The part of the difference that comes from the square root: `beta`, which
/// is at most `y2 * u / (200 * y)`, is less than half of `den` even when
/// scaled by `2 * SCALE * w`, where `y^2 >= 10^7 * w`.
proof fn lemma_root_part(beta: int, q: int, sg: int, sg2: int, y: int, y2: int, w: int)
    requires
        beta >= 0,
        q >= 1,
        sg >= 13591408 * q,
        sg2 >= 1,
        y >= 1,
        y2 >= 1,
        w >= 1,
        y * y >= 10_000_000 * w,
        beta * (200 * y) <= y2 * (q * sg2),
    ensures
        2 * (SCALE * (w * beta)) <= (sg * y) * (sg2 * y2),
{
    let den = (sg * y) * (sg2 * y2);
    let lhs = 2 * (SCALE * (w * beta));
    let r = y2 * (q * sg2);
    // lhs * 200 y <= 2 SCALE w r
    assert(lhs * (200 * y) <= 853760 * (w * r)) by (nonlinear_arith)
        requires
            lhs == 2 * (426880 * (w * beta)),
            beta * (200 * y) <= r,
            w >= 1,
            beta >= 0,
    ;
    // den * 200 y >= 200 (A - 1) 10^7 w r
    let yy = y * y;
    assert(den * (200 * y) == 200 * ((sg * yy) * (sg2 * y2))) by (nonlinear_arith)
        requires
            den == (sg * y) * (sg2 * y2),
            yy == y * y,
    ;
    assert(sg * yy >= 135914080000000 * (q * w)) by (nonlinear_arith)
        requires
            sg >= 13591408 * q,
            yy >= 10_000_000 * w,
            q >= 1,
            w >= 1,
    ;
    let m = sg2 * y2;
    assert(m >= 1) by (nonlinear_arith)
        requires
            m == sg2 * y2,
            sg2 >= 1,
            y2 >= 1,
    ;
    assert((sg * yy) * m >= 135914080000000 * ((q * w) * m)) by (nonlinear_arith)
        requires
            sg * yy >= 135914080000000 * (q * w),
            m >= 1,
    ;
    assert((q * w) * m == w * r) by (nonlinear_arith)
        requires
            m == sg2 * y2,
            r == y2 * (q * sg2),
    ;
    assert(w * r >= 0) by (nonlinear_arith)
        requires
            r == y2 * (q * sg2),
            w >= 1,
            y2 >= 1,
            q >= 1,
            sg2 >= 1,
    ;
    assert(lhs * (200 * y) <= den * (200 * y));
    assert(lhs <= den) by (nonlinear_arith)
        requires
            lhs * (200 * y) <= den * (200 * y),
            y >= 1,
    ;
}

/// The difference of two fractions for pi, in two parts: one from the
/// series, one from the square root.
proof fn lemma_cross(x: int, y: int, q: int, t: int, x2: int, y2: int, q2: int, t2: int)
    ensures
        (x * q) * ((A * q2 + t2) * y2) - (x2 * q2) * ((A * q + t) * y) == (x2 * y) * (q * t2 - q2
            * t) + (x * y2 - x2 * y) * (q * (A * q2 + t2)),
{
    let (sg, sg2) = (A * q + t, A * q2 + t2);
    lemma_mul_is_commutative(sg2, y2);
    lemma_mul_swap(x, q, y2, sg2);
    lemma_mul_is_commutative(sg, y);
    lemma_mul_swap(x2, q2, y, sg);
    let (x1, xx2, u, v) = (x * y2, x2 * y, q * sg2, q2 * sg);
    assert(x1 * u - xx2 * v == xx2 * (u - v) + (x1 - xx2) * u) by (nonlinear_arith);
    assert(u - v == q * t2 - q2 * t) by (nonlinear_arith)
        requires
            u == q * (13591409 * q2 + t2),
            v == q2 * (13591409 * q + t),
    ;
}

/// The powers of ten that the bound on the difference compares.
proof fn lemma_scales(digits: u32)
    requires
        digits >= 1,
    ensures
        pow10((digits + 2) as nat) >= 1,
        pow10(target_exponent(digits)) >= 1,
        pow(10, 14 * (terms_for(digits) + 1)) >= 10_000_000_000_000 * pow10((digits + 2) as nat),
        pow10(target_exponent(digits)) * pow10(target_exponent(digits)) >= 10_000_000 * pow10(
            (digits + 2) as nat,
        ),
{
    let e = target_exponent(digits);
    lemma_pow_positive(10, (digits + 2) as nat);
    lemma_pow_positive(10, e);
    assert(pow(10, 14 * (terms_for(digits) + 1)) >= 10_000_000_000_000 * pow10(
        (digits + 2) as nat,
    )) by {
        lemma_pow_increases(10, (digits + 15) as nat, 14 * (terms_for(digits) + 1));
        lemma_pow_adds(10, (digits + 2) as nat, 13);
        reveal_with_fuel(pow, 14);
    }
    assert(pow10(e) * pow10(e) >= 10_000_000 * pow10((digits + 2) as nat)) by {
        lemma_pow_adds(10, e, e);
        lemma_pow_increases(10, (digits + 9) as nat, e + e);
        lemma_pow_adds(10, (digits + 2) as nat, 7);
        reveal_with_fuel(pow, 8);
    }
}

/// The difference of two fractions for pi, bounded: the triples differ by at
/// most `a / k`, the pairs have norm one, and `w` is small against `k` and
/// against the square of the lesser `y`.
proof fn lemma_difference(t0: Triple, t1: Triple, c0: Pair, c1: Pair, a: int, k: int, w: int)
    requires
        t0.q >= 1,
        -t0.q < t0.t < t0.q,
        t1.q >= 1,
        -t1.q < t1.t < t1.q,
        abs(t0.q * t1.t - t1.q * t0.t) * k <= a * (t0.q * t1.q),
        norm(c0) == 1,
        norm(c1) == 1,
        c0.x >= 1,
        c1.x >= 1,
        1 <= c0.y <= c1.y,
        0 <= a <= 200_000_000_000_000_000,
        w >= 1,
        k >= 10_000_000_000_000 * w,
        c0.y * c0.y >= 10_000_000 * w,
    ensures
        ({
            let f = pi_fraction(t0, c0);
            let g = pi_fraction(t1, c1);
            &&& f.den > 0
            &&& g.den > 0
            &&& abs(f.num * g.den - g.num * f.den) * w <= f.den * g.den
        }),
{
    let (x, y, q, t) = (c0.x, c0.y, t0.q, t0.t);
    let (x2, y2, q2, t2) = (c1.x, c1.y, t1.q, t1.t);
    let (sg, sg2) = (A * q + t, A * q2 + t2);
    lemma_ratio_bounds(c0);
    lemma_ratio_bounds(c1);
    lemma_root_close(c0, c1);
    // The two parts.
    let dlt = q * t2 - q2 * t;
    let delta = x * y2 - x2 * y;
    let alpha = (x2 * y) * abs(dlt);
    let beta = delta * (q * sg2);
    let den = (sg * y) * (sg2 * y2);
    let z = (y * y2) * (q * q2);
    lemma_cross(x, y, q, t, x2, y2, q2, t2);
    assert(alpha >= 0 && alpha * k <= 101 * (a * z)) by (nonlinear_arith)
        requires
            alpha == (x2 * y) * abs(dlt),
            abs(dlt) >= 0,
            abs(dlt) * k <= a * (q * q2),
            z == (y * y2) * (q * q2),
            0 <= x2 <= 101 * y2,
            y >= 1,
            y2 >= 1,
            q >= 1,
            q2 >= 1,
            a >= 0,
            k >= 1,
    ;
    assert(den >= 184726371422464 * z && z >= 0) by (nonlinear_arith)
        requires
            den == (sg * y) * (sg2 * y2),
            z == (y * y2) * (q * q2),
            sg >= 13591408 * q,
            sg2 >= 13591408 * q2,
            y >= 1,
            y2 >= 1,
            q >= 1,
            q2 >= 1,
    ;
    lemma_series_part(alpha, a, z, k, w, den);
    assert(beta >= 0 && beta * (200 * y) <= y2 * (q * sg2)) by (nonlinear_arith)
        requires
            beta == delta * (q * sg2),
            delta >= 0,
            delta * (200 * y) <= y2,
            q >= 1,
            sg2 >= 1,
    ;
    lemma_root_part(beta, q, sg, sg2, y, y2, w);
    // Together.
    let f = pi_fraction(t0, c0);
    let g = pi_fraction(t1, c1);
    let cross = f.num * g.den - g.num * f.den;
    let inner = (x * q) * (sg2 * y2) - (x2 * q2) * (sg * y);
    assert(cross == SCALE * inner) by (nonlinear_arith)
        requires
            cross == (SCALE * (x * q)) * (sg2 * y2) - (SCALE * (x2 * q2)) * (sg * y),
            inner == (x * q) * (sg2 * y2) - (x2 * q2) * (sg * y),
    ;
    lemma_abs_sum((x2 * y) * dlt, beta);
    assert(abs((x2 * y) * dlt) == alpha) by (nonlinear_arith)
        requires
            alpha == (x2 * y) * abs(dlt),
            x2 >= 0,
            y >= 0,
            abs(dlt) == if dlt < 0 {
                -dlt
            } else {
                dlt
            },
            abs((x2 * y) * dlt) == if (x2 * y) * dlt < 0 {
                -((x2 * y) * dlt)
            } else {
                (x2 * y) * dlt
            },
    ;
    let size = abs(inner);
    assert(abs(cross) * w <= SCALE * (w * alpha) + SCALE * (w * beta)) by (nonlinear_arith)
        requires
            abs(cross) == SCALE * size,
            0 <= size <= alpha + beta,
            w >= 1,
    ;
    assert(sg * y > 0 && sg2 * y2 > 0) by (nonlinear_arith)
        requires
            sg >= 1,
            y >= 1,
            sg2 >= 1,
            y2 >= 1,
    ;
}

/// The size of a sum is at most the sum of the sizes.
proof fn lemma_abs_sum(a: int, b: int)
    ensures
        abs(a + b) <= abs(a) + abs(b),
{
}

/// Summing more indices of the series, or taking the recurrence for the
/// square root further, moves the fraction for `digits` digits by no more
/// than `10^(-digits - 2)`.
pub proof fn lemma_precision(digits: u32, n: nat, k: nat)
    requires
        digits >= 1,
        n >= terms_for(digits),
        k >= pell_index(pow10(target_exponent(digits))),
    ensures
        ({
            let f = pi_approximation(digits);
            let g = pi_fraction(range_triple(0, n as int), pell_seq(k));
            &&& f.den > 0
            &&& g.den > 0
            &&& abs(f.num * g.den - g.num * f.den) * pow10((digits + 2) as nat) <= f.den * g.den
        }),
{
    let n0 = terms_for(digits);
    let e = target_exponent(digits);
    let k0 = pell_index(pow10(e));
    let c0 = pell_seq(k0);
    // The series.
    lemma_prefix_small(n0);
    lemma_prefix_small(n);
    lemma_tail(n0, n);
    // The square root.
    lemma_pell_index(e);
    lemma_pell_invariant(k0);
    lemma_pell_invariant(k);
    lemma_pell_monotone(k0, k);
    // The powers of ten.
    lemma_scales(digits);
    let te = pow10(e);
    assert(c0.y * c0.y >= te * te) by (nonlinear_arith)
        requires
            c0.y > te,
            te >= 1,
    ;
    lemma_difference(
        range_triple(0, n0 as int),
        range_triple(0, n as int),
        c0,
        pell_seq(k),
        A + B * (n0 + 1),
        pow(10, 14 * (n0 + 1)),
        pow10((digits + 2) as nat),
    );
}

} // verus!
