//! A rational approximation of the square root of 10005.
//!
//! The pairs `(x, y)` with `x^2 - 10005 * y^2 == 1` are closed under
//! [`compose`], and for such a pair `x / y` lies within `1 / y^2` of the
//! square root. Starting from `(1, 0)` and `(4001, 40)`, each new pair is
//! composed of the two before it, until `y` is large enough.

use crate::decimal::{lemma_pow10_step, pow10};
use crate::integer::{big_add, big_from_i128, big_gt, big_mul, big_pow, Integer};
use vstd::arithmetic::mul::lemma_mul_is_associative;
use vstd::arithmetic::power::{
    lemma_pow1, lemma_pow_adds, lemma_pow_increases, lemma_pow_increases_converse,
    lemma_pow_positive, pow,
};
use vstd::prelude::*;

verus! {

/// The number whose square root is approximated.
pub const RADICAND: u64 = 10005;

/// A pair `(x, y)` standing for `x + y * sqrt(10005)`.
pub struct Pair {
    pub x: int,
    pub y: int,
}

/// The product of `a.x + a.y * sqrt(10005)` and `b.x + b.y * sqrt(10005)`.
pub open spec fn compose(a: Pair, b: Pair) -> Pair {
    Pair { x: a.x * b.x + RADICAND * (a.y * b.y), y: a.x * b.y + a.y * b.x }
}

/// `x^2 - 10005 * y^2`.
pub open spec fn norm(a: Pair) -> int {
    a.x * a.x - RADICAND * (a.y * a.y)
}

/// The `k`-th pair of the recurrence.
pub open spec fn pell_seq(k: nat) -> Pair
    decreases k,
{
    if k == 0 {
        Pair { x: 1, y: 0 }
    } else if k == 1 {
        Pair { x: 4001, y: 40 }
    } else {
        compose(pell_seq((k - 2) as nat), pell_seq((k - 1) as nat))
    }
}

/// The Fibonacci numbers, from `fib(0) == 0` and `fib(1) == 1`.
pub open spec fn fib(k: nat) -> nat
    decreases k,
{
    if k == 0 {
        0
    } else if k == 1 {
        1
    } else {
        fib((k - 2) as nat) + fib((k - 1) as nat)
    }
}

/// `k` is the first index at which `y` exceeds `target`.
pub open spec fn first_above(k: nat, target: int) -> bool {
    &&& pell_seq(k).y > target
    &&& forall|j: nat| j < k ==> (#[trigger] pell_seq(j)).y <= target
}

/// The first index at which `y` exceeds `target`.
pub open spec fn pell_index(target: int) -> nat {
    choose|k: nat| first_above(k, target)
}

/// The bound that `y` must exceed for `digits` digits is `10` to this power.
pub open spec fn target_exponent(digits: u32) -> nat {
    (digits / 2 + 5) as nat
}

/// The norm is multiplicative.
pub proof fn lemma_compose_norm(a: Pair, b: Pair)
    ensures
        norm(compose(a, b)) == norm(a) * norm(b),
{
    let u = a.x * b.x;
    let v = a.y * b.y;
    let w = a.x * b.y;
    let z = a.y * b.x;
    let (x1, y1, x2, y2) = (a.x, a.y, b.x, b.y);
    assert({
        &&& u * v == w * z
        &&& u * u == (x1 * x1) * (x2 * x2)
        &&& v * v == (y1 * y1) * (y2 * y2)
        &&& w * w == (x1 * x1) * (y2 * y2)
        &&& z * z == (y1 * y1) * (x2 * x2)
    }) by (nonlinear_arith)
        requires
            u == x1 * x2,
            v == y1 * y2,
            w == x1 * y2,
            z == y1 * x2,
    ;
    let lhs = (u + 10005 * v) * (u + 10005 * v) - 10005 * ((w + z) * (w + z));
    assert(lhs == u * u + 100100025 * (v * v) - 10005 * (w * w) - 10005 * (z * z))
        by (nonlinear_arith)
        requires
            lhs == (u + 10005 * v) * (u + 10005 * v) - 10005 * ((w + z) * (w + z)),
            u * v == w * z,
    ;
    let (sa, ta, sb, tb) = (x1 * x1, y1 * y1, x2 * x2, y2 * y2);
    let rhs = (sa - 10005 * ta) * (sb - 10005 * tb);
    assert(rhs == sa * sb + 100100025 * (ta * tb) - 10005 * (sa * tb) - 10005 * (ta * sb))
        by (nonlinear_arith)
        requires
            rhs == (sa - 10005 * ta) * (sb - 10005 * tb),
    ;
}

/// Composing two pairs with positive `x` and non-negative `y` gives such a
/// pair again, and its `y` is at least the sum of theirs.
pub proof fn lemma_compose_grows(a: Pair, b: Pair)
    requires
        a.x >= 1,
        a.y >= 0,
        b.x >= 1,
        b.y >= 0,
    ensures
        compose(a, b).x >= 1,
        compose(a, b).y >= a.y + b.y,
{
    let x1 = a.x;
    let y1 = a.y;
    let x2 = b.x;
    let y2 = b.y;
    assert(x1 * x2 + 10005 * (y1 * y2) >= 1) by (nonlinear_arith)
        requires
            x1 >= 1,
            y1 >= 0,
            x2 >= 1,
            y2 >= 0,
    ;
    assert(x1 * y2 + y1 * x2 >= y1 + y2) by (nonlinear_arith)
        requires
            x1 >= 1,
            y1 >= 0,
            x2 >= 1,
            y2 >= 0,
    ;
}

/// Every pair of the recurrence has norm one, a positive `x` and a
/// non-negative `y`, and from the first pair on `y` is at least 40.
pub proof fn lemma_pell_invariant(k: nat)
    ensures
        norm(pell_seq(k)) == 1,
        pell_seq(k).x >= 1,
        pell_seq(k).y >= 0,
        k >= 1 ==> pell_seq(k).y >= 40,
    decreases k,
{
    if k >= 2 {
        let a = pell_seq((k - 2) as nat);
        let b = pell_seq((k - 1) as nat);
        lemma_pell_invariant((k - 2) as nat);
        lemma_pell_invariant((k - 1) as nat);
        lemma_compose_norm(a, b);
        lemma_compose_grows(a, b);
        assert(norm(a) * norm(b) == 1) by (nonlinear_arith)
            requires
                norm(a) == 1,
                norm(b) == 1,
        ;
    } else if k == 0 {
        let a = pell_seq(0);
        assert(a.x * a.x == 1 && a.y * a.y == 0) by (nonlinear_arith)
            requires
                a.x == 1,
                a.y == 0,
        ;
    }
}

/// `y` never decreases along the recurrence.
pub proof fn lemma_pell_monotone(i: nat, j: nat)
    requires
        i <= j,
    ensures
        pell_seq(i).y <= pell_seq(j).y,
    decreases j,
{
    if i < j {
        lemma_pell_monotone(i, (j - 1) as nat);
        lemma_pell_invariant((j - 1) as nat);
        if j >= 2 {
            lemma_pell_invariant((j - 2) as nat);
            lemma_compose_grows(pell_seq((j - 2) as nat), pell_seq((j - 1) as nat));
        }
    }
}

/// In a pair of norm one, `x` is more than a hundred times `y`.
pub proof fn lemma_ratio_bounds(a: Pair)
    requires
        norm(a) == 1,
        a.x >= 0,
        a.y >= 0,
    ensures
        a.x > 100 * a.y,
        a.y >= 1 ==> a.x < 101 * a.y,
{
    let x = a.x;
    let y = a.y;
    assert(x > 100 * y) by (nonlinear_arith)
        requires
            x * x - 10005 * (y * y) == 1,
            x >= 0,
            y >= 0,
    ;
    if y >= 1 {
        assert(x < 101 * y) by (nonlinear_arith)
            requires
                x * x - 10005 * (y * y) == 1,
                x >= 0,
                y >= 1,
        ;
    }
}

/// From the first index on, a Fibonacci number is positive and at least its
/// index less one.
pub proof fn lemma_fib_linear(k: nat)
    requires
        k >= 1,
    ensures
        fib(k) >= 1,
        fib(k) >= k - 1,
    decreases k,
{
    if k >= 3 {
        lemma_fib_linear((k - 2) as nat);
        lemma_fib_linear((k - 1) as nat);
    } else if k == 2 {
        assert(fib(2) == fib(0) + fib(1));
    }
}

/// From the first index on, a Fibonacci number is at least `2` to the power
/// of half of its index less one, rounded down.
pub proof fn lemma_fib_exponential(k: nat)
    requires
        k >= 1,
    ensures
        fib(k) >= pow(2, ((k - 1) / 2) as nat),
    decreases k,
{
    reveal_with_fuel(pow, 2);
    if k >= 3 {
        lemma_fib_exponential((k - 2) as nat);
        lemma_fib_linear((k - 1) as nat);
        lemma_fib_linear((k - 2) as nat);
        // fib(k - 1) >= fib(k - 2), so fib(k) >= 2 * fib(k - 2).
        lemma_fib_monotone((k - 2) as nat);
        let e = ((k - 3) / 2) as nat;
        assert(((k - 1) / 2) as nat == e + 1);
        assert(pow(2, e + 1) == 2 * pow(2, e));
    } else if k == 2 {
        assert(fib(2) == fib(0) + fib(1));
    }
}

/// Each Fibonacci number is at most the next.
pub proof fn lemma_fib_monotone(k: nat)
    ensures
        fib(k) <= fib(k + 1),
    decreases k,
{
    if k >= 1 {
        assert(fib(k + 1) == fib((k - 1) as nat) + fib(k));
    }
}

/// From the first pair on, `y` is at least `10` to the power of the
/// Fibonacci number of the index.
pub proof fn lemma_pell_exponent(k: nat)
    requires
        k >= 1,
    ensures
        pell_seq(k).y >= pow10(fib(k)),
    decreases k,
{
    if k == 1 {
        lemma_pow1(10);
    } else if k == 2 {
        lemma_pow1(10);
        assert(fib(2) == fib(0) + fib(1));
        assert(pell_seq(2) == compose(pell_seq(0), pell_seq(1)));
    } else {
        let a = pell_seq((k - 2) as nat);
        let b = pell_seq((k - 1) as nat);
        lemma_pell_exponent((k - 2) as nat);
        lemma_pell_exponent((k - 1) as nat);
        lemma_pell_invariant((k - 2) as nat);
        lemma_pell_invariant((k - 1) as nat);
        lemma_ratio_bounds(b);
        let ea = pow10(fib((k - 2) as nat));
        let eb = pow10(fib((k - 1) as nat));
        lemma_pow_adds(10, fib((k - 2) as nat), fib((k - 1) as nat));
        lemma_pow_positive(10, fib((k - 2) as nat));
        lemma_pow_positive(10, fib((k - 1) as nat));
        let x1 = a.x;
        let y1 = a.y;
        let x2 = b.x;
        let y2 = b.y;
        assert(x1 * y2 + y1 * x2 >= ea * eb) by (nonlinear_arith)
            requires
                x1 >= 1,
                y2 >= 0,
                y1 >= ea,
                ea > 0,
                x2 >= y2,
                y2 >= eb,
                eb > 0,
        ;
    }
}

/// The `e`-th power of `4001 + 40 * sqrt(10005)`.
pub open spec fn unit_power(e: nat) -> Pair
    decreases e,
{
    if e == 0 {
        Pair { x: 1, y: 0 }
    } else {
        compose(unit_power((e - 1) as nat), Pair { x: 4001, y: 40 })
    }
}

/// Composing is associative.
pub proof fn lemma_compose_associative(a: Pair, b: Pair, c: Pair)
    ensures
        compose(compose(a, b), c) == compose(a, compose(b, c)),
{
    let (ax, ay, bx, by, cx, cy) = (a.x, a.y, b.x, b.y, c.x, c.y);
    // The products of two parts, of the first two pairs and of the last two.
    let (m, n, r, t) = (ax * bx, ay * by, ax * by, ay * bx);
    let (u, v, w, z) = (bx * cx, by * cy, bx * cy, by * cx);
    lemma_mul_is_associative(ax, bx, cx);
    lemma_mul_is_associative(ay, by, cx);
    lemma_mul_is_associative(ax, by, cy);
    lemma_mul_is_associative(ay, bx, cy);
    lemma_mul_is_associative(ax, bx, cy);
    lemma_mul_is_associative(ay, by, cy);
    lemma_mul_is_associative(ax, by, cx);
    lemma_mul_is_associative(ay, bx, cx);
    let left_x = (m + 10005 * n) * cx + 10005 * ((r + t) * cy);
    let right_x = ax * (u + 10005 * v) + 10005 * (ay * (w + z));
    let left_y = (m + 10005 * n) * cy + (r + t) * cx;
    let right_y = ax * (w + z) + ay * (u + 10005 * v);
    assert(left_x == m * cx + 10005 * (n * cx) + 10005 * (r * cy) + 10005 * (t * cy))
        by (nonlinear_arith)
        requires
            left_x == (m + 10005 * n) * cx + 10005 * ((r + t) * cy),
    ;
    assert(right_x == ax * u + 10005 * (ax * v) + 10005 * (ay * w) + 10005 * (ay * z))
        by (nonlinear_arith)
        requires
            right_x == ax * (u + 10005 * v) + 10005 * (ay * (w + z)),
    ;
    assert(left_y == m * cy + 10005 * (n * cy) + r * cx + t * cx) by (nonlinear_arith)
        requires
            left_y == (m + 10005 * n) * cy + (r + t) * cx,
    ;
    assert(right_y == ax * w + ax * z + ay * u + 10005 * (ay * v)) by (nonlinear_arith)
        requires
            right_y == ax * (w + z) + ay * (u + 10005 * v),
    ;
}

/// `1 + 0 * sqrt(10005)` is a unit of composing on both sides.
pub proof fn lemma_compose_one(a: Pair)
    ensures
        compose(a, Pair { x: 1, y: 0 }) == a,
        compose(Pair { x: 1, y: 0 }, a) == a,
{
    let (x, y) = (a.x, a.y);
    assert(x * 1 + 10005 * (y * 0) == x && x * 0 + y * 1 == y) by (nonlinear_arith);
    assert(1 * x + 10005 * (0 * y) == x && 1 * y + 0 * x == y) by (nonlinear_arith);
}

/// The powers multiply as their exponents add.
pub proof fn lemma_unit_power_adds(a: nat, b: nat)
    ensures
        unit_power(a + b) == compose(unit_power(a), unit_power(b)),
    decreases b,
{
    if b == 0 {
        lemma_compose_one(unit_power(a));
    } else {
        lemma_unit_power_adds(a, (b - 1) as nat);
        lemma_compose_associative(
            unit_power(a),
            unit_power((b - 1) as nat),
            Pair { x: 4001, y: 40 },
        );
        assert(unit_power(a + b) == compose(
            unit_power((a + b - 1) as nat),
            Pair { x: 4001, y: 40 },
        ));
    }
}

/// The `k`-th pair of the recurrence is the power of `4001 + 40 * sqrt(10005)`
/// whose exponent is the `k`-th Fibonacci number.
pub proof fn lemma_pell_is_power(k: nat)
    ensures
        pell_seq(k) == unit_power(fib(k)),
    decreases k,
{
    if k == 1 {
        lemma_compose_one(Pair { x: 4001, y: 40 });
        assert(unit_power(1) == compose(unit_power(0), Pair { x: 4001, y: 40 }));
    } else if k >= 2 {
        lemma_pell_is_power((k - 2) as nat);
        lemma_pell_is_power((k - 1) as nat);
        lemma_unit_power_adds(fib((k - 2) as nat), fib((k - 1) as nat));
    }
}

/// At most one index is the first at which `y` exceeds `target`.
pub proof fn lemma_first_above_unique(a: nat, b: nat, target: int)
    requires
        first_above(a, target),
        first_above(b, target),
    ensures
        a == b,
{
    if a < b {
        assert(pell_seq(a).y <= target);
    } else if b < a {
        assert(pell_seq(b).y <= target);
    }
}

/// The least index at or below `k` whose `y` exceeds `target`.
proof fn lemma_first_above_exists(k: nat, target: int) -> (j: nat)
    requires
        pell_seq(k).y > target,
    ensures
        first_above(j, target),
    decreases k,
{
    if k >= 1 && pell_seq((k - 1) as nat).y > target {
        lemma_first_above_exists((k - 1) as nat, target)
    } else {
        assert forall|i: nat| i < k implies (#[trigger] pell_seq(i)).y <= target by {
            lemma_pell_monotone(i, (k - 1) as nat);
        }
        k
    }
}

/// For every exponent there is a first index at which `y` exceeds `10` to
/// that power, and [`pell_index`] is it.
pub proof fn lemma_pell_index(e: nat)
    ensures
        first_above(pell_index(pow10(e)), pow10(e)),
{
    // fib(e + 2) > e
    lemma_fib_linear(e + 2);
    lemma_pell_exponent(e + 2);
    lemma_pow_increases(10, e + 1, fib(e + 2));
    lemma_pow10_step(e);
    let j = lemma_first_above_exists(e + 2, pow10(e));
}

/// An approximation `x / y` of the square root of 10005.
#[derive(Debug, PartialEq)]
pub struct Convergent {
    pub x: Integer,
    pub y: Integer,
}

impl View for Convergent {
    type V = Pair;

    open spec fn view(&self) -> Pair {
        Pair { x: self.x@, y: self.y@ }
    }
}

impl Convergent {
    /// Both integers are in their shortest bytes.
    pub open spec fn is_shortest(&self) -> bool {
        self.x.is_shortest() && self.y.is_shortest()
    }
}

/// One step of the recurrence: the pair composed of `a` and `b`, whose norm
/// is the product of theirs.
pub fn pell_step(a: &Convergent, b: &Convergent) -> (r: Convergent)
    ensures
        r@ == compose(a@, b@),
        norm(r@) == norm(a@) * norm(b@),
        r.is_shortest(),
{
    proof {
        lemma_compose_norm(a@, b@);
    }
    let xx = big_mul(&a.x, &b.x);
    let yy = big_mul(&big_from_i128(RADICAND as i128), &big_mul(&a.y, &b.y));
    let xy = big_mul(&a.x, &b.y);
    let yx = big_mul(&a.y, &b.x);
    Convergent { x: big_add(&xx, &yy), y: big_add(&xy, &yx) }
}

/// The first pair of the recurrence whose `y` exceeds `10^(digits / 2 + 5)`,
/// and the number of steps taken to reach it. The pair has norm one, and the
/// Fibonacci number of the number of steps is at most `digits / 2 + 5`, so
/// the number of steps grows with the logarithm of `digits`.
pub fn calc_sqrt_pell(digits: u32) -> (r: (Convergent, u32))
    ensures
        r.0@ == pell_seq((r.1 + 1) as nat),
        r.0.is_shortest(),
        r.1 + 1 == pell_index(pow10(target_exponent(digits))),
        first_above((r.1 + 1) as nat, pow10(target_exponent(digits))),
        norm(r.0@) == 1,
        r.1 >= 2,
        fib(r.1 as nat) <= digits / 2 + 5,
        pow(2, ((r.1 - 1) / 2) as nat) <= digits / 2 + 5,
{
    let exponent: u32 = digits / 2 + 5;
    let target = big_pow(&big_from_i128(10), exponent);
    let mut older = Convergent { x: big_from_i128(1), y: big_from_i128(0) };
    let mut newer = Convergent { x: big_from_i128(4001), y: big_from_i128(40) };
    let mut steps: u32 = 0;
    proof {
        reveal_with_fuel(pow, 3);
        lemma_pow_increases(10, 2, exponent as nat);
    }
    loop
        invariant
            exponent == digits / 2 + 5,
            target@ == pow10(exponent as nat),
            older@ == pell_seq(steps as nat),
            newer@ == pell_seq((steps + 1) as nat),
            newer@.y <= target@,
            steps <= exponent,
        decreases 2 * target@ - older@.y - newer@.y,
    {
        let next = pell_step(&older, &newer);
        let ghost k = (steps + 1) as nat;
        proof {
            lemma_pell_invariant(steps as nat);
            lemma_pell_invariant(k);
            lemma_pell_invariant(k + 1);
            lemma_compose_grows(older@, newer@);
            assert(next@ == pell_seq(k + 1));
            // The pair at `k` has not passed the target.
            lemma_pell_exponent(k);
            lemma_pow_increases_converse(10, fib(k), exponent as nat);
            lemma_fib_linear(k);
            lemma_fib_exponential(k);
        }
        steps = steps + 1;
        if big_gt(&next.y, &target) {
            proof {
                assert forall|j: nat| j < k + 1 implies (#[trigger] pell_seq(j)).y <= target@ by {
                    lemma_pell_monotone(j, k);
                }
                assert(first_above(k + 1, target@));
                lemma_first_above_unique(k + 1, pell_index(target@), target@);
                if steps == 1 {
                    assert(pell_seq(2) == compose(pell_seq(0), pell_seq(1)));
                }
            }
            return (next, steps);
        }
        proof {
            lemma_pell_exponent(k + 1);
            lemma_pow_increases_converse(10, fib(k + 1), exponent as nat);
            lemma_fib_linear(k + 1);
        }
        older = newer;
        newer = next;
    }
}

/// The approximation of the square root that [`calc_sqrt_pell`] gives for a
/// number of digits, kept together with that number.
///
/// It is made by [`SquareRoot::compute`] and in no other way, so a caller
/// that lets another thread compute it still holds the pair of the
/// recurrence that belongs to its digits.
#[derive(Debug)]
pub struct SquareRoot {
    for_digits: u32,
    pair: Convergent,
}

impl SquareRoot {
    #[verifier::type_invariant]
    closed spec fn sound(self) -> bool {
        &&& self.pair@ == pell_seq(pell_index(pow10(target_exponent(self.for_digits))))
        &&& self.pair.is_shortest()
    }

    /// The number of digits that the approximation is good for.
    pub closed spec fn digits(self) -> u32 {
        self.for_digits
    }

    /// The approximation for `digits` digits, computed in this thread.
    pub fn compute(digits: u32) -> (r: SquareRoot)
        ensures
            r.digits() == digits,
    {
        let (pair, _) = calc_sqrt_pell(digits);
        SquareRoot { for_digits: digits, pair }
    }

    /// The number of digits that the approximation is good for.
    pub fn for_digits(&self) -> (r: u32)
        ensures
            r == self.digits(),
    {
        self.for_digits
    }

    /// The approximation itself.
    pub fn into_convergent(self) -> (r: Convergent)
        ensures
            r@ == pell_seq(pell_index(pow10(target_exponent(self.digits())))),
            r.is_shortest(),
    {
        proof {
            use_type_invariant(&self);
        }
        self.pair
    }
}

} // verus!
