//! Binary splitting: the triple of a range of the series, computed by cutting
//! the range in halves.
//!
//! [`schedule`] decides how a range is to be handled: as a single index, by
//! sequential recursion, or by two computations that may run side by side.
//! [`compute_pqt`] follows these decisions in one thread.
//!
//! A caller with threads of its own forks where [`schedule`] says so,
//! computes each part as a [`Segment`] and joins the segments as they become
//! ready. Since the triple of a range does not depend on how the range is
//! cut, and a segment can be had in no way but by computing and joining, the
//! caller ends with the triple that [`i_compute_pqt`] gives, however many
//! threads it has and in whatever order they finish.

use crate::encoding::lemma_shortest_unique;
use crate::integer::{big_add, big_from_i128, big_mul, big_pow, Integer};
use crate::series;
use crate::series::{leaf, lemma_range_single, lemma_range_split, range_triple, Triple, A, B, C3_24};
use vstd::arithmetic::power::pow;
use vstd::prelude::*;

verus! {

/// Ranges of at least this many indices are forked by default.
pub const THRESHOLD: u64 = 50000;

/// The triple `(P, Q, T)` of a range of the series.
#[derive(Debug, PartialEq)]
pub struct Pqt {
    pub p: Integer,
    pub q: Integer,
    pub t: Integer,
}

impl View for Pqt {
    type V = Triple;

    open spec fn view(&self) -> Triple {
        Triple { p: self.p@, q: self.q@, t: self.t@ }
    }
}

/// How the range `[n1, n2)` is to be computed.
#[derive(Clone, Copy, Debug, PartialEq, Eq, Structural)]
pub enum Schedule {
    /// The range holds one index: evaluate the closed form.
    Leaf,
    /// Cut at `mid` and compute both halves one after the other, with no
    /// further forking below.
    Sequential { mid: u64 },
    /// Cut at `mid`; the two halves are independent computations, each
    /// scheduled anew.
    Fork { mid: u64 },
}

proof fn lemma_cube(n: int)
    ensures
        pow(n, 3) == n * n * n,
{
    reveal_with_fuel(pow, 4);
    assert(n * (n * (n * 1)) == n * n * n) by (nonlinear_arith);
}

impl Pqt {
    /// Each of the three integers is in its shortest bytes.
    pub open spec fn is_shortest(&self) -> bool {
        self.p.is_shortest() && self.q.is_shortest() && self.t.is_shortest()
    }

    /// The triple of the single index `n2`, that is of the range
    /// `[n2 - 1, n2)`, by the closed form.
    pub fn leaf(n2: u64) -> (r: Pqt)
        ensures
            r@ == leaf(n2 as int),
            r.is_shortest(),
    {
        let n: i128 = n2 as i128;
        let f1 = big_from_i128(2 * n - 1);
        let f2 = big_from_i128(6 * n - 1);
        let f3 = big_from_i128(6 * n - 5);
        let p = big_mul(&big_mul(&f1, &f2), &f3);
        let cube = big_pow(&big_from_i128(n), 3);
        let q = big_mul(&big_from_i128(C3_24 as i128), &cube);
        let linear: i128 = A as i128 + B as i128 * n;
        let signed: i128 = if n2 % 2 == 0 {
            linear
        } else {
            -linear
        };
        let t = big_mul(&big_from_i128(signed), &p);
        proof {
            lemma_cube(n as int);
            let l = linear as int;
            let pv = p@;
            assert((-l) * pv == -(l * pv)) by (nonlinear_arith);
        }
        Pqt { p, q, t }
    }

    /// The triple of the union of two adjacent ranges: `self` over the left
    /// one, `right` over the right one. Both are used up.
    pub fn merge(self, right: Pqt) -> (r: Pqt)
        ensures
            r@ == series::merge(self@, right@),
            r.is_shortest(),
    {
        let p = big_mul(&self.p, &right.p);
        let q = big_mul(&self.q, &right.q);
        let t1 = big_mul(&self.t, &right.q);
        let t2 = big_mul(&self.p, &right.t);
        let t = big_add(&t1, &t2);
        Pqt { p, q, t }
    }
}

/// The point at which `[n1, n2)` is cut: `(n1 + n2) / 2`, rounded down.
pub fn midpoint(n1: u64, n2: u64) -> (m: u64)
    ensures
        m == (n1 + n2) / 2,
{
    n1 / 2 + n2 / 2 + (n1 % 2 + n2 % 2) / 2
}

/// Decides how `[n1, n2)` is computed: a range of one index is a leaf, a
/// longer one of fewer than `threshold` indices is split sequentially, and
/// any other is forked. Both kinds of split cut at the midpoint.
pub fn schedule(n1: u64, n2: u64, threshold: u64) -> (s: Schedule)
    requires
        n1 < n2,
    ensures
        n2 - n1 == 1 ==> s == Schedule::Leaf,
        1 < n2 - n1 < threshold ==> s == (Schedule::Sequential { mid: ((n1 + n2) / 2) as u64 }),
        1 < n2 - n1 && threshold <= n2 - n1 ==> s == (Schedule::Fork {
            mid: ((n1 + n2) / 2) as u64,
        }),
{
    let width = n2 - n1;
    if width == 1 {
        Schedule::Leaf
    } else if width < threshold {
        Schedule::Sequential { mid: midpoint(n1, n2) }
    } else {
        Schedule::Fork { mid: midpoint(n1, n2) }
    }
}

/// The triple of `[n1, n2)`, that is of the indices `n1 + 1, ..., n2`, by
/// sequential binary splitting.
pub fn i_compute_pqt(n1: u64, n2: u64) -> (r: Pqt)
    requires
        n1 < n2,
    ensures
        r@ == range_triple(n1 as int, n2 as int),
        r.is_shortest(),
    decreases n2 - n1,
{
    if n2 - n1 == 1 {
        proof {
            lemma_range_single(n2 as int);
        }
        Pqt::leaf(n2)
    } else {
        let m = midpoint(n1, n2);
        let left = i_compute_pqt(n1, m);
        let right = i_compute_pqt(m, n2);
        proof {
            lemma_range_split(n1 as int, m as int, n2 as int);
        }
        left.merge(right)
    }
}

/// The triple of `[n1, n2)`, computed as [`schedule`] directs. Whatever the
/// threshold, the result is the triple of the range, in the same bytes.
pub fn compute_pqt(n1: u64, n2: u64, threshold: u64) -> (r: Pqt)
    requires
        n1 < n2,
    ensures
        r@ == range_triple(n1 as int, n2 as int),
        r.is_shortest(),
    decreases n2 - n1,
{
    match schedule(n1, n2, threshold) {
        Schedule::Leaf => {
            proof {
                lemma_range_single(n2 as int);
            }
            Pqt::leaf(n2)
        },
        Schedule::Sequential { mid } => {
            let left = i_compute_pqt(n1, mid);
            let right = i_compute_pqt(mid, n2);
            proof {
                lemma_range_split(n1 as int, mid as int, n2 as int);
            }
            left.merge(right)
        },
        Schedule::Fork { mid } => {
            let left = compute_pqt(n1, mid, threshold);
            let right = compute_pqt(mid, n2, threshold);
            proof {
                lemma_range_split(n1 as int, mid as int, n2 as int);
            }
            left.merge(right)
        },
    }
}

/// Two triples of the same three integers, each in its shortest bytes, are
/// the same byte for byte. Every triple that this module computes is in its
/// shortest bytes, so the triple of a range is the same bytes however it was
/// computed.
pub proof fn lemma_same_bytes(a: Pqt, b: Pqt)
    requires
        a.is_shortest(),
        b.is_shortest(),
        a@ == b@,
    ensures
        a.p.bytes@ == b.p.bytes@,
        a.q.bytes@ == b.q.bytes@,
        a.t.bytes@ == b.t.bytes@,
{
    lemma_shortest_unique(a.p.bytes@, b.p.bytes@);
    lemma_shortest_unique(a.q.bytes@, b.q.bytes@);
    lemma_shortest_unique(a.t.bytes@, b.t.bytes@);
}

/// The triple of a range of the series, kept together with its range.
///
/// A segment is made by computing a range, or by joining two segments of
/// which the second begins where the first ends, and in no other way. Its
/// triple is therefore that of its range, whoever made it, in whatever order
/// and on whatever threads: a caller that forks the work as [`schedule`]
/// directs, or in any other way, ends with the same triple as
/// [`i_compute_pqt`] gives.
#[derive(Debug)]
pub struct Segment {
    n1: u64,
    n2: u64,
    triple: Pqt,
}

impl Segment {
    #[verifier::type_invariant]
    closed spec fn sound(self) -> bool {
        &&& self.n1 < self.n2
        &&& self.triple@ == range_triple(self.n1 as int, self.n2 as int)
        &&& self.triple.is_shortest()
    }

    /// Where the range begins: the segment holds the indices from
    /// `start() + 1` on.
    pub closed spec fn start(self) -> u64 {
        self.n1
    }

    /// Where the range ends: the segment holds the indices up to `end()`.
    pub closed spec fn end(self) -> u64 {
        self.n2
    }

    /// The segment of `[n1, n2)`, computed in this thread. There is none for
    /// an empty range.
    pub fn compute(n1: u64, n2: u64) -> (r: Option<Segment>)
        ensures
            r is None <==> n1 >= n2,
            r matches Some(s) ==> s.start() == n1 && s.end() == n2,
    {
        if n1 < n2 {
            Some(Segment { n1, n2, triple: i_compute_pqt(n1, n2) })
        } else {
            None
        }
    }

    /// The segment of the two ranges together, where `right` begins at the
    /// end of `self`. Where it does not, the two come back as they were.
    pub fn join(self, right: Segment) -> (r: Result<Segment, (Segment, Segment)>)
        ensures
            match r {
                Ok(s) => self.end() == right.start() && s.start() == self.start() && s.end()
                    == right.end(),
                Err(both) => self.end() != right.start() && both.0 == self && both.1 == right,
            },
    {
        proof {
            use_type_invariant(&self);
            use_type_invariant(&right);
        }
        if self.n2 == right.n1 {
            proof {
                lemma_range_split(self.n1 as int, self.n2 as int, right.n2 as int);
            }
            Ok(Segment { n1: self.n1, n2: right.n2, triple: self.triple.merge(right.triple) })
        } else {
            Err((self, right))
        }
    }

    /// The range `[n1, n2)` of the segment, as `(n1, n2)`.
    pub fn range(&self) -> (r: (u64, u64))
        ensures
            r.0 == self.start(),
            r.1 == self.end(),
            r.0 < r.1,
    {
        proof {
            use_type_invariant(self);
        }
        (self.n1, self.n2)
    }

    /// The triple of the segment.
    pub fn into_pqt(self) -> (r: Pqt)
        ensures
            r@ == range_triple(self.start() as int, self.end() as int),
            r.is_shortest(),
    {
        proof {
            use_type_invariant(&self);
        }
        self.triple
    }
}

} // verus!
