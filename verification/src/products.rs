//! The triple of a range written out: two products and a sum.
//!
//! The triple `(P, Q, T)` of the indices `n1 + 1, ..., n2` has for `P` and
//! `Q` the products of the single `P` and `Q`, and for `T` the sum, over the
//! indices `k`, of the single `T` at `k` times every `P` below `k` and every
//! `Q` above it.

use crate::series::{range_triple, term_p, term_q, term_t, Triple};
use vstd::arithmetic::mul::{lemma_mul_is_associative, lemma_mul_is_distributive_add_other_way};
use vstd::prelude::*;

verus! {

/// The product of `P` over the indices `n1 + 1, ..., n2`.
pub open spec fn product_p(n1: int, n2: int) -> int
    decreases n2 - n1,
{
    if n2 <= n1 {
        1
    } else {
        product_p(n1, n2 - 1) * term_p(n2)
    }
}

/// The product of `Q` over the indices `n1 + 1, ..., n2`.
pub open spec fn product_q(n1: int, n2: int) -> int
    decreases n2 - n1,
{
    if n2 <= n1 {
        1
    } else {
        product_q(n1, n2 - 1) * term_q(n2)
    }
}

/// The sum, over the indices `k` from `n1 + 1` to `upto`, of `T` at `k` times
/// the `P` of the indices from `n1 + 1` below `k` and the `Q` of the indices
/// above `k` up to `n2`.
pub open spec fn sum_t(n1: int, upto: int, n2: int) -> int
    decreases upto - n1,
{
    if upto <= n1 {
        0
    } else {
        sum_t(n1, upto - 1, n2) + (product_p(n1, upto - 1) * term_t(upto)) * product_q(upto, n2)
    }
}

/// One more index at the end multiplies every summand by its `Q`.
proof fn lemma_sum_grows(n1: int, upto: int, n2: int)
    requires
        n1 <= upto < n2,
    ensures
        sum_t(n1, upto, n2) == sum_t(n1, upto, n2 - 1) * term_q(n2),
    decreases upto - n1,
{
    if upto > n1 {
        lemma_sum_grows(n1, upto - 1, n2);
        let q = term_q(n2);
        let head = product_p(n1, upto - 1) * term_t(upto);
        let tail = product_q(upto, n2 - 1);
        assert(product_q(upto, n2) == tail * q);
        lemma_mul_is_associative(head, tail, q);
        lemma_mul_is_distributive_add_other_way(q, sum_t(n1, upto - 1, n2 - 1), head * tail);
    }
}

/// The triple of a range is the two products and the sum.
pub proof fn lemma_closed_form(n1: int, n2: int)
    requires
        n1 <= n2,
    ensures
        range_triple(n1, n2) == (Triple {
            p: product_p(n1, n2),
            q: product_q(n1, n2),
            t: sum_t(n1, n2, n2),
        }),
    decreases n2 - n1,
{
    if n1 < n2 {
        lemma_closed_form(n1, n2 - 1);
        lemma_sum_grows(n1, n2 - 1, n2);
        let head = product_p(n1, n2 - 1) * term_t(n2);
        assert(product_q(n2, n2) == 1);
        assert(head * 1 == head);
    }
}

} // verus!
