//! The shortest two's-complement form of an integer.
//!
//! An integer has many byte strings: a byte of sign may always be added at
//! the top. It has one shortest byte string, and that is the one in which
//! `num_bigint` hands integers out. Two integers that are equal and both in
//! shortest form are therefore equal byte for byte.

use crate::integer::{signed_le, unsigned_le};
use vstd::arithmetic::power::{lemma_pow_increases, lemma_pow_positive, pow};
use vstd::prelude::*;

verus! {

/// `bytes` has no byte that only repeats the sign: it is not empty, and its
/// top byte is not a `0` above a byte below 128, nor a `255` above a byte
/// of 128 or more.
pub open spec fn shortest(bytes: Seq<u8>) -> bool {
    &&& bytes.len() >= 1
    &&& bytes.len() >= 2 ==> {
        let top = bytes[bytes.len() - 1];
        let next = bytes[bytes.len() - 2];
        !(top == 0 && next < 128) && !(top == 255 && next >= 128)
    }
}

/// `256^(n + 1) == 256 * 256^n`, and the powers are positive.
proof fn lemma_pow256(n: nat)
    ensures
        pow(256, n + 1) == 256 * pow(256, n),
        pow(256, n) >= 1,
{
    reveal_with_fuel(pow, 2);
    lemma_pow_positive(256, n);
}

/// A byte added at the top adds its value times `256^len`.
proof fn lemma_unsigned_push(bytes: Seq<u8>, x: u8)
    ensures
        unsigned_le(bytes.push(x)) == unsigned_le(bytes) + x * pow(256, bytes.len()),
    decreases bytes.len(),
{
    reveal_with_fuel(pow, 2);
    if bytes.len() == 0 {
        assert(bytes.push(x).skip(1) =~= Seq::<u8>::empty());
        assert(unsigned_le(bytes.push(x).skip(1)) == 0);
        assert(unsigned_le(bytes.push(x)) == x as nat + 256 * unsigned_le(bytes.push(x).skip(1)));
    } else {
        let rest = bytes.skip(1);
        assert(bytes.push(x).skip(1) =~= rest.push(x));
        lemma_unsigned_push(rest, x);
        lemma_pow256(rest.len());
        let p = pow(256, rest.len());
        assert(256 * (x * p) == x * (256 * p)) by (nonlinear_arith);
    }
}

/// The digits of `len` bytes write a number below `256^len`.
proof fn lemma_unsigned_bound(bytes: Seq<u8>)
    ensures
        unsigned_le(bytes) < pow(256, bytes.len()),
    decreases bytes.len(),
{
    reveal_with_fuel(pow, 2);
    if bytes.len() > 0 {
        lemma_unsigned_bound(bytes.skip(1));
        lemma_pow256(bytes.skip(1).len());
    }
}

/// Byte strings of one length that write the same number are the same.
proof fn lemma_unsigned_injective(a: Seq<u8>, b: Seq<u8>)
    requires
        a.len() == b.len(),
        unsigned_le(a) == unsigned_le(b),
    ensures
        a =~= b,
    decreases a.len(),
{
    if a.len() > 0 {
        let (ra, rb) = (a.skip(1), b.skip(1));
        assert(a[0] == b[0] && unsigned_le(ra) == unsigned_le(rb));
        lemma_unsigned_injective(ra, rb);
        assert forall|i: int| 0 <= i < a.len() implies a[i] == b[i] by {
            if i > 0 {
                assert(a[i] == ra[i - 1] && b[i] == rb[i - 1]);
            }
        }
    }
}

/// The number that a byte string writes, by its top byte and the rest.
proof fn lemma_unsigned_top(bytes: Seq<u8>)
    requires
        bytes.len() >= 1,
    ensures
        unsigned_le(bytes) == unsigned_le(bytes.drop_last()) + bytes.last() * pow(
            256,
            (bytes.len() - 1) as nat,
        ),
        unsigned_le(bytes.drop_last()) < pow(256, (bytes.len() - 1) as nat),
{
    assert(bytes =~= bytes.drop_last().push(bytes.last()));
    lemma_unsigned_push(bytes.drop_last(), bytes.last());
    lemma_unsigned_bound(bytes.drop_last());
}

/// `len` bytes write the integers from `-128 * 256^(len - 1)` up to, and not
/// including, `128 * 256^(len - 1)`; the negative ones are those with a top
/// byte of 128 or more.
proof fn lemma_signed_range(bytes: Seq<u8>)
    requires
        bytes.len() >= 1,
    ensures
        -128 * pow(256, (bytes.len() - 1) as nat) <= signed_le(bytes) < 128 * pow(
            256,
            (bytes.len() - 1) as nat,
        ),
        signed_le(bytes) < 0 <==> bytes.last() >= 128,
{
    let n = (bytes.len() - 1) as nat;
    let p = pow(256, n);
    let top = bytes.last() as int;
    lemma_unsigned_top(bytes);
    lemma_pow256(n);
    assert(pow(256, bytes.len()) == 256 * p);
    if top >= 128 {
        assert(128 * p <= top * p <= 255 * p) by (nonlinear_arith)
            requires
                128 <= top <= 255,
                p >= 1,
        ;
    } else {
        assert(0 <= top * p <= 127 * p) by (nonlinear_arith)
            requires
                0 <= top <= 127,
                p >= 1,
        ;
    }
}

/// A shortest string of two bytes or more writes an integer that one byte
/// fewer could not write.
proof fn lemma_shortest_needs(bytes: Seq<u8>)
    requires
        shortest(bytes),
        bytes.len() >= 2,
    ensures
        signed_le(bytes) >= 128 * pow(256, (bytes.len() - 2) as nat) || signed_le(bytes) < -128
            * pow(256, (bytes.len() - 2) as nat),
{
    let n = (bytes.len() - 2) as nat;
    let p = pow(256, n);
    let low = bytes.drop_last();
    let top = bytes.last() as int;
    let next = low.last() as int;
    assert(next == bytes[bytes.len() - 2]);
    lemma_unsigned_top(bytes);
    lemma_unsigned_top(low);
    lemma_pow256(n);
    lemma_pow256(n + 1);
    let rest = unsigned_le(low.drop_last()) as int;
    // The value is rest + next * p + top * 256 p, less 65536 p where top >= 128.
    assert(0 <= next * p <= 255 * p) by (nonlinear_arith)
        requires
            0 <= next <= 255,
            p >= 1,
    ;
    let q = 256 * p;
    if top >= 128 {
        if top == 255 {
            assert(next * p <= 127 * p) by (nonlinear_arith)
                requires
                    0 <= next <= 127,
                    p >= 1,
            ;
            assert(top * q == 255 * q) by (nonlinear_arith)
                requires
                    top == 255,
            ;
        } else {
            assert(top * q <= 254 * q) by (nonlinear_arith)
                requires
                    top <= 254,
                    q >= 1,
            ;
        }
    } else {
        if top == 0 {
            assert(next * p >= 128 * p) by (nonlinear_arith)
                requires
                    next >= 128,
                    p >= 1,
            ;
            assert(top * q == 0) by (nonlinear_arith)
                requires
                    top == 0,
            ;
        } else {
            assert(top * q >= q) by (nonlinear_arith)
                requires
                    top >= 1,
                    q >= 1,
            ;
        }
    }
}

/// An integer has one shortest byte string.
pub proof fn lemma_shortest_unique(a: Seq<u8>, b: Seq<u8>)
    requires
        shortest(a),
        shortest(b),
        signed_le(a) == signed_le(b),
    ensures
        a =~= b,
{
    lemma_signed_range(a);
    lemma_signed_range(b);
    if a.len() == b.len() {
        lemma_unsigned_injective(a, b);
    } else if a.len() < b.len() {
        lemma_shortest_needs(b);
        lemma_pow_increases(256, (a.len() - 1) as nat, (b.len() - 2) as nat);
    } else {
        lemma_shortest_needs(a);
        lemma_pow_increases(256, (b.len() - 1) as nat, (a.len() - 2) as nat);
    }
}

} // verus!
