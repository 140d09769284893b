//! Arbitrary-precision signed integers.
//!
//! An [`Integer`] is stored as its two's-complement bytes, least significant
//! first. Every byte string denotes an integer, so the type has no invariant;
//! an integer has many byte strings, and `==` goes by the integer.
//!
//! The arithmetic itself is done by `num_bigint`. Each of the functions
//! `big_*` below reads its arguments with `BigInt::from_signed_bytes_le`,
//! makes one call on the `BigInt`s, and takes the bytes of the result with
//! `BigInt::to_signed_bytes_le`, which writes the shortest byte string that
//! the integer has. What they return is stated here as `num_bigint` has it,
//! and is not proved.

use crate::decimal::signed_decimal;
use crate::encoding::shortest;
use vstd::arithmetic::power::pow;
use vstd::prelude::*;

verus! {

/// The natural number whose base-256 digits, least significant first, are `bytes`.
pub open spec fn unsigned_le(bytes: Seq<u8>) -> nat
    decreases bytes.len(),
{
    if bytes.len() == 0 {
        0
    } else {
        bytes[0] as nat + 256 * unsigned_le(bytes.skip(1))
    }
}

/// The integer whose two's-complement representation, least significant byte
/// first, is `bytes`. The empty string denotes zero.
pub open spec fn signed_le(bytes: Seq<u8>) -> int {
    if bytes.len() > 0 && bytes.last() >= 128 {
        unsigned_le(bytes) - pow(256, bytes.len())
    } else {
        unsigned_le(bytes) as int
    }
}

/// An arbitrary-precision signed integer.
#[derive(Debug)]
pub struct Integer {
    /// Two's complement, least significant byte first.
    pub bytes: Vec<u8>,
}

impl View for Integer {
    type V = int;

    open spec fn view(&self) -> int {
        signed_le(self.bytes@)
    }
}

/// `BigInt::from` on an `i128`: the integer `n`, in its shortest bytes.
#[verifier::external_body]
pub(crate) fn big_from_i128(n: i128) -> (r: Integer)
    ensures
        r@ == n,
        shortest(r.bytes@),
{
    Integer { bytes: num_bigint::BigInt::from(n).to_signed_bytes_le() }
}

/// `BigInt`'s `*`: the product, which is exact, in its shortest bytes.
#[verifier::external_body]
pub(crate) fn big_mul(a: &Integer, b: &Integer) -> (r: Integer)
    ensures
        r@ == a@ * b@,
        shortest(r.bytes@),
{
    let x = num_bigint::BigInt::from_signed_bytes_le(&a.bytes);
    let y = num_bigint::BigInt::from_signed_bytes_le(&b.bytes);
    Integer { bytes: (x * y).to_signed_bytes_le() }
}

/// `BigInt`'s `+`: the sum, which is exact, in its shortest bytes.
#[verifier::external_body]
pub(crate) fn big_add(a: &Integer, b: &Integer) -> (r: Integer)
    ensures
        r@ == a@ + b@,
        shortest(r.bytes@),
{
    let x = num_bigint::BigInt::from_signed_bytes_le(&a.bytes);
    let y = num_bigint::BigInt::from_signed_bytes_le(&b.bytes);
    Integer { bytes: (x + y).to_signed_bytes_le() }
}

/// `BigInt::pow`: the power, which is exact, in its shortest bytes; `a^0` is
/// `1` for every `a`, zero included.
#[verifier::external_body]
pub(crate) fn big_pow(a: &Integer, e: u32) -> (r: Integer)
    ensures
        r@ == pow(a@, e as nat),
        shortest(r.bytes@),
{
    let x = num_bigint::BigInt::from_signed_bytes_le(&a.bytes);
    Integer { bytes: x.pow(e).to_signed_bytes_le() }
}

/// `BigInt`'s `div_euclid`, which it has as a `num_traits::Euclid`: the
/// quotient `q` for which `a - q * b` is at least zero and less than `|b|`,
/// in its shortest bytes. The divisor must not be zero: on zero `BigInt`
/// panics.
#[verifier::external_body]
pub(crate) fn big_div(a: &Integer, b: &Integer) -> (r: Integer)
    requires
        b@ != 0,
    ensures
        r@ == a@ / b@,
        shortest(r.bytes@),
{
    let x = num_bigint::BigInt::from_signed_bytes_le(&a.bytes);
    let y = num_bigint::BigInt::from_signed_bytes_le(&b.bytes);
    Integer { bytes: num_traits::Euclid::div_euclid(&x, &y).to_signed_bytes_le() }
}

/// `BigInt`'s `>`: whether `a` is the greater integer.
#[verifier::external_body]
pub(crate) fn big_gt(a: &Integer, b: &Integer) -> (r: bool)
    ensures
        r == (a@ > b@),
{
    let x = num_bigint::BigInt::from_signed_bytes_le(&a.bytes);
    let y = num_bigint::BigInt::from_signed_bytes_le(&b.bytes);
    x > y
}

/// `BigInt`'s `to_string`: the decimal digits, most significant first, with no
/// leading zero, and a `-` before them for a negative number; zero is `0`.
#[verifier::external_body]
pub(crate) fn big_to_string(a: &Integer) -> (s: String)
    ensures
        s@ == signed_decimal(a@),
{
    num_bigint::BigInt::from_signed_bytes_le(&a.bytes).to_string()
}

impl PartialEq for Integer {
    /// Whether the two are the same integer, whatever their bytes.
    fn eq(&self, other: &Integer) -> (r: bool) {
        !big_gt(self, other) && !big_gt(other, self)
    }
}

impl vstd::std_specs::cmp::PartialEqSpecImpl for Integer {
    open spec fn obeys_eq_spec() -> bool {
        true
    }

    open spec fn eq_spec(&self, other: &Integer) -> bool {
        self@ == other@
    }
}

impl Integer {
    /// The bytes are the shortest that write this integer.
    pub open spec fn is_shortest(&self) -> bool {
        shortest(self.bytes@)
    }

    /// The integer `n`, in its shortest bytes.
    pub fn from_i128(n: i128) -> (r: Integer)
        ensures
            r@ == n,
            r.is_shortest(),
    {
        big_from_i128(n)
    }

    /// Whether this integer is zero.
    pub fn is_zero(&self) -> (r: bool)
        ensures
            r == (self@ == 0),
    {
        let zero = big_from_i128(0);
        !big_gt(self, &zero) && !big_gt(&zero, self)
    }

    /// This integer in decimal.
    pub fn to_decimal(&self) -> (s: String)
        ensures
            s@ == signed_decimal(self@),
    {
        big_to_string(self)
    }
}

} // verus!
