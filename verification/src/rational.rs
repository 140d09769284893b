//! Fractions of two integers.

use crate::integer::Integer;
use vstd::prelude::*;

verus! {

/// A fraction of two integers.
pub struct Fraction {
    pub num: int,
    pub den: int,
}

/// A fraction of two arbitrary-precision integers.
#[derive(Debug, PartialEq)]
pub struct Ratio {
    pub num: Integer,
    pub den: Integer,
}

impl View for Ratio {
    type V = Fraction;

    open spec fn view(&self) -> Fraction {
        Fraction { num: self.num@, den: self.den@ }
    }
}

} // verus!
