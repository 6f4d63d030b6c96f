//! The sign of a number as a two-valued type.

use vstd::prelude::*;
use vstd::std_specs::ops::MulSpecImpl;

verus! {

/// Positive or negative.
#[derive(Debug, Clone, Copy, PartialEq, Eq, Structural)]
pub enum Sign {
    Positive,
    Negative,
}

/// Signs multiply like the numbers `1` and `-1`.
impl MulSpecImpl for Sign {
    open spec fn obeys_mul_spec() -> bool {
        true
    }

    open spec fn mul_req(self, rhs: Sign) -> bool {
        true
    }

    /// The sign of a product: positive exactly when the factors agree.
    open spec fn mul_spec(self, rhs: Sign) -> Sign {
        if self == rhs {
            Sign::Positive
        } else {
            Sign::Negative
        }
    }
}

impl core::ops::Mul for Sign {
    type Output = Sign;

    fn mul(self, rhs: Sign) -> (r: Sign) {
        match (self, rhs) {
            (Sign::Positive, Sign::Positive) => Sign::Positive,
            (Sign::Negative, Sign::Negative) => Sign::Positive,
            _ => Sign::Negative,
        }
    }
}

impl Sign {
    /// The digit that fills the places above a two's-complement number of
    /// this sign: all zeros for a positive one, all ones, which is `-1`,
    /// for a negative one.
    pub fn digit(self) -> (r: i64)
        ensures
            r == match self {
                Sign::Positive => 0i64,
                Sign::Negative => -1i64,
            },
    {
        match self {
            Sign::Positive => 0,
            Sign::Negative => -1,
        }
    }
}

} // verus!
