//! Signs of numbers.

use vstd::prelude::*;

verus! {

/// Sign of a number.
#[derive(Clone, Copy, Debug, PartialEq, Eq, Structural)]
pub enum Sign {
    Positive,
    Negative,
}

impl Sign {
    /// The sign as a factor: 1 or -1.
    pub open spec fn factor(self) -> int {
        match self {
            Sign::Positive => 1,
            Sign::Negative => -1,
        }
    }

    /// The opposite sign.
    pub fn negate(self) -> (r: Sign)
        ensures
            r.factor() == -self.factor(),
    {
        match self {
            Sign::Positive => Sign::Negative,
            Sign::Negative => Sign::Positive,
        }
    }

    /// The sign of a product.
    pub fn mul(self, rhs: Sign) -> (r: Sign)
        ensures
            r.factor() == self.factor() * rhs.factor(),
    {
        match (self, rhs) {
            (Sign::Positive, Sign::Positive) => Sign::Positive,
            (Sign::Positive, Sign::Negative) => Sign::Negative,
            (Sign::Negative, Sign::Positive) => Sign::Negative,
            (Sign::Negative, Sign::Negative) => Sign::Positive,
        }
    }
}

} // verus!
