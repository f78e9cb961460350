//! Signed big integer.

use crate::primitive::Word;
use crate::sign::Sign;
use crate::ubig::{fits, UBig};
use vstd::prelude::*;

verus! {

/// Absolute value of an integer.
pub open spec fn abs(x: int) -> nat {
    if x < 0 {
        (-x) as nat
    } else {
        x as nat
    }
}

/// `x` fits in an `IBig`: its magnitude fits in a `UBig`.
pub open spec fn ibig_fits(x: int) -> bool {
    fits(abs(x))
}

/// Signed big integer.
///
/// Zero is always stored with the positive sign.
#[derive(Debug)]
pub struct IBig {
    sign: Sign,
    magnitude: UBig,
}

impl View for IBig {
    type V = int;

    closed spec fn view(&self) -> int {
        self.sign.factor() * self.magnitude@
    }
}

impl IBig {
    #[verifier::type_invariant]
    closed spec fn inv(&self) -> bool {
        self.magnitude@ == 0 ==> self.sign == Sign::Positive
    }

    /// The value of a number is its sign times its magnitude.
    proof fn lemma_view(&self)
        ensures
            self@ == self.sign.factor() * self.magnitude@,
            self.sign == Sign::Negative ==> self@ == -(self.magnitude@ as int),
            self.sign == Sign::Positive ==> self@ == self.magnitude@ as int,
            abs(self@) == self.magnitude@,
    {
    }

    /// A number from a sign and a magnitude; zero gets the positive sign.
    pub fn from_sign_magnitude(sign: Sign, magnitude: UBig) -> (r: IBig)
        ensures
            r@ == sign.factor() * magnitude@,
    {
        let sign = if magnitude.is_zero() {
            Sign::Positive
        } else {
            sign
        };
        IBig { sign, magnitude }
    }

    /// The sign of the number: negative exactly for negative numbers.
    pub fn sign(&self) -> (r: Sign)
        ensures
            (r == Sign::Negative) == (self@ < 0),
            r.factor() * abs(self@) == self@,
    {
        proof {
            use_type_invariant(self);
            self.lemma_view();
        }
        self.sign
    }

    /// The magnitude of the number.
    pub fn magnitude(&self) -> (r: &UBig)
        ensures
            r@ == abs(self@),
    {
        &self.magnitude
    }

    /// The sign and the magnitude of the number.
    pub fn into_sign_magnitude(self) -> (r: (Sign, UBig))
        ensures
            (r.0 == Sign::Negative) == (self@ < 0),
            r.1@ == abs(self@),
            r.0.factor() * r.1@ == self@,
    {
        proof {
            use_type_invariant(&self);
            self.lemma_view();
        }
        (self.sign, self.magnitude)
    }

    /// Is the number negative?
    pub fn is_negative(&self) -> (r: bool)
        ensures
            r == (self@ < 0),
    {
        proof {
            use_type_invariant(self);
        }
        match self.sign {
            Sign::Negative => true,
            Sign::Positive => false,
        }
    }

    /// Is the number positive?
    pub fn is_positive(&self) -> (r: bool)
        ensures
            r == (self@ > 0),
    {
        proof {
            use_type_invariant(self);
        }
        match self.sign {
            Sign::Negative => false,
            Sign::Positive => !self.magnitude.is_zero(),
        }
    }

    /// Is the number zero?
    pub fn is_zero(&self) -> (r: bool)
        ensures
            r == (self@ == 0),
    {
        self.magnitude.is_zero()
    }

    /// Zero.
    pub fn zero() -> (r: IBig)
        ensures
            r@ == 0,
    {
        IBig { sign: Sign::Positive, magnitude: UBig::from_word(0) }
    }

    /// One.
    pub fn one() -> (r: IBig)
        ensures
            r@ == 1,
    {
        IBig { sign: Sign::Positive, magnitude: UBig::from_word(1) }
    }

    /// A non-negative number from its magnitude.
    pub fn from_ubig(x: UBig) -> (r: IBig)
        ensures
            r@ == x@,
    {
        IBig { sign: Sign::Positive, magnitude: x }
    }

    /// A copy of the number.
    pub fn clone(&self) -> (r: IBig)
        ensures
            r@ == self@,
    {
        proof {
            use_type_invariant(self);
        }
        IBig { sign: self.sign, magnitude: self.magnitude.clone() }
    }

    /// `-self`.
    pub fn neg(&self) -> (r: IBig)
        ensures
            r@ == -self@,
    {
        let neg_sign = self.sign.negate();
        proof {
            self.lemma_view();
            assert(neg_sign.factor() * self.magnitude@ == -(self.sign.factor() * self.magnitude@))
                by (nonlinear_arith)
                requires
                    neg_sign.factor() == -self.sign.factor(),
            ;
        }
        IBig::from_sign_magnitude(neg_sign, self.magnitude.clone())
    }

    /// `-self`, taking the number.
    pub fn into_neg(self) -> (r: IBig)
        ensures
            r@ == -self@,
    {
        let (sign, magnitude) = self.into_sign_magnitude();
        let neg_sign = sign.negate();
        proof {
            assert(neg_sign.factor() * magnitude@ == -(sign.factor() * magnitude@)) by (
            nonlinear_arith)
                requires
                    neg_sign.factor() == -sign.factor(),
            ;
        }
        IBig::from_sign_magnitude(neg_sign, magnitude)
    }

    /// Absolute value.
    pub fn abs(&self) -> (r: IBig)
        ensures
            r@ == abs(self@),
    {
        IBig::from_ubig(self.magnitude.clone())
    }

    /// The unsigned absolute value.
    pub fn unsigned_abs(&self) -> (r: UBig)
        ensures
            r@ == abs(self@),
    {
        self.magnitude.clone()
    }

    /// The sign as a number: -1, 0 or 1.
    pub fn signum(&self) -> (r: IBig)
        ensures
            r@ == (if self@ < 0 {
                -1
            } else if self@ == 0 {
                0
            } else {
                1
            }),
    {
        proof {
            use_type_invariant(self);
        }
        if self.magnitude.is_zero() {
            IBig::zero()
        } else {
            IBig::from_sign_magnitude(self.sign, UBig::from_word(1))
        }
    }

    /// The value of a signed word.
    pub fn from_signed_word(x: i64) -> (r: IBig)
        ensures
            r@ == x,
    {
        let (sign, mag) = crate::primitive::signed_to_sign_magnitude(x);
        IBig::from_sign_magnitude(sign, UBig::from_word(mag))
    }

    /// The value of a word.
    pub fn from_word(x: Word) -> (r: IBig)
        ensures
            r@ == x,
    {
        IBig::from_ubig(UBig::from_word(x))
    }
}

impl PartialEq for IBig {
    fn eq(&self, other: &Self) -> (r: bool) {
        proof {
            use_type_invariant(self);
            use_type_invariant(other);
            self.lemma_view();
            other.lemma_view();
        }
        let same_sign = match (self.sign, other.sign) {
            (Sign::Positive, Sign::Positive) => true,
            (Sign::Negative, Sign::Negative) => true,
            _ => false,
        };
        same_sign && self.magnitude == other.magnitude
    }
}

impl vstd::std_specs::cmp::PartialEqSpecImpl for IBig {
    open spec fn obeys_eq_spec() -> bool {
        true
    }

    open spec fn eq_spec(&self, other: &IBig) -> bool {
        self@ == other@
    }
}

impl Eq for IBig {

}

} // verus!
