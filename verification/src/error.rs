//! Error types.

use vstd::prelude::*;

verus! {

/// Number out of bounds.
#[derive(Clone, Copy, Debug, PartialEq, Eq, Structural)]
pub struct OutOfBoundsError;

impl OutOfBoundsError {
    /// The message describing the error.
    pub fn to_string(&self) -> (r: String)
        ensures
            r@ == "number out of bounds"@,
    {
        "number out of bounds".to_owned()
    }
}

/// Parse error when parsing `UBig` or `IBig`.
#[derive(Clone, Copy, Debug, PartialEq, Eq, Structural)]
pub enum ParseError {
    /// There were no digits in the string.
    NoDigits,
    /// Invalid digit for a given radix.
    InvalidDigit,
}

impl ParseError {
    /// The message describing the error.
    pub fn to_string(&self) -> (r: String)
        ensures
            *self == ParseError::NoDigits ==> r@ == "no digits"@,
            *self == ParseError::InvalidDigit ==> r@ == "invalid digit"@,
    {
        match self {
            ParseError::NoDigits => "no digits".to_owned(),
            ParseError::InvalidDigit => "invalid digit".to_owned(),
        }
    }
}

} // verus!
