//! The sign of a number, and traits for values that may be NaN or signed.
use vstd::prelude::*;

verus! {

/// Whether a value is unequal to itself.
pub trait NAN {
    fn is_nan(&self) -> bool;
}

impl<T: PartialEq> NAN for T {
    fn is_nan(&self) -> bool {
        self != self
    }
}

/// The sign of a number, or `NaN` where it has none.
#[derive(Debug, Clone, Copy, PartialEq, Eq, Structural)]
pub enum Sign {
    Positive,
    Zero,
    Negative,
    NaN,
}

impl Sign {
    /// The sign as a number: 1, 0, -1, or -128 for `NaN`.
    pub open spec fn spec_i8(self) -> int {
        match self {
            Sign::Positive => 1,
            Sign::Zero => 0,
            Sign::Negative => -1,
            Sign::NaN => -128,
        }
    }

    pub fn to_i8(self) -> (r: i8)
        ensures
            r as int == self.spec_i8(),
    {
        match self {
            Sign::Positive => 1,
            Sign::Zero => 0,
            Sign::Negative => -1,
            Sign::NaN => -128,
        }
    }

    pub fn is_positive(&self) -> (r: bool)
        ensures
            r == (*self == Sign::Positive),
    {
        match self {
            Sign::Positive => true,
            _ => false,
        }
    }

    pub fn is_zero(&self) -> (r: bool)
        ensures
            r == (*self == Sign::Zero),
    {
        match self {
            Sign::Zero => true,
            _ => false,
        }
    }

    pub fn is_negative(&self) -> (r: bool)
        ensures
            r == (*self == Sign::Negative),
    {
        match self {
            Sign::Negative => true,
            _ => false,
        }
    }

    pub fn not_positive(&self) -> (r: bool)
        ensures
            r == (*self != Sign::Positive),
    {
        match self {
            Sign::Positive => false,
            _ => true,
        }
    }

    pub fn not_zero(&self) -> (r: bool)
        ensures
            r == (*self != Sign::Zero),
    {
        match self {
            Sign::Zero => false,
            _ => true,
        }
    }

    pub fn not_negative(&self) -> (r: bool)
        ensures
            r == (*self != Sign::Negative),
    {
        match self {
            Sign::Negative => false,
            _ => true,
        }
    }
}

/// A value that has a sign.
pub trait Signed {
    fn sign(&self) -> Sign;
}

} // verus!
