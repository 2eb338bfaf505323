use vstd::prelude::*;

verus! {

/// Number sign.
#[derive(Clone, Copy, PartialEq, Eq, Structural, PartialOrd, Ord, Hash, Debug)]
pub enum Sign {
    Negative,
    Zero,
    Positive,
}

impl Sign {
    /// Checks if the number is zero.
    pub fn is_zero(&self) -> (r: bool)
        ensures
            r == (*self == Sign::Zero),
    {
        matches!(self, Sign::Zero)
    }

    /// Checks if the number is non positive (negative or zero).
    pub fn is_non_positive(&self) -> (r: bool)
        ensures
            r == (*self == Sign::Negative || *self == Sign::Zero),
    {
        matches!(self, Sign::Negative | Sign::Zero)
    }

    /// Checks if the number is non negative (positive or zero).
    pub fn is_non_negative(&self) -> (r: bool)
        ensures
            r == (*self == Sign::Positive || *self == Sign::Zero),
    {
        matches!(self, Sign::Positive | Sign::Zero)
    }

    /// Checks if the number is strictly positive (non zero nor negative).
    pub fn is_positive(&self) -> (r: bool)
        ensures
            r == (*self == Sign::Positive),
    {
        matches!(self, Sign::Positive)
    }

    /// Checks if the number is strictly negative (non zero nor positive).
    pub fn is_negative(&self) -> (r: bool)
        ensures
            r == (*self == Sign::Negative),
    {
        matches!(self, Sign::Negative)
    }
}

} // verus!
