use vstd::prelude::*;

verus! {

/// Invalid number error.
///
/// The inner value is the data that failed to be parsed, handed back as it
/// was given.
#[derive(Clone, Copy, Debug)]
pub struct InvalidNumber<T>(pub T);

/// Float conversion error.
#[derive(Clone, Copy, Debug, PartialEq, Eq, Structural)]
pub enum TryFromFloatError {
    /// The float was NaN, which is not a JSON number.
    Nan,
    /// The float was not finite, and hence not a JSON number.
    Infinite,
}

} // verus!
