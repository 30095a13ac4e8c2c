//! Error types shared across the crate.
use vstd::prelude::*;

verus! {

/// An index that points past the end of a list.
#[derive(Copy, Clone, Debug, PartialEq, Eq, PartialOrd, Ord, Hash, Default)]
pub struct OutOfBoundsIndexError;

/// A character or number that is not a base-ten digit (`0`--`9`).
#[derive(Copy, Clone, Debug, PartialEq, Eq, PartialOrd, Ord, Hash, Default)]
pub struct InvalidDigitError;

/// Why a piece of text is not the decimal form of a finite floating-point number.
#[derive(Copy, Clone, Debug, PartialEq, Eq, PartialOrd, Ord, Hash)]
pub enum InvalidFloatError {
    /// The text is `NaN`.
    Nan,
    /// The text is `inf` or `-inf`.
    Infinite,
    /// The text is neither a number nor one of the two words above.
    Malformed,
}

/// Parts that do not make up a valid [`crate::digits::Digits`].
#[derive(Copy, Clone, Debug, PartialEq, Eq, PartialOrd, Ord, Hash)]
pub enum InvalidDigitsPartsError {
    /// The dot index is greater than the number of digits.
    OutOfBoundsDot,
    /// The list of digits is empty.
    EmptyDigitsList,
}

/// A [`crate::digits::Place`] that has no digit in the [`crate::digits::Digits`] asked.
#[derive(Copy, Clone, Debug, PartialEq, Eq, PartialOrd, Ord, Hash, Default)]
pub struct OutOfBoundsPlaceError;

} // verus!
