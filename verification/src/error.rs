//! Parse failures. A malformed input never yields a partial grid: the first
//! offending line or character aborts parsing with one of these values.

use vstd::prelude::*;

verus! {

/// Why a grid could not be built from its input text.
#[derive(Clone, Copy, Debug, PartialEq, Eq, Structural)]
pub enum ParseError {
    /// A line's length differs from the stride established by the first line.
    IrregularInputError { length: usize, stride: usize },
    /// A character other than the two recognized symbols `.` and `#`.
    InvalidCharacterError { character: char },
}

} // verus!
