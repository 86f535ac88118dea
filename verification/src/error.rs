//! The ways in which an operation of this crate can fail.

use vstd::prelude::*;

verus! {

/// What went wrong in an operation on bits.
#[derive(Debug, Clone, Copy, PartialEq, Eq, Structural)]
pub enum Error {
    /// When converting, the resulting value is too large to store in the
    /// target type.
    ConversionOverflow,
    /// The position is out of bounds for the value being accessed.
    PosOutOfBounds,
}

impl Error {
    /// The text of [`Error::message`].
    pub open spec fn message_text(self) -> Seq<char> {
        match self {
            Error::ConversionOverflow => "converted value overflows"@,
            Error::PosOutOfBounds => "position out of bounds"@,
        }
    }

    /// A short description of the error, for people to read.
    pub fn message(&self) -> (text: String)
        ensures
            text@ == self.message_text(),
    {
        match self {
            Error::ConversionOverflow => "converted value overflows".to_owned(),
            Error::PosOutOfBounds => "position out of bounds".to_owned(),
        }
    }
}

} // verus!
