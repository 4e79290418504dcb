//! The error kinds shared by every component.

use vstd::prelude::*;

verus! {

/// Why an operation was refused.
#[derive(Debug, PartialEq, Eq)]
pub enum Error {
    /// Malformed textual input; the message names the offending input.
    ParseError(String),
    /// A well-formed value that breaks a rule of the game.
    InvalidArgument(String),
}

impl Error {
    /// The human-readable message carried by the error.
    pub open spec fn message(self) -> Seq<char> {
        match self {
            Error::ParseError(m) => m@,
            Error::InvalidArgument(m) => m@,
        }
    }
}

} // verus!
