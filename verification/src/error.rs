//! The ways in which encoding and decoding can fail.

use vstd::prelude::*;

verus! {

/// The result of a SLIP operation.
pub type Result<T> = core::result::Result<T, Error>;

/// Errors encountered by SLIP.
#[derive(Debug, Clone, Copy, PartialEq, Eq, Structural)]
pub enum Error {
    /// The encoder does not have enough space to write the SLIP header.
    NoOutputSpaceForHeader,
    /// The encoder does not have enough space to write the final SLIP end byte.
    NoOutputSpaceForEndByte,
    /// The decoder cannot process the SLIP header.
    BadHeaderDecode,
    /// The decoder cannot process the SLIP escape sequence.
    BadEscapeSequenceDecode,
}

impl Error {
    /// The text that describes each error.
    pub open spec fn message_text(self) -> Seq<char> {
        match self {
            Error::NoOutputSpaceForHeader => "insufficient space in output buffer for header"@,
            Error::NoOutputSpaceForEndByte => "insufficient space in output buffer for end byte"@,
            Error::BadHeaderDecode => "malformed header"@,
            Error::BadEscapeSequenceDecode => "malformed escape sequence"@,
        }
    }

    /// A short description of the error, for people.
    pub fn message(&self) -> (text: &'static str)
        ensures
            text@ == self.message_text(),
    {
        match self {
            Error::NoOutputSpaceForHeader => "insufficient space in output buffer for header",
            Error::NoOutputSpaceForEndByte => "insufficient space in output buffer for end byte",
            Error::BadHeaderDecode => "malformed header",
            Error::BadEscapeSequenceDecode => "malformed escape sequence",
        }
    }
}

} // verus!
