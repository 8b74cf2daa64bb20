//! The error type of this library.

use vstd::prelude::*;

verus! {

/// The error that std reports for bytes that are not UTF-8. Nothing of it is
/// visible to proofs.
#[verifier::external_type_specification]
#[verifier::external_body]
pub struct ExUtf8Error(core::str::Utf8Error);

/// Defines an error type for media types.
#[derive(Clone, Copy, Debug, PartialEq, Eq)]
pub enum Error {
    /// Parsing the given string as a media type failed.
    Invalid,
    /// The media type does not have this parameter.
    NotFound,
    /// Decoding a byte token as UTF-8 failed.
    Utf8Error(core::str::Utf8Error),
}

impl Error {
    /// A short description of the error.
    pub fn description(&self) -> (text: &'static str)
        ensures
            text@ == self.describe(),
    {
        match self {
            Error::Invalid => "given media type is invalid",
            Error::NotFound => "given parameter not found",
            Error::Utf8Error(_) => "decoding as UTF-8 failed",
        }
    }

    /// The text that `description` returns.
    pub open spec fn describe(&self) -> Seq<char> {
        match self {
            Error::Invalid => "given media type is invalid"@,
            Error::NotFound => "given parameter not found"@,
            Error::Utf8Error(_) => "decoding as UTF-8 failed"@,
        }
    }
}

} // verus!
