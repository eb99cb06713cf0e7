use std::string::FromUtf8Error;
use vstd::prelude::*;

verus! {

/// Why a buffer could not be decoded.
#[derive(Debug, Clone, Copy, PartialEq, Eq, Structural)]
pub enum Error {
    /// A fixed-width or declared-length read ran past the end of the buffer.
    EndOfData,
    /// The payload of a text string is not valid UTF-8.
    StringParseError,
}

/// The error of `String::from_utf8`, which decoding maps to
/// `Error::StringParseError`.
#[verifier::external_type_specification]
#[verifier::external_body]
pub struct ExFromUtf8Error(FromUtf8Error);

impl From<FromUtf8Error> for Error {
    fn from(_error: FromUtf8Error) -> (r: Self)
        ensures
            r == Error::StringParseError,
    {
        Error::StringParseError
    }
}

impl vstd::std_specs::convert::FromSpecImpl<FromUtf8Error> for Error {
    open spec fn obeys_from_spec() -> bool {
        true
    }

    open spec fn from_spec(v: FromUtf8Error) -> Error {
        Error::StringParseError
    }
}

} // verus!
