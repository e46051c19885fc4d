//! The crate-level error type: a uniform wrapper that callers can match
//! on, carrying the format-specific kind for diagnostics.

use vstd::prelude::*;

use crate::grammar::ParseErr;
use crate::vtt::ErrorKind;

verus! {

/// The top-level error: parsing failed, for the carried reason.
#[derive(Clone, Debug, PartialEq, Eq)]
pub enum Error {
    ParsingError(ErrorKind),
}

impl View for Error {
    type V = ParseErr;

    open spec fn view(&self) -> ParseErr {
        match self {
            Error::ParsingError(k) => k@,
        }
    }
}

impl Error {
    /// The format-specific kind behind this error.
    pub fn kind(&self) -> (r: &ErrorKind)
        ensures
            r@ == self@,
    {
        match self {
            Error::ParsingError(k) => k,
        }
    }
}

} // verus!
