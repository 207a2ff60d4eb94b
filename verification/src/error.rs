//! The error type of the library.

use vstd::prelude::*;
use crate::text::{decimal, push_decimal};

verus! {

/// The result type of the library.
pub type Result<T, E = Error> = core::result::Result<T, E>;

/// Everything that can go wrong.
#[derive(Debug, Clone, PartialEq, Eq)]
pub enum Error {
    /// A span map breaks one of its invariants.
    ///
    /// No input text causes this. It means that a normalization pass is wrong.
    SpanMapInvariant { index: usize, detail: String },
    /// Two span maps do not meet in the same text.
    ///
    /// It means that a pipeline was put together in the wrong order.
    SpanMapMismatch { detail: String },
    /// A token in a masked text is malformed or has no original.
    RestoreToken { detail: String },
}

impl Error {
    /// The sentence that describes an error.
    pub open spec fn text(self) -> Seq<char> {
        match self {
            Error::SpanMapInvariant { index, detail } => "span map invariant violated at segment "@ + decimal(
                index as nat,
            ) + ": "@ + detail@,
            Error::SpanMapMismatch { detail } => "span map coordinate mismatch: "@ + detail@,
            Error::RestoreToken { detail } => "restore token error: "@ + detail@,
        }
    }

    /// The sentence that describes the error.
    pub fn message(&self) -> (r: String)
        ensures
            r@ == self.text(),
    {
        match self {
            Error::SpanMapInvariant { index, detail } => {
                let mut out = String::from_str("span map invariant violated at segment ");
                push_decimal(&mut out, *index as u64);
                out.append(": ");
                out.append(detail.as_str());
                out
            },
            Error::SpanMapMismatch { detail } => {
                let mut out = String::from_str("span map coordinate mismatch: ");
                out.append(detail.as_str());
                out
            },
            Error::RestoreToken { detail } => {
                let mut out = String::from_str("restore token error: ");
                out.append(detail.as_str());
                out
            },
        }
    }
}

} // verus!
