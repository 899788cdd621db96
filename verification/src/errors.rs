//! The error type surfaced at the library boundary.

use vstd::prelude::*;

verus! {

/// The single error kind reported at the library boundary.
///
/// Every failure of segment scanning or entropy decoding carries a
/// human-readable reason; callers distinguish causes only by the text.
#[derive(Debug, PartialEq, Eq, Clone)]
pub struct ParserError {
    pub reason: String,
}

impl ParserError {
    /// Builds an error from a fixed reason string.
    pub fn new(reason: &str) -> (e: ParserError)
        ensures
            e.reason@ == reason@,
    {
        ParserError { reason: String::from_str(reason) }
    }
}

} // verus!
