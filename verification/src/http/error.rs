//! What can go wrong building requests and reading responses.
use vstd::prelude::*;

verus! {

#[derive(Debug, Clone, Copy, PartialEq, Eq, Structural)]
pub enum HttpError {
    MissingMethod,
    MissingUrl,
    MissingVersion,
    InvalidVersion,
    InvalidStatusCode,
    /// The response head is not UTF-8.
    InvalidHeaderEncoding,
    MissingStatusLine,
    MissingStatusCode,
    /// No blank line ends the response head.
    MissingSeparator,
    /// The response body is not UTF-8.
    BodyNotUtf8,
}

} // verus!
