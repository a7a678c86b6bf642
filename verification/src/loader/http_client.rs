//! The decisions of the HTTP connection pool; the connections themselves
//! are opened, written and read by the caller.
//!
//! A request is sent on the pooled connection for its origin, or a new one.
//! If the exchange fails, the request is sent once more on a new
//! connection; if that fails too, loading fails. After a response, the
//! connection goes back to the pool unless the server said it will close it.
use vstd::prelude::*;

use crate::http::response::first_value;
use crate::http::header::connection_name;
use crate::http::header::content_encoding_name;
use crate::http::header::transfer_encoding_name;
use crate::http::Head;

verus! {

/// How many times a request is sent again after a failed exchange.
pub const MAX_RETRIES: usize = 1;

/// What to do after an exchange failed.
#[derive(Debug, Clone, Copy, PartialEq, Eq, Structural)]
pub enum Retry {
    /// Open a new connection and send the request again.
    Reconnect,
    /// Give up on the request.
    Fail,
}

/// The retries made for one request so far.
#[derive(Debug)]
pub struct Attempts {
    retries: usize,
}

impl Attempts {
    #[verifier::type_invariant]
    spec fn inv(self) -> bool {
        self.retries <= MAX_RETRIES
    }

    pub closed spec fn spec_retries(&self) -> nat {
        self.retries as nat
    }

    /// No retries yet.
    pub fn new() -> (r: Attempts)
        ensures
            r.spec_retries() == 0,
    {
        Attempts { retries: 0 }
    }

    /// After a failed exchange: send again on a new connection while fewer
    /// than `MAX_RETRIES` retries were made, else give up. So a request is
    /// sent at most `MAX_RETRIES + 1` times.
    pub fn on_failure(&mut self) -> (r: Retry)
        ensures
            old(self).spec_retries() < MAX_RETRIES ==> r == Retry::Reconnect
                && final(self).spec_retries() == old(self).spec_retries() + 1,
            old(self).spec_retries() >= MAX_RETRIES ==> r == Retry::Fail
                && final(self).spec_retries() == old(self).spec_retries(),
            final(self).spec_retries() <= MAX_RETRIES,
    {
        proof {
            use_type_invariant(&*self);
        }
        if self.retries >= MAX_RETRIES {
            return Retry::Fail;
        }
        self.retries = self.retries + 1;
        Retry::Reconnect
    }
}

/// Whether the connection a response came on goes back to the pool: unless
/// its `Connection` header is `close`.
pub fn keeps_connection(head: &Head) -> (r: bool)
    ensures
        r == (first_value(head.view().headers, connection_name()) != Some(
            seq!['c', 'l', 'o', 's', 'e'],
        )),
{
    !head.is_connection_closed()
}

/// Why the body of a response cannot be read.
#[derive(Debug, Clone, Copy, PartialEq, Eq, Structural)]
pub enum BodyError {
    /// It has a `Transfer-Encoding`, which is not supported.
    TransferEncoding,
    /// It has a `Content-Encoding`, which is not supported.
    ContentEncoding,
    /// It has no usable `Content-Length`.
    MissingContentLength,
}

/// How many body bytes follow the head: a `Transfer-Encoding` is refused
/// first, then a `Content-Encoding`; otherwise the `Content-Length` gives
/// the length, and without one the body cannot be read.
pub fn body_length(head: &Head) -> (r: Result<usize, BodyError>)
    ensures
        first_value(head.view().headers, transfer_encoding_name()) is Some ==> r == Err::<
            usize,
            BodyError,
        >(BodyError::TransferEncoding),
        first_value(head.view().headers, transfer_encoding_name()) is None && first_value(
            head.view().headers,
            content_encoding_name(),
        ) is Some ==> r == Err::<usize, BodyError>(BodyError::ContentEncoding),
        first_value(head.view().headers, transfer_encoding_name()) is None && first_value(
            head.view().headers,
            content_encoding_name(),
        ) is None ==> match head.spec_content_length() {
            Some(n) => r == Ok::<usize, BodyError>(n),
            None => r == Err::<usize, BodyError>(BodyError::MissingContentLength),
        },
{
    if head.transfer_encoding().is_some() {
        return Err(BodyError::TransferEncoding);
    }
    if head.content_encoding().is_some() {
        return Err(BodyError::ContentEncoding);
    }
    match head.content_length() {
        Some(n) => Ok(n),
        None => Err(BodyError::MissingContentLength),
    }
}

} // verus!
