//! A response from any of the loader's schemes.
use vstd::prelude::*;
use vstd::utf8::encode_utf8;
use vstd::utf8::valid_utf8;

use crate::http;
use crate::http::HttpError;
use crate::loader::data_client;
use crate::loader::file_client;

verus! {

#[derive(Debug)]
pub enum Response {
    Http(http::Response),
    File(file_client::Response),
    Data(data_client::Response),
}

impl From<http::Response> for Response {
    fn from(v: http::Response) -> (r: Response)
        ensures
            r == Response::Http(v),
    {
        Response::Http(v)
    }
}

impl vstd::std_specs::convert::FromSpecImpl<http::Response> for Response {
    open spec fn obeys_from_spec() -> bool {
        true
    }

    open spec fn from_spec(v: http::Response) -> Response {
        Response::Http(v)
    }
}

impl From<file_client::Response> for Response {
    fn from(v: file_client::Response) -> (r: Response)
        ensures
            r == Response::File(v),
    {
        Response::File(v)
    }
}

impl vstd::std_specs::convert::FromSpecImpl<file_client::Response> for Response {
    open spec fn obeys_from_spec() -> bool {
        true
    }

    open spec fn from_spec(v: file_client::Response) -> Response {
        Response::File(v)
    }
}

impl From<data_client::Response> for Response {
    fn from(v: data_client::Response) -> (r: Response)
        ensures
            r == Response::Data(v),
    {
        Response::Data(v)
    }
}

impl vstd::std_specs::convert::FromSpecImpl<data_client::Response> for Response {
    open spec fn obeys_from_spec() -> bool {
        true
    }

    open spec fn from_spec(v: data_client::Response) -> Response {
        Response::Data(v)
    }
}

impl Response {
    /// The body bytes, whatever the scheme.
    pub open spec fn spec_body(&self) -> Seq<u8> {
        match self {
            Response::Http(r) => r.spec_body(),
            Response::File(r) => r.spec_body(),
            Response::Data(r) => r.spec_body(),
        }
    }

    /// The body as text, when it is valid UTF-8.
    pub fn body_as_str(&self) -> (r: Result<&str, HttpError>)
        ensures
            r is Ok <==> valid_utf8(self.spec_body()),
            r matches Ok(s) ==> encode_utf8(s@) == self.spec_body(),
            r is Err ==> r == Err::<&str, HttpError>(HttpError::BodyNotUtf8),
    {
        match self {
            Response::Http(resp) => resp.body_as_str(),
            Response::File(resp) => resp.body_as_str(),
            Response::Data(resp) => resp.body_as_str(),
        }
    }
}

} // verus!
