//! A request for any of the loader's schemes.
use vstd::prelude::*;

use crate::http;
use crate::loader::data_client;
use crate::loader::file_client;

verus! {

#[derive(Debug)]
pub enum Request {
    Http(http::Request),
    File(file_client::Request),
    Data(data_client::Request),
}

impl From<http::Request> for Request {
    fn from(v: http::Request) -> (r: Request)
        ensures
            r == Request::Http(v),
    {
        Request::Http(v)
    }
}

impl vstd::std_specs::convert::FromSpecImpl<http::Request> for Request {
    open spec fn obeys_from_spec() -> bool {
        true
    }

    open spec fn from_spec(v: http::Request) -> Request {
        Request::Http(v)
    }
}

impl From<file_client::Request> for Request {
    fn from(v: file_client::Request) -> (r: Request)
        ensures
            r == Request::File(v),
    {
        Request::File(v)
    }
}

impl vstd::std_specs::convert::FromSpecImpl<file_client::Request> for Request {
    open spec fn obeys_from_spec() -> bool {
        true
    }

    open spec fn from_spec(v: file_client::Request) -> Request {
        Request::File(v)
    }
}

impl From<data_client::Request> for Request {
    fn from(v: data_client::Request) -> (r: Request)
        ensures
            r == Request::Data(v),
    {
        Request::Data(v)
    }
}

impl vstd::std_specs::convert::FromSpecImpl<data_client::Request> for Request {
    open spec fn obeys_from_spec() -> bool {
        true
    }

    open spec fn from_spec(v: data_client::Request) -> Request {
        Request::Data(v)
    }
}

impl Request {
    pub fn builder() -> (r: Builder)
        ensures
            r == (Builder {  }),
    {
        Builder::new()
    }
}

/// Picks the builder for a scheme.
#[derive(Debug)]
pub struct Builder {}

impl Builder {
    pub fn new() -> (r: Builder)
        ensures
            r == (Builder {  }),
    {
        Builder {  }
    }

    pub fn http(self) -> (r: http::Builder)
        ensures
            r.spec_method() is None,
            r.spec_url() is None,
            r.spec_version() is None,
            r.spec_headers() == Seq::<(Seq<char>, Seq<Seq<char>>)>::empty(),
    {
        http::Builder::new()
    }

    pub fn file(self) -> (r: file_client::Builder)
        ensures
            r.spec_url() is None,
    {
        file_client::Builder::new()
    }

    pub fn data(self) -> (r: data_client::Builder)
        ensures
            r.spec_url() is None,
    {
        data_client::Builder::new()
    }
}

} // verus!
