//! Requests: built with a `Builder`, written out as HTTP/1.x text.
use vstd::prelude::*;
use vstd::slice::slice_to_vec;

use crate::http::error::HttpError;
use crate::http::header::headers_text;
use crate::http::header::lemma_headers_text_ends;
use crate::http::header::HeaderMap;
use crate::http::header::HeaderName;
use crate::http::method::Method;
use crate::http::scheme::Scheme;
use crate::http::url::SpecUrl;
use crate::http::url::Url;
use crate::http::version::Version;
use crate::text::push_str;

verus! {

#[derive(Debug)]
pub struct Request {
    method: Method,
    url: Url,
    version: Version,
    headers: HeaderMap,
}

/// The text of a request: the request line, the header lines, and an empty line.
pub open spec fn request_text(
    method: Method,
    path: Seq<char>,
    version: Version,
    entries: Seq<(Seq<char>, Seq<Seq<char>>)>,
) -> Seq<char> {
    method.spec_name() + seq![' '] + path + seq![' '] + version.spec_name() + seq!['\r', '\n']
        + headers_text(entries) + seq!['\r', '\n']
}

/// A serialized request ends with an empty line: the last header line (or
/// the request line) is followed by one more line break.
pub proof fn lemma_request_ends_with_blank_line(
    method: Method,
    path: Seq<char>,
    version: Version,
    entries: Seq<(Seq<char>, Seq<Seq<char>>)>,
)
    ensures
        ({
            let t = request_text(method, path, version, entries);
            t.len() >= 4 && t.subrange(t.len() - 4, t.len() as int) == seq!['\r', '\n', '\r', '\n']
        }),
{
    lemma_headers_text_ends(entries);
    let h = headers_text(entries);
    let line = method.spec_name() + seq![' '] + path + seq![' '] + version.spec_name() + seq![
        '\r',
        '\n',
    ];
    let t = request_text(method, path, version, entries);
    assert(t == line + h + seq!['\r', '\n']);
    if h.len() == 0 {
        assert(t.subrange(t.len() - 4, t.len() as int) =~= seq!['\r', '\n', '\r', '\n']);
    } else {
        assert(t.subrange(t.len() - 4, t.len() - 2) =~= h.subrange(h.len() - 2, h.len() as int));
        assert(t.subrange(t.len() - 4, t.len() as int) =~= seq!['\r', '\n', '\r', '\n']);
    }
}

impl Request {
    pub closed spec fn spec_method(&self) -> Method {
        self.method
    }

    pub closed spec fn spec_url(&self) -> SpecUrl {
        self.url@
    }

    pub closed spec fn spec_version(&self) -> Version {
        self.version
    }

    pub closed spec fn spec_headers(&self) -> Seq<(Seq<char>, Seq<Seq<char>>)> {
        self.headers.entries()
    }

    pub open spec fn text(&self) -> Seq<char> {
        request_text(self.spec_method(), self.spec_url().path, self.spec_version(), self.spec_headers())
    }

    pub fn builder() -> (r: Builder)
        ensures
            r.spec_method() is None,
            r.spec_url() is None,
            r.spec_version() is None,
            r.spec_headers() == Seq::<(Seq<char>, Seq<Seq<char>>)>::empty(),
    {
        Builder::new()
    }

    pub fn host(&self) -> (r: &str)
        ensures
            r@ == self.spec_url().host,
    {
        self.url.host()
    }

    pub fn port(&self) -> (r: u16)
        ensures
            r == self.spec_url().port,
    {
        self.url.port()
    }

    pub fn scheme(&self) -> (r: Scheme)
        ensures
            r == self.spec_url().scheme,
    {
        self.url.scheme()
    }

    pub fn url(&self) -> (r: &Url)
        ensures
            r@ == self.spec_url(),
    {
        &self.url
    }

    pub fn path(&self) -> (r: &str)
        ensures
            r@ == self.spec_url().path,
    {
        self.url.path()
    }

    /// The request as it is sent: `METHOD path VERSION\r\n`, the header
    /// lines, then `\r\n`.
    pub fn to_string(&self) -> (r: String)
        ensures
            r@ == self.text(),
    {
        let mut out = self.method.to_string();
        push_str(&mut out, " ");
        push_str(&mut out, self.path());
        push_str(&mut out, " ");
        let version = self.version.to_string();
        push_str(&mut out, version.as_str());
        push_str(&mut out, "\r\n");
        let headers = self.headers.to_string();
        push_str(&mut out, headers.as_str());
        push_str(&mut out, "\r\n");
        proof {
            reveal_strlit(" ");
            reveal_strlit("\r\n");
            assert(" "@ =~= seq![' ']);
            assert("\r\n"@ =~= seq!['\r', '\n']);
            assert(out@ =~= self.text());
        }
        out
    }

    /// The UTF-8 bytes of `to_string`.
    pub fn as_bytes(&self) -> (r: Vec<u8>)
        ensures
            r@ == vstd::utf8::encode_utf8(self.text()),
    {
        let text = self.to_string();
        let bytes = text.as_str().as_bytes();
        slice_to_vec(bytes)
    }
}

impl Clone for Request {
    fn clone(&self) -> (r: Request)
        ensures
            r.spec_method() == self.spec_method(),
            r.spec_url() == self.spec_url(),
            r.spec_version() == self.spec_version(),
            r.spec_headers() == self.spec_headers(),
    {
        Request {
            method: self.method,
            url: self.url.clone(),
            version: self.version,
            headers: self.headers.clone(),
        }
    }
}

#[derive(Debug)]
pub struct Builder {
    method: Option<Method>,
    url: Option<Url>,
    version: Option<Version>,
    headers: HeaderMap,
}

impl Builder {
    pub closed spec fn spec_method(&self) -> Option<Method> {
        self.method
    }

    pub closed spec fn spec_url(&self) -> Option<SpecUrl> {
        match &self.url {
            Some(u) => Some(u@),
            None => None,
        }
    }

    pub closed spec fn spec_version(&self) -> Option<Version> {
        self.version
    }

    pub closed spec fn spec_headers(&self) -> Seq<(Seq<char>, Seq<Seq<char>>)> {
        self.headers.entries()
    }

    pub fn new() -> (r: Builder)
        ensures
            r.spec_method() is None,
            r.spec_url() is None,
            r.spec_version() is None,
            r.spec_headers() == Seq::<(Seq<char>, Seq<Seq<char>>)>::empty(),
    {
        Builder { method: None, url: None, version: None, headers: HeaderMap::new() }
    }

    pub fn method(self, method: Method) -> (r: Builder)
        ensures
            r.spec_method() == Some(method),
            r.spec_url() == self.spec_url(),
            r.spec_version() == self.spec_version(),
            r.spec_headers() == self.spec_headers(),
    {
        Builder { method: Some(method), ..self }
    }

    pub fn url(self, url: Url) -> (r: Builder)
        ensures
            r.spec_method() == self.spec_method(),
            r.spec_url() == Some(url@),
            r.spec_version() == self.spec_version(),
            r.spec_headers() == self.spec_headers(),
    {
        Builder { url: Some(url), ..self }
    }

    pub fn version(self, version: Version) -> (r: Builder)
        ensures
            r.spec_method() == self.spec_method(),
            r.spec_url() == self.spec_url(),
            r.spec_version() == Some(version),
            r.spec_headers() == self.spec_headers(),
    {
        Builder { version: Some(version), ..self }
    }

    /// Adds a header value after those already given.
    pub fn header(self, name: HeaderName, value: &str) -> (r: Builder)
        ensures
            r.spec_method() == self.spec_method(),
            r.spec_url() == self.spec_url(),
            r.spec_version() == self.spec_version(),
            r.spec_headers() == crate::http::header::spec_append(
                self.spec_headers(),
                name@,
                value@,
            ),
    {
        let mut headers = self.headers;
        headers.append(name, value);
        Builder { headers, ..self }
    }

    /// The request, once a method, a URL and a version are given.
    pub fn build(self) -> (r: Result<Request, HttpError>)
        ensures
            self.spec_method() is None ==> r == Err::<Request, HttpError>(HttpError::MissingMethod),
            self.spec_method() is Some && self.spec_url() is None ==> r == Err::<
                Request,
                HttpError,
            >(HttpError::MissingUrl),
            self.spec_method() is Some && self.spec_url() is Some && self.spec_version() is None
                ==> r == Err::<Request, HttpError>(HttpError::MissingVersion),
            r matches Ok(req) ==> Some(req.spec_method()) == self.spec_method() && Some(
                req.spec_url(),
            ) == self.spec_url() && Some(req.spec_version()) == self.spec_version()
                && req.spec_headers() == self.spec_headers(),
            (self.spec_method() is Some && self.spec_url() is Some && self.spec_version() is Some)
                ==> r is Ok,
    {
        let method = match self.method {
            Some(m) => m,
            None => {
                return Err(HttpError::MissingMethod);
            },
        };
        let url = match self.url {
            Some(u) => u,
            None => {
                return Err(HttpError::MissingUrl);
            },
        };
        let version = match self.version {
            Some(v) => v,
            None => {
                return Err(HttpError::MissingVersion);
            },
        };
        Ok(Request { method, url, version, headers: self.headers })
    }
}

} // verus!
