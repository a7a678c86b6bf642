//! `file://` URLs: absolute paths on the local file system.
use vstd::prelude::*;
use vstd::utf8::encode_utf8;
use vstd::utf8::valid_utf8;

use crate::http::error::HttpError;
use crate::http::response::utf8_str;
use crate::loader::data_client::RequestError;
use crate::text::chars_of;
use crate::text::has_prefix;
use crate::text::slice_to_vec_range;
use crate::text::starts_with_str;
use crate::text::string_of;

verus! {

/// Why a `file://` URL was refused.
#[derive(Debug, Clone, Copy, PartialEq, Eq, Structural)]
pub enum FileUrlError {
    /// It does not start with `file://`.
    MissingPrefix,
    /// The path after the prefix is not absolute.
    RelativePath,
}

pub open spec fn file_prefix() -> Seq<char> {
    seq!['f', 'i', 'l', 'e', ':', '/', '/']
}

/// Whether `p` has the shape that some platform may count as an absolute
/// path: it starts with a separator (`/` or `\`), or its second character is
/// the `:` of a drive letter.
pub open spec fn may_be_absolute(p: Seq<char>) -> bool {
    p.len() > 0 && (p[0] == '/' || p[0] == '\\' || (p.len() >= 2 && p[1] == ':'))
}

/// Calls `std::path::Path::is_absolute`. On Unix a path is absolute exactly
/// when it starts with `/`; on Windows it needs a prefix (a drive letter and
/// `:`, or a form that starts with a separator) and a root. So a path that
/// comes out absolute has the shape of `may_be_absolute` on every platform.
/// Which paths of that shape count is left to the platform and not stated.
#[verifier::external_body]
fn path_is_absolute(path: &str) -> (r: bool)
    ensures
        r ==> may_be_absolute(path@),
{
    std::path::Path::new(path).is_absolute()
}

#[derive(Debug)]
pub struct Url {
    path: String,
}

impl Url {
    pub closed spec fn spec_path(&self) -> Seq<char> {
        self.path@
    }

    /// Reads `file://<path>`; the path must be absolute on this platform.
    pub fn parse(s: &str) -> (r: Result<Url, FileUrlError>)
        ensures
            !has_prefix(s@, file_prefix()) ==> r == Err::<Url, FileUrlError>(
                FileUrlError::MissingPrefix,
            ),
            r matches Ok(u) ==> has_prefix(s@, file_prefix()) && u.spec_path() == s@.skip(7),
            has_prefix(s@, file_prefix()) ==> (r matches Ok(u) && u.spec_path() == s@.skip(7))
                || r == Err::<Url, FileUrlError>(FileUrlError::RelativePath),
            has_prefix(s@, file_prefix()) && !may_be_absolute(s@.skip(7)) ==> r == Err::<
                Url,
                FileUrlError,
            >(FileUrlError::RelativePath),
    {
        let cs = chars_of(s);
        proof {
            reveal_strlit("file://");
            assert("file://"@ =~= file_prefix());
        }
        if !starts_with_str(cs.as_slice(), "file://") {
            return Err(FileUrlError::MissingPrefix);
        }
        let n = cs.len();
        let rest = slice_to_vec_range(cs.as_slice(), 7, n);
        let path = string_of(rest.as_slice());
        assert(path@ =~= s@.skip(7));
        let absolute = path_is_absolute(path.as_str());
        Url::from_path(path, absolute)
    }

    /// A URL for `path`, given whether the platform counts it as absolute.
    pub fn from_path(path: String, absolute: bool) -> (r: Result<Url, FileUrlError>)
        ensures
            absolute ==> (r matches Ok(u) && u.spec_path() == path@),
            !absolute ==> r == Err::<Url, FileUrlError>(FileUrlError::RelativePath),
    {
        if !absolute {
            return Err(FileUrlError::RelativePath);
        }
        Ok(Url { path })
    }

    pub fn path(&self) -> (r: &str)
        ensures
            r@ == self.spec_path(),
    {
        self.path.as_str()
    }
}

impl Clone for Url {
    fn clone(&self) -> (r: Url)
        ensures
            r.spec_path() == self.spec_path(),
    {
        Url { path: self.path.clone() }
    }
}

impl std::str::FromStr for Url {
    type Err = FileUrlError;

    fn from_str(s: &str) -> (r: Result<Url, FileUrlError>)
        ensures
            !has_prefix(s@, file_prefix()) ==> r == Err::<Url, FileUrlError>(
                FileUrlError::MissingPrefix,
            ),
            has_prefix(s@, file_prefix()) ==> (r matches Ok(u) && u.spec_path() == s@.skip(7))
                || r == Err::<Url, FileUrlError>(FileUrlError::RelativePath),
            has_prefix(s@, file_prefix()) && !may_be_absolute(s@.skip(7)) ==> r == Err::<
                Url,
                FileUrlError,
            >(FileUrlError::RelativePath),
    {
        Url::parse(s)
    }
}

#[derive(Debug)]
pub struct Request {
    url: Url,
}

impl Request {
    pub closed spec fn spec_path(&self) -> Seq<char> {
        self.url.spec_path()
    }

    pub fn builder() -> (r: Builder)
        ensures
            r.spec_url() is None,
    {
        Builder::new()
    }

    pub fn url(&self) -> (r: &Url)
        ensures
            r.spec_path() == self.spec_path(),
    {
        &self.url
    }
}

impl Clone for Request {
    fn clone(&self) -> (r: Request)
        ensures
            r.spec_path() == self.spec_path(),
    {
        Request { url: self.url.clone() }
    }
}

#[derive(Debug)]
pub struct Builder {
    url: Option<Url>,
}

impl Builder {
    pub closed spec fn spec_url(&self) -> Option<Seq<char>> {
        match &self.url {
            Some(u) => Some(u.spec_path()),
            None => None,
        }
    }

    pub fn new() -> (r: Builder)
        ensures
            r.spec_url() is None,
    {
        Builder { url: None }
    }

    pub fn url(self, url: &Url) -> (r: Builder)
        ensures
            r.spec_url() == Some(url.spec_path()),
    {
        Builder { url: Some(url.clone()) }
    }

    pub fn build(self) -> (r: Result<Request, RequestError>)
        ensures
            match self.spec_url() {
                Some(p) => r matches Ok(req) && req.spec_path() == p,
                None => r == Err::<Request, RequestError>(RequestError::MissingUrl),
            },
    {
        match self.url {
            Some(url) => Ok(Request { url }),
            None => Err(RequestError::MissingUrl),
        }
    }
}

#[derive(Debug)]
pub struct Response {
    body: Vec<u8>,
}

impl Response {
    pub closed spec fn spec_body(&self) -> Seq<u8> {
        self.body@
    }

    /// A response carrying the bytes read from the file.
    pub fn new(body: Vec<u8>) -> (r: Response)
        ensures
            r.spec_body() == body@,
    {
        Response { body }
    }

    pub fn body(&self) -> (r: &[u8])
        ensures
            r@ == self.spec_body(),
    {
        self.body.as_slice()
    }

    /// The body as text, when it is valid UTF-8.
    pub fn body_as_str(&self) -> (r: Result<&str, HttpError>)
        ensures
            r is Ok <==> valid_utf8(self.spec_body()),
            r matches Ok(s) ==> encode_utf8(s@) == self.spec_body(),
            r is Err ==> r == Err::<&str, HttpError>(HttpError::BodyNotUtf8),
    {
        match utf8_str(self.body.as_slice()) {
            Some(s) => Ok(s),
            None => Err(HttpError::BodyNotUtf8),
        }
    }
}

} // verus!
