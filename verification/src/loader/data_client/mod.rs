//! `data:` URLs: the resource is written in the URL itself.
use vstd::prelude::*;
use vstd::slice::slice_to_vec;
use vstd::utf8::encode_utf8;
use vstd::utf8::valid_utf8;

use crate::http::error::HttpError;
use crate::http::response::utf8_str;
use crate::mime::MediaType;
use crate::mime::MediaTypeError;
use crate::text::chars_of;
use crate::text::find_char;
use crate::text::find_char_exec;
use crate::text::has_prefix;
use crate::text::matches_at;
use crate::text::lemma_find_from_bounds;
use crate::text::slice_to_vec_range;
use crate::text::starts_with_str;
use crate::text::string_of;

verus! {

/// Why a `data:` URL was refused.
#[derive(Debug, Clone, Copy, PartialEq, Eq, Structural)]
pub enum DataUrlError {
    /// It does not start with `data:`.
    MissingPrefix,
    /// No `,` separates the media type from the body.
    MissingComma,
    InvalidMediaType(MediaTypeError),
}

/// Why a request could not be built.
#[derive(Debug, Clone, Copy, PartialEq, Eq, Structural)]
pub enum RequestError {
    MissingUrl,
}

pub open spec fn data_prefix() -> Seq<char> {
    seq!['d', 'a', 't', 'a', ':']
}

/// `data:[media type],body`; an empty media type is `text/plain`, the body
/// is the UTF-8 encoding of the text after the comma.
pub open spec fn spec_parse_data_url(s: Seq<char>) -> Result<(MediaType, Seq<u8>), DataUrlError> {
    if !has_prefix(s, data_prefix()) {
        Err(DataUrlError::MissingPrefix)
    } else {
        let rest = s.skip(5);
        match find_char(rest, ',') {
            None => Err(DataUrlError::MissingComma),
            Some(i) => {
                let media = rest.take(i);
                let body = encode_utf8(rest.skip(i + 1));
                if media.len() == 0 {
                    Ok((MediaType::TextPlain, body))
                } else {
                    match MediaType::spec_parse(media) {
                        None => Err(DataUrlError::InvalidMediaType(MediaTypeError::Unsupported)),
                        Some(m) => Ok((m, body)),
                    }
                }
            },
        }
    }
}

/// Reading `data:` + `media` + `,` + `text`, where `media` holds no comma:
/// the media type comes from `media` alone (`text/plain` when it is empty)
/// and the body is the UTF-8 of `text`, commas and all.
pub proof fn lemma_data_url_splits(media: Seq<char>, text: Seq<char>)
    requires
        !media.contains(','),
    ensures
        ({
            let r = spec_parse_data_url(data_prefix() + media + seq![','] + text);
            &&& media.len() == 0 ==> r == Ok::<(MediaType, Seq<u8>), DataUrlError>(
                (MediaType::TextPlain, encode_utf8(text)),
            )
            &&& media.len() > 0 && MediaType::spec_parse(media) is Some ==> r == Ok::<
                (MediaType, Seq<u8>),
                DataUrlError,
            >((MediaType::spec_parse(media).unwrap(), encode_utf8(text)))
            &&& media.len() > 0 && MediaType::spec_parse(media) is None ==> r == Err::<
                (MediaType, Seq<u8>),
                DataUrlError,
            >(DataUrlError::InvalidMediaType(MediaTypeError::Unsupported))
        }),
{
    let s = data_prefix() + media + seq![','] + text;
    assert(has_prefix(s, data_prefix())) by {
        assert(s.subrange(0, 5) =~= data_prefix());
    }
    let rest = s.skip(5);
    assert(rest =~= media + (seq![','] + text));
    let n = media.len() as int;
    lemma_find_from_bounds(rest, 0, seq![',']);
    assert(matches_at(rest, n, seq![','])) by {
        assert(rest.subrange(n, n + 1) =~= seq![',']);
    }
    if let Some(j) = find_char(rest, ',') {
        if j < n {
            assert(rest.subrange(j, j + 1)[0] == rest[j]);
            assert(rest[j] == media[j]);
        }
    }
    assert(find_char(rest, ',') == Some(n));
    assert(rest.take(n) =~= media);
    assert(rest.skip(n + 1) =~= text);
}

#[derive(Debug)]
pub struct Url {
    media_type: MediaType,
    body: Vec<u8>,
}

impl Url {
    pub closed spec fn spec_media_type(&self) -> MediaType {
        self.media_type
    }

    pub closed spec fn spec_body(&self) -> Seq<u8> {
        self.body@
    }

    pub fn parse(s: &str) -> (r: Result<Url, DataUrlError>)
        ensures
            match spec_parse_data_url(s@) {
                Ok((m, b)) => r matches Ok(u) && u.spec_media_type() == m && u.spec_body() == b,
                Err(e) => r == Err::<Url, DataUrlError>(e),
            },
    {
        let cs = chars_of(s);
        proof {
            reveal_strlit("data:");
            assert("data:"@ =~= data_prefix());
        }
        if !starts_with_str(cs.as_slice(), "data:") {
            return Err(DataUrlError::MissingPrefix);
        }
        let n = cs.len();
        let rest = slice_to_vec_range(cs.as_slice(), 5, n);
        assert(rest@ =~= s@.skip(5));
        let comma = match find_char_exec(rest.as_slice(), ',') {
            Some(i) => i,
            None => {
                return Err(DataUrlError::MissingComma);
            },
        };
        proof {
            lemma_find_from_bounds(rest@, 0, seq![',']);
        }
        let media = slice_to_vec_range(rest.as_slice(), 0, comma);
        let m = rest.len();
        let body_chars = slice_to_vec_range(rest.as_slice(), comma + 1, m);
        assert(media@ =~= rest@.take(comma as int));
        assert(body_chars@ =~= rest@.skip(comma + 1));
        let media_type = if media.len() == 0 {
            MediaType::TextPlain
        } else {
            match MediaType::parse_chars(media.as_slice()) {
                Ok(t) => t,
                Err(e) => {
                    return Err(DataUrlError::InvalidMediaType(e));
                },
            }
        };
        let body_text = string_of(body_chars.as_slice());
        let body = slice_to_vec(body_text.as_str().as_bytes());
        Ok(Url { media_type, body })
    }

    pub fn media_type(&self) -> (r: &MediaType)
        ensures
            *r == self.spec_media_type(),
    {
        &self.media_type
    }

    pub fn body(&self) -> (r: &[u8])
        ensures
            r@ == self.spec_body(),
    {
        self.body.as_slice()
    }
}

impl Clone for Url {
    fn clone(&self) -> (r: Url)
        ensures
            r.spec_media_type() == self.spec_media_type(),
            r.spec_body() == self.spec_body(),
    {
        Url { media_type: self.media_type, body: slice_to_vec(self.body.as_slice()) }
    }
}

impl std::str::FromStr for Url {
    type Err = DataUrlError;

    fn from_str(s: &str) -> (r: Result<Url, DataUrlError>)
        ensures
            match spec_parse_data_url(s@) {
                Ok((m, b)) => r matches Ok(u) && u.spec_media_type() == m && u.spec_body() == b,
                Err(e) => r == Err::<Url, DataUrlError>(e),
            },
    {
        Url::parse(s)
    }
}

#[derive(Debug)]
pub struct Request {
    pub url: Url,
}

impl Request {
    pub fn builder() -> (r: Builder)
        ensures
            r.spec_url() is None,
    {
        Builder::new()
    }
}

impl Clone for Request {
    fn clone(&self) -> (r: Request)
        ensures
            r.url.spec_media_type() == self.url.spec_media_type(),
            r.url.spec_body() == self.url.spec_body(),
    {
        Request { url: self.url.clone() }
    }
}

#[derive(Debug)]
pub struct Builder {
    url: Option<Url>,
}

impl Builder {
    pub closed spec fn spec_url(&self) -> Option<(MediaType, Seq<u8>)> {
        match &self.url {
            Some(u) => Some((u.spec_media_type(), u.spec_body())),
            None => None,
        }
    }

    pub fn new() -> (r: Builder)
        ensures
            r.spec_url() is None,
    {
        Builder { url: None }
    }

    pub fn url(self, url: &Url) -> (r: Builder)
        ensures
            r.spec_url() == Some((url.spec_media_type(), url.spec_body())),
    {
        Builder { url: Some(url.clone()) }
    }

    pub fn build(self) -> (r: Result<Request, RequestError>)
        ensures
            match self.spec_url() {
                Some((m, b)) => r matches Ok(req) && req.url.spec_media_type() == m
                    && req.url.spec_body() == b,
                None => r == Err::<Request, RequestError>(RequestError::MissingUrl),
            },
    {
        match self.url {
            Some(url) => Ok(Request { url }),
            None => Err(RequestError::MissingUrl),
        }
    }
}

#[derive(Debug)]
pub struct Response {
    body: Vec<u8>,
}

impl Response {
    pub closed spec fn spec_body(&self) -> Seq<u8> {
        self.body@
    }

    pub fn body(&self) -> (r: &[u8])
        ensures
            r@ == self.spec_body(),
    {
        self.body.as_slice()
    }

    /// The body as text, when it is valid UTF-8.
    pub fn body_as_str(&self) -> (r: Result<&str, HttpError>)
        ensures
            r is Ok <==> valid_utf8(self.spec_body()),
            r matches Ok(s) ==> encode_utf8(s@) == self.spec_body(),
            r is Err ==> r == Err::<&str, HttpError>(HttpError::BodyNotUtf8),
    {
        match utf8_str(self.body.as_slice()) {
            Some(s) => Ok(s),
            None => Err(HttpError::BodyNotUtf8),
        }
    }
}

/// Loading a `data:` URL hands back the body it carries.
pub fn load(request: Request) -> (r: Response)
    ensures
        r.spec_body() == request.url.spec_body(),
{
    let body = request.url.body;
    Response { body }
}

} // verus!
