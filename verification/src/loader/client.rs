//! The loader's client: how it builds HTTP requests and which responses it
//! follows. Sending requests and reading responses is left to the caller.
use vstd::prelude::*;

use crate::http;
use crate::http::header::connection_name;
use crate::http::header::host_name;
use crate::http::header::spec_append;
use crate::http::header::user_agent_name;
use crate::http::response::first_value;
use crate::http::response::location_name;
use crate::http::response::SpecHead;
use crate::http::url::spec_host_header;
use crate::http::url::spec_resolve;
use crate::http::url::SpecUrl;
use crate::http::url::SpecUrlError;
use crate::http::Head;
use crate::http::HeaderName;
use crate::http::HttpError;
use crate::http::Method;
use crate::http::UrlError;
use crate::http::Version;
use crate::text::has_prefix;

verus! {

/// Whether connections are kept open between requests.
#[derive(Debug, Clone, Copy, PartialEq, Eq, Structural)]
pub enum ConnectionPolicy {
    Close,
    KeepAlive,
}

impl ConnectionPolicy {
    /// The `Connection` header value for the policy.
    pub open spec fn spec_header_value(self) -> Seq<char> {
        match self {
            ConnectionPolicy::Close => seq!['c', 'l', 'o', 's', 'e'],
            ConnectionPolicy::KeepAlive => seq!['k', 'e', 'e', 'p', '-', 'a', 'l', 'i', 'v', 'e'],
        }
    }
}

/// Why loading stopped.
#[derive(Debug, PartialEq, Eq)]
pub enum LoadError {
    TooManyRedirects,
    /// A redirect without a `Location` header.
    MissingLocation,
    /// The `Location` of a redirect could not be followed.
    Url(UrlError),
    Http(HttpError),
}

/// What to do after a response arrives.
#[derive(Debug)]
pub enum Navigation {
    /// The response is the result.
    Done,
    /// Request `url` next; `redirects` have been followed so far.
    Redirect { url: http::Url, redirects: usize },
}

/// The client's settings.
#[derive(Debug)]
pub struct Client {
    max_redirects: usize,
    connection_policy: ConnectionPolicy,
    user_agent: String,
}

/// The headers of every request the client sends to `url`.
pub open spec fn request_headers(
    url: SpecUrl,
    policy: ConnectionPolicy,
    user_agent: Seq<char>,
) -> Seq<(Seq<char>, Seq<Seq<char>>)> {
    spec_append(
        spec_append(
            spec_append(seq![], host_name(), spec_host_header(url)),
            connection_name(),
            policy.spec_header_value(),
        ),
        user_agent_name(),
        user_agent,
    )
}

/// What the client does with a response to a request for `url` after
/// `redirects` redirects: a redirect status is followed to its `Location`,
/// resolved against `url`, unless that would make more than `max`
/// redirects; anything else is the result.
pub open spec fn spec_next(
    max: usize,
    url: SpecUrl,
    redirects: usize,
    head: crate::http::response::SpecHead,
) -> Result<Option<(SpecUrl, int)>, Option<SpecUrlError>> {
    if !head.status.spec_is_redirect() {
        Ok(None)
    } else if redirects + 1 > max {
        Err(None)
    } else {
        match first_value(head.headers, location_name()) {
            None => Err(None),
            Some(location) => match spec_resolve(url, location) {
                Ok(next) => Ok(Some((next, redirects + 1))),
                Err(e) => Err(Some(e)),
            },
        }
    }
}

/// Follows the responses `heads`, one for each request in turn, from a
/// request for `url` after `redirects` redirects. Gives how many requests
/// were sent, how many redirects had been followed when the last of them was
/// answered, and what `spec_next` made of that answer; where the responses
/// run out while the client still follows, the request it would send next.
pub open spec fn spec_follow(
    max: usize,
    url: SpecUrl,
    redirects: usize,
    heads: Seq<SpecHead>,
) -> (nat, int, Result<Option<(SpecUrl, int)>, Option<SpecUrlError>>)
    decreases heads.len(),
{
    if heads.len() == 0 {
        (0, redirects as int, Ok(Some((url, redirects as int))))
    } else {
        match spec_next(max, url, redirects, heads[0]) {
            Ok(Some((next, c))) => {
                let (n, last, r) = spec_follow(max, next, c as usize, heads.drop_first());
                (n + 1, last, r)
            },
            other => (1, redirects as int, other),
        }
    }
}

/// Every response is a redirect whose `Location` can be followed from any
/// URL (an absolute path or a full `http(s)` URL, say).
pub open spec fn all_followable_redirects(heads: Seq<SpecHead>) -> bool {
    forall|i: int|
        #![trigger heads[i]]
        0 <= i < heads.len() ==> {
            &&& heads[i].status.spec_is_redirect()
            &&& first_value(heads[i].headers, location_name()) is Some
            &&& forall|u: SpecUrl|
                #[trigger] spec_resolve(u, first_value(heads[i].headers, location_name()).unwrap())
                    is Ok
        }
}

/// A redirect to an absolute path can be followed from any URL.
pub proof fn lemma_path_redirect_followable(location: Seq<char>)
    requires
        has_prefix(location, seq!['/']),
    ensures
        forall|u: SpecUrl| #[trigger] spec_resolve(u, location) is Ok,
{
    assert forall|u: SpecUrl| #[trigger] spec_resolve(u, location) is Ok by {
        http::Url::lemma_resolve_absolute_path(u, location);
    }
}

/// A client that may follow `max` redirects, answered by nothing but
/// redirects it can follow, sends exactly `max + 1` requests: the answer
/// to the last comes when `max` redirects have been followed, and the client
/// stops there (by `Client::next`, with `TooManyRedirects`).
pub proof fn lemma_redirect_limit(max: usize, url: SpecUrl, heads: Seq<SpecHead>)
    requires
        heads.len() > max,
        all_followable_redirects(heads),
    ensures
        spec_follow(max, url, 0, heads) == (
            (max + 1) as nat,
            max as int,
            Err::<Option<(SpecUrl, int)>, Option<SpecUrlError>>(None),
        ),
{
    lemma_follow_from(max, url, 0, heads);
}

proof fn lemma_follow_from(max: usize, url: SpecUrl, k: usize, heads: Seq<SpecHead>)
    requires
        k <= max,
        heads.len() > max - k,
        all_followable_redirects(heads),
    ensures
        spec_follow(max, url, k, heads) == (
            (max - k + 1) as nat,
            max as int,
            Err::<Option<(SpecUrl, int)>, Option<SpecUrlError>>(None),
        ),
    decreases heads.len(),
{
    let h = heads[0];
    if k < max {
        let loc = first_value(h.headers, location_name()).unwrap();
        assert(spec_resolve(url, loc) is Ok);
        let next = spec_resolve(url, loc)->Ok_0;
        assert(spec_next(max, url, k, h) == Ok::<
            Option<(SpecUrl, int)>,
            Option<SpecUrlError>,
        >(Some((next, k + 1))));
        let rest = heads.drop_first();
        assert forall|i: int| 0 <= i < rest.len() implies {
            &&& (#[trigger] rest[i]).status.spec_is_redirect()
            &&& first_value(rest[i].headers, location_name()) is Some
            &&& forall|u: SpecUrl|
                #[trigger] spec_resolve(u, first_value(rest[i].headers, location_name()).unwrap())
                    is Ok
        } by {
            assert(rest[i] == heads[i + 1]);
        }
        lemma_follow_from(max, next, (k + 1) as usize, rest);
    }
}

impl Client {
    pub closed spec fn spec_max_redirects(&self) -> usize {
        self.max_redirects
    }

    pub closed spec fn spec_connection_policy(&self) -> ConnectionPolicy {
        self.connection_policy
    }

    pub closed spec fn spec_user_agent(&self) -> Seq<char> {
        self.user_agent@
    }

    pub fn builder() -> (r: Builder)
        ensures
            r.spec_max_redirects() == 10,
            r.spec_connection_policy() == ConnectionPolicy::KeepAlive,
            r.spec_user_agent() == "RwebBrowser/0.1"@,
    {
        Builder::new()
    }

    pub fn max_redirects(&self) -> (r: usize)
        ensures
            r == self.spec_max_redirects(),
    {
        self.max_redirects
    }

    pub fn connection_policy(&self) -> (r: ConnectionPolicy)
        ensures
            r == self.spec_connection_policy(),
    {
        self.connection_policy
    }

    pub fn user_agent(&self) -> (r: &str)
        ensures
            r@ == self.spec_user_agent(),
    {
        self.user_agent.as_str()
    }

    /// The request for `url`: `GET`, HTTP/1.1, with `Host`, `Connection`
    /// (from the policy) and `User-Agent`.
    pub fn build_http_request(&self, url: &http::Url) -> (r: Result<http::Request, HttpError>)
        ensures
            r matches Ok(req) && req.spec_method() == Method::GET && req.spec_version()
                == Version::HTTP11 && req.spec_url() == url@ && req.spec_headers()
                == request_headers(url@, self.spec_connection_policy(), self.spec_user_agent()),
    {
        let connection: &str = match self.connection_policy {
            ConnectionPolicy::Close => "close",
            ConnectionPolicy::KeepAlive => "keep-alive",
        };
        proof {
            reveal_strlit("close");
            reveal_strlit("keep-alive");
            assert(connection@ =~= self.connection_policy.spec_header_value());
        }
        let host = url.host_header();
        http::Request::builder().url(url.clone()).method(Method::GET).version(
            Version::HTTP11,
        ).header(HeaderName::HOST, host.as_str()).header(HeaderName::CONNECTION, connection).header(
            HeaderName::USER_AGENT,
            self.user_agent.as_str(),
        ).build()
    }

    /// What to do with the response `head` to a request for `url`, after
    /// `redirects` redirects. A redirect is never followed past the limit.
    pub fn next(&self, url: &http::Url, redirects: usize, head: &Head) -> (r: Result<
        Navigation,
        LoadError,
    >)
        ensures
            match spec_next(self.spec_max_redirects(), url@, redirects, head.view()) {
                Ok(None) => r matches Ok(Navigation::Done),
                Ok(Some((next, count))) => r matches Ok(Navigation::Redirect { url: u, redirects: c })
                    && u@ == next && c == count,
                Err(None) => r == Err::<Navigation, LoadError>(LoadError::TooManyRedirects) || r
                    == Err::<Navigation, LoadError>(LoadError::MissingLocation),
                Err(Some(e)) => r matches Err(LoadError::Url(err)) && err@ == e,
            },
            !head.view().status.spec_is_redirect() ==> r matches Ok(Navigation::Done),
            head.view().status.spec_is_redirect() && redirects >= self.spec_max_redirects() ==> r
                == Err::<Navigation, LoadError>(LoadError::TooManyRedirects),
            head.view().status.spec_is_redirect() && redirects < self.spec_max_redirects()
                && first_value(head.view().headers, location_name()) is None ==> r == Err::<
                Navigation,
                LoadError,
            >(LoadError::MissingLocation),
            r matches Ok(Navigation::Redirect { redirects: c, .. }) ==> c == redirects + 1 && c
                <= self.spec_max_redirects(),
    {
        if !head.status().is_redirect() {
            return Ok(Navigation::Done);
        }
        if redirects >= self.max_redirects {
            return Err(LoadError::TooManyRedirects);
        }
        let location = match head.location() {
            Some(l) => l,
            None => {
                return Err(LoadError::MissingLocation);
            },
        };
        match url.resolve(location) {
            Ok(next) => Ok(Navigation::Redirect { url: next, redirects: redirects + 1 }),
            Err(e) => Err(LoadError::Url(e)),
        }
    }
}

#[derive(Debug)]
pub struct Builder {
    max_redirects: usize,
    connection_policy: ConnectionPolicy,
    user_agent: String,
}

impl Builder {
    pub closed spec fn spec_max_redirects(&self) -> usize {
        self.max_redirects
    }

    pub closed spec fn spec_connection_policy(&self) -> ConnectionPolicy {
        self.connection_policy
    }

    pub closed spec fn spec_user_agent(&self) -> Seq<char> {
        self.user_agent@
    }

    /// At most 10 redirects, keep-alive connections, user agent `RwebBrowser/0.1`.
    pub fn new() -> (r: Builder)
        ensures
            r.spec_max_redirects() == 10,
            r.spec_connection_policy() == ConnectionPolicy::KeepAlive,
            r.spec_user_agent() == "RwebBrowser/0.1"@,
    {
        Builder {
            max_redirects: 10,
            connection_policy: ConnectionPolicy::KeepAlive,
            user_agent: String::from_str("RwebBrowser/0.1"),
        }
    }

    pub fn build(self) -> (r: Client)
        ensures
            r.spec_max_redirects() == self.spec_max_redirects(),
            r.spec_connection_policy() == self.spec_connection_policy(),
            r.spec_user_agent() == self.spec_user_agent(),
    {
        Client {
            max_redirects: self.max_redirects,
            connection_policy: self.connection_policy,
            user_agent: self.user_agent,
        }
    }

    pub fn max_redirects(self, max_redirects: usize) -> (r: Builder)
        ensures
            r.spec_max_redirects() == max_redirects,
            r.spec_connection_policy() == self.spec_connection_policy(),
            r.spec_user_agent() == self.spec_user_agent(),
    {
        Builder { max_redirects, ..self }
    }

    pub fn connection_policy(self, connection_policy: ConnectionPolicy) -> (r: Builder)
        ensures
            r.spec_max_redirects() == self.spec_max_redirects(),
            r.spec_connection_policy() == connection_policy,
            r.spec_user_agent() == self.spec_user_agent(),
    {
        Builder { connection_policy, ..self }
    }

    pub fn user_agent(self, user_agent: &str) -> (r: Builder)
        ensures
            r.spec_max_redirects() == self.spec_max_redirects(),
            r.spec_connection_policy() == self.spec_connection_policy(),
            r.spec_user_agent() == user_agent@,
    {
        Builder { user_agent: String::from_str(user_agent), ..self }
    }
}

impl Default for Builder {
    fn default() -> (r: Builder)
        ensures
            r.spec_max_redirects() == 10,
            r.spec_connection_policy() == ConnectionPolicy::KeepAlive,
            r.spec_user_agent() == "RwebBrowser/0.1"@,
    {
        Builder::new()
    }
}

} // verus!
