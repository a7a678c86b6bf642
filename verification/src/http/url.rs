//! `http` and `https` URLs: scheme, host, port and path.
use vstd::prelude::*;

use crate::http::scheme::Scheme;
use crate::text::chars_of;
use crate::text::decimal_string;
use crate::text::find_char;
use crate::text::find_char_exec;
use crate::text::find_from;
use crate::text::find_from_exec;
use crate::text::has_prefix;
use crate::text::matches_at;
use crate::text::lemma_find_from_bounds;
use crate::text::parse_unsigned;
use crate::text::parse_unsigned_exec;
use crate::text::push_chars;
use crate::text::push_decimal;
use crate::text::rfind_char;
use crate::text::rfind_char_exec;
use crate::text::starts_with_str;
use crate::text::string_of;
use crate::text::slice_to_vec_range;

verus! {

/// Why a URL was refused.
#[derive(Debug, PartialEq, Eq)]
pub enum UrlError {
    /// No `://` separates a scheme from the rest.
    InvalidUrl,
    InvalidScheme(String),
    InvalidPort,
    /// A redirect location that is neither an absolute URL nor an absolute path.
    UnsupportedLocation(String),
}

pub enum SpecUrlError {
    InvalidUrl,
    InvalidScheme(Seq<char>),
    InvalidPort,
    UnsupportedLocation(Seq<char>),
}

impl View for UrlError {
    type V = SpecUrlError;

    open spec fn view(&self) -> SpecUrlError {
        match self {
            UrlError::InvalidUrl => SpecUrlError::InvalidUrl,
            UrlError::InvalidScheme(s) => SpecUrlError::InvalidScheme(s@),
            UrlError::InvalidPort => SpecUrlError::InvalidPort,
            UrlError::UnsupportedLocation(s) => SpecUrlError::UnsupportedLocation(s@),
        }
    }
}

#[derive(Debug)]
pub struct Url {
    scheme: Scheme,
    host: String,
    port: u16,
    path: String,
}

pub struct SpecUrl {
    pub scheme: Scheme,
    pub host: Seq<char>,
    pub port: u16,
    pub path: Seq<char>,
}

impl View for Url {
    type V = SpecUrl;

    closed spec fn view(&self) -> SpecUrl {
        SpecUrl { scheme: self.scheme, host: self.host@, port: self.port, path: self.path@ }
    }
}

pub open spec fn scheme_separator() -> Seq<char> {
    seq![':', '/', '/']
}

pub open spec fn http_prefix() -> Seq<char> {
    seq!['h', 't', 't', 'p', ':', '/', '/']
}

pub open spec fn https_prefix() -> Seq<char> {
    seq!['h', 't', 't', 'p', 's', ':', '/', '/']
}

/// A host with an optional `:port` after its last colon; without one the
/// scheme's default port.
pub open spec fn spec_parse_host(scheme: Scheme, raw: Seq<char>) -> Result<(Seq<char>, u16), SpecUrlError> {
    match rfind_char(raw, ':') {
        None => Ok((raw, scheme.spec_default_port())),
        Some(i) => match parse_unsigned(raw.skip(i + 1), 65535) {
            None => Err(SpecUrlError::InvalidPort),
            Some(p) => Ok((raw.take(i), p as u16)),
        },
    }
}

/// `scheme://host[:port][/path]`; the path defaults to `/`.
pub open spec fn spec_parse_url(s: Seq<char>) -> Result<SpecUrl, SpecUrlError> {
    match find_from(s, 0, scheme_separator()) {
        None => Err(SpecUrlError::InvalidUrl),
        Some(i) => {
            let rest = s.skip(i + 3);
            match Scheme::spec_parse(s.take(i)) {
                None => Err(SpecUrlError::InvalidScheme(s.take(i))),
                Some(scheme) => {
                    let host_raw = match find_char(rest, '/') {
                        Some(j) => rest.take(j),
                        None => rest,
                    };
                    let path = match find_char(rest, '/') {
                        Some(j) => rest.skip(j),
                        None => seq!['/'],
                    };
                    match spec_parse_host(scheme, host_raw) {
                        Err(e) => Err(e),
                        Ok((host, port)) => Ok(SpecUrl { scheme, host, port, path }),
                    }
                },
            }
        },
    }
}

/// The `Host` header for a URL: the host, with `:port` unless the port is
/// the scheme's default.
pub open spec fn spec_host_header(u: SpecUrl) -> Seq<char> {
    if u.port == u.scheme.spec_default_port() {
        u.host
    } else {
        u.host + seq![':'] + decimal_string(u.port as nat)
    }
}

/// Where a redirect to `location` leads from `base`: an absolute `http` or
/// `https` URL is read as it stands, an absolute path keeps the base's
/// scheme, host and port; anything else is refused.
pub open spec fn spec_resolve(base: SpecUrl, location: Seq<char>) -> Result<SpecUrl, SpecUrlError> {
    if has_prefix(location, http_prefix()) || has_prefix(location, https_prefix()) {
        spec_parse_url(location)
    } else if has_prefix(location, seq!['/']) {
        Ok(SpecUrl { path: location, ..base })
    } else {
        Err(SpecUrlError::UnsupportedLocation(location))
    }
}

impl Clone for Url {
    fn clone(&self) -> (r: Url)
        ensures
            r@ == self@,
    {
        Url {
            scheme: self.scheme,
            host: self.host.clone(),
            port: self.port,
            path: self.path.clone(),
        }
    }
}

impl std::str::FromStr for Url {
    type Err = UrlError;

    fn from_str(s: &str) -> (r: Result<Url, UrlError>)
        ensures
            match spec_parse_url(s@) {
                Ok(u) => r matches Ok(url) && url@ == u,
                Err(e) => r matches Err(err) && err@ == e,
            },
    {
        Url::parse(s)
    }
}

impl Url {
    /// Reads a URL, as `"...".parse::<Url>()` does.
    pub fn parse(s: &str) -> (r: Result<Url, UrlError>)
        ensures
            match spec_parse_url(s@) {
                Ok(u) => r matches Ok(url) && url@ == u,
                Err(e) => r matches Err(err) && err@ == e,
            },
    {
        let cs = chars_of(s);
        Url::parse_chars(cs.as_slice())
    }

    pub fn parse_chars(s: &[char]) -> (r: Result<Url, UrlError>)
        ensures
            match spec_parse_url(s@) {
                Ok(u) => r matches Ok(url) && url@ == u,
                Err(e) => r matches Err(err) && err@ == e,
            },
    {
        let sep = vec![':', '/', '/'];
        assert(sep@ == scheme_separator());
        let i = match find_from_exec(s, 0, sep.as_slice()) {
            Some(i) => i,
            None => {
                return Err(UrlError::InvalidUrl);
            },
        };
        proof {
            lemma_find_from_bounds(s@, 0, scheme_separator());
        }
        let n = s.len();
        assert(i + 3 <= n);
        let scheme_chars = slice_to_vec_range(s, 0, i);
        let rest = slice_to_vec_range(s, i + 3, n);
        assert(scheme_chars@ =~= s@.take(i as int));
        assert(rest@ =~= s@.skip(i + 3));
        let scheme = match Scheme::parse_chars(scheme_chars.as_slice()) {
            Ok(scheme) => scheme,
            Err(e) => {
                return Err(e);
            },
        };
        let slash = find_char_exec(rest.as_slice(), '/');
        proof {
            lemma_find_from_bounds(rest@, 0, seq!['/']);
        }
        let (host_raw, path) = match slash {
            Some(j) => {
                let h = slice_to_vec_range(rest.as_slice(), 0, j);
                let p = slice_to_vec_range(rest.as_slice(), j, rest.len());
                assert(h@ =~= rest@.take(j as int));
                assert(p@ =~= rest@.skip(j as int));
                (h, string_of(p.as_slice()))
            },
            None => {
                let mut p = String::new();
                p.push('/');
                assert(p@ =~= seq!['/']);
                (rest, p)
            },
        };
        let (host, port) = match Url::parse_host(scheme, host_raw.as_slice()) {
            Ok(hp) => hp,
            Err(e) => {
                return Err(e);
            },
        };
        Ok(Url { scheme, host, port, path })
    }

    fn parse_host(scheme: Scheme, raw: &[char]) -> (r: Result<(String, u16), UrlError>)
        ensures
            match spec_parse_host(scheme, raw@) {
                Ok((h, p)) => r matches Ok((host, port)) && host@ == h && port == p,
                Err(e) => r matches Err(err) && err@ == e,
            },
    {
        match rfind_char_exec(raw, ':') {
            None => Ok((string_of(raw), scheme.default_port())),
            Some(i) => {
                proof {
                    lemma_rfind_char_bounds(raw@, ':');
                }
                let n = raw.len();
                assert(i < n);
                let port_chars = slice_to_vec_range(raw, i + 1, n);
                assert(port_chars@ =~= raw@.skip(i + 1));
                let port = match parse_unsigned_exec(port_chars.as_slice(), 65535) {
                    Some(p) => p as u16,
                    None => {
                        return Err(UrlError::InvalidPort);
                    },
                };
                let host = slice_to_vec_range(raw, 0, i);
                assert(host@ =~= raw@.take(i as int));
                Ok((string_of(host.as_slice()), port))
            },
        }
    }

    pub fn scheme(&self) -> (r: Scheme)
        ensures
            r == self@.scheme,
    {
        self.scheme
    }

    pub fn host(&self) -> (r: &str)
        ensures
            r@ == self@.host,
    {
        self.host.as_str()
    }

    pub fn host_header(&self) -> (r: String)
        ensures
            r@ == spec_host_header(self@),
    {
        if self.port == self.scheme.default_port() {
            self.host.clone()
        } else {
            let mut r = self.host.clone();
            r.push(':');
            push_decimal(&mut r, self.port);
            r
        }
    }

    pub fn port(&self) -> (r: u16)
        ensures
            r == self@.port,
    {
        self.port
    }

    pub fn path(&self) -> (r: &str)
        ensures
            r@ == self@.path,
    {
        self.path.as_str()
    }

    /// Where a redirect to `location` leads from this URL.
    pub fn resolve(&self, location: &str) -> (r: Result<Url, UrlError>)
        ensures
            match spec_resolve(self@, location@) {
                Ok(u) => r matches Ok(url) && url@ == u,
                Err(e) => r matches Err(err) && err@ == e,
            },
    {
        let cs = chars_of(location);
        proof {
            reveal_strlit("http://");
            reveal_strlit("https://");
            reveal_strlit("/");
            assert("http://"@ =~= http_prefix());
            assert("https://"@ =~= https_prefix());
            assert("/"@ =~= seq!['/']);
        }
        if starts_with_str(cs.as_slice(), "http://") || starts_with_str(cs.as_slice(), "https://") {
            return Url::parse_chars(cs.as_slice());
        }
        if starts_with_str(cs.as_slice(), "/") {
            let url = Url {
                scheme: self.scheme,
                host: self.host.clone(),
                port: self.port,
                path: string_of(cs.as_slice()),
            };
            return Ok(url);
        }
        Err(UrlError::UnsupportedLocation(string_of(cs.as_slice())))
    }

    /// An absolute-path redirect keeps the origin and takes the location as the path.
    pub proof fn lemma_resolve_absolute_path(base: SpecUrl, location: Seq<char>)
        requires
            has_prefix(location, seq!['/']),
        ensures
            spec_resolve(base, location) == Ok::<SpecUrl, SpecUrlError>(
                SpecUrl { path: location, ..base },
            ),
    {
        assert(location.subrange(0, 1)[0] == location[0]);
        assert(location[0] == '/');
        assert(!has_prefix(location, http_prefix())) by {
            assert(http_prefix()[0] != location[0]);
            if has_prefix(location, http_prefix()) {
                assert(location.subrange(0, 7)[0] == location[0]);
            }
        }
        assert(!has_prefix(location, https_prefix())) by {
            if has_prefix(location, https_prefix()) {
                assert(location.subrange(0, 8)[0] == location[0]);
            }
        }
    }

    /// The `Host` header names the port exactly when it is not the scheme's default.
    pub proof fn lemma_host_header_default_port(u: SpecUrl)
        ensures
            u.port == u.scheme.spec_default_port() ==> spec_host_header(u) == u.host,
            u.port != u.scheme.spec_default_port() ==> spec_host_header(u) == u.host + seq![':']
                + decimal_string(u.port as nat),
    {
    }
}

/// A character that does not occur is not found from the end either.
pub proof fn lemma_rfind_char_absent(s: Seq<char>, c: char)
    requires
        !s.contains(c),
    ensures
        rfind_char(s, c) is None,
    decreases s.len(),
{
    if s.len() > 0 {
        assert(s.last() == s[s.len() - 1]);
        assert forall|i: int| 0 <= i < s.drop_last().len() implies s.drop_last()[i] != c by {
            assert(s.drop_last()[i] == s[i]);
        }
        lemma_rfind_char_absent(s.drop_last(), c);
    }
}

/// The first `c` in `s` is at `j` when `s[j]` is `c` and no `c` comes before.
proof fn lemma_find_char_at(s: Seq<char>, c: char, j: int)
    requires
        0 <= j < s.len(),
        s[j] == c,
        forall|k: int| 0 <= k < j ==> s[k] != c,
    ensures
        find_char(s, c) == Some(j),
{
    lemma_find_from_bounds(s, 0, seq![c]);
    assert(matches_at(s, j, seq![c])) by {
        assert(s.subrange(j, j + 1) =~= seq![c]);
    }
    if let Some(j2) = find_char(s, c) {
        if j2 < j {
            assert(s.subrange(j2, j2 + 1)[0] == s[j2]);
        }
    }
}

/// The first `c` of `s + tail` is the first of `tail`, shifted, when `s` has none.
proof fn lemma_no_char_prefix(s: Seq<char>, tail: Seq<char>, c: char, j: int)
    requires
        !s.contains(c),
        0 <= j < tail.len(),
        tail[j] == c,
        forall|k: int| 0 <= k < j ==> tail[k] != c,
    ensures
        find_char(s + tail, c) == Some(s.len() + j),
{
    let u = s + tail;
    assert forall|k: int| 0 <= k < s.len() + j implies u[k] != c by {
        if k < s.len() {
            assert(u[k] == s[k]);
        } else {
            assert(u[k] == tail[k - s.len()]);
        }
    }
    lemma_find_char_at(u, c, s.len() + j);
}

/// Reading `scheme://host/rest`, where the host names no port and holds no
/// `/`: the host is everything up to the first `/` after `://`, the path is
/// that `/` and everything after it (further slashes included), and the
/// port is the scheme's default; without a `/` the path is `/`.
pub proof fn lemma_parse_url_splits(secure: bool, host: Seq<char>, rest: Seq<char>)
    requires
        !host.contains('/'),
        !host.contains(':'),
    ensures
        ({
            let prefix = if secure {
                https_prefix()
            } else {
                http_prefix()
            };
            let scheme = if secure {
                Scheme::Https
            } else {
                Scheme::Http
            };
            &&& spec_parse_url(prefix + host + seq!['/'] + rest) == Ok::<SpecUrl, SpecUrlError>(
                SpecUrl { scheme, host, port: scheme.spec_default_port(), path: seq!['/'] + rest },
            )
            &&& spec_parse_url(prefix + host) == Ok::<SpecUrl, SpecUrlError>(
                SpecUrl { scheme, host, port: scheme.spec_default_port(), path: seq!['/'] },
            )
        }),
{
    let prefix = if secure {
        https_prefix()
    } else {
        http_prefix()
    };
    let name = if secure {
        crate::http::scheme::https_name()
    } else {
        crate::http::scheme::http_name()
    };
    let i = name.len() as int;
    lemma_rfind_char_absent(host, ':');
    let tail = host + seq!['/'] + rest;
    let s1 = prefix + tail;
    let s2 = prefix + host;
    // The first `://` is the one after the scheme name.
    assert forall|s: Seq<char>| #![trigger prefix + s] true implies find_from(
        prefix + s,
        0,
        scheme_separator(),
    ) == Some(i) && (prefix + s).take(i) == name && (prefix + s).skip(i + 3) == s by {
        let u = prefix + s;
        lemma_find_from_bounds(u, 0, scheme_separator());
        assert(matches_at(u, i, scheme_separator())) by {
            assert(u.subrange(i, i + 3) =~= scheme_separator());
        }
        if let Some(j) = find_from(u, 0, scheme_separator()) {
            if j < i {
                assert(u.subrange(j, j + 3)[0] == u[j]);
            }
        }
        assert(u.take(i) =~= name);
        assert(u.skip(i + 3) =~= s);
    }
    assert(prefix + tail == s1);
    assert(find_from(s1, 0, scheme_separator()) == Some(i));
    assert(s1.skip(i + 3) == tail);
    assert(find_from(s2, 0, scheme_separator()) == Some(i));
    assert(s2.skip(i + 3) == host);
    assert(s1 =~= prefix + host + seq!['/'] + rest);
    // In `host/rest` the first `/` ends the host.
    let t2 = seq!['/'] + rest;
    assert(tail =~= host + t2);
    lemma_no_char_prefix(host, t2, '/', 0);
    assert(tail.take(host.len() as int) =~= host);
    assert(tail.skip(host.len() as int) =~= t2);
    // Without one, the host is everything.
    lemma_find_from_bounds(host, 0, seq!['/']);
    if let Some(j) = find_char(host, '/') {
        assert(host.subrange(j, j + 1)[0] == host[j]);
    }
}

/// The last `c` of `x + [c] + y` is the one in the middle when `y` has none.
proof fn lemma_rfind_char_middle(x: Seq<char>, c: char, y: Seq<char>)
    requires
        !y.contains(c),
    ensures
        rfind_char(x + seq![c] + y, c) == Some(x.len() as int),
    decreases y.len(),
{
    let u = x + seq![c] + y;
    if y.len() == 0 {
        assert(u.last() == c);
    } else {
        assert(u.last() == y[y.len() - 1]);
        assert(u.drop_last() =~= x + seq![c] + y.drop_last());
        assert forall|i: int| 0 <= i < y.drop_last().len() implies y.drop_last()[i] != c by {
            assert(y.drop_last()[i] == y[i]);
        }
        lemma_rfind_char_middle(x, c, y.drop_last());
    }
}

/// After `http://` or `https://` the scheme is read and the rest follows.
proof fn lemma_after_scheme(secure: bool, tail: Seq<char>)
    ensures
        ({
            let prefix = if secure {
                https_prefix()
            } else {
                http_prefix()
            };
            let u = prefix + tail;
            let i = if secure {
                5int
            } else {
                4int
            };
            &&& find_from(u, 0, scheme_separator()) == Some(i)
            &&& Scheme::spec_parse(u.take(i)) == Some(
                if secure {
                    Scheme::Https
                } else {
                    Scheme::Http
                },
            )
            &&& u.skip(i + 3) == tail
        }),
{
    let prefix = if secure {
        https_prefix()
    } else {
        http_prefix()
    };
    let name = if secure {
        crate::http::scheme::https_name()
    } else {
        crate::http::scheme::http_name()
    };
    let i = name.len() as int;
    let u = prefix + tail;
    lemma_find_from_bounds(u, 0, scheme_separator());
    assert(matches_at(u, i, scheme_separator())) by {
        assert(u.subrange(i, i + 3) =~= scheme_separator());
    }
    if let Some(j) = find_from(u, 0, scheme_separator()) {
        if j < i {
            assert(u.subrange(j, j + 3)[0] == u[j]);
        }
    }
    assert(u.take(i) =~= name);
    assert(u.skip(i + 3) =~= tail);
}

/// `host:port`, with a decimal port and no `:` in the host, names that host
/// and port.
proof fn lemma_host_port(scheme: Scheme, host: Seq<char>, port: u16)
    requires
        !host.contains(':'),
    ensures
        spec_parse_host(scheme, host + seq![':'] + decimal_string(port as nat)) == Ok::<
            (Seq<char>, u16),
            SpecUrlError,
        >((host, port)),
        !(host + seq![':'] + decimal_string(port as nat)).contains('/') <== !host.contains('/'),
{
    let digits = decimal_string(port as nat);
    crate::text::lemma_parse_decimal_roundtrip(port as nat, 65535);
    crate::text::lemma_decimal_string_value(port as nat);
    let hp = host + seq![':'] + digits;
    assert(!digits.contains(':')) by {
        if digits.contains(':') {
            let i = choose|i: int| 0 <= i < digits.len() && digits[i] == ':';
            assert(crate::text::is_digit(digits[i]));
        }
    }
    lemma_rfind_char_middle(host, ':', digits);
    assert(hp.take(host.len() as int) =~= host);
    assert(hp.skip(host.len() as int + 1) =~= digits);
    if !host.contains('/') && hp.contains('/') {
        let i = choose|i: int| 0 <= i < hp.len() && hp[i] == '/';
        if i < host.len() {
            assert(hp[i] == host[i]);
        } else if i > host.len() {
            assert(hp[i] == digits[i - host.len() - 1]);
            assert(crate::text::is_digit(digits[i - host.len() - 1]));
        }
    }
}

/// The host part of `scheme://hostpart/rest` is `hostpart`, when it holds no `/`.
proof fn lemma_parse_url_parts(secure: bool, hostpart: Seq<char>, rest: Seq<char>)
    requires
        !hostpart.contains('/'),
    ensures
        ({
            let prefix = if secure {
                https_prefix()
            } else {
                http_prefix()
            };
            let scheme = if secure {
                Scheme::Https
            } else {
                Scheme::Http
            };
            spec_parse_url(prefix + hostpart + seq!['/'] + rest) == match spec_parse_host(
                scheme,
                hostpart,
            ) {
                Ok((host, port)) => Ok::<SpecUrl, SpecUrlError>(
                    SpecUrl { scheme, host, port, path: seq!['/'] + rest },
                ),
                Err(e) => Err(e),
            }
        }),
{
    let prefix = if secure {
        https_prefix()
    } else {
        http_prefix()
    };
    let t2 = seq!['/'] + rest;
    let tail = hostpart + t2;
    lemma_after_scheme(secure, tail);
    lemma_no_char_prefix(hostpart, t2, '/', 0);
    assert(tail.take(hostpart.len() as int) =~= hostpart);
    assert(tail.skip(hostpart.len() as int) =~= t2);
    assert(prefix + tail =~= prefix + hostpart + seq!['/'] + rest);
}

/// Reading `scheme://host:port/rest`, where the host holds no `:` or `/`
/// and the port is written in decimal: the host and port are the ones
/// written, and the path is `/rest`.
pub proof fn lemma_parse_url_port(secure: bool, host: Seq<char>, port: u16, rest: Seq<char>)
    requires
        !host.contains('/'),
        !host.contains(':'),
    ensures
        ({
            let prefix = if secure {
                https_prefix()
            } else {
                http_prefix()
            };
            let scheme = if secure {
                Scheme::Https
            } else {
                Scheme::Http
            };
            spec_parse_url(
                prefix + host + seq![':'] + decimal_string(port as nat) + seq!['/'] + rest,
            ) == Ok::<SpecUrl, SpecUrlError>(
                SpecUrl { scheme, host, port, path: seq!['/'] + rest },
            )
        }),
{
    let scheme = if secure {
        Scheme::Https
    } else {
        Scheme::Http
    };
    let prefix = if secure {
        https_prefix()
    } else {
        http_prefix()
    };
    let digits = decimal_string(port as nat);
    lemma_host_port(scheme, host, port);
    lemma_parse_url_parts(secure, host + seq![':'] + digits, rest);
    assert(prefix + (host + seq![':'] + digits) + seq!['/'] + rest =~= prefix + host + seq![':']
        + digits + seq!['/'] + rest);
}

pub proof fn lemma_rfind_char_bounds(s: Seq<char>, c: char)
    ensures
        rfind_char(s, c) matches Some(i) ==> 0 <= i < s.len() && s[i] == c,
    decreases s.len(),
{
    if s.len() > 0 && s.last() != c {
        lemma_rfind_char_bounds(s.drop_last(), c);
    }
}

} // verus!
