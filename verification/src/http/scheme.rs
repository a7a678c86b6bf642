//! URL schemes the HTTP client speaks.
use vstd::prelude::*;

use crate::http::url::UrlError;
use crate::text::chars_eq_str;
use crate::text::chars_of;
use crate::text::string_of;

verus! {

#[derive(Debug, Clone, Copy, PartialEq, Eq, Hash, Structural)]
pub enum Scheme {
    Http,
    Https,
}

pub open spec fn http_name() -> Seq<char> {
    seq!['h', 't', 't', 'p']
}

pub open spec fn https_name() -> Seq<char> {
    seq!['h', 't', 't', 'p', 's']
}

impl Scheme {
    pub open spec fn spec_name(self) -> Seq<char> {
        match self {
            Scheme::Http => http_name(),
            Scheme::Https => https_name(),
        }
    }

    /// The scheme named exactly `s`, if any.
    pub open spec fn spec_parse(s: Seq<char>) -> Option<Scheme> {
        if s == http_name() {
            Some(Scheme::Http)
        } else if s == https_name() {
            Some(Scheme::Https)
        } else {
            None
        }
    }

    /// The port a URL of this scheme uses when it names none.
    pub open spec fn spec_default_port(self) -> u16 {
        match self {
            Scheme::Http => 80,
            Scheme::Https => 443,
        }
    }

    pub fn default_port(self) -> (r: u16)
        ensures
            r == self.spec_default_port(),
    {
        match self {
            Scheme::Http => 80,
            Scheme::Https => 443,
        }
    }

    pub fn parse_chars(s: &[char]) -> (r: Result<Scheme, UrlError>)
        ensures
            match Scheme::spec_parse(s@) {
                Some(v) => r == Ok::<Scheme, UrlError>(v),
                None => r matches Err(UrlError::InvalidScheme(name)) && name@ == s@,
            },
    {
        proof {
            reveal_strlit("http");
            reveal_strlit("https");
            assert("http"@ =~= http_name());
            assert("https"@ =~= https_name());
        }
        if chars_eq_str(s, "http") {
            Ok(Scheme::Http)
        } else if chars_eq_str(s, "https") {
            Ok(Scheme::Https)
        } else {
            Err(UrlError::InvalidScheme(string_of(s)))
        }
    }

    /// Reading a scheme back from its name gives the same scheme.
    pub proof fn lemma_name_roundtrip(self)
        ensures
            Scheme::spec_parse(self.spec_name()) == Some(self),
    {
        assert(http_name().len() != https_name().len());
    }
}

impl std::str::FromStr for Scheme {
    type Err = UrlError;

    fn from_str(s: &str) -> (r: Result<Scheme, UrlError>)
        ensures
            match Scheme::spec_parse(s@) {
                Some(v) => r == Ok::<Scheme, UrlError>(v),
                None => r matches Err(UrlError::InvalidScheme(t)) && t@ == s@,
            },
    {
        let cs = chars_of(s);
        Scheme::parse_chars(cs.as_slice())
    }
}

} // verus!
