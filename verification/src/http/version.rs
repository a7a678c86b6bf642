//! Protocol versions.
use vstd::prelude::*;

use crate::http::error::HttpError;
use crate::text::chars_eq_str;
use crate::text::chars_of;

verus! {

/// The protocol version of a request or response.
#[allow(non_camel_case_types)]
#[derive(Debug, Clone, Copy, PartialEq, Eq, Structural)]
pub enum Version {
    HTTP10,
    HTTP11,
}

pub open spec fn http10_name() -> Seq<char> {
    seq!['H', 'T', 'T', 'P', '/', '1', '.', '0']
}

pub open spec fn http11_name() -> Seq<char> {
    seq!['H', 'T', 'T', 'P', '/', '1', '.', '1']
}

impl Version {
    /// The version as it appears in a request or status line.
    pub open spec fn spec_name(self) -> Seq<char> {
        match self {
            Version::HTTP10 => http10_name(),
            Version::HTTP11 => http11_name(),
        }
    }

    /// The version named exactly `s`, if any.
    pub open spec fn spec_parse(s: Seq<char>) -> Option<Version> {
        if s == http10_name() {
            Some(Version::HTTP10)
        } else if s == http11_name() {
            Some(Version::HTTP11)
        } else {
            None
        }
    }

    pub fn to_string(&self) -> (r: String)
        ensures
            r@ == self.spec_name(),
    {
        proof {
            reveal_strlit("HTTP/1.0");
            reveal_strlit("HTTP/1.1");
        }
        match self {
            Version::HTTP10 => {
                let r = String::from_str("HTTP/1.0");
                assert(r@ =~= http10_name());
                r
            },
            Version::HTTP11 => {
                let r = String::from_str("HTTP/1.1");
                assert(r@ =~= http11_name());
                r
            },
        }
    }

    pub fn parse_chars(s: &[char]) -> (r: Result<Version, HttpError>)
        ensures
            match Version::spec_parse(s@) {
                Some(v) => r == Ok::<Version, HttpError>(v),
                None => r == Err::<Version, HttpError>(HttpError::InvalidVersion),
            },
    {
        proof {
            reveal_strlit("HTTP/1.0");
            reveal_strlit("HTTP/1.1");
            assert("HTTP/1.0"@ =~= http10_name());
            assert("HTTP/1.1"@ =~= http11_name());
        }
        if chars_eq_str(s, "HTTP/1.0") {
            Ok(Version::HTTP10)
        } else if chars_eq_str(s, "HTTP/1.1") {
            Ok(Version::HTTP11)
        } else {
            Err(HttpError::InvalidVersion)
        }
    }

    /// Reading a version back from its name gives the same version.
    pub proof fn lemma_name_roundtrip(self)
        ensures
            Version::spec_parse(self.spec_name()) == Some(self),
    {
        assert(http10_name() != http11_name()) by {
            assert(http10_name()[7] != http11_name()[7]);
        }
    }
}

impl std::str::FromStr for Version {
    type Err = HttpError;

    fn from_str(s: &str) -> (r: Result<Version, HttpError>)
        ensures
            match Version::spec_parse(s@) {
                Some(v) => r == Ok::<Version, HttpError>(v),
                None => r == Err::<Version, HttpError>(HttpError::InvalidVersion),
            },
    {
        let cs = chars_of(s);
        Version::parse_chars(cs.as_slice())
    }
}

} // verus!
