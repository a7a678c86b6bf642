//! Response status codes.
use vstd::prelude::*;

use crate::http::error::HttpError;
use crate::text::chars_of;
use crate::text::parse_unsigned;
use crate::text::parse_unsigned_exec;

verus! {

#[derive(Debug, Clone, Copy, PartialEq, Eq, Structural)]
pub struct StatusCode(pub u16);

impl StatusCode {
    pub open spec fn code(self) -> u16 {
        self.0
    }

    pub open spec fn spec_is_success(self) -> bool {
        200 <= self.0 < 300
    }

    pub open spec fn spec_is_redirect(self) -> bool {
        self.0 == 301 || self.0 == 302 || self.0 == 303 || self.0 == 307 || self.0 == 308
    }

    /// The status code written as `s`, as `u16::from_str` reads it.
    pub open spec fn spec_parse(s: Seq<char>) -> Option<StatusCode> {
        match parse_unsigned(s, 65535) {
            Some(v) => Some(StatusCode(v as u16)),
            None => None,
        }
    }

    /// 2xx codes.
    pub fn is_success(self) -> (r: bool)
        ensures
            r == self.spec_is_success(),
    {
        200 <= self.0 && self.0 < 300
    }

    /// The codes that carry a `Location` to follow: 301, 302, 303, 307, 308.
    pub fn is_redirect(self) -> (r: bool)
        ensures
            r == self.spec_is_redirect(),
    {
        self.0 == 301 || self.0 == 302 || self.0 == 303 || self.0 == 307 || self.0 == 308
    }

    pub fn parse_chars(s: &[char]) -> (r: Result<StatusCode, HttpError>)
        ensures
            match StatusCode::spec_parse(s@) {
                Some(v) => r == Ok::<StatusCode, HttpError>(v),
                None => r == Err::<StatusCode, HttpError>(HttpError::InvalidStatusCode),
            },
    {
        match parse_unsigned_exec(s, 65535) {
            Some(v) => Ok(StatusCode(v as u16)),
            None => Err(HttpError::InvalidStatusCode),
        }
    }

    /// A redirect is never a success.
    pub proof fn lemma_redirect_not_success(self)
        ensures
            self.spec_is_redirect() ==> !self.spec_is_success(),
    {
    }
}

impl std::str::FromStr for StatusCode {
    type Err = HttpError;

    fn from_str(s: &str) -> (r: Result<StatusCode, HttpError>)
        ensures
            match StatusCode::spec_parse(s@) {
                Some(v) => r == Ok::<StatusCode, HttpError>(v),
                None => r == Err::<StatusCode, HttpError>(HttpError::InvalidStatusCode),
            },
    {
        let cs = chars_of(s);
        StatusCode::parse_chars(cs.as_slice())
    }
}

} // verus!
