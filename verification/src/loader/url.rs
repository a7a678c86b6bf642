//! The URLs the loader accepts, by scheme.
use vstd::prelude::*;

use crate::http;
use crate::loader::data_client;
use crate::loader::data_client::DataUrlError;
use crate::loader::file_client;
use crate::loader::file_client::FileUrlError;
use crate::loader::file_client::may_be_absolute;
use crate::text::chars_of;
use crate::text::has_prefix;
use crate::text::starts_with_str;

verus! {

#[derive(Debug)]
pub enum Url {
    Http(http::Url),
    File(file_client::Url),
    Data(data_client::Url),
}

/// Why a URL was refused.
#[derive(Debug, PartialEq, Eq)]
pub enum LoaderUrlError {
    /// The scheme is not `http`, `https`, `file` or `data`.
    UnknownScheme,
    Http(http::UrlError),
    File(FileUrlError),
    Data(DataUrlError),
}

/// Which of the loader's schemes a URL starts with.
pub enum SchemeKind {
    Http,
    File,
    Data,
    Unknown,
}

pub open spec fn scheme_kind(s: Seq<char>) -> SchemeKind {
    if has_prefix(s, crate::http::url::http_prefix()) || has_prefix(
        s,
        crate::http::url::https_prefix(),
    ) {
        SchemeKind::Http
    } else if has_prefix(s, crate::loader::file_client::file_prefix()) {
        SchemeKind::File
    } else if has_prefix(s, crate::loader::data_client::data_prefix()) {
        SchemeKind::Data
    } else {
        SchemeKind::Unknown
    }
}

impl Url {
    /// Reads a URL, dispatching on its scheme.
    pub fn parse(s: &str) -> (r: Result<Url, LoaderUrlError>)
        ensures
            scheme_kind(s@) is Http ==> match crate::http::url::spec_parse_url(s@) {
                Ok(u) => r matches Ok(Url::Http(url)) && url@ == u,
                Err(e) => r matches Err(LoaderUrlError::Http(err)) && err@ == e,
            },
            scheme_kind(s@) is File ==> (r matches Ok(Url::File(u)) && u.spec_path() == s@.skip(7))
                || r == Err::<Url, LoaderUrlError>(LoaderUrlError::File(FileUrlError::RelativePath)),
            scheme_kind(s@) is File && !may_be_absolute(s@.skip(7)) ==> r == Err::<
                Url,
                LoaderUrlError,
            >(LoaderUrlError::File(FileUrlError::RelativePath)),
            scheme_kind(s@) is Data ==> match crate::loader::data_client::spec_parse_data_url(s@) {
                Ok((m, b)) => r matches Ok(Url::Data(u)) && u.spec_media_type() == m
                    && u.spec_body() == b,
                Err(e) => r == Err::<Url, LoaderUrlError>(LoaderUrlError::Data(e)),
            },
            scheme_kind(s@) is Unknown ==> r == Err::<Url, LoaderUrlError>(
                LoaderUrlError::UnknownScheme,
            ),
    {
        let cs = chars_of(s);
        proof {
            reveal_strlit("http://");
            reveal_strlit("https://");
            reveal_strlit("file://");
            reveal_strlit("data:");
            assert("http://"@ =~= crate::http::url::http_prefix());
            assert("https://"@ =~= crate::http::url::https_prefix());
            assert("file://"@ =~= crate::loader::file_client::file_prefix());
            assert("data:"@ =~= crate::loader::data_client::data_prefix());
        }
        if starts_with_str(cs.as_slice(), "http://") || starts_with_str(cs.as_slice(), "https://") {
            match http::Url::parse(s) {
                Ok(url) => Ok(Url::Http(url)),
                Err(e) => Err(LoaderUrlError::Http(e)),
            }
        } else if starts_with_str(cs.as_slice(), "file://") {
            match file_client::Url::parse(s) {
                Ok(url) => Ok(Url::File(url)),
                Err(e) => Err(LoaderUrlError::File(e)),
            }
        } else if starts_with_str(cs.as_slice(), "data:") {
            match data_client::Url::parse(s) {
                Ok(url) => Ok(Url::Data(url)),
                Err(e) => Err(LoaderUrlError::Data(e)),
            }
        } else {
            Err(LoaderUrlError::UnknownScheme)
        }
    }
}

impl Clone for Url {
    fn clone(&self) -> (r: Url)
        ensures
            self matches Url::Http(a) ==> (r matches Url::Http(b) && b@ == a@),
            self matches Url::File(a) ==> (r matches Url::File(b) && b.spec_path()
                == a.spec_path()),
            self matches Url::Data(a) ==> (r matches Url::Data(b) && b.spec_media_type()
                == a.spec_media_type() && b.spec_body() == a.spec_body()),
    {
        match self {
            Url::Http(u) => Url::Http(u.clone()),
            Url::File(u) => Url::File(u.clone()),
            Url::Data(u) => Url::Data(u.clone()),
        }
    }
}

impl std::str::FromStr for Url {
    type Err = LoaderUrlError;

    fn from_str(s: &str) -> (r: Result<Url, LoaderUrlError>)
        ensures
            scheme_kind(s@) is Http ==> match crate::http::url::spec_parse_url(s@) {
                Ok(u) => r matches Ok(Url::Http(url)) && url@ == u,
                Err(e) => r matches Err(LoaderUrlError::Http(err)) && err@ == e,
            },
            scheme_kind(s@) is File ==> (r matches Ok(Url::File(u)) && u.spec_path() == s@.skip(7))
                || r == Err::<Url, LoaderUrlError>(LoaderUrlError::File(FileUrlError::RelativePath)),
            scheme_kind(s@) is File && !may_be_absolute(s@.skip(7)) ==> r == Err::<
                Url,
                LoaderUrlError,
            >(LoaderUrlError::File(FileUrlError::RelativePath)),
            scheme_kind(s@) is Data ==> match crate::loader::data_client::spec_parse_data_url(s@) {
                Ok((m, b)) => r matches Ok(Url::Data(u)) && u.spec_media_type() == m
                    && u.spec_body() == b,
                Err(e) => r == Err::<Url, LoaderUrlError>(LoaderUrlError::Data(e)),
            },
            scheme_kind(s@) is Unknown ==> r == Err::<Url, LoaderUrlError>(
                LoaderUrlError::UnknownScheme,
            ),
    {
        Url::parse(s)
    }
}

} // verus!
