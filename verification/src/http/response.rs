//! Responses: the head (status line and headers) and the body bytes.
use vstd::prelude::*;
use vstd::slice::slice_subrange;
use vstd::slice::slice_to_vec;
use vstd::utf8::decode_utf8;
use vstd::utf8::valid_utf8;

use crate::http::error::HttpError;
use crate::http::header::entries_wf;
use crate::http::header::spec_append;
use crate::http::header::values_of;
use crate::http::header::content_encoding_name;
use crate::http::header::connection_name;
use crate::http::header::content_length_name;
use crate::http::header::transfer_encoding_name;
use crate::http::header::HeaderMap;
use crate::http::header::HeaderName;
use crate::http::status::StatusCode;
use crate::http::version::Version;
use crate::text::chars_eq_str;
use crate::text::chars_of;
use crate::text::find_char;
use crate::text::find_char_exec;
use crate::text::lemma_find_from_bounds;
use crate::text::lines;
use crate::text::lines_exec;
use crate::text::lowercase;
use crate::text::parse_unsigned;
use crate::text::parse_unsigned_exec;
use crate::text::slice_to_vec_range;
use crate::text::string_of;
use crate::text::trim;
use crate::text::trim_exec;

verus! {

/// Calls `std::str::from_utf8`: the bytes as a string exactly when they
/// are valid UTF-8, and then a string whose UTF-8 encoding is those bytes.
#[verifier::external_body]
pub(crate) fn utf8_str(bytes: &[u8]) -> (r: Option<&str>)
    ensures
        r is Some <==> valid_utf8(bytes@),
        r matches Some(s) ==> vstd::utf8::encode_utf8(s@) == bytes@,
{
    std::str::from_utf8(bytes).ok()
}

/// The text a valid UTF-8 byte sequence decodes to.
pub fn utf8_chars(bytes: &[u8]) -> (r: Option<Vec<char>>)
    ensures
        r is Some <==> valid_utf8(bytes@),
        r matches Some(cs) ==> cs@ == decode_utf8(bytes@),
{
    match utf8_str(bytes) {
        Some(s) => {
            proof {
                vstd::utf8::encode_utf8_decode_utf8(s@);
            }
            Some(chars_of(s))
        },
        None => None,
    }
}

pub open spec fn crlf_crlf() -> Seq<u8> {
    seq![13u8, 10u8, 13u8, 10u8]
}

/// The first index `j >= i` where `\r\n\r\n` starts in `raw`.
pub open spec fn find_blank_line(raw: Seq<u8>, i: int) -> Option<int>
    decreases raw.len() - i,
{
    if i < 0 || i + 4 > raw.len() {
        None
    } else if raw.subrange(i, i + 4) == crlf_crlf() {
        Some(i)
    } else {
        find_blank_line(raw, i + 1)
    }
}

/// The blank line found is the first one from `i` on: `\r\n\r\n` stands
/// there and nowhere before it; where none is found there is none at all.
pub proof fn lemma_find_blank_line(raw: Seq<u8>, i: int)
    requires
        0 <= i,
    ensures
        find_blank_line(raw, i) matches Some(j) ==> i <= j && j + 4 <= raw.len()
            && raw.subrange(j, j + 4) == crlf_crlf(),
        find_blank_line(raw, i) matches Some(j) ==> forall|k: int|
            i <= k < j ==> #[trigger] raw.subrange(k, k + 4) != crlf_crlf(),
        find_blank_line(raw, i) is None ==> forall|k: int|
            i <= k && k + 4 <= raw.len() ==> #[trigger] raw.subrange(k, k + 4) != crlf_crlf(),
    decreases raw.len() - i,
{
    if i + 4 <= raw.len() && raw.subrange(i, i + 4) != crlf_crlf() {
        lemma_find_blank_line(raw, i + 1);
    }
}

/// Where the head of a message ends: the first `\r\n\r\n`.
pub fn header_end(raw: &[u8]) -> (r: Option<usize>)
    ensures
        r matches Some(j) ==> find_blank_line(raw@, 0) == Some(j as int),
        r is None ==> find_blank_line(raw@, 0) is None,
{
    let mut i: usize = 0;
    while i < raw.len() && raw.len() - i >= 4
        invariant
            find_blank_line(raw@, i as int) == find_blank_line(raw@, 0),
        decreases raw@.len() - i,
    {
        if raw[i] == 13 && raw[i + 1] == 10 && raw[i + 2] == 13 && raw[i + 3] == 10 {
            assert(raw@.subrange(i as int, i + 4) =~= crlf_crlf());
            return Some(i);
        }
        assert(raw@.subrange(i as int, i + 4) != crlf_crlf()) by {
            if raw@.subrange(i as int, i + 4) == crlf_crlf() {
                assert(raw@.subrange(i as int, i + 4)[0] == raw@[i as int]);
                assert(raw@.subrange(i as int, i + 4)[1] == raw@[i + 1]);
                assert(raw@.subrange(i as int, i + 4)[2] == raw@[i + 2]);
                assert(raw@.subrange(i as int, i + 4)[3] == raw@[i + 3]);
            }
        }
        i += 1;
    }
    None
}

/// The head of a response, as plain values.
pub struct SpecHead {
    pub status: StatusCode,
    pub version: Version,
    pub headers: Seq<(Seq<char>, Seq<Seq<char>>)>,
}

/// The headers of the lines after the status line: each line with a colon
/// adds the trimmed text after the first colon under the name before it.
pub open spec fn header_entries(ls: Seq<Seq<char>>) -> Seq<(Seq<char>, Seq<Seq<char>>)>
    decreases ls.len(),
{
    if ls.len() == 0 {
        seq![]
    } else {
        let e = header_entries(ls.drop_last());
        let line = ls.last();
        match find_char(line, ':') {
            None => e,
            Some(i) => spec_append(e, lowercase(trim(trim(line.take(i)))), trim(line.skip(i + 1))),
        }
    }
}

/// A header line `name:value` adds the trimmed value under the trimmed,
/// lowercased name: the line splits at its first colon, so the value may
/// hold colons of its own. A line without a colon adds nothing.
pub proof fn lemma_header_line(ls: Seq<Seq<char>>, name: Seq<char>, value: Seq<char>)
    requires
        !name.contains(':'),
    ensures
        header_entries(ls.push(name + seq![':'] + value)) == spec_append(
            header_entries(ls),
            lowercase(trim(name)),
            trim(value),
        ),
        !value.contains(':') ==> header_entries(ls.push(value)) == header_entries(ls),
{
    let line = name + seq![':'] + value;
    crate::text::lemma_find_char_first(name, ':', value);
    assert(ls.push(line).drop_last() =~= ls);
    assert(line.take(name.len() as int) =~= name);
    assert(line.skip(name.len() as int + 1) =~= value);
    crate::text::lemma_trim_shape(name);
    if !value.contains(':') {
        crate::text::lemma_find_char_absent(value, ':');
        assert(ls.push(value).drop_last() =~= ls);
    }
}

/// A response head starts with the status line `VERSION CODE[ reason]`:
/// the version is the text before the first space and the code the text
/// after it up to the next space (the reason may hold spaces); the header
/// lines follow the first line break.
pub proof fn lemma_status_line(
    version: Seq<char>,
    code: Seq<char>,
    reason: Seq<char>,
    more: Seq<char>,
)
    requires
        !version.contains(' '),
        !version.contains('\n'),
        !code.contains(' '),
        !code.contains('\n'),
        !reason.contains('\n'),
        reason.len() == 0 || reason[0] == ' ',
    ensures
        spec_parse_head_text(
            version + seq![' '] + code + reason + seq!['\r', '\n'] + more,
        ) == match Version::spec_parse(version) {
            None => Err::<SpecHead, HttpError>(HttpError::InvalidVersion),
            Some(v) => match StatusCode::spec_parse(code) {
                None => Err(HttpError::InvalidStatusCode),
                Some(c) => Ok(SpecHead { status: c, version: v, headers: header_entries(lines(more)) }),
            },
        },
{
    let line = version + seq![' '] + code + reason;
    let text = version + seq![' '] + code + reason + seq!['\r', '\n'] + more;
    assert(!line.contains('\n')) by {
        if line.contains('\n') {
            let i = choose|i: int| 0 <= i < line.len() && line[i] == '\n';
            if i < version.len() {
                assert(line[i] == version[i]);
            } else if i > version.len() && i < version.len() + 1 + code.len() {
                assert(line[i] == code[i - version.len() - 1]);
            } else if i >= version.len() + 1 + code.len() {
                assert(line[i] == reason[i - version.len() - 1 - code.len()]);
            }
        }
    }
    let rest_text = seq!['\n'] + more;
    assert(text =~= (line + seq!['\r']) + seq!['\n'] + more);
    assert(!(line + seq!['\r']).contains('\n')) by {
        if (line + seq!['\r']).contains('\n') {
            let i = choose|i: int|
                0 <= i < (line + seq!['\r']).len() && (line + seq!['\r'])[i] == '\n';
            if i < line.len() {
                assert((line + seq!['\r'])[i] == line[i]);
            }
        }
    }
    crate::text::lemma_find_char_first(line + seq!['\r'], '\n', more);
    let i = line.len() as int + 1;
    assert(text.take(i) =~= line + seq!['\r']);
    assert((line + seq!['\r']).drop_last() =~= line);
    assert(text.skip(i + 1) =~= more);
    assert(lines(text) == seq![line] + lines(more));
    assert(lines(text)[0] == line);
    assert(lines(text).skip(1) =~= lines(more));
    // The version runs to the first space.
    crate::text::lemma_find_char_first(version, ' ', code + reason);
    assert(line =~= version + seq![' '] + (code + reason));
    assert(line.take(version.len() as int) =~= version);
    assert(line.skip(version.len() as int + 1) =~= code + reason);
    // The code runs to the next space, or to the end.
    if reason.len() > 0 {
        crate::text::lemma_find_char_first(code, ' ', reason.drop_first());
        assert(code + reason =~= code + seq![' '] + reason.drop_first());
        assert((code + reason).take(code.len() as int) =~= code);
    } else {
        assert(code + reason =~= code);
        crate::text::lemma_find_char_absent(code, ' ');
    }
}

/// The status line is `VERSION CODE[ reason]`: the version runs to the
/// first space, the code to the next.
pub open spec fn spec_parse_head_text(text: Seq<char>) -> Result<SpecHead, HttpError> {
    let ls = lines(text);
    if ls.len() == 0 {
        Err(HttpError::MissingStatusLine)
    } else {
        let line = ls[0];
        let version_part = match find_char(line, ' ') {
            Some(i) => line.take(i),
            None => line,
        };
        match Version::spec_parse(version_part) {
            None => Err(HttpError::InvalidVersion),
            Some(version) => match find_char(line, ' ') {
                None => Err(HttpError::MissingStatusCode),
                Some(i) => {
                    let rest = line.skip(i + 1);
                    let code_part = match find_char(rest, ' ') {
                        Some(j) => rest.take(j),
                        None => rest,
                    };
                    match StatusCode::spec_parse(code_part) {
                        None => Err(HttpError::InvalidStatusCode),
                        Some(status) => Ok(
                            SpecHead { status, version, headers: header_entries(ls.skip(1)) },
                        ),
                    }
                },
            },
        }
    }
}

pub open spec fn spec_parse_head(raw: Seq<u8>) -> Result<SpecHead, HttpError> {
    if !valid_utf8(raw) {
        Err(HttpError::InvalidHeaderEncoding)
    } else {
        spec_parse_head_text(decode_utf8(raw))
    }
}

/// The first value of a header, if any.
pub open spec fn first_value(entries: Seq<(Seq<char>, Seq<Seq<char>>)>, name: Seq<char>) -> Option<
    Seq<char>,
> {
    if values_of(entries, name).len() > 0 {
        Some(values_of(entries, name)[0])
    } else {
        None
    }
}

#[derive(Debug)]
pub struct Head {
    status: StatusCode,
    version: Version,
    headers: HeaderMap,
}

impl Head {
    pub closed spec fn view(&self) -> SpecHead {
        SpecHead { status: self.status, version: self.version, headers: self.headers.entries() }
    }

    /// Reads a response head (everything before the blank line).
    pub fn parse(raw: &[u8]) -> (r: Result<Head, HttpError>)
        ensures
            match spec_parse_head(raw@) {
                Ok(h) => r matches Ok(head) && head.view() == h,
                Err(e) => r matches Err(err) && err == e,
            },
    {
        let text = match utf8_chars(raw) {
            Some(t) => t,
            None => {
                return Err(HttpError::InvalidHeaderEncoding);
            },
        };
        let ls = lines_exec(text.as_slice());
        let ghost lv = ls@.map_values(|l: Vec<char>| l@);
        if ls.len() == 0 {
            return Err(HttpError::MissingStatusLine);
        }
        let line = &ls[0];
        assert(line@ == lv[0]);
        let space = find_char_exec(line.as_slice(), ' ');
        proof {
            lemma_find_from_bounds(line@, 0, seq![' ']);
        }
        let version_part = match space {
            Some(i) => slice_to_vec_range(line.as_slice(), 0, i),
            None => slice_to_vec_range(line.as_slice(), 0, line.len()),
        };
        assert(version_part@ =~= match find_char(line@, ' ') {
            Some(i) => line@.take(i),
            None => line@,
        });
        let version = match Version::parse_chars(version_part.as_slice()) {
            Ok(v) => v,
            Err(e) => {
                return Err(e);
            },
        };
        let i = match space {
            Some(i) => i,
            None => {
                return Err(HttpError::MissingStatusCode);
            },
        };
        let n = line.len();
        let rest = slice_to_vec_range(line.as_slice(), i + 1, n);
        assert(rest@ =~= line@.skip(i + 1));
        let space2 = find_char_exec(rest.as_slice(), ' ');
        proof {
            lemma_find_from_bounds(rest@, 0, seq![' ']);
        }
        let code_part = match space2 {
            Some(j) => slice_to_vec_range(rest.as_slice(), 0, j),
            None => slice_to_vec_range(rest.as_slice(), 0, rest.len()),
        };
        assert(code_part@ =~= match find_char(rest@, ' ') {
            Some(j) => rest@.take(j),
            None => rest@,
        });
        let status = match StatusCode::parse_chars(code_part.as_slice()) {
            Ok(s) => s,
            Err(e) => {
                return Err(e);
            },
        };
        let mut headers = HeaderMap::new();
        let mut k: usize = 1;
        assert(lv.skip(1).take(0) =~= Seq::<Seq<char>>::empty());
        while k < ls.len()
            invariant
                1 <= k <= ls@.len(),
                lv == ls@.map_values(|l: Vec<char>| l@),
                headers.entries() == header_entries(lv.skip(1).take(k - 1)),
            decreases ls@.len() - k,
        {
            let line = &ls[k];
            assert(line@ == lv[k as int]);
            let ghost prefix = lv.skip(1).take(k as int);
            assert(prefix.drop_last() =~= lv.skip(1).take(k - 1));
            assert(prefix.last() == lv[k as int]);
            let colon = find_char_exec(line.as_slice(), ':');
            proof {
                lemma_find_from_bounds(line@, 0, seq![':']);
            }
            match colon {
                Some(c) => {
                    let raw_name = slice_to_vec_range(line.as_slice(), 0, c);
                    let name_chars = trim_exec(raw_name.as_slice());
                    let name_text = string_of(name_chars.as_slice());
                    let header = HeaderName::parse(name_text.as_str());
                    let n = line.len();
                    let raw_value = slice_to_vec_range(line.as_slice(), c + 1, n);
                    let value_chars = trim_exec(raw_value.as_slice());
                    let value = string_of(value_chars.as_slice());
                    assert(raw_name@ =~= line@.take(c as int));
                    assert(raw_value@ =~= line@.skip(c + 1));
                    headers.append(header, value.as_str());
                },
                None => {},
            }
            k += 1;
        }
        assert(lv.skip(1).take(ls@.len() - 1) =~= lv.skip(1));
        Ok(Head { status, version, headers })
    }

    pub fn status(&self) -> (r: StatusCode)
        ensures
            r == self.view().status,
    {
        self.status
    }

    pub fn version(&self) -> (r: Version)
        ensures
            r == self.view().version,
    {
        self.version
    }

    pub fn headers(&self) -> (r: &HeaderMap)
        ensures
            r.entries() == self.view().headers,
    {
        &self.headers
    }

    /// The `Content-Length` header read as a number, if present and valid.
    /// The `Content-Length` as a number, where it is one.
    pub open spec fn spec_content_length(&self) -> Option<usize> {
        match first_value(self.view().headers, content_length_name()) {
            Some(v) => match parse_unsigned(v, usize::MAX as nat) {
                Some(n) => Some(n as usize),
                None => None,
            },
            None => None,
        }
    }

    pub fn content_length(&self) -> (r: Option<usize>)
        ensures
            r == self.spec_content_length(),
    {
        let value = match self.headers.get(&HeaderName::CONTENT_LENGTH) {
            Some(v) => v,
            None => {
                return None;
            },
        };
        let cs = chars_of(value);
        match parse_unsigned_exec(cs.as_slice(), usize::MAX as u64) {
            Some(n) => Some(n as usize),
            None => None,
        }
    }

    pub fn transfer_encoding(&self) -> (r: Option<&str>)
        ensures
            match first_value(self.view().headers, transfer_encoding_name()) {
                Some(v) => r matches Some(s) && s@ == v,
                None => r is None,
            },
    {
        self.headers.get(&HeaderName::TRANSFER_ENCODING)
    }

    pub fn content_encoding(&self) -> (r: Option<&str>)
        ensures
            match first_value(self.view().headers, content_encoding_name()) {
                Some(v) => r matches Some(s) && s@ == v,
                None => r is None,
            },
    {
        self.headers.get(&HeaderName::CONTENT_ENCODING)
    }

    pub fn connection(&self) -> (r: Option<&str>)
        ensures
            match first_value(self.view().headers, connection_name()) {
                Some(v) => r matches Some(s) && s@ == v,
                None => r is None,
            },
    {
        self.headers.get(&HeaderName::CONNECTION)
    }

    /// The server will close the connection: its `Connection` header is `close`.
    pub fn is_connection_closed(&self) -> (r: bool)
        ensures
            r == (first_value(self.view().headers, connection_name()) == Some(
                seq!['c', 'l', 'o', 's', 'e'],
            )),
    {
        proof {
            reveal_strlit("close");
        }
        match self.connection() {
            Some(value) => {
                let cs = chars_of(value);
                let r = chars_eq_str(cs.as_slice(), "close");
                assert("close"@ =~= seq!['c', 'l', 'o', 's', 'e']);
                r
            },
            None => false,
        }
    }

    /// The `Location` header a redirect points to.
    pub fn location(&self) -> (r: Option<&str>)
        ensures
            match first_value(self.view().headers, location_name()) {
                Some(v) => r matches Some(s) && s@ == v,
                None => r is None,
            },
    {
        let name = HeaderName::parse("location");
        proof {
            reveal_strlit("location");
        }
        self.headers.get(&name)
    }
}

pub open spec fn location_name() -> Seq<char> {
    lowercase(trim("location"@))
}

/// What `Head::try_from` returns is stated on the method itself; this
/// trait-level specification is not claimed (`obeys_try_from_spec` is
/// false), so the value below is never used.
impl<'a> vstd::std_specs::convert::TryFromSpecImpl<&'a [u8]> for Head {
    open spec fn obeys_try_from_spec() -> bool {
        false
    }

    open spec fn try_from_spec(v: &'a [u8]) -> Result<Head, HttpError> {
        Err(HttpError::MissingSeparator)
    }
}

impl<'a> TryFrom<&'a [u8]> for Head {
    type Error = HttpError;

    fn try_from(value: &'a [u8]) -> (r: Result<Head, HttpError>)
        ensures
            match spec_parse_head(value@) {
                Ok(h) => r matches Ok(head) && head.view() == h,
                Err(e) => r matches Err(err) && err == e,
            },
    {
        Head::parse(value)
    }
}

#[derive(Debug)]
pub struct Response {
    head: Head,
    body: Vec<u8>,
}

impl Response {
    pub closed spec fn spec_head(&self) -> SpecHead {
        self.head.view()
    }

    pub closed spec fn spec_body(&self) -> Seq<u8> {
        self.body@
    }

    /// Reads a whole response: the head up to the first blank line, and
    /// every byte after it as the body.
    pub fn parse(raw: &[u8]) -> (r: Result<Response, HttpError>)
        ensures
            match find_blank_line(raw@, 0) {
                None => r == Err::<Response, HttpError>(HttpError::MissingSeparator),
                Some(e) => match spec_parse_head(raw@.take(e)) {
                    Ok(h) => r matches Ok(resp) && resp.spec_head() == h && resp.spec_body()
                        == raw@.skip(e + 4),
                    Err(err) => r == Err::<Response, HttpError>(err),
                },
            },
    {
        let end = match header_end(raw) {
            Some(e) => e,
            None => {
                return Err(HttpError::MissingSeparator);
            },
        };
        proof {
            lemma_find_blank_line(raw@, 0);
        }
        let n = raw.len();
        let head_bytes = slice_subrange(raw, 0, end);
        let body_bytes = slice_subrange(raw, end + 4, n);
        assert(head_bytes@ =~= raw@.take(end as int));
        assert(body_bytes@ =~= raw@.skip(end + 4));
        let head = match Head::parse(head_bytes) {
            Ok(h) => h,
            Err(e) => {
                return Err(e);
            },
        };
        Ok(Response { head, body: slice_to_vec(body_bytes) })
    }

    pub fn new(head: Head, body: Vec<u8>) -> (r: Response)
        ensures
            r.spec_head() == head.view(),
            r.spec_body() == body@,
    {
        Response { head, body }
    }

    pub fn status(&self) -> (r: StatusCode)
        ensures
            r == self.spec_head().status,
    {
        self.head.status
    }

    pub fn version(&self) -> (r: Version)
        ensures
            r == self.spec_head().version,
    {
        self.head.version
    }

    pub fn headers(&self) -> (r: &HeaderMap)
        ensures
            r.entries() == self.spec_head().headers,
    {
        &self.head.headers
    }

    pub fn head(&self) -> (r: &Head)
        ensures
            r.view() == self.spec_head(),
    {
        &self.head
    }

    pub fn body(&self) -> (r: &[u8])
        ensures
            r@ == self.spec_body(),
    {
        self.body.as_slice()
    }

    /// The body as text, when it is valid UTF-8.
    pub fn body_as_str(&self) -> (r: Result<&str, HttpError>)
        ensures
            r is Ok <==> valid_utf8(self.spec_body()),
            r matches Ok(s) ==> vstd::utf8::encode_utf8(s@) == self.spec_body(),
            r is Err ==> r == Err::<&str, HttpError>(HttpError::BodyNotUtf8),
    {
        match utf8_str(self.body.as_slice()) {
            Some(s) => Ok(s),
            None => Err(HttpError::BodyNotUtf8),
        }
    }
}

/// What `Response::try_from` returns is stated on the method itself; this
/// trait-level specification is not claimed (`obeys_try_from_spec` is
/// false), so the value below is never used.
impl<'a> vstd::std_specs::convert::TryFromSpecImpl<&'a [u8]> for Response {
    open spec fn obeys_try_from_spec() -> bool {
        false
    }

    open spec fn try_from_spec(v: &'a [u8]) -> Result<Response, HttpError> {
        Err(HttpError::MissingSeparator)
    }
}

impl<'a> TryFrom<&'a [u8]> for Response {
    type Error = HttpError;

    fn try_from(value: &'a [u8]) -> (r: Result<Response, HttpError>)
        ensures
            match find_blank_line(value@, 0) {
                None => r == Err::<Response, HttpError>(HttpError::MissingSeparator),
                Some(e) => match spec_parse_head(value@.take(e)) {
                    Ok(h) => r matches Ok(resp) && resp.spec_head() == h && resp.spec_body()
                        == value@.skip(e + 4),
                    Err(err) => r == Err::<Response, HttpError>(err),
                },
            },
    {
        Response::parse(value)
    }
}

} // verus!
