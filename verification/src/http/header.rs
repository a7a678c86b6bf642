//! Header names and the multimap of header values.
use vstd::prelude::*;

use crate::http::error::HttpError;
use crate::text::chars_eq_str;
use crate::text::chars_of;
use crate::text::all_ascii;
use crate::text::ascii_lowercase;
use crate::text::lowercase;
use crate::text::push_chars;
use crate::text::push_str;
use crate::text::string_of;
use crate::text::to_lowercase;
use crate::text::trim;
use crate::text::trim_exec;

verus! {

pub open spec fn host_name() -> Seq<char> {
    seq!['h', 'o', 's', 't']
}

pub open spec fn connection_name() -> Seq<char> {
    seq!['c', 'o', 'n', 'n', 'e', 'c', 't', 'i', 'o', 'n']
}

pub open spec fn content_length_name() -> Seq<char> {
    seq!['c', 'o', 'n', 't', 'e', 'n', 't', '-', 'l', 'e', 'n', 'g', 't', 'h']
}

pub open spec fn user_agent_name() -> Seq<char> {
    seq!['u', 's', 'e', 'r', '-', 'a', 'g', 'e', 'n', 't']
}

pub open spec fn transfer_encoding_name() -> Seq<char> {
    seq!['t', 'r', 'a', 'n', 's', 'f', 'e', 'r', '-', 'e', 'n', 'c', 'o', 'd', 'i', 'n', 'g']
}

pub open spec fn content_encoding_name() -> Seq<char> {
    seq!['c', 'o', 'n', 't', 'e', 'n', 't', '-', 'e', 'n', 'c', 'o', 'd', 'i', 'n', 'g']
}

pub open spec fn is_standard_name(s: Seq<char>) -> bool {
    s == host_name() || s == connection_name() || s == content_length_name() || s
        == user_agent_name() || s == transfer_encoding_name() || s == content_encoding_name()
}

/// A header name, normalized: surrounding whitespace removed, lowercase.
#[allow(non_camel_case_types)]
#[derive(Debug)]
pub enum HeaderName {
    HOST,
    CONNECTION,
    CONTENT_LENGTH,
    USER_AGENT,
    TRANSFER_ENCODING,
    CONTENT_ENCODING,
    Custom(CustomHeaderName),
}

/// A name that is not one of the standard ones.
#[derive(Debug)]
pub struct CustomHeaderName(String);

impl CustomHeaderName {
    #[verifier::type_invariant]
    spec fn inv(self) -> bool {
        !is_standard_name(self.0@)
    }

    pub closed spec fn spec_str(self) -> Seq<char> {
        self.0@
    }

    pub fn lemma_not_standard(&self)
        ensures
            !is_standard_name(self.spec_str()),
    {
        proof {
            use_type_invariant(self);
        }
    }

    fn as_str(&self) -> (r: &str)
        ensures
            r@ == self.spec_str(),
    {
        self.0.as_str()
    }
}

impl View for HeaderName {
    type V = Seq<char>;

    open spec fn view(&self) -> Seq<char> {
        match self {
            HeaderName::HOST => host_name(),
            HeaderName::CONNECTION => connection_name(),
            HeaderName::CONTENT_LENGTH => content_length_name(),
            HeaderName::USER_AGENT => user_agent_name(),
            HeaderName::TRANSFER_ENCODING => transfer_encoding_name(),
            HeaderName::CONTENT_ENCODING => content_encoding_name(),
            HeaderName::Custom(c) => c.spec_str(),
        }
    }
}

impl Clone for HeaderName {
    fn clone(&self) -> (r: HeaderName)
        ensures
            r@ == self@,
    {
        match self {
            HeaderName::HOST => HeaderName::HOST,
            HeaderName::CONNECTION => HeaderName::CONNECTION,
            HeaderName::CONTENT_LENGTH => HeaderName::CONTENT_LENGTH,
            HeaderName::USER_AGENT => HeaderName::USER_AGENT,
            HeaderName::TRANSFER_ENCODING => HeaderName::TRANSFER_ENCODING,
            HeaderName::CONTENT_ENCODING => HeaderName::CONTENT_ENCODING,
            HeaderName::Custom(c) => {
                proof {
                    use_type_invariant(c);
                }
                HeaderName::Custom(CustomHeaderName(c.0.clone()))
            },
        }
    }
}

impl std::str::FromStr for HeaderName {
    type Err = HttpError;

    fn from_str(s: &str) -> (r: Result<HeaderName, HttpError>)
        ensures
            r matches Ok(name) && name@ == lowercase(trim(s@)),
            all_ascii(trim(s@)) ==> (r matches Ok(name) && name@ == ascii_lowercase(trim(s@))),
    {
        Ok(HeaderName::parse(s))
    }
}

proof fn lemma_standard_names_distinct()
    ensures
        host_name() != connection_name(),
        host_name() != content_length_name(),
        host_name() != user_agent_name(),
        host_name() != transfer_encoding_name(),
        host_name() != content_encoding_name(),
        connection_name() != content_length_name(),
        connection_name() != user_agent_name(),
        connection_name() != transfer_encoding_name(),
        connection_name() != content_encoding_name(),
        content_length_name() != user_agent_name(),
        content_length_name() != transfer_encoding_name(),
        content_length_name() != content_encoding_name(),
        user_agent_name() != transfer_encoding_name(),
        user_agent_name() != content_encoding_name(),
        transfer_encoding_name() != content_encoding_name(),
{
    assert(connection_name()[0] != user_agent_name()[0]);
}

impl HeaderName {
    /// Reads a header name: trims it and lowercases it.
    pub fn parse(s: &str) -> (r: HeaderName)
        ensures
            r@ == lowercase(trim(s@)),
            all_ascii(trim(s@)) ==> r@ == ascii_lowercase(trim(s@)),
    {
        let cs = chars_of(s);
        let trimmed = trim_exec(cs.as_slice());
        let t = string_of(trimmed.as_slice());
        let lowered = to_lowercase(t.as_str());
        let l = chars_of(lowered.as_str());
        proof {
            reveal_strlit("host");
            reveal_strlit("connection");
            reveal_strlit("content-length");
            reveal_strlit("user-agent");
            reveal_strlit("transfer-encoding");
            reveal_strlit("content-encoding");
            assert("host"@ =~= host_name());
            assert("connection"@ =~= connection_name());
            assert("content-length"@ =~= content_length_name());
            assert("user-agent"@ =~= user_agent_name());
            assert("transfer-encoding"@ =~= transfer_encoding_name());
            assert("content-encoding"@ =~= content_encoding_name());
        }
        if chars_eq_str(l.as_slice(), "host") {
            HeaderName::HOST
        } else if chars_eq_str(l.as_slice(), "connection") {
            HeaderName::CONNECTION
        } else if chars_eq_str(l.as_slice(), "content-length") {
            HeaderName::CONTENT_LENGTH
        } else if chars_eq_str(l.as_slice(), "user-agent") {
            HeaderName::USER_AGENT
        } else if chars_eq_str(l.as_slice(), "transfer-encoding") {
            HeaderName::TRANSFER_ENCODING
        } else if chars_eq_str(l.as_slice(), "content-encoding") {
            HeaderName::CONTENT_ENCODING
        } else {
            HeaderName::Custom(CustomHeaderName(lowered))
        }
    }

    /// The name as it is written in a message.
    pub fn to_string(&self) -> (r: String)
        ensures
            r@ == self@,
    {
        let lit: &str = match self {
            HeaderName::HOST => "host",
            HeaderName::CONNECTION => "connection",
            HeaderName::CONTENT_LENGTH => "content-length",
            HeaderName::USER_AGENT => "user-agent",
            HeaderName::TRANSFER_ENCODING => "transfer-encoding",
            HeaderName::CONTENT_ENCODING => "content-encoding",
            HeaderName::Custom(c) => c.as_str(),
        };
        proof {
            reveal_strlit("host");
            reveal_strlit("connection");
            reveal_strlit("content-length");
            reveal_strlit("user-agent");
            reveal_strlit("transfer-encoding");
            reveal_strlit("content-encoding");
        }
        let r = String::from_str(lit);
        assert(r@ =~= self@);
        r
    }

    /// Two names are the same header.
    pub fn same(&self, other: &HeaderName) -> (r: bool)
        ensures
            r == (self@ == other@),
    {
        proof {
            lemma_standard_names_distinct();
        }
        match (self, other) {
            (HeaderName::Custom(a), HeaderName::Custom(b)) => a.0 == b.0,
            (HeaderName::Custom(a), _) => {
                a.lemma_not_standard();
                false
            },
            (_, HeaderName::Custom(b)) => {
                b.lemma_not_standard();
                false
            },
            (HeaderName::HOST, HeaderName::HOST) => true,
            (HeaderName::CONNECTION, HeaderName::CONNECTION) => true,
            (HeaderName::CONTENT_LENGTH, HeaderName::CONTENT_LENGTH) => true,
            (HeaderName::USER_AGENT, HeaderName::USER_AGENT) => true,
            (HeaderName::TRANSFER_ENCODING, HeaderName::TRANSFER_ENCODING) => true,
            (HeaderName::CONTENT_ENCODING, HeaderName::CONTENT_ENCODING) => true,
            _ => false,
        }
    }
}

/// The index of the entry for `name`.
pub open spec fn index_of(entries: Seq<(Seq<char>, Seq<Seq<char>>)>, name: Seq<char>) -> Option<int>
    decreases entries.len(),
{
    if entries.len() == 0 {
        None
    } else if entries.last().0 == name {
        Some(entries.len() - 1)
    } else {
        index_of(entries.drop_last(), name)
    }
}

/// The values recorded under `name`, oldest first.
pub open spec fn values_of(entries: Seq<(Seq<char>, Seq<Seq<char>>)>, name: Seq<char>) -> Seq<Seq<char>> {
    match index_of(entries, name) {
        Some(i) => entries[i].1,
        None => seq![],
    }
}

pub open spec fn spec_append(
    entries: Seq<(Seq<char>, Seq<Seq<char>>)>,
    name: Seq<char>,
    value: Seq<char>,
) -> Seq<(Seq<char>, Seq<Seq<char>>)> {
    match index_of(entries, name) {
        Some(i) => entries.update(i, (name, entries[i].1.push(value))),
        None => entries.push((name, seq![value])),
    }
}

pub open spec fn spec_set(
    entries: Seq<(Seq<char>, Seq<Seq<char>>)>,
    name: Seq<char>,
    value: Seq<char>,
) -> Seq<(Seq<char>, Seq<Seq<char>>)> {
    match index_of(entries, name) {
        Some(i) => entries.update(i, (name, seq![value])),
        None => entries.push((name, seq![value])),
    }
}

pub open spec fn line_text(name: Seq<char>, value: Seq<char>) -> Seq<char> {
    name + seq![':', ' '] + value + seq!['\r', '\n']
}

/// `name: value\r\n` for each value, in order.
pub open spec fn entry_text(name: Seq<char>, values: Seq<Seq<char>>) -> Seq<char>
    decreases values.len(),
{
    if values.len() == 0 {
        seq![]
    } else {
        entry_text(name, values.drop_last()) + line_text(name, values.last())
    }
}

/// The header lines of a message, entry by entry.
pub open spec fn headers_text(entries: Seq<(Seq<char>, Seq<Seq<char>>)>) -> Seq<char>
    decreases entries.len(),
{
    if entries.len() == 0 {
        seq![]
    } else {
        headers_text(entries.drop_last()) + entry_text(entries.last().0, entries.last().1)
    }
}

/// Header text is empty or ends with a line break.
pub proof fn lemma_headers_text_ends(entries: Seq<(Seq<char>, Seq<Seq<char>>)>)
    ensures
        headers_text(entries).len() == 0 || (headers_text(entries).len() >= 2 && headers_text(
            entries,
        ).subrange(headers_text(entries).len() - 2, headers_text(entries).len() as int) == seq![
            '\r',
            '\n',
        ]),
    decreases entries.len(),
{
    if entries.len() > 0 {
        lemma_headers_text_ends(entries.drop_last());
        lemma_entry_text_ends(entries.last().0, entries.last().1);
        let a = headers_text(entries.drop_last());
        let b = entry_text(entries.last().0, entries.last().1);
        if b.len() == 0 {
            assert(a + b =~= a);
        } else {
            assert((a + b).subrange((a + b).len() - 2, (a + b).len() as int) =~= b.subrange(
                b.len() - 2,
                b.len() as int,
            ));
        }
    }
}

proof fn lemma_entry_text_ends(name: Seq<char>, values: Seq<Seq<char>>)
    ensures
        entry_text(name, values).len() == 0 || (entry_text(name, values).len() >= 2 && entry_text(
            name,
            values,
        ).subrange(entry_text(name, values).len() - 2, entry_text(name, values).len() as int)
            == seq!['\r', '\n']),
    decreases values.len(),
{
    if values.len() > 0 {
        let a = entry_text(name, values.drop_last());
        let l = line_text(name, values.last());
        assert((a + l).subrange((a + l).len() - 2, (a + l).len() as int) =~= seq!['\r', '\n']);
    }
}

pub open spec fn entries_wf(entries: Seq<(Seq<char>, Seq<Seq<char>>)>) -> bool {
    &&& forall|i: int, j: int|
        0 <= i < entries.len() && 0 <= j < entries.len() && i != j ==> #[trigger] entries[i].0
            != #[trigger] entries[j].0
    &&& forall|i: int| 0 <= i < entries.len() ==> (#[trigger] entries[i]).1.len() > 0
}

pub proof fn lemma_index_of(entries: Seq<(Seq<char>, Seq<Seq<char>>)>, name: Seq<char>)
    ensures
        index_of(entries, name) matches Some(i) ==> 0 <= i < entries.len() && entries[i].0
            == name,
        index_of(entries, name) is None ==> forall|i: int|
            0 <= i < entries.len() ==> (#[trigger] entries[i]).0 != name,
    decreases entries.len(),
{
    if entries.len() > 0 && entries.last().0 != name {
        assert(entries[entries.len() - 1] == entries.last());
        lemma_index_of(entries.drop_last(), name);
        if index_of(entries, name) is None {
            assert forall|i: int| 0 <= i < entries.len() implies (#[trigger] entries[i]).0
                != name by {
                if i < entries.len() - 1 {
                    assert(entries.drop_last()[i] == entries[i]);
                }
            }
        }
    }
}

pub proof fn lemma_index_of_unique(entries: Seq<(Seq<char>, Seq<Seq<char>>)>, name: Seq<char>, k: int)
    requires
        entries_wf(entries),
        0 <= k < entries.len(),
        entries[k].0 == name,
    ensures
        index_of(entries, name) == Some(k),
{
    lemma_index_of(entries, name);
}

/// After appending `value` under `name`, `name` has its old values then
/// `value`; every other name keeps its values.
pub proof fn lemma_append_values(
    entries: Seq<(Seq<char>, Seq<Seq<char>>)>,
    name: Seq<char>,
    value: Seq<char>,
    other: Seq<char>,
)
    requires
        entries_wf(entries),
    ensures
        entries_wf(spec_append(entries, name, value)),
        values_of(spec_append(entries, name, value), other) == if other == name {
            values_of(entries, name).push(value)
        } else {
            values_of(entries, other)
        },
{
    lemma_index_of(entries, name);
    lemma_index_of(entries, other);
    let new = spec_append(entries, name, value);
    assert(entries_wf(new)) by {
        assert forall|i: int, j: int|
            0 <= i < new.len() && 0 <= j < new.len() && i != j implies #[trigger] new[i].0
            != #[trigger] new[j].0 by {
            if i < entries.len() && j < entries.len() {
                assert(new[i].0 == entries[i].0);
                assert(new[j].0 == entries[j].0);
            }
        }
        assert forall|i: int| 0 <= i < new.len() implies (#[trigger] new[i]).1.len() > 0 by {
            if i < entries.len() {
                assert(entries[i].1.len() > 0);
            }
        }
    }
    lemma_index_of(new, other);
    if let Some(k) = index_of(new, other) {
        if k < entries.len() {
            assert(entries[k].0 == other);
            lemma_index_of_unique(entries, other, k);
        }
    }
    if let Some(k) = index_of(entries, other) {
        assert(new[k].0 == other);
        lemma_index_of_unique(new, other, k);
    }
}

/// After setting `name` to `value`, `name` has exactly that value; every
/// other name keeps its values.
pub proof fn lemma_set_values(
    entries: Seq<(Seq<char>, Seq<Seq<char>>)>,
    name: Seq<char>,
    value: Seq<char>,
    other: Seq<char>,
)
    requires
        entries_wf(entries),
    ensures
        entries_wf(spec_set(entries, name, value)),
        values_of(spec_set(entries, name, value), other) == if other == name {
            seq![value]
        } else {
            values_of(entries, other)
        },
{
    lemma_index_of(entries, name);
    lemma_index_of(entries, other);
    let new = spec_set(entries, name, value);
    assert(entries_wf(new)) by {
        assert forall|i: int, j: int|
            0 <= i < new.len() && 0 <= j < new.len() && i != j implies #[trigger] new[i].0
            != #[trigger] new[j].0 by {
            if i < entries.len() && j < entries.len() {
                assert(new[i].0 == entries[i].0);
                assert(new[j].0 == entries[j].0);
            }
        }
        assert forall|i: int| 0 <= i < new.len() implies (#[trigger] new[i]).1.len() > 0 by {
            if i < entries.len() {
                assert(entries[i].1.len() > 0);
            }
        }
    }
    lemma_index_of(new, other);
    if let Some(k) = index_of(new, other) {
        if k < entries.len() {
            assert(entries[k].0 == other);
            lemma_index_of_unique(entries, other, k);
        }
    }
    if let Some(k) = index_of(entries, other) {
        assert(new[k].0 == other);
        lemma_index_of_unique(new, other, k);
    }
}

/// Header values by name, each name once, in the order names were first added.
#[derive(Debug)]
pub struct HeaderMap {
    headers: Vec<(HeaderName, Vec<String>)>,
}

pub open spec fn strings_view(v: Seq<String>) -> Seq<Seq<char>> {
    v.map_values(|s: String| s@)
}

pub open spec fn entries_view(v: Seq<(HeaderName, Vec<String>)>) -> Seq<(Seq<char>, Seq<Seq<char>>)> {
    v.map_values(|e: (HeaderName, Vec<String>)| (e.0@, strings_view(e.1@)))
}

impl HeaderMap {
    #[verifier::type_invariant]
    spec fn inv(self) -> bool {
        entries_wf(self.entries())
    }

    /// Each name with its values, oldest first.
    pub closed spec fn entries(&self) -> Seq<(Seq<char>, Seq<Seq<char>>)> {
        entries_view(self.headers@)
    }

    pub open spec fn values(&self, name: Seq<char>) -> Seq<Seq<char>> {
        values_of(self.entries(), name)
    }

    pub fn lemma_wf(&self)
        ensures
            entries_wf(self.entries()),
    {
        proof {
            use_type_invariant(self);
        }
    }

    pub fn new() -> (r: HeaderMap)
        ensures
            r.entries() == Seq::<(Seq<char>, Seq<Seq<char>>)>::empty(),
    {
        let r = HeaderMap { headers: Vec::new() };
        assert(r.entries() =~= Seq::<(Seq<char>, Seq<Seq<char>>)>::empty());
        r
    }

    fn find(&self, name: &HeaderName) -> (r: Option<usize>)
        ensures
            r matches Some(i) ==> index_of(self.entries(), name@) == Some(i as int),
            r is None ==> index_of(self.entries(), name@) is None,
    {
        proof {
            use_type_invariant(self);
            lemma_index_of(self.entries(), name@);
        }
        let mut i: usize = 0;
        while i < self.headers.len()
            invariant
                i <= self.headers@.len(),
                entries_wf(self.entries()),
                forall|k: int| 0 <= k < i ==> (#[trigger] self.entries()[k]).0 != name@,
            decreases self.headers@.len() - i,
        {
            assert(self.entries()[i as int].0 == self.headers@[i as int].0@);
            if self.headers[i].0.same(name) {
                proof {
                    lemma_index_of_unique(self.entries(), name@, i as int);
                }
                return Some(i);
            }
            i += 1;
        }
        proof {
            if let Some(k) = index_of(self.entries(), name@) {
                assert(self.entries()[k].0 == name@);
            }
        }
        None
    }

    /// Adds `value` after any values `name` already has.
    pub fn append(&mut self, name: HeaderName, value: &str)
        ensures
            final(self).entries() == spec_append(old(self).entries(), name@, value@),
            forall|other: Seq<char>|
                #[trigger] final(self).values(other) == if other == name@ {
                    old(self).values(name@).push(value@)
                } else {
                    old(self).values(other)
                },
    {
        proof {
            use_type_invariant(&*self);
            lemma_index_of(self.entries(), name@);
        }
        let ghost before = self.entries();
        let v = String::from_str(value);
        let found = self.find(&name);
        let mut headers: Vec<(HeaderName, Vec<String>)> = Vec::new();
        std::mem::swap(&mut headers, &mut self.headers);
        match found {
            Some(i) => {
                let ghost orig = headers@;
                assert(entries_view(orig) == before);
                let (n, mut values) = headers.remove(i);
                values.push(v);
                assert(strings_view(values@) =~= before[i as int].1.push(value@));
                headers.insert(i, (n, values));
                proof {
                    assert(entries_view(headers@) =~= spec_append(before, name@, value@)) by {
                        assert forall|k: int| 0 <= k < before.len() implies #[trigger] entries_view(
                            headers@,
                        )[k] == spec_append(before, name@, value@)[k] by {
                            if k != i {
                                assert(headers@[k] == orig[k]);
                            }
                        }
                    }
                    lemma_append_values(before, name@, value@, name@);
                }
                self.headers = headers;
            },
            None => {
                let mut values: Vec<String> = Vec::new();
                values.push(v);
                assert(strings_view(values@) =~= seq![value@]);
                let ghost orig = headers@;
                assert(entries_view(orig) == before);
                headers.push((name, values));
                proof {
                    assert(entries_view(headers@) =~= spec_append(before, name@, value@)) by {
                        assert forall|k: int| 0 <= k < before.len() implies #[trigger] entries_view(
                            headers@,
                        )[k] == spec_append(before, name@, value@)[k] by {
                            assert(headers@[k] == orig[k]);
                        }
                    }
                    lemma_append_values(before, name@, value@, name@);
                }
                self.headers = headers;
            },
        }
        proof {
            assert forall|other: Seq<char>| #[trigger]
                self.values(other) == if other == name@ {
                    values_of(before, name@).push(value@)
                } else {
                    values_of(before, other)
                } by {
                lemma_append_values(before, name@, value@, other);
            }
        }
    }

    /// Replaces all values of `name` with `value`.
    pub fn set(&mut self, name: HeaderName, value: &str)
        ensures
            final(self).entries() == spec_set(old(self).entries(), name@, value@),
            forall|other: Seq<char>|
                #[trigger] final(self).values(other) == if other == name@ {
                    seq![value@]
                } else {
                    old(self).values(other)
                },
    {
        proof {
            use_type_invariant(&*self);
            lemma_index_of(self.entries(), name@);
        }
        let ghost before = self.entries();
        let v = String::from_str(value);
        let mut values: Vec<String> = Vec::new();
        values.push(v);
        assert(strings_view(values@) =~= seq![value@]);
        let found = self.find(&name);
        let mut headers: Vec<(HeaderName, Vec<String>)> = Vec::new();
        std::mem::swap(&mut headers, &mut self.headers);
        match found {
            Some(i) => {
                let ghost orig = headers@;
                assert(entries_view(orig) == before);
                let (n, old_values) = headers.remove(i);
                headers.insert(i, (n, values));
                proof {
                    assert(entries_view(headers@) =~= spec_set(before, name@, value@)) by {
                        assert forall|k: int| 0 <= k < before.len() implies #[trigger] entries_view(
                            headers@,
                        )[k] == spec_set(before, name@, value@)[k] by {
                            if k != i {
                                assert(headers@[k] == orig[k]);
                            }
                        }
                    }
                    lemma_set_values(before, name@, value@, name@);
                }
                self.headers = headers;
            },
            None => {
                let ghost orig = headers@;
                assert(entries_view(orig) == before);
                headers.push((name, values));
                proof {
                    assert(entries_view(headers@) =~= spec_set(before, name@, value@)) by {
                        assert forall|k: int| 0 <= k < before.len() implies #[trigger] entries_view(
                            headers@,
                        )[k] == spec_set(before, name@, value@)[k] by {
                            assert(headers@[k] == orig[k]);
                        }
                    }
                    lemma_set_values(before, name@, value@, name@);
                }
                self.headers = headers;
            },
        }
        proof {
            assert forall|other: Seq<char>| #[trigger]
                self.values(other) == if other == name@ {
                    seq![value@]
                } else {
                    values_of(before, other)
                } by {
                lemma_set_values(before, name@, value@, other);
            }
        }
    }

    /// The first value of `name`.
    pub fn get(&self, name: &HeaderName) -> (r: Option<&str>)
        ensures
            self.values(name@).len() == 0 ==> r is None,
            self.values(name@).len() > 0 ==> (r matches Some(v) && v@ == self.values(name@)[0]),
    {
        proof {
            use_type_invariant(self);
            lemma_index_of(self.entries(), name@);
        }
        match self.find(name) {
            Some(i) => {
                let values = &self.headers[i].1;
                assert(self.entries()[i as int].1.len() > 0);
                assert(strings_view(values@)[0] == values@[0]@);
                Some(values[0].as_str())
            },
            None => None,
        }
    }

    /// All values of `name`, oldest first.
    pub fn get_all(&self, name: &HeaderName) -> (r: Vec<&str>)
        ensures
            r@.map_values(|s: &str| s@) == self.values(name@),
    {
        proof {
            use_type_invariant(self);
            lemma_index_of(self.entries(), name@);
        }
        let mut out: Vec<&str> = Vec::new();
        match self.find(name) {
            Some(i) => {
                let values = &self.headers[i].1;
                let mut j: usize = 0;
                while j < values.len()
                    invariant
                        j <= values@.len(),
                        out@.map_values(|s: &str| s@) == strings_view(values@).take(j as int),
                    decreases values@.len() - j,
                {
                    let ghost prev = out@;
                    let item = values[j].as_str();
                    out.push(item);
                    proof {
                        assert(out@ == prev.push(item));
                        assert(strings_view(values@).take(j + 1) =~= strings_view(values@).take(
                            j as int,
                        ).push(values@[j as int]@));
                        assert(out@.map_values(|s: &str| s@) =~= prev.map_values(|s: &str| s@).push(
                            item@,
                        ));
                    }
                    j += 1;
                }
                assert(strings_view(values@).take(values@.len() as int) =~= strings_view(values@));
                out
            },
            None => {
                assert(out@.map_values(|s: &str| s@) =~= Seq::<Seq<char>>::empty());
                out
            },
        }
    }

    /// The header lines, `name: value\r\n` for each value.
    pub fn to_string(&self) -> (r: String)
        ensures
            r@ == headers_text(self.entries()),
    {
        let mut out = String::new();
        let mut i: usize = 0;
        while i < self.headers.len()
            invariant
                i <= self.headers@.len(),
                out@ == headers_text(self.entries().take(i as int)),
            decreases self.headers@.len() - i,
        {
            let (name, values) = &self.headers[i];
            let name_text = name.to_string();
            let ghost start = out@;
            let mut j: usize = 0;
            while j < values.len()
                invariant
                    j <= values@.len(),
                    name_text@ == name@,
                    out@ == start + entry_text(name@, strings_view(values@).take(j as int)),
                decreases values@.len() - j,
            {
                let ghost s0 = out@;
                push_str(&mut out, name_text.as_str());
                push_str(&mut out, ": ");
                let value = values[j].as_str();
                push_str(&mut out, value);
                push_str(&mut out, "\r\n");
                proof {
                    reveal_strlit(": ");
                    reveal_strlit("\r\n");
                    assert(": "@ =~= seq![':', ' ']);
                    assert("\r\n"@ =~= seq!['\r', '\n']);
                    assert(value@ == values@[j as int]@);
                    assert(out@ =~= s0 + line_text(name@, values@[j as int]@));
                }
                proof {
                    reveal_strlit(": ");
                    reveal_strlit("\r\n");
                    let vs = strings_view(values@);
                    assert(vs.take(j + 1).drop_last() =~= vs.take(j as int));
                    assert(vs.take(j + 1).last() == values@[j as int]@);
                    assert(": "@ =~= seq![':', ' ']);
                    assert("\r\n"@ =~= seq!['\r', '\n']);
                    assert(out@ =~= start + entry_text(name@, vs.take(j as int)) + line_text(
                        name@,
                        values@[j as int]@,
                    ));
                }
                j += 1;
            }
            proof {
                let e = self.entries();
                assert(strings_view(values@).take(values@.len() as int) =~= strings_view(values@));
                assert(e.take(i + 1).drop_last() =~= e.take(i as int));
                assert(e.take(i + 1).last() == e[i as int]);
            }
            i += 1;
        }
        assert(self.entries().take(self.headers@.len() as int) =~= self.entries());
        out
    }
}

impl Clone for HeaderMap {
    fn clone(&self) -> (r: HeaderMap)
        ensures
            r.entries() == self.entries(),
    {
        proof {
            use_type_invariant(self);
        }
        let mut headers: Vec<(HeaderName, Vec<String>)> = Vec::new();
        let mut i: usize = 0;
        while i < self.headers.len()
            invariant
                i <= self.headers@.len(),
                entries_view(headers@) == entries_view(self.headers@).take(i as int),
            decreases self.headers@.len() - i,
        {
            let (name, values) = &self.headers[i];
            let mut copy: Vec<String> = Vec::new();
            let mut j: usize = 0;
            while j < values.len()
                invariant
                    j <= values@.len(),
                    strings_view(copy@) == strings_view(values@).take(j as int),
                decreases values@.len() - j,
            {
                let c = values[j].clone();
                let ghost prev = copy@;
                copy.push(c);
                assert(copy@ == prev.push(c));
                assert(c@ == values@[j as int]@);
                assert(strings_view(copy@) =~= strings_view(prev).push(c@));
                assert(strings_view(values@).take(j + 1) =~= strings_view(values@).take(
                    j as int,
                ).push(values@[j as int]@));
                j += 1;
            }
            assert(strings_view(copy@) =~= strings_view(values@));
            let ghost prev = headers@;
            headers.push((name.clone(), copy));
            assert(entries_view(headers@) =~= entries_view(self.headers@).take(i + 1)) by {
                assert(entries_view(headers@) =~= entries_view(prev).push(
                    (name@, strings_view(values@)),
                ));
            }
            i += 1;
        }
        assert(entries_view(self.headers@).take(self.headers@.len() as int) =~= entries_view(
            self.headers@,
        ));
        HeaderMap { headers }
    }
}

} // verus!
