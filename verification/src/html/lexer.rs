//! The HTML lexer: source text to tokens, one at a time.
//!
//! The spec functions below say, for a source `s` and a position `p`, which
//! token starts at `p` and where the next one begins, or which error stops
//! the lexer there.
use vstd::prelude::*;

use crate::html::document::Attribute;
use crate::html::document::SpecAttribute;
use crate::html::tag::Tag;
use crate::html::token::attributes_view;
use crate::html::token::SpecToken;
use crate::html::token::Token;
use crate::text::ascii_whitespace;
use crate::text::chars_of;
use crate::text::find_from;
use crate::text::find_from_exec;
use crate::text::is_ascii_whitespace;
use crate::text::lemma_find_from_bounds;
use crate::text::matches_at;
use crate::text::matches_at_exec;
use crate::text::string_of_range;

verus! {

/// Why the lexer stopped.
#[derive(Debug, Clone, Copy, PartialEq, Eq, Structural)]
pub enum LexError {
    /// A specific character was required; `found` is what stood there (`None` at the end).
    Expected { expected: char, found: Option<char> },
    /// A fixed piece of text was required.
    ExpectedText,
    UnclosedComment,
    MissingTagName,
    MissingAttributeName,
    MissingAttributeValue,
    UnclosedAttributeValue,
}

/// The character classes the lexer scans up to.
#[derive(Debug, Clone, Copy, PartialEq, Eq, Structural)]
pub enum Stop {
    /// `>`
    Gt,
    /// `<`
    Lt,
    /// The end of a tag name: whitespace, `/` or `>`.
    TagName,
    /// The end of an attribute name: whitespace, `=`, `>` or `/`.
    AttributeName,
    /// The end of an unquoted attribute value: whitespace or `>`.
    AttributeValue,
    /// Anything but ASCII whitespace.
    NonWhitespace,
}

pub open spec fn stops(k: Stop, c: char) -> bool {
    match k {
        Stop::Gt => c == '>',
        Stop::Lt => c == '<',
        Stop::TagName => is_ascii_whitespace(c) || c == '/' || c == '>',
        Stop::AttributeName => is_ascii_whitespace(c) || c == '=' || c == '>' || c == '/',
        Stop::AttributeValue => is_ascii_whitespace(c) || c == '>',
        Stop::NonWhitespace => !is_ascii_whitespace(c),
    }
}

pub fn stops_exec(k: Stop, c: char) -> (r: bool)
    ensures
        r == stops(k, c),
{
    match k {
        Stop::Gt => c == '>',
        Stop::Lt => c == '<',
        Stop::TagName => ascii_whitespace(c) || c == '/' || c == '>',
        Stop::AttributeName => ascii_whitespace(c) || c == '=' || c == '>' || c == '/',
        Stop::AttributeValue => ascii_whitespace(c) || c == '>',
        Stop::NonWhitespace => !ascii_whitespace(c),
    }
}

/// The first position `q >= p` whose character is in the class `k`, or the end.
pub open spec fn scan_until(s: Seq<char>, p: int, k: Stop) -> int
    decreases s.len() - p,
{
    if p < 0 || p >= s.len() || stops(k, s[p]) {
        p
    } else {
        scan_until(s, p + 1, k)
    }
}

/// The first position `q >= p` that is not ASCII whitespace, or the end.
pub open spec fn skip_ws(s: Seq<char>, p: int) -> int {
    scan_until(s, p, Stop::NonWhitespace)
}

pub open spec fn char_at(s: Seq<char>, p: int) -> Option<char> {
    if 0 <= p < s.len() {
        Some(s[p])
    } else {
        None
    }
}

/// `c` must stand at `p`; the lexer then continues after it.
pub open spec fn expect(s: Seq<char>, p: int, c: char) -> Result<int, LexError> {
    if char_at(s, p) == Some(c) {
        Ok(p + 1)
    } else {
        Err(LexError::Expected { expected: c, found: char_at(s, p) })
    }
}

pub open spec fn comment_open() -> Seq<char> {
    seq!['<', '!', '-', '-']
}

pub open spec fn comment_close() -> Seq<char> {
    seq!['-', '-', '>']
}

/// Text runs up to the next `<`.
pub open spec fn spec_scan_text(s: Seq<char>, p: int) -> (SpecToken, int) {
    let e = scan_until(s, p, Stop::Lt);
    (SpecToken::Text(s.subrange(p, e)), e)
}

/// A comment opened at `p` runs to the first `-->` after the opening `<!--`.
pub open spec fn spec_scan_comment(s: Seq<char>, p: int) -> Result<(SpecToken, int), LexError> {
    match find_from(s, p + 4, comment_close()) {
        None => Err(LexError::UnclosedComment),
        Some(q) => Ok((SpecToken::Comment(s.subrange(p + 4, q)), q + 3)),
    }
}

/// After `<!` a doctype runs to the next `>`.
pub open spec fn spec_scan_doctype(s: Seq<char>, p: int) -> Result<(SpecToken, int), LexError> {
    let e = scan_until(s, p, Stop::Gt);
    match expect(s, e, '>') {
        Err(err) => Err(err),
        Ok(q) => Ok((SpecToken::Doctype(s.subrange(p, e)), q)),
    }
}

/// A tag name: a non-empty run up to whitespace, `/` or `>`.
pub open spec fn spec_scan_tag_name(s: Seq<char>, p: int) -> Result<(Tag, int), LexError> {
    let e = scan_until(s, p, Stop::TagName);
    if e == p {
        Err(LexError::MissingTagName)
    } else {
        Ok((Tag::spec_parse(s.subrange(p, e)), e))
    }
}

/// A quoted value: from the quote at `p` to the next same quote.
pub open spec fn spec_scan_quoted(s: Seq<char>, p: int) -> Result<(Seq<char>, int), LexError> {
    match find_from(s, p + 1, seq![s[p]]) {
        None => Err(LexError::UnclosedAttributeValue),
        Some(q) => Ok((s.subrange(p + 1, q), q + 1)),
    }
}

/// A value after `=`: quoted with `"` or `'`, or a run up to whitespace or `>`.
pub open spec fn spec_scan_attribute_value(s: Seq<char>, p: int) -> Result<(Seq<char>, int), LexError> {
    match char_at(s, p) {
        None => Err(LexError::MissingAttributeValue),
        Some(c) => if c == '"' || c == '\'' {
            spec_scan_quoted(s, p)
        } else {
            let e = scan_until(s, p, Stop::AttributeValue);
            Ok((s.subrange(p, e), e))
        },
    }
}

/// An attribute: a non-empty name, then optionally `=` and a value.
pub open spec fn spec_scan_attribute(s: Seq<char>, p: int) -> Result<(SpecAttribute, int), LexError> {
    let e = scan_until(s, p, Stop::AttributeName);
    if e == p {
        Err(LexError::MissingAttributeName)
    } else {
        let name = s.subrange(p, e);
        let q = skip_ws(s, e);
        if char_at(s, q) == Some('=') {
            match spec_scan_attribute_value(s, skip_ws(s, q + 1)) {
                Err(err) => Err(err),
                Ok((v, q2)) => Ok((SpecAttribute { name, value: Some(v) }, q2)),
            }
        } else {
            Ok((SpecAttribute { name, value: None }, q))
        }
    }
}

/// Attributes up to the end of the input, `>` or `/`.
pub open spec fn spec_scan_attributes(s: Seq<char>, p: int) -> Result<(Seq<SpecAttribute>, int), LexError>
    decreases s.len() - p,
{
    let q = skip_ws(s, p);
    if p < 0 || q >= s.len() || s[q] == '>' || s[q] == '/' {
        Ok((seq![], q))
    } else {
        match spec_scan_attribute(s, q) {
            Err(err) => Err(err),
            Ok((a, q2)) => {
                proof {
                    lemma_scan_attribute_advances(s, q);
                    lemma_scan_until(s, p, Stop::NonWhitespace);
                }
                match spec_scan_attributes(s, q2) {
                    Err(err) => Err(err),
                    Ok((rest, q3)) => Ok((seq![a] + rest, q3)),
                }
            },
        }
    }
}

/// A tag opened with `<` at `p`: a doctype, a close tag, or an open tag
/// with attributes and an optional `/` before `>`. Void elements are
/// self-closing whether or not they carry the `/`; other elements open.
pub open spec fn spec_scan_tag(s: Seq<char>, p: int) -> Result<(SpecToken, int), LexError> {
    let q = skip_ws(s, p + 1);
    if char_at(s, q) == Some('!') {
        spec_scan_doctype(s, q + 1)
    } else if char_at(s, q) == Some('/') {
        match spec_scan_tag_name(s, skip_ws(s, q + 1)) {
            Err(err) => Err(err),
            Ok((tag, q2)) => match expect(s, skip_ws(s, q2), '>') {
                Err(err) => Err(err),
                Ok(q3) => Ok((SpecToken::CloseTag(tag), q3)),
            },
        }
    } else {
        match spec_scan_tag_name(s, q) {
            Err(err) => Err(err),
            Ok((tag, q2)) => match spec_scan_attributes(s, q2) {
                Err(err) => Err(err),
                Ok((attributes, q3)) => {
                    let q4 = skip_ws(s, q3);
                    let q5 = if char_at(s, q4) == Some('/') {
                        q4 + 1
                    } else {
                        q4
                    };
                    match expect(s, skip_ws(s, q5), '>') {
                        Err(err) => Err(err),
                        Ok(q6) => Ok(
                            (
                                if tag.spec_is_self_closing() {
                                    SpecToken::SelfClosingTag { tag, attributes }
                                } else {
                                    SpecToken::OpenTag { tag, attributes }
                                },
                                q6,
                            ),
                        ),
                    }
                },
            },
        }
    }
}

/// The token that starts at `p`, and where the next one starts.
pub open spec fn spec_scan_token(s: Seq<char>, p: int) -> Result<(SpecToken, int), LexError> {
    if p < 0 || p >= s.len() {
        Ok((SpecToken::Eof, p))
    } else if matches_at(s, p, comment_open()) {
        spec_scan_comment(s, p)
    } else if s[p] == '<' {
        spec_scan_tag(s, p)
    } else {
        Ok(spec_scan_text(s, p))
    }
}

/// Where the source does not start a tag at `p`, the token there is text:
/// exactly the characters from `p` up to the next `<` or the end, whitespace
/// included, and the next token starts at that `<` or the end.
pub proof fn lemma_text_token(s: Seq<char>, p: int)
    requires
        0 <= p < s.len(),
        s[p] != '<',
    ensures
        spec_scan_token(s, p) matches Ok((SpecToken::Text(t), q)) && {
            &&& p < q <= s.len()
            &&& t == s.subrange(p, q)
            &&& forall|i: int| p <= i < q ==> s[i] != '<'
            &&& q == s.len() || s[q] == '<'
        },
{
    lemma_scan_until(s, p, Stop::Lt);
    assert(!matches_at(s, p, comment_open())) by {
        if matches_at(s, p, comment_open()) {
            assert(s.subrange(p, p + 4)[0] == s[p]);
        }
    }
    let q = scan_until(s, p, Stop::Lt);
    assert(q != p);
    assert forall|i: int| p <= i < q implies s[i] != '<' by {
        assert(!stops(Stop::Lt, s[i]));
    }
}

/// The scan from `p` stops at `e` when nothing before `e` stops it and `e`
/// does (or is the end).
proof fn lemma_scan_to(s: Seq<char>, p: int, e: int, k: Stop)
    requires
        0 <= p <= e <= s.len(),
        forall|i: int| p <= i < e ==> !stops(k, #[trigger] s[i]),
        e == s.len() || stops(k, s[e]),
    ensures
        scan_until(s, p, k) == e,
    decreases e - p,
{
    if p < e {
        lemma_scan_to(s, p + 1, e, k);
    }
}

/// The first `c` from `p` on is at `e` when `s[e]` is `c` and none comes before.
proof fn lemma_find_char_from(s: Seq<char>, p: int, e: int, c: char)
    requires
        0 <= p <= e < s.len(),
        s[e] == c,
        forall|i: int| p <= i < e ==> s[i] != c,
    ensures
        find_from(s, p, seq![c]) == Some(e),
{
    lemma_find_from_bounds(s, p, seq![c]);
    assert(matches_at(s, e, seq![c])) by {
        assert(s.subrange(e, e + 1) =~= seq![c]);
    }
    if let Some(j) = find_from(s, p, seq![c]) {
        if j < e {
            assert(s.subrange(j, j + 1)[0] == s[j]);
        }
    }
}

/// A comment token is everything between `<!--` and the first `-->` after
/// it, and the next token starts after that `-->`.
pub proof fn lemma_comment_token(s: Seq<char>, p: int, q: int)
    requires
        0 <= p,
        p + 4 <= q,
        q + 3 <= s.len(),
        s.subrange(p, p + 4) == comment_open(),
        s.subrange(q, q + 3) == comment_close(),
        forall|k: int| p + 4 <= k < q ==> !#[trigger] matches_at(s, k, comment_close()),
    ensures
        spec_scan_token(s, p) == Ok::<(SpecToken, int), LexError>(
            (SpecToken::Comment(s.subrange(p + 4, q)), q + 3),
        ),
{
    lemma_find_from_bounds(s, p + 4, comment_close());
    assert(matches_at(s, q, comment_close()));
    assert(s[p] == s.subrange(p, p + 4)[0]);
    if let Some(j) = find_from(s, p + 4, comment_close()) {
        assert(j == q);
    }
}

/// A character that may stand in a tag name.
pub open spec fn tag_name_char(c: char) -> bool {
    !is_ascii_whitespace(c) && c != '/' && c != '>'
}

/// `</name>` is a close tag for the element the name names.
pub proof fn lemma_close_tag_token(s: Seq<char>, p: int, e: int)
    requires
        0 <= p,
        p + 2 < e < s.len(),
        s[p] == '<',
        s[p + 1] == '/',
        forall|i: int| p + 2 <= i < e ==> tag_name_char(#[trigger] s[i]),
        s[e] == '>',
    ensures
        spec_scan_token(s, p) == Ok::<(SpecToken, int), LexError>(
            (SpecToken::CloseTag(Tag::spec_parse(s.subrange(p + 2, e))), e + 1),
        ),
{
    assert(!matches_at(s, p, comment_open())) by {
        if matches_at(s, p, comment_open()) {
            assert(s.subrange(p, p + 4)[1] == s[p + 1]);
        }
    }
    lemma_scan_to(s, p + 1, p + 1, Stop::NonWhitespace);
    lemma_scan_to(s, p + 2, p + 2, Stop::NonWhitespace);
    assert forall|i: int| p + 2 <= i < e implies !stops(Stop::TagName, #[trigger] s[i]) by {
        assert(tag_name_char(s[i]));
    }
    lemma_scan_to(s, p + 2, e, Stop::TagName);
    lemma_scan_to(s, e, e, Stop::NonWhitespace);
}

/// A character that may stand in an attribute name.
pub open spec fn attribute_name_char(c: char) -> bool {
    !is_ascii_whitespace(c) && c != '=' && c != '>' && c != '/'
}

/// `<name attr="value">` is a tag of the element the name names, carrying
/// the one attribute `attr` with exactly `value`; a void element's tag is
/// self-closing, any other opens the element.
pub proof fn lemma_open_tag_token(s: Seq<char>, p: int, e1: int, e2: int, e3: int)
    requires
        0 <= p,
        p + 1 < e1,
        e1 + 1 < e2,
        e2 + 2 <= e3,
        e3 + 1 < s.len(),
        s[p] == '<',
        s[p + 1] != '!',
        forall|i: int| p + 1 <= i < e1 ==> tag_name_char(#[trigger] s[i]),
        s[e1] == ' ',
        forall|i: int| e1 + 1 <= i < e2 ==> attribute_name_char(#[trigger] s[i]),
        s[e2] == '=',
        s[e2 + 1] == '"',
        forall|i: int| e2 + 2 <= i < e3 ==> #[trigger] s[i] != '"',
        s[e3] == '"',
        s[e3 + 1] == '>',
    ensures
        ({
            let tag = Tag::spec_parse(s.subrange(p + 1, e1));
            let attributes = seq![
                SpecAttribute {
                    name: s.subrange(e1 + 1, e2),
                    value: Some(s.subrange(e2 + 2, e3)),
                },
            ];
            spec_scan_token(s, p) == Ok::<(SpecToken, int), LexError>(
                (
                    if tag.spec_is_self_closing() {
                        SpecToken::SelfClosingTag { tag, attributes }
                    } else {
                        SpecToken::OpenTag { tag, attributes }
                    },
                    e3 + 2,
                ),
            )
        }),
{
    assert(!matches_at(s, p, comment_open())) by {
        if matches_at(s, p, comment_open()) {
            assert(s.subrange(p, p + 4)[1] == s[p + 1]);
        }
    }
    assert(tag_name_char(s[p + 1]));
    lemma_scan_to(s, p + 1, p + 1, Stop::NonWhitespace);
    assert forall|i: int| p + 1 <= i < e1 implies !stops(Stop::TagName, #[trigger] s[i]) by {
        assert(tag_name_char(s[i]));
    }
    lemma_scan_to(s, p + 1, e1, Stop::TagName);
    assert(attribute_name_char(s[e1 + 1]));
    lemma_scan_to(s, e1, e1 + 1, Stop::NonWhitespace);
    assert forall|i: int| e1 + 1 <= i < e2 implies !stops(Stop::AttributeName, #[trigger] s[i]) by {
        assert(attribute_name_char(s[i]));
    }
    lemma_scan_to(s, e1 + 1, e2, Stop::AttributeName);
    lemma_scan_to(s, e2, e2, Stop::NonWhitespace);
    lemma_scan_to(s, e2 + 1, e2 + 1, Stop::NonWhitespace);
    lemma_find_char_from(s, e2 + 2, e3, '"');
    lemma_scan_to(s, e3 + 1, e3 + 1, Stop::NonWhitespace);
    let a = SpecAttribute { name: s.subrange(e1 + 1, e2), value: Some(s.subrange(e2 + 2, e3)) };
    assert(spec_scan_attribute(s, e1 + 1) == Ok::<(SpecAttribute, int), LexError>((a, e3 + 1)));
    assert(spec_scan_attributes(s, e3 + 1) == Ok::<(Seq<SpecAttribute>, int), LexError>(
        (seq![], e3 + 1),
    ));
    assert(seq![a] + Seq::<SpecAttribute>::empty() =~= seq![a]);
    assert(spec_scan_attributes(s, e1) == Ok::<(Seq<SpecAttribute>, int), LexError>(
        (seq![a], e3 + 1),
    ));
}

/// `<name` followed by attributes up to `>` is a tag of the element the
/// name names, carrying exactly the attributes read after the name; a void
/// element's tag is self-closing, any other opens the element.
pub proof fn lemma_tag_token_attributes(s: Seq<char>, p: int, e1: int)
    requires
        0 <= p,
        p + 1 < e1 < s.len(),
        s[p] == '<',
        s[p + 1] != '!',
        forall|i: int| p + 1 <= i < e1 ==> tag_name_char(#[trigger] s[i]),
        !tag_name_char(s[e1]),
    ensures
        spec_scan_attributes(s, e1) matches Ok((attributes, q)) ==> (q < s.len() && s[q] == '>'
            ==> {
            let tag = Tag::spec_parse(s.subrange(p + 1, e1));
            spec_scan_token(s, p) == Ok::<(SpecToken, int), LexError>(
                (
                    if tag.spec_is_self_closing() {
                        SpecToken::SelfClosingTag { tag, attributes }
                    } else {
                        SpecToken::OpenTag { tag, attributes }
                    },
                    q + 1,
                ),
            )
        }),
{
    assert(!matches_at(s, p, comment_open())) by {
        if matches_at(s, p, comment_open()) {
            assert(s.subrange(p, p + 4)[1] == s[p + 1]);
        }
    }
    assert(tag_name_char(s[p + 1]));
    lemma_scan_to(s, p + 1, p + 1, Stop::NonWhitespace);
    assert forall|i: int| p + 1 <= i < e1 implies !stops(Stop::TagName, #[trigger] s[i]) by {
        assert(tag_name_char(s[i]));
    }
    lemma_scan_to(s, p + 1, e1, Stop::TagName);
    lemma_scan_attributes_bounds(s, e1);
    if let Ok((attributes, q)) = spec_scan_attributes(s, e1) {
        if q < s.len() && s[q] == '>' {
            lemma_scan_to(s, q, q, Stop::NonWhitespace);
        }
    }
}

/// A character that may stand in an unquoted attribute value.
pub open spec fn unquoted_value_char(c: char) -> bool {
    !is_ascii_whitespace(c) && c != '>'
}

/// Reading attributes: after whitespace from `p`, `name=value` (the value
/// unquoted, running to whitespace, `>` or the end; or in double quotes,
/// running to the next `"`) is the next attribute, with exactly that name
/// and value, and the attributes after it follow from where the value ends.
pub proof fn lemma_attribute_step(s: Seq<char>, p: int, q: int, e: int, f: int, quoted: bool)
    requires
        0 <= p <= q < e,
        e + 1 < f <= s.len(),
        forall|i: int| p <= i < q ==> is_ascii_whitespace(#[trigger] s[i]),
        forall|i: int| q <= i < e ==> attribute_name_char(#[trigger] s[i]),
        s[e] == '=',
        quoted ==> f < s.len() && s[e + 1] == '"' && s[f] == '"' && forall|i: int|
            e + 2 <= i < f ==> #[trigger] s[i] != '"',
        !quoted ==> s[e + 1] != '"' && s[e + 1] != '\'' && (f == s.len() || !unquoted_value_char(s[f]))
            && forall|i: int| e + 1 <= i < f ==> unquoted_value_char(#[trigger] s[i]),
    ensures
        ({
            let value = if quoted {
                s.subrange(e + 2, f)
            } else {
                s.subrange(e + 1, f)
            };
            let next = if quoted {
                f + 1
            } else {
                f
            };
            let a = SpecAttribute { name: s.subrange(q, e), value: Some(value) };
            spec_scan_attributes(s, p) == match spec_scan_attributes(s, next) {
                Ok((rest, r)) => Ok::<(Seq<SpecAttribute>, int), LexError>((seq![a] + rest, r)),
                Err(x) => Err(x),
            }
        }),
{
    assert forall|i: int| p <= i < q implies !stops(Stop::NonWhitespace, #[trigger] s[i]) by {}
    assert(attribute_name_char(s[q]));
    lemma_scan_to(s, p, q, Stop::NonWhitespace);
    assert forall|i: int| q <= i < e implies !stops(Stop::AttributeName, #[trigger] s[i]) by {
        assert(attribute_name_char(s[i]));
    }
    lemma_scan_to(s, q, e, Stop::AttributeName);
    lemma_scan_to(s, e, e, Stop::NonWhitespace);
    if quoted {
        lemma_scan_to(s, e + 1, e + 1, Stop::NonWhitespace);
        lemma_find_char_from(s, e + 2, f, '"');
    } else {
        assert(unquoted_value_char(s[e + 1]));
        lemma_scan_to(s, e + 1, e + 1, Stop::NonWhitespace);
        assert forall|i: int| e + 1 <= i < f implies !stops(Stop::AttributeValue, #[trigger] s[i]) by {
            assert(unquoted_value_char(s[i]));
        }
        lemma_scan_to(s, e + 1, f, Stop::AttributeValue);
    }
}

/// Reading attributes stops, with none, at the `>` (or `/`) that follows
/// only whitespace.
pub proof fn lemma_attributes_end(s: Seq<char>, p: int, q: int)
    requires
        0 <= p <= q < s.len(),
        forall|i: int| p <= i < q ==> is_ascii_whitespace(#[trigger] s[i]),
        s[q] == '>' || s[q] == '/',
    ensures
        spec_scan_attributes(s, p) == Ok::<(Seq<SpecAttribute>, int), LexError>((seq![], q)),
{
    assert forall|i: int| p <= i < q implies !stops(Stop::NonWhitespace, #[trigger] s[i]) by {}
    lemma_scan_to(s, p, q, Stop::NonWhitespace);
}

/// At the end of the input the lexer keeps returning `Eof` and stays put.
pub proof fn lemma_eof_repeats(s: Seq<char>, p: int)
    requires
        p >= s.len(),
    ensures
        spec_scan_token(s, p) == Ok::<(SpecToken, int), LexError>((SpecToken::Eof, p)),
{
}

pub proof fn lemma_scan_until(s: Seq<char>, p: int, k: Stop)
    requires
        0 <= p <= s.len(),
    ensures
        p <= scan_until(s, p, k) <= s.len(),
        forall|i: int| p <= i < scan_until(s, p, k) ==> !stops(k, #[trigger] s[i]),
        scan_until(s, p, k) < s.len() ==> stops(k, s[scan_until(s, p, k)]),
    decreases s.len() - p,
{
    if p < s.len() && !stops(k, s[p]) {
        lemma_scan_until(s, p + 1, k);
    }
}

pub proof fn lemma_scan_attribute_advances(s: Seq<char>, p: int)
    requires
        0 <= p <= s.len(),
    ensures
        spec_scan_attribute(s, p) matches Ok((_, q)) ==> p < q <= s.len(),
{
    lemma_scan_until(s, p, Stop::AttributeName);
    let e = scan_until(s, p, Stop::AttributeName);
    if e != p {
        lemma_scan_until(s, e, Stop::NonWhitespace);
        let q = skip_ws(s, e);
        if char_at(s, q) == Some('=') {
            lemma_scan_until(s, q + 1, Stop::NonWhitespace);
            let q2 = skip_ws(s, q + 1);
            lemma_scan_until(s, q2, Stop::AttributeValue);
            if q2 < s.len() {
                lemma_find_from_bounds(s, q2 + 1, seq![s[q2]]);
            }
        }
    }
}

pub proof fn lemma_scan_attributes_bounds(s: Seq<char>, p: int)
    requires
        0 <= p <= s.len(),
    ensures
        spec_scan_attributes(s, p) matches Ok((_, q)) ==> p <= q <= s.len(),
    decreases s.len() - p,
{
    lemma_scan_until(s, p, Stop::NonWhitespace);
    let q = skip_ws(s, p);
    if !(q >= s.len() || s[q] == '>' || s[q] == '/') {
        lemma_scan_attribute_advances(s, q);
        if let Ok((a, q2)) = spec_scan_attribute(s, q) {
            lemma_scan_attributes_bounds(s, q2);
        }
    }
}

/// Every token but `Eof` consumes input, and the lexer never runs past the end.
pub proof fn lemma_scan_token_advances(s: Seq<char>, p: int)
    requires
        0 <= p <= s.len(),
    ensures
        spec_scan_token(s, p) matches Ok((t, q)) ==> p <= q <= s.len() && (t is Eof <==> q == p)
            && (t is Eof <==> p == s.len()),
{
    if p < s.len() {
        if matches_at(s, p, comment_open()) {
            lemma_find_from_bounds(s, p + 4, comment_close());
        } else if s[p] == '<' {
            lemma_scan_until(s, p + 1, Stop::NonWhitespace);
            let q = skip_ws(s, p + 1);
            if char_at(s, q) == Some('!') {
                lemma_scan_until(s, q + 1, Stop::Gt);
            } else if char_at(s, q) == Some('/') {
                lemma_scan_until(s, q + 1, Stop::NonWhitespace);
                let q1 = skip_ws(s, q + 1);
                lemma_scan_until(s, q1, Stop::TagName);
                if let Ok((tag, q2)) = spec_scan_tag_name(s, q1) {
                    lemma_scan_until(s, q2, Stop::NonWhitespace);
                }
            } else {
                lemma_scan_until(s, q, Stop::TagName);
                if let Ok((tag, q2)) = spec_scan_tag_name(s, q) {
                    lemma_scan_attributes_bounds(s, q2);
                    if let Ok((attributes, q3)) = spec_scan_attributes(s, q2) {
                        lemma_scan_until(s, q3, Stop::NonWhitespace);
                        let q4 = skip_ws(s, q3);
                        let q5 = if char_at(s, q4) == Some('/') {
                            q4 + 1
                        } else {
                            q4
                        };
                        lemma_scan_until(s, q5, Stop::NonWhitespace);
                    }
                }
            }
        } else {
            lemma_scan_until(s, p, Stop::Lt);
        }
    }
}

/// A cursor over the characters of an HTML source.
#[derive(Debug)]
pub struct Lexer {
    source: Vec<char>,
    pos: usize,
}

impl Lexer {
    #[verifier::type_invariant]
    spec fn inv(self) -> bool {
        self.pos <= self.source@.len()
    }

    /// The characters being lexed.
    pub closed spec fn input(&self) -> Seq<char> {
        self.source@
    }

    /// The position of the next character to read.
    pub closed spec fn position(&self) -> int {
        self.pos as int
    }

    pub fn new(source: &str) -> (r: Lexer)
        ensures
            r.input() == source@,
            r.position() == 0,
    {
        Lexer { source: chars_of(source), pos: 0 }
    }

    /// The next token, or the error that stops the lexer.
    pub fn next(&mut self) -> (r: Result<Token, LexError>)
        ensures
            final(self).input() == old(self).input(),
            0 <= old(self).position() <= old(self).input().len(),
            0 <= final(self).position() <= final(self).input().len(),
            match spec_scan_token(old(self).input(), old(self).position()) {
                Ok((t, q)) => r matches Ok(tok) && tok@ == t && final(self).position() == q,
                Err(e) => r == Err::<Token, LexError>(e),
            },
    {
        proof {
            use_type_invariant(&*self);
        }
        let r = scan_token(self);
        proof {
            use_type_invariant(&*self);
        }
        r
    }

    fn peek(&self) -> (r: Option<char>)
        ensures
            r == char_at(self.input(), self.position()),
    {
        self.nth(0)
    }

    fn nth(&self, n: usize) -> (r: Option<char>)
        ensures
            r == char_at(self.input(), self.position() + n),
    {
        proof {
            use_type_invariant(self);
        }
        if n < self.source.len() - self.pos {
            Some(self.source[self.pos + n])
        } else {
            None
        }
    }

    fn slice(&self, begin: usize, end: usize) -> (r: String)
        requires
            begin <= end <= self.input().len(),
        ensures
            r@ == self.input().subrange(begin as int, end as int),
    {
        string_of_range(self.source.as_slice(), begin, end)
    }

    fn slice_from(&self, begin: usize) -> (r: String)
        requires
            begin <= self.position(),
        ensures
            r@ == self.input().subrange(begin as int, self.position()),
    {
        proof {
            use_type_invariant(self);
        }
        self.slice(begin, self.pos)
    }

    fn remaining(&self) -> (r: &[char])
        ensures
            r@ == self.input().subrange(self.position(), self.input().len() as int),
    {
        proof {
            use_type_invariant(self);
        }
        vstd::slice::slice_subrange(self.source.as_slice(), self.pos, self.source.len())
    }

    fn advance(&mut self) -> (r: Option<char>)
        ensures
            final(self).input() == old(self).input(),
            r == char_at(old(self).input(), old(self).position()),
            final(self).position() == if r is Some {
                old(self).position() + 1
            } else {
                old(self).position()
            },
    {
        proof {
            use_type_invariant(&*self);
        }
        if self.pos < self.source.len() {
            let c = self.source[self.pos];
            self.pos = self.pos + 1;
            Some(c)
        } else {
            None
        }
    }

    fn consume(&mut self, expected: char) -> (r: Result<(), LexError>)
        ensures
            final(self).input() == old(self).input(),
            match expect(old(self).input(), old(self).position(), expected) {
                Ok(q) => r is Ok && final(self).position() == q,
                Err(e) => r == Err::<(), LexError>(e),
            },
    {
        if self.consume_if(expected) {
            return Ok(());
        }
        Err(LexError::Expected { expected, found: self.peek() })
    }

    fn consume_str(&mut self, expected: &[char]) -> (r: Result<(), LexError>)
        ensures
            final(self).input() == old(self).input(),
            matches_at(old(self).input(), old(self).position(), expected@) ==> r is Ok
                && final(self).position() == old(self).position() + expected@.len(),
            !matches_at(old(self).input(), old(self).position(), expected@) ==> r == Err::<
                (),
                LexError,
            >(LexError::ExpectedText),
    {
        if self.consume_str_if(expected) {
            Ok(())
        } else {
            Err(LexError::ExpectedText)
        }
    }

    fn consume_until(&mut self, k: Stop)
        ensures
            final(self).input() == old(self).input(),
            final(self).position() == scan_until(old(self).input(), old(self).position(), k),
    {
        proof {
            use_type_invariant(&*self);
        }
        while self.pos < self.source.len() && !stops_exec(k, self.source[self.pos])
            invariant
                self.input() == old(self).input(),
                scan_until(self.input(), self.position(), k) == scan_until(
                    old(self).input(),
                    old(self).position(),
                    k,
                ),
            decreases self.source@.len() - self.pos,
        {
            proof {
                use_type_invariant(&*self);
            }
            self.pos = self.pos + 1;
        }
        proof {
            use_type_invariant(&*self);
        }
    }

    fn skip_whitespaces(&mut self)
        ensures
            final(self).input() == old(self).input(),
            final(self).position() == skip_ws(old(self).input(), old(self).position()),
    {
        self.consume_until(Stop::NonWhitespace)
    }

    fn match_char(&self, expected: char) -> (r: bool)
        ensures
            r == (char_at(self.input(), self.position()) == Some(expected)),
    {
        match self.peek() {
            Some(c) => c == expected,
            None => false,
        }
    }

    fn match_str(&self, expected: &[char]) -> (r: bool)
        ensures
            r == matches_at(self.input(), self.position(), expected@),
    {
        matches_at_exec(self.source.as_slice(), self.pos, expected)
    }

    fn consume_if(&mut self, expected: char) -> (r: bool)
        ensures
            final(self).input() == old(self).input(),
            r == (char_at(old(self).input(), old(self).position()) == Some(expected)),
            final(self).position() == if r {
                old(self).position() + 1
            } else {
                old(self).position()
            },
    {
        if !self.match_char(expected) {
            return false;
        }
        self.advance();
        true
    }

    fn consume_str_if(&mut self, expected: &[char]) -> (r: bool)
        ensures
            final(self).input() == old(self).input(),
            r == matches_at(old(self).input(), old(self).position(), expected@),
            final(self).position() == if r {
                old(self).position() + expected@.len()
            } else {
                old(self).position()
            },
    {
        if !self.match_str(expected) {
            return false;
        }
        let n = self.source.len();
        assert(self.pos + expected@.len() <= n);
        self.pos = self.pos + expected.len();
        true
    }

    fn is_eof(&self) -> (r: bool)
        ensures
            r == (char_at(self.input(), self.position()) is None),
    {
        self.peek().is_none()
    }
}

pub fn scan_token(lexer: &mut Lexer) -> (r: Result<Token, LexError>)
    ensures
        final(lexer).input() == old(lexer).input(),
        match spec_scan_token(old(lexer).input(), old(lexer).position()) {
            Ok((t, q)) => r matches Ok(tok) && tok@ == t && final(lexer).position() == q,
            Err(e) => r == Err::<Token, LexError>(e),
        },
{
    proof {
        use_type_invariant(&*lexer);
    }
    let cur = match lexer.peek() {
        Some(c) => c,
        None => {
            return Ok(Token::Eof);
        },
    };
    let open = vec!['<', '!', '-', '-'];
    assert(open@ == comment_open());
    if lexer.match_str(open.as_slice()) {
        return scan_comment(lexer);
    }
    if cur == '<' {
        return scan_tag(lexer);
    }
    Ok(scan_text(lexer))
}

fn scan_comment(lexer: &mut Lexer) -> (r: Result<Token, LexError>)
    requires
        matches_at(old(lexer).input(), old(lexer).position(), comment_open()),
    ensures
        final(lexer).input() == old(lexer).input(),
        match spec_scan_comment(old(lexer).input(), old(lexer).position()) {
            Ok((t, q)) => r matches Ok(tok) && tok@ == t && final(lexer).position() == q,
            Err(e) => r == Err::<Token, LexError>(e),
        },
{
    let open = vec!['<', '!', '-', '-'];
    let close = vec!['-', '-', '>'];
    assert(open@ == comment_open());
    assert(close@ == comment_close());
    let r = lexer.consume_str(open.as_slice());
    let start = lexer.pos;
    let found = find_from_exec(lexer.source.as_slice(), start, close.as_slice());
    match found {
        None => Err(LexError::UnclosedComment),
        Some(q) => {
            proof {
                lemma_find_from_bounds(lexer.input(), start as int, comment_close());
            }
            lexer.pos = q;
            let comment = lexer.slice_from(start);
            let r2 = lexer.consume_str(close.as_slice());
            Ok(Token::Comment(comment))
        },
    }
}

fn scan_tag(lexer: &mut Lexer) -> (r: Result<Token, LexError>)
    requires
        char_at(old(lexer).input(), old(lexer).position()) == Some('<'),
    ensures
        final(lexer).input() == old(lexer).input(),
        match spec_scan_tag(old(lexer).input(), old(lexer).position()) {
            Ok((t, q)) => r matches Ok(tok) && tok@ == t && final(lexer).position() == q,
            Err(e) => r == Err::<Token, LexError>(e),
        },
{
    let r0 = lexer.consume('<');
    lexer.skip_whitespaces();
    if lexer.consume_if('!') {
        return scan_doctype(lexer);
    }
    if lexer.consume_if('/') {
        lexer.skip_whitespaces();
        let tag = match scan_tag_name(lexer) {
            Ok(tag) => tag,
            Err(e) => {
                return Err(e);
            },
        };
        lexer.skip_whitespaces();
        match lexer.consume('>') {
            Ok(()) => {},
            Err(e) => {
                return Err(e);
            },
        }
        return Ok(Token::CloseTag(tag));
    }
    let tag = match scan_tag_name(lexer) {
        Ok(tag) => tag,
        Err(e) => {
            return Err(e);
        },
    };
    let attributes = match scan_attributes(lexer) {
        Ok(a) => a,
        Err(e) => {
            return Err(e);
        },
    };
    lexer.skip_whitespaces();
    let _explicit_self_closing = lexer.consume_if('/');
    lexer.skip_whitespaces();
    match lexer.consume('>') {
        Ok(()) => {},
        Err(e) => {
            return Err(e);
        },
    }
    let token = if tag.is_self_closing() {
        Token::SelfClosingTag { tag, attributes }
    } else {
        Token::OpenTag { tag, attributes }
    };
    Ok(token)
}

fn scan_doctype(lexer: &mut Lexer) -> (r: Result<Token, LexError>)
    ensures
        final(lexer).input() == old(lexer).input(),
        match spec_scan_doctype(old(lexer).input(), old(lexer).position()) {
            Ok((t, q)) => r matches Ok(tok) && tok@ == t && final(lexer).position() == q,
            Err(e) => r == Err::<Token, LexError>(e),
        },
{
    proof {
        use_type_invariant(&*lexer);
        lemma_scan_until(lexer.input(), lexer.position(), Stop::Gt);
    }
    let start = lexer.pos;
    lexer.consume_until(Stop::Gt);
    let doctype = lexer.slice_from(start);
    match lexer.consume('>') {
        Ok(()) => {},
        Err(e) => {
            return Err(e);
        },
    }
    Ok(Token::Doctype(doctype))
}

fn scan_attributes(lexer: &mut Lexer) -> (r: Result<Vec<Attribute>, LexError>)
    ensures
        final(lexer).input() == old(lexer).input(),
        match spec_scan_attributes(old(lexer).input(), old(lexer).position()) {
            Ok((a, q)) => r matches Ok(v) && attributes_view(v@) == a && final(lexer).position()
                == q,
            Err(e) => r == Err::<Vec<Attribute>, LexError>(e),
        },
{
    let mut attributes: Vec<Attribute> = Vec::new();
    let ghost s = lexer.input();
    let ghost p0 = lexer.position();
    proof {
        use_type_invariant(&*lexer);
        assert(attributes_view(attributes@) =~= Seq::<SpecAttribute>::empty());
    }
    loop
        invariant
            lexer.input() == s,
            s == old(lexer).input(),
            p0 == old(lexer).position(),
            0 <= lexer.position() <= s.len(),
            match spec_scan_attributes(s, p0) {
                Ok((a, q)) => match spec_scan_attributes(s, lexer.position()) {
                    Ok((rest, q2)) => a == attributes_view(attributes@) + rest && q == q2,
                    Err(_) => false,
                },
                Err(e) => spec_scan_attributes(s, lexer.position()) == Err::<
                    (Seq<SpecAttribute>, int),
                    LexError,
                >(e),
            },
        decreases s.len() - lexer.position(),
    {
        let ghost p = lexer.position();
        lexer.skip_whitespaces();
        proof {
            lemma_scan_until(s, p, Stop::NonWhitespace);
        }
        match lexer.peek() {
            None => {
                assert(attributes_view(attributes@) + seq![] =~= attributes_view(attributes@));
                return Ok(attributes);
            },
            Some(c) => {
                if c == '>' || c == '/' {
                    assert(attributes_view(attributes@) + seq![] =~= attributes_view(
                        attributes@,
                    ));
                    return Ok(attributes);
                }
            },
        }
        let ghost q = lexer.position();
        let attr = match scan_attribute(lexer) {
            Ok(a) => a,
            Err(e) => {
                assert(spec_scan_attributes(s, p) == Err::<(Seq<SpecAttribute>, int), LexError>(
                    e,
                ));
                return Err(e);
            },
        };
        proof {
            lemma_scan_attribute_advances(s, q);
            let ghost before = attributes_view(attributes@);
            assert(attributes_view(attributes@.push(attr)) =~= before.push(attr@));
            if let Ok((rest, q3)) = spec_scan_attributes(s, lexer.position()) {
                assert(before + (seq![attr@] + rest) =~= before.push(attr@) + rest);
            }
        }
        attributes.push(attr);
    }
}

fn scan_attribute(lexer: &mut Lexer) -> (r: Result<Attribute, LexError>)
    ensures
        final(lexer).input() == old(lexer).input(),
        match spec_scan_attribute(old(lexer).input(), old(lexer).position()) {
            Ok((a, q)) => r matches Ok(v) && v@ == a && final(lexer).position() == q,
            Err(e) => r == Err::<Attribute, LexError>(e),
        },
{
    proof {
        use_type_invariant(&*lexer);
        lemma_scan_until(lexer.input(), lexer.position(), Stop::AttributeName);
    }
    let start = lexer.pos;
    lexer.consume_until(Stop::AttributeName);
    if lexer.pos == start {
        return Err(LexError::MissingAttributeName);
    }
    let name = lexer.slice_from(start);
    lexer.skip_whitespaces();
    let value = if lexer.consume_if('=') {
        lexer.skip_whitespaces();
        match scan_attribute_value(lexer) {
            Ok(v) => Some(v),
            Err(e) => {
                return Err(e);
            },
        }
    } else {
        None
    };
    Ok(Attribute { name, value })
}

fn scan_attribute_value(lexer: &mut Lexer) -> (r: Result<String, LexError>)
    ensures
        final(lexer).input() == old(lexer).input(),
        match spec_scan_attribute_value(old(lexer).input(), old(lexer).position()) {
            Ok((v, q)) => r matches Ok(x) && x@ == v && final(lexer).position() == q,
            Err(e) => r == Err::<String, LexError>(e),
        },
{
    proof {
        use_type_invariant(&*lexer);
        lemma_scan_until(lexer.input(), lexer.position(), Stop::AttributeValue);
    }
    match lexer.peek() {
        Some(c) => {
            if c == '"' || c == '\'' {
                scan_quoted_string(lexer)
            } else {
                let start = lexer.pos;
                lexer.consume_until(Stop::AttributeValue);
                Ok(lexer.slice_from(start))
            }
        },
        None => Err(LexError::MissingAttributeValue),
    }
}

fn scan_quoted_string(lexer: &mut Lexer) -> (r: Result<String, LexError>)
    requires
        char_at(old(lexer).input(), old(lexer).position()) is Some,
    ensures
        final(lexer).input() == old(lexer).input(),
        match spec_scan_quoted(old(lexer).input(), old(lexer).position()) {
            Ok((v, q)) => r matches Ok(x) && x@ == v && final(lexer).position() == q,
            Err(e) => r == Err::<String, LexError>(e),
        },
{
    let quote = match lexer.advance() {
        Some(c) => c,
        None => {
            return Err(LexError::UnclosedAttributeValue);
        },
    };
    let start = lexer.pos;
    let pat = vec![quote];
    assert(pat@ == seq![quote]);
    match find_from_exec(lexer.source.as_slice(), start, pat.as_slice()) {
        None => Err(LexError::UnclosedAttributeValue),
        Some(q) => {
            proof {
                lemma_find_from_bounds(lexer.input(), start as int, seq![quote]);
            }
            lexer.pos = q;
            let value = lexer.slice_from(start);
            let r2 = lexer.consume(quote);
            proof {
                assert(lexer.input().subrange(q as int, q + 1)[0] == lexer.input()[q as int]);
            }
            Ok(value)
        },
    }
}

fn scan_tag_name(lexer: &mut Lexer) -> (r: Result<Tag, LexError>)
    ensures
        final(lexer).input() == old(lexer).input(),
        match spec_scan_tag_name(old(lexer).input(), old(lexer).position()) {
            Ok((t, q)) => r == Ok::<Tag, LexError>(t) && final(lexer).position() == q,
            Err(e) => r == Err::<Tag, LexError>(e),
        },
{
    proof {
        use_type_invariant(&*lexer);
        lemma_scan_until(lexer.input(), lexer.position(), Stop::TagName);
    }
    let start = lexer.pos;
    lexer.consume_until(Stop::TagName);
    proof {
        use_type_invariant(&*lexer);
    }
    if lexer.pos == start {
        return Err(LexError::MissingTagName);
    }
    let name = vstd::slice::slice_subrange(lexer.source.as_slice(), start, lexer.pos);
    Ok(Tag::parse_chars(name))
}

fn scan_text(lexer: &mut Lexer) -> (r: Token)
    ensures
        final(lexer).input() == old(lexer).input(),
        r@ == spec_scan_text(old(lexer).input(), old(lexer).position()).0,
        final(lexer).position() == spec_scan_text(old(lexer).input(), old(lexer).position()).1,
{
    proof {
        use_type_invariant(&*lexer);
        lemma_scan_until(lexer.input(), lexer.position(), Stop::Lt);
    }
    let start = lexer.pos;
    lexer.consume_until(Stop::Lt);
    let text = lexer.slice_from(start);
    Token::Text(text)
}

} // verus!
