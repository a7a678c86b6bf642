//! The element names the browser knows.
use vstd::prelude::*;

use crate::text::chars_eq_str;
use crate::text::chars_of;

verus! {

/// An element name. Names the browser does not know are `Unknown`.
#[derive(Debug, Clone, Copy, PartialEq, Eq, Structural)]
pub enum Tag {
    Html,
    Head,
    Title,
    Style,
    Script,
    Meta,
    Link,
    Body,
    H1,
    H2,
    H3,
    H4,
    H5,
    H6,
    P,
    Div,
    Span,
    Br,
    Hr,
    Img,
    Input,
    Strong,
    Em,
    B,
    I,
    Small,
    Big,
    Header,
    Nav,
    Main,
    Section,
    Article,
    Aside,
    Footer,
    Ul,
    Ol,
    Li,
    A,
    Unknown,
}

impl View for Tag {
    type V = Tag;

    open spec fn view(&self) -> Tag {
        *self
    }
}

impl Tag {
    /// The tag named exactly `raw` (names are case-sensitive).
    pub open spec fn spec_parse(raw: Seq<char>) -> Tag {
        if raw == "html"@ {
            Tag::Html
        } else if raw == "head"@ {
            Tag::Head
        } else if raw == "title"@ {
            Tag::Title
        } else if raw == "style"@ {
            Tag::Style
        } else if raw == "script"@ {
            Tag::Script
        } else if raw == "meta"@ {
            Tag::Meta
        } else if raw == "link"@ {
            Tag::Link
        } else if raw == "body"@ {
            Tag::Body
        } else if raw == "h1"@ {
            Tag::H1
        } else if raw == "h2"@ {
            Tag::H2
        } else if raw == "h3"@ {
            Tag::H3
        } else if raw == "h4"@ {
            Tag::H4
        } else if raw == "h5"@ {
            Tag::H5
        } else if raw == "h6"@ {
            Tag::H6
        } else if raw == "p"@ {
            Tag::P
        } else if raw == "div"@ {
            Tag::Div
        } else if raw == "span"@ {
            Tag::Span
        } else if raw == "br"@ {
            Tag::Br
        } else if raw == "hr"@ {
            Tag::Hr
        } else if raw == "img"@ {
            Tag::Img
        } else if raw == "input"@ {
            Tag::Input
        } else if raw == "strong"@ {
            Tag::Strong
        } else if raw == "em"@ {
            Tag::Em
        } else if raw == "b"@ {
            Tag::B
        } else if raw == "i"@ {
            Tag::I
        } else if raw == "small"@ {
            Tag::Small
        } else if raw == "big"@ {
            Tag::Big
        } else if raw == "header"@ {
            Tag::Header
        } else if raw == "nav"@ {
            Tag::Nav
        } else if raw == "main"@ {
            Tag::Main
        } else if raw == "section"@ {
            Tag::Section
        } else if raw == "article"@ {
            Tag::Article
        } else if raw == "aside"@ {
            Tag::Aside
        } else if raw == "footer"@ {
            Tag::Footer
        } else if raw == "ul"@ {
            Tag::Ul
        } else if raw == "ol"@ {
            Tag::Ol
        } else if raw == "li"@ {
            Tag::Li
        } else if raw == "a"@ {
            Tag::A
        } else {
            Tag::Unknown
        }
    }

    /// Void elements, which never have children.
    pub open spec fn spec_is_self_closing(self) -> bool {
        self == Tag::Br || self == Tag::Hr || self == Tag::Img || self == Tag::Input
            || self == Tag::Link || self == Tag::Meta
    }

    pub fn parse(raw: &str) -> (r: Tag)
        ensures
            r == Tag::spec_parse(raw@),
    {
        let cs = chars_of(raw);
        Tag::parse_chars(cs.as_slice())
    }

    pub fn parse_chars(raw: &[char]) -> (r: Tag)
        ensures
            r == Tag::spec_parse(raw@),
    {
        if chars_eq_str(raw, "html") {
            Tag::Html
        } else if chars_eq_str(raw, "head") {
            Tag::Head
        } else if chars_eq_str(raw, "title") {
            Tag::Title
        } else if chars_eq_str(raw, "style") {
            Tag::Style
        } else if chars_eq_str(raw, "script") {
            Tag::Script
        } else if chars_eq_str(raw, "meta") {
            Tag::Meta
        } else if chars_eq_str(raw, "link") {
            Tag::Link
        } else if chars_eq_str(raw, "body") {
            Tag::Body
        } else if chars_eq_str(raw, "h1") {
            Tag::H1
        } else if chars_eq_str(raw, "h2") {
            Tag::H2
        } else if chars_eq_str(raw, "h3") {
            Tag::H3
        } else if chars_eq_str(raw, "h4") {
            Tag::H4
        } else if chars_eq_str(raw, "h5") {
            Tag::H5
        } else if chars_eq_str(raw, "h6") {
            Tag::H6
        } else if chars_eq_str(raw, "p") {
            Tag::P
        } else if chars_eq_str(raw, "div") {
            Tag::Div
        } else if chars_eq_str(raw, "span") {
            Tag::Span
        } else if chars_eq_str(raw, "br") {
            Tag::Br
        } else if chars_eq_str(raw, "hr") {
            Tag::Hr
        } else if chars_eq_str(raw, "img") {
            Tag::Img
        } else if chars_eq_str(raw, "input") {
            Tag::Input
        } else if chars_eq_str(raw, "strong") {
            Tag::Strong
        } else if chars_eq_str(raw, "em") {
            Tag::Em
        } else if chars_eq_str(raw, "b") {
            Tag::B
        } else if chars_eq_str(raw, "i") {
            Tag::I
        } else if chars_eq_str(raw, "small") {
            Tag::Small
        } else if chars_eq_str(raw, "big") {
            Tag::Big
        } else if chars_eq_str(raw, "header") {
            Tag::Header
        } else if chars_eq_str(raw, "nav") {
            Tag::Nav
        } else if chars_eq_str(raw, "main") {
            Tag::Main
        } else if chars_eq_str(raw, "section") {
            Tag::Section
        } else if chars_eq_str(raw, "article") {
            Tag::Article
        } else if chars_eq_str(raw, "aside") {
            Tag::Aside
        } else if chars_eq_str(raw, "footer") {
            Tag::Footer
        } else if chars_eq_str(raw, "ul") {
            Tag::Ul
        } else if chars_eq_str(raw, "ol") {
            Tag::Ol
        } else if chars_eq_str(raw, "li") {
            Tag::Li
        } else if chars_eq_str(raw, "a") {
            Tag::A
        } else {
            Tag::Unknown
        }
    }

    /// Elements that are never drawn: the head and what lives in it.
    pub open spec fn spec_is_hidden(self) -> bool {
        self == Tag::Head || self == Tag::Title || self == Tag::Style || self == Tag::Script
            || self == Tag::Meta || self == Tag::Link
    }

    pub fn is_hidden(self) -> (r: bool)
        ensures
            r == self.spec_is_hidden(),
    {
        match self {
            Tag::Head | Tag::Title | Tag::Style | Tag::Script | Tag::Meta | Tag::Link => true,
            _ => false,
        }
    }

    /// Elements laid out as blocks, stacked one below the other.
    pub open spec fn spec_is_block(self) -> bool {
        self == Tag::Html || self == Tag::Body || self == Tag::Article || self == Tag::Section
            || self == Tag::Nav || self == Tag::Aside || self == Tag::H1 || self == Tag::H2
            || self == Tag::H3 || self == Tag::H4 || self == Tag::H5 || self == Tag::H6
            || self == Tag::Header || self == Tag::Footer || self == Tag::P || self == Tag::Hr
            || self == Tag::Ol || self == Tag::Ul || self == Tag::Li || self == Tag::Main
            || self == Tag::Div
    }

    pub fn is_block(self) -> (r: bool)
        ensures
            r == self.spec_is_block(),
    {
        match self {
            Tag::Html | Tag::Body | Tag::Article | Tag::Section | Tag::Nav | Tag::Aside | Tag::H1
            | Tag::H2 | Tag::H3 | Tag::H4 | Tag::H5 | Tag::H6 | Tag::Header | Tag::Footer | Tag::P
            | Tag::Hr | Tag::Ol | Tag::Ul | Tag::Li | Tag::Main | Tag::Div => true,
            _ => false,
        }
    }

    pub fn is_self_closing(self) -> (r: bool)
        ensures
            r == self.spec_is_self_closing(),
    {
        match self {
            Tag::Br | Tag::Hr | Tag::Img | Tag::Input | Tag::Link | Tag::Meta => true,
            _ => false,
        }
    }
}

/// How a tag token affects the tree being built.
#[derive(Debug, Clone, Copy, PartialEq, Eq, Structural)]
pub enum TagKind {
    Open,
    Close,
    SelfClosing,
}

} // verus!
