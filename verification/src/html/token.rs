//! The tokens the HTML lexer produces.
use vstd::prelude::*;

use crate::html::document::Attribute;
use crate::html::document::SpecAttribute;
use crate::html::tag::Tag;

verus! {

#[derive(Debug, PartialEq, Eq)]
pub enum Token {
    Comment(String),
    Doctype(String),
    Text(String),
    OpenTag { tag: Tag, attributes: Vec<Attribute> },
    SelfClosingTag { tag: Tag, attributes: Vec<Attribute> },
    CloseTag(Tag),
    Eof,
}

/// A token as plain values.
pub enum SpecToken {
    Comment(Seq<char>),
    Doctype(Seq<char>),
    Text(Seq<char>),
    OpenTag { tag: Tag, attributes: Seq<SpecAttribute> },
    SelfClosingTag { tag: Tag, attributes: Seq<SpecAttribute> },
    CloseTag(Tag),
    Eof,
}

pub open spec fn attributes_view(attributes: Seq<Attribute>) -> Seq<SpecAttribute> {
    attributes.map_values(|a: Attribute| a@)
}

impl View for Token {
    type V = SpecToken;

    open spec fn view(&self) -> SpecToken {
        match self {
            Token::Comment(s) => SpecToken::Comment(s@),
            Token::Doctype(s) => SpecToken::Doctype(s@),
            Token::Text(s) => SpecToken::Text(s@),
            Token::OpenTag { tag, attributes } => SpecToken::OpenTag {
                tag: *tag,
                attributes: attributes_view(attributes@),
            },
            Token::SelfClosingTag { tag, attributes } => SpecToken::SelfClosingTag {
                tag: *tag,
                attributes: attributes_view(attributes@),
            },
            Token::CloseTag(tag) => SpecToken::CloseTag(*tag),
            Token::Eof => SpecToken::Eof,
        }
    }
}

} // verus!
