use rweb::html::lexer::LexError;
use rweb::html::lexer::Lexer;
use rweb::html::token::Token;
use rweb::html::Attribute;
use rweb::html::Tag;

fn lex_one(source: &str) -> Result<Token, LexError> {
    Lexer::new(source).next()
}

#[test]
fn lexes_text() {
    assert_eq!(lex_one("hello").unwrap(), Token::Text("hello".to_string()));
}

#[test]
fn preserves_text_whitespace() {
    assert_eq!(
        lex_one(" hello world ").unwrap(),
        Token::Text(" hello world ".to_string())
    );
}

#[test]
fn lexes_open_tag_with_attributes() {
    assert_eq!(
        lex_one("<a href=http://example.org class=\"external\" disabled>").unwrap(),
        Token::OpenTag {
            tag: Tag::A,
            attributes: vec![
                Attribute {
                    name: "href".to_string(),
                    value: Some("http://example.org".to_string()),
                },
                Attribute {
                    name: "class".to_string(),
                    value: Some("external".to_string()),
                },
                Attribute {
                    name: "disabled".to_string(),
                    value: None,
                },
            ],
        }
    );
}

#[test]
fn lexes_close_tag() {
    assert_eq!(lex_one("</p>").unwrap(), Token::CloseTag(Tag::P));
}

#[test]
fn lexes_void_tag_as_self_closing() {
    assert_eq!(
        lex_one("<br>").unwrap(),
        Token::SelfClosingTag {
            tag: Tag::Br,
            attributes: Vec::new(),
        }
    );
}

#[test]
fn normalizes_non_void_slash_tag_to_open_tag() {
    assert_eq!(
        lex_one("<div />").unwrap(),
        Token::OpenTag {
            tag: Tag::Div,
            attributes: Vec::new(),
        }
    );
}

#[test]
fn lexes_quoted_attribute_values_with_greater_than() {
    assert_eq!(
        lex_one("<p data-x=\"1 > 0\">").unwrap(),
        Token::OpenTag {
            tag: Tag::P,
            attributes: vec![Attribute {
                name: "data-x".to_string(),
                value: Some("1 > 0".to_string()),
            }],
        }
    );
}

#[test]
fn lexes_comment() {
    assert_eq!(
        lex_one("<!-- hidden -->").unwrap(),
        Token::Comment(" hidden ".to_string())
    );
}

#[test]
fn lexes_doctype() {
    assert_eq!(
        lex_one("<!doctype html>").unwrap(),
        Token::Doctype("doctype html".to_string())
    );
}

#[test]
fn returns_eof_at_end() {
    let mut lexer = Lexer::new("hello");

    assert_eq!(lexer.next().unwrap(), Token::Text("hello".to_string()));
    assert_eq!(lexer.next().unwrap(), Token::Eof);
}

#[test]
fn eof_repeats_after_end() {
    let mut lexer = Lexer::new("");

    assert_eq!(lexer.next().unwrap(), Token::Eof);
    assert_eq!(lexer.next().unwrap(), Token::Eof);
}

#[test]
fn unclosed_comment_is_an_error() {
    assert_eq!(lex_one("<!-- open").unwrap_err(), LexError::UnclosedComment);
}

#[test]
fn missing_tag_name_is_an_error() {
    assert_eq!(lex_one("<>").unwrap_err(), LexError::MissingTagName);
}

#[test]
fn unclosed_quoted_value_is_an_error() {
    assert_eq!(
        lex_one("<a href=\"x>").unwrap_err(),
        LexError::UnclosedAttributeValue
    );
}

#[test]
fn missing_attribute_value_at_end_is_an_error() {
    assert_eq!(lex_one("<a href=").unwrap_err(), LexError::MissingAttributeValue);
}

#[test]
fn missing_attribute_name_is_an_error() {
    assert_eq!(lex_one("<a =x>").unwrap_err(), LexError::MissingAttributeName);
}

#[test]
fn unterminated_tag_expects_greater_than() {
    assert_eq!(
        lex_one("<p").unwrap_err(),
        LexError::Expected {
            expected: '>',
            found: None
        }
    );
    assert_eq!(
        lex_one("</p x>").unwrap_err(),
        LexError::Expected {
            expected: '>',
            found: Some('x')
        }
    );
}

#[test]
fn unknown_tag_names_are_case_sensitive() {
    assert_eq!(
        lex_one("<P>").unwrap(),
        Token::OpenTag {
            tag: Tag::Unknown,
            attributes: Vec::new(),
        }
    );
}

#[test]
fn single_quoted_and_empty_unquoted_values() {
    assert_eq!(
        lex_one("<a title='x y' href=>").unwrap(),
        Token::OpenTag {
            tag: Tag::A,
            attributes: vec![
                Attribute {
                    name: "title".to_string(),
                    value: Some("x y".to_string()),
                },
                Attribute {
                    name: "href".to_string(),
                    value: Some(String::new()),
                },
            ],
        }
    );
}
