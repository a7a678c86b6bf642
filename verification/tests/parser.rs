use rweb::html::parse;
use rweb::html::parser::ParseError;
use rweb::html::NodeView;
use rweb::html::Tag;

#[test]
fn parser_parses_text_under_document_root() {
    let document = parse("hello".to_string()).unwrap();
    let text = document.children(document.root())[0];

    assert_eq!(document.text(text), Some("hello"));
    assert_eq!(document.parent(text), Some(document.root()));
}

#[test]
fn parser_parses_nested_tags() {
    let document = parse("<p>Hello <em>world</em></p>".to_string()).unwrap();
    let paragraph = document.children(document.root())[0];
    let emphasis = document.children(paragraph)[1];
    let text = document.children(emphasis)[0];

    assert_eq!(document.tag(paragraph), Some(Tag::P));
    assert_eq!(document.tag(emphasis), Some(Tag::Em));
    assert_eq!(document.text(text), Some("world"));
}

#[test]
fn parses_attributes() {
    let document =
        parse("<a href=http://example.org class=\"external\" disabled>link</a>".to_string())
            .unwrap();
    let link = document.children(document.root())[0];

    assert_eq!(document.tag(link), Some(Tag::A));
    let attributes = match document.view(link) {
        NodeView::Tag { attributes, .. } => attributes,
        _ => &[],
    };

    assert_eq!(attributes.len(), 3);
    assert_eq!(attributes[0].name(), "href");
    assert_eq!(attributes[0].value(), Some("http://example.org"));
    assert_eq!(attributes[1].name(), "class");
    assert_eq!(attributes[1].value(), Some("external"));
    assert_eq!(attributes[2].name(), "disabled");
    assert_eq!(attributes[2].value(), None);
}

#[test]
fn parses_quoted_attribute_values_with_spaces_and_greater_than() {
    let document = parse(
        "<a title=\"hello > world with spaces\" href='http://example.org?q=a>b'>link</a>"
            .to_string(),
    )
    .unwrap();
    let link = document.children(document.root())[0];
    let attributes = match document.view(link) {
        NodeView::Tag { attributes, .. } => attributes,
        _ => &[],
    };

    assert_eq!(attributes.len(), 2);
    assert_eq!(attributes[0].name(), "title");
    assert_eq!(attributes[0].value(), Some("hello > world with spaces"));
    assert_eq!(attributes[1].name(), "href");
    assert_eq!(attributes[1].value(), Some("http://example.org?q=a>b"));
}

#[test]
fn greater_than_inside_quoted_attribute_does_not_close_tag() {
    let document = parse("<p data-x=\"1 > 0\">ok</p>".to_string()).unwrap();
    let paragraph = document.children(document.root())[0];
    let text = document.children(paragraph)[0];
    let attributes = match document.view(paragraph) {
        NodeView::Tag { attributes, .. } => attributes,
        _ => &[],
    };

    assert_eq!(attributes.len(), 1);
    assert_eq!(attributes[0].name(), "data-x");
    assert_eq!(attributes[0].value(), Some("1 > 0"));
    assert_eq!(document.text(text), Some("ok"));
}

#[test]
fn parser_treats_void_tags_as_self_closing() {
    let document = parse("<p>a<br>b</p>".to_string()).unwrap();
    let paragraph = document.children(document.root())[0];
    let children = document.children(paragraph);

    assert_eq!(document.text(children[0]), Some("a"));
    assert_eq!(document.tag(children[1]), Some(Tag::Br));
    assert_eq!(document.text(children[2]), Some("b"));
}

#[test]
fn parser_auto_closes_unfinished_tags_at_eof() {
    let document = parse("<p>hello".to_string()).unwrap();
    let paragraph = document.children(document.root())[0];
    let text = document.children(paragraph)[0];

    assert_eq!(document.tag(paragraph), Some(Tag::P));
    assert_eq!(document.text(text), Some("hello"));
}

#[test]
fn mismatched_close_tag_is_an_error() {
    let err = parse("<p><em>x</p>".to_string()).err().unwrap();

    assert_eq!(
        err,
        ParseError::MismatchedTag {
            expected: Tag::Em,
            found: Tag::P
        }
    );
}

#[test]
fn unmatched_close_tag_is_an_error() {
    let err = parse("x</p>".to_string()).err().unwrap();

    assert_eq!(err, ParseError::UnmatchedCloseTag(Tag::P));
}

#[test]
fn comments_and_doctypes_leave_no_nodes() {
    let document = parse("<!doctype html><!-- note -->hi".to_string()).unwrap();
    let children = document.children(document.root());

    assert_eq!(children.len(), 1);
    assert_eq!(document.text(children[0]), Some("hi"));
    assert_eq!(document.source(), "<!doctype html><!-- note -->hi");
}

#[test]
fn every_child_names_its_parent() {
    let document = parse("<div><p>a<b>b</b></p><ul><li>c</li></ul></div>".to_string()).unwrap();
    let mut stack = vec![document.root()];
    let mut seen = 0;

    while let Some(id) = stack.pop() {
        seen += 1;
        for child in document.children(id) {
            assert_eq!(document.parent(*child), Some(id));
            stack.push(*child);
        }
    }

    assert_eq!(seen, 9);
    assert_eq!(document.parent(document.root()), None);
}

#[test]
fn lexer_errors_stop_the_parser() {
    let err = parse("<p><!-- open".to_string()).unwrap_err();
    assert_eq!(err, ParseError::Lex(rweb::html::lexer::LexError::UnclosedComment));
    let err = parse("<>".to_string()).unwrap_err();
    assert_eq!(err, ParseError::Lex(rweb::html::lexer::LexError::MissingTagName));
}

#[test]
fn children_lists_are_in_document_order_and_list_each_node_once() {
    let document = parse("<div><p>a<b>b</b>c</p><br><ul><li>d</li></ul></div>".to_string()).unwrap();
    let mut listed = Vec::new();
    let mut stack = vec![document.root()];
    while let Some(id) = stack.pop() {
        let children = document.children(id);
        for pair in children.windows(2) {
            assert!(pair[0].0 < pair[1].0);
        }
        for child in children {
            assert!(child.0 > id.0);
            listed.push(child.0);
            stack.push(*child);
        }
    }
    listed.sort();
    let count = listed.len();
    listed.dedup();
    assert_eq!(listed.len(), count);
    assert_eq!(count, 10);
    assert!(!listed.contains(&document.root().0));
}
