use rweb::html::node::parse;
use rweb::html::node::NodeView;
use rweb::html::Tag;

#[test]
fn node_parses_text_under_document_root() {
    let document = parse("hello".to_string());
    let text = document.children(document.root())[0];

    assert_eq!(document.text(text), Some("hello"));
    assert_eq!(document.parent(text), Some(document.root()));
}

#[test]
fn node_parses_nested_tags() {
    let document = parse("<p>Hello <em>world</em></p>".to_string());
    let paragraph = document.children(document.root())[0];
    let emphasis = document.children(paragraph)[1];
    let text = document.children(emphasis)[0];

    assert_eq!(document.tag(paragraph), Some(Tag::P));
    assert_eq!(document.tag(emphasis), Some(Tag::Em));
    assert_eq!(document.text(text), Some("world"));
}

#[test]
fn node_treats_void_tags_as_self_closing() {
    let document = parse("<p>a<br>b</p>".to_string());
    let paragraph = document.children(document.root())[0];
    let children = document.children(paragraph);

    assert_eq!(document.text(children[0]), Some("a"));
    assert_eq!(document.tag(children[1]), Some(Tag::Br));
    assert_eq!(document.text(children[2]), Some("b"));
}

#[test]
fn node_auto_closes_unfinished_tags_at_eof() {
    let document = parse("<p>hello".to_string());
    let paragraph = document.children(document.root())[0];
    let text = document.children(paragraph)[0];

    assert_eq!(document.tag(paragraph), Some(Tag::P));
    assert_eq!(document.text(text), Some("hello"));
}

#[test]
fn node_tag_names_are_read_loosely() {
    let document = parse("< DIV class=x >a</ div ><HR/><span />".to_string());
    let root = document.children(document.root());

    assert_eq!(root.len(), 3);
    assert_eq!(document.tag(root[0]), Some(Tag::Div));
    assert_eq!(document.text(document.children(root[0])[0]), Some("a"));
    assert_eq!(document.tag(root[1]), Some(Tag::Hr));
    assert_eq!(document.tag(root[2]), Some(Tag::Span));
    assert!(document.children(root[2]).is_empty());
}

#[test]
fn node_bang_tags_are_self_closing() {
    let document = parse("<!doctype html><p>x</p>".to_string());
    let root = document.children(document.root());

    assert_eq!(root.len(), 2);
    assert_eq!(document.tag(root[0]), Some(Tag::Unknown));
    assert!(document.children(root[0]).is_empty());
    assert_eq!(document.tag(root[1]), Some(Tag::P));
}

#[test]
fn node_view_and_source() {
    let source = "<b>bold</b> tail";
    let document = parse(source.to_string());
    assert_eq!(document.source(), source);

    let root = document.root();
    assert_eq!(document.parent(root), None);
    match document.view(root) {
        NodeView::Document { children } => assert_eq!(children.len(), 2),
        _ => panic!("root is not the document node"),
    }
    let bold = document.children(root)[0];
    match document.view(bold) {
        NodeView::Tag { tag, children } => {
            assert_eq!(tag, Tag::B);
            assert_eq!(children.len(), 1);
        }
        _ => panic!("expected a tag"),
    }
    let tail = document.children(root)[1];
    match document.view(tail) {
        NodeView::Text(text) => assert_eq!(text, " tail"),
        _ => panic!("expected text"),
    }
}

#[test]
fn node_try_parse_refuses_what_it_cannot_build() {
    assert!(rweb::html::node::try_parse("<p>a</b>".to_string()).is_none());
    assert!(rweb::html::node::try_parse("</p>".to_string()).is_none());
    assert!(rweb::html::node::try_parse("text <b".to_string()).is_none());

    let document = rweb::html::node::try_parse("<p>hi".to_string()).unwrap();
    let paragraph = document.children(document.root())[0];
    let text = document.children(paragraph)[0];
    assert_eq!(document.text(text), Some("hi"));
    assert_eq!(document.source(), "<p>hi");
}
