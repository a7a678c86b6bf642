use rweb::browser::inline::closes_style;
use rweb::browser::inline::open_effect;
use rweb::browser::inline::text_pieces;
use rweb::browser::inline::StyleChange;
use rweb::browser::inline::TagEffect;
use rweb::browser::inline::TextPiece;
use rweb::browser::html::lex;
use rweb::browser::html::Token;
use rweb::browser::layout::build_layout_tree;
use rweb::browser::layout::is_block_node;
use rweb::browser::layout::is_whitespace_text;
use rweb::browser::layout::should_create_layout_node;
use rweb::browser::layout::LayoutBox;
use rweb::browser::layout::LayoutBuilder;
use rweb::browser::layout::LayoutTree;
use rweb::browser::loader::render_text;
use rweb::browser::BrowserEvent;
use rweb::browser::BrowserWindow;
use rweb::browser::FontSlant;
use rweb::browser::FontWeight;
use rweb::browser::LoadedPage;
use rweb::html::parse;
use rweb::html::Document;
use rweb::html::Tag;
use rweb::loader::Url;

fn text(s: &str) -> Token {
    Token::Text(s.to_string())
}

fn tag(s: &str) -> Token {
    Token::Tag(s.to_string())
}

#[test]
fn lex_splits_text_and_tags() {
    assert_eq!(
        lex("Hello <b>world</b>!"),
        vec![text("Hello "), tag("b"), text("world"), tag("/b"), text("!")]
    );
}

#[test]
fn lex_keeps_brackets_that_open_or_close_nothing() {
    assert_eq!(lex("a > b"), vec![text("a > b")]);
    assert_eq!(lex("<a<b>c"), vec![tag("a<b"), text("c")]);
    assert_eq!(lex("<>"), vec![tag("")]);
}

#[test]
fn lex_returns_an_unclosed_tag_as_text() {
    assert_eq!(lex("x<p class"), vec![text("x"), text("<p class")]);
    assert_eq!(lex("x<"), vec![text("x")]);
    assert_eq!(lex(""), Vec::<Token>::new());
}

#[test]
fn render_text_drops_tags() {
    assert_eq!(render_text("<p>Hello <b>world</b></p>"), "Hello world");
    assert_eq!(render_text("plain text"), "plain text");
    assert_eq!(render_text("<a title='<b>'>x</a>y"), "xy");
    assert_eq!(render_text("a>b<c"), "ac");
}

#[test]
fn window_opens_selects_and_closes_tabs() {
    let mut window = BrowserWindow::new("first");
    assert_eq!(*window.active_tab(), "first");

    window.new_tab("second");
    window.new_tab("third");
    assert_eq!(*window.active_tab(), "third");

    window.select_tab(0);
    assert_eq!(*window.active_tab(), "first");

    *window.active_tab_mut() = "changed";
    assert_eq!(*window.active_tab(), "changed");

    window.close_tab(0);
    assert_eq!(*window.active_tab(), "second");

    window.select_tab(1);
    window.close_tab(1);
    assert_eq!(*window.active_tab(), "second");

    window.close_tab(0);
    assert_eq!(*window.active_tab(), "second");
}

#[test]
fn font_enums_and_events_carry_values() {
    assert_ne!(FontWeight::Normal, FontWeight::Bold);
    assert_ne!(FontSlant::Roman, FontSlant::Italic);

    let url: Url = "data:,hello".parse().unwrap();
    let event = BrowserEvent::PageLoaded(Ok(LoadedPage { url, source: "hello".to_string() }));
    match event {
        BrowserEvent::PageLoaded(Ok(page)) => assert_eq!(page.source, "hello"),
        BrowserEvent::PageLoaded(Err(_)) => panic!("expected a page"),
    }
}

fn document(source: &str) -> Document {
    parse(source.to_string()).unwrap()
}

#[test]
fn node_classes_for_layout() {
    let document = document("<p>x</p> <head></head><span></span>");
    let root = document.root();
    let children = document.children(root);

    assert!(should_create_layout_node(&document, root));
    assert!(should_create_layout_node(&document, children[0]));
    assert!(is_block_node(&document, children[0]));
    assert!(is_whitespace_text(&document, children[1]));
    assert!(!should_create_layout_node(&document, children[2]));
    assert!(!is_block_node(&document, children[3]));
    assert!(!is_whitespace_text(&document, children[3]));
}

fn kind_tag(document: &Document, tree: &LayoutTree, id: rweb::browser::layout::LayoutId) -> Option<Tag> {
    match tree.kind(id) {
        LayoutBox::Block(dom) | LayoutBox::Inline(dom) => document.tag(dom),
        LayoutBox::AnonymousBlock => None,
    }
}

#[test]
fn mixed_children_create_anonymous_block() {
    let document =
        parse("<div><i>Hello, </i><b>world!</b><p>So it began...</p></div>".to_string()).unwrap();
    let mut builder = LayoutBuilder::new(&document);
    let root = builder.tree().root();
    builder.build_children(root);
    let tree = builder.tree();

    let div = tree.children(root)[0];
    let children = tree.children(div);

    assert!(matches!(tree.kind(div), LayoutBox::Block(dom) if document.tag(dom) == Some(Tag::Div)));
    assert_eq!(children.len(), 2);
    assert!(matches!(tree.kind(children[0]), LayoutBox::AnonymousBlock));
    assert!(
        matches!(tree.kind(children[1]), LayoutBox::Block(dom) if document.tag(dom) == Some(Tag::P))
    );

    let inline = tree.children(children[0]);
    assert_eq!(inline.len(), 2);
    assert!(matches!(tree.kind(inline[0]), LayoutBox::Inline(dom) if document.tag(dom) == Some(Tag::I)));
    assert!(matches!(tree.kind(inline[1]), LayoutBox::Inline(dom) if document.tag(dom) == Some(Tag::B)));
}

#[test]
fn layout_tree_hides_head_and_skips_blank_runs() {
    let document =
        document("<html><head><title>hidden</title></head> <body>visible <p>para</p> </body></html>");
    let tree = build_layout_tree(&document);
    let root = tree.root();

    let html = tree.children(root);
    assert_eq!(html.len(), 1);
    assert_eq!(kind_tag(&document, &tree, html[0]), Some(Tag::Html));

    let html_children = tree.children(html[0]);
    assert_eq!(html_children.len(), 1);
    assert_eq!(kind_tag(&document, &tree, html_children[0]), Some(Tag::Body));

    let body = tree.children(html_children[0]);
    assert_eq!(body.len(), 2);
    assert!(matches!(tree.kind(body[0]), LayoutBox::AnonymousBlock));
    assert_eq!(kind_tag(&document, &tree, body[1]), Some(Tag::P));
    assert_eq!(tree.previous(body[1]), Some(body[0]));
    assert_eq!(tree.parent(body[1]), Some(html_children[0]));
    assert_eq!(tree.children(body[0]).len(), 1);
}

#[test]
fn inline_boxes_follow_the_document() {
    let document = document("hello <em>world</em>");
    let tree = build_layout_tree(&document);
    let root = tree.root();
    let children = tree.children(root);

    assert_eq!(children.len(), 2);
    assert!(matches!(tree.kind(children[0]), LayoutBox::Inline(_)));
    assert_eq!(kind_tag(&document, &tree, children[1]), Some(Tag::Em));
    assert_eq!(tree.children(children[1]).len(), 1);
    assert_eq!(tree.len(), 4);

    let builder = LayoutBuilder::new(&document);
    assert!(!builder.has_inline_children(root));
    assert!(!builder.is_list_item(root));
}

#[test]
fn list_items_are_block_boxes() {
    let document = document("<ul><li>first</li><li>second</li></ul>");
    let mut builder = LayoutBuilder::new(&document);
    let root = builder.tree().root();
    builder.build_children(root);

    let ul = builder.tree().children(root)[0];
    let items = builder.tree().children(ul).to_vec();
    assert_eq!(items.len(), 2);
    assert!(builder.is_list_item(items[0]));
    assert!(builder.is_list_item(items[1]));
    assert!(!builder.is_list_item(ul));
    assert!(builder.has_inline_children(items[0]));
    assert!(!builder.has_inline_children(root));
}

#[test]
fn text_breaks_into_words_and_spaces() {
    assert_eq!(
        text_pieces("Hello  big\tworld"),
        vec![
            TextPiece::Word("Hello".to_string()),
            TextPiece::Space,
            TextPiece::Space,
            TextPiece::Word("big".to_string()),
            TextPiece::Space,
            TextPiece::Word("world".to_string()),
        ]
    );
    assert_eq!(text_pieces(" a\u{3000}"), vec![
        TextPiece::Space,
        TextPiece::Word("a".to_string()),
        TextPiece::Space,
    ]);
    assert!(text_pieces("").is_empty());
}

#[test]
fn tags_change_line_and_style() {
    assert_eq!(open_effect(Tag::Br), TagEffect::LineBreak);
    assert_eq!(open_effect(Tag::Strong), TagEffect::Style(StyleChange::Bold));
    assert_eq!(open_effect(Tag::Em), TagEffect::Style(StyleChange::Italic));
    assert_eq!(open_effect(Tag::Small), TagEffect::Style(StyleChange::Smaller));
    assert_eq!(open_effect(Tag::Big), TagEffect::Style(StyleChange::Larger));
    assert_eq!(open_effect(Tag::P), TagEffect::Nothing);
    assert!(closes_style(Tag::B));
    assert!(!closes_style(Tag::Br));
    assert!(!closes_style(Tag::Div));
}
