//! The HTML parser: tokens to a document tree.
//!
//! Text and tags become children of the innermost open tag (or of the
//! document node); a close tag must match the innermost open tag; void
//! elements never take children; tags still open at the end of the input
//! are closed there.
use vstd::prelude::*;

use crate::html::document::arena_view;
use crate::html::document::kind_children;
use crate::html::document::kind_view;
use crate::html::document::node_view;
use crate::html::document::wf_tree;
use crate::html::document::Attribute;
use crate::html::document::Document;
use crate::html::document::DocumentNode;
use crate::html::document::DomId;
use crate::html::document::DomKind;
use crate::html::document::DomNode;
use crate::html::document::SpecAttribute;
use crate::html::document::SpecKind;
use crate::html::document::SpecNode;
use crate::html::document::TagNode;
use crate::html::document::TextNode;
use crate::html::lexer::lemma_scan_token_advances;
use crate::html::lexer::spec_scan_token;
use crate::html::lexer::LexError;
use crate::html::lexer::Lexer;
use crate::html::tag::Tag;
use crate::html::tag::TagKind;
use crate::html::token::attributes_view;
use crate::html::token::SpecToken;
use crate::html::token::Token;

verus! {

/// Why a source could not be parsed.
#[derive(Debug, Clone, Copy, PartialEq, Eq, Structural)]
pub enum ParseError {
    /// The lexer stopped.
    Lex(LexError),
    /// A close tag for `found` while `expected` was the innermost open tag.
    MismatchedTag { expected: Tag, found: Tag },
    /// A close tag while no tag was open.
    UnmatchedCloseTag(Tag),
}

/// The parser's state as plain values: the nodes so far, and the open tags
/// from outermost to innermost.
pub struct SpecBuilder {
    pub nodes: Seq<SpecNode>,
    pub unfinished: Seq<(Tag, DomId)>,
}

pub open spec fn builder_wf(b: SpecBuilder) -> bool {
    &&& wf_tree(b.nodes)
    &&& forall|k: int|
        #![trigger b.unfinished[k]]
        0 <= k < b.unfinished.len() ==> {
            let (t, id) = b.unfinished[k];
            &&& 1 <= id.index() < b.nodes.len()
            &&& b.nodes[id.index()].kind matches SpecKind::Tag { tag, .. }
            &&& tag == t
        }
}

pub open spec fn initial_builder() -> SpecBuilder {
    SpecBuilder {
        nodes: seq![SpecNode { parent: None, kind: SpecKind::Document { children: seq![] } }],
        unfinished: seq![],
    }
}

/// The node new content is appended to: the innermost open tag, else the document.
pub open spec fn current_parent(b: SpecBuilder) -> DomId {
    if b.unfinished.len() > 0 {
        b.unfinished.last().1
    } else {
        DomId(0)
    }
}

pub open spec fn add_child(k: SpecKind, c: DomId) -> SpecKind {
    match k {
        SpecKind::Document { children } => SpecKind::Document { children: children.push(c) },
        SpecKind::Tag { tag, attributes, children } => SpecKind::Tag {
            tag,
            attributes,
            children: children.push(c),
        },
        SpecKind::Text { text } => SpecKind::Text { text },
    }
}

/// Appends a node of kind `kind` as the last child of `parent`.
pub open spec fn push_node(nodes: Seq<SpecNode>, parent: DomId, kind: SpecKind) -> Seq<SpecNode> {
    let id = DomId(nodes.len() as usize);
    nodes.update(
        parent.index(),
        SpecNode { parent: nodes[parent.index()].parent, kind: add_child(nodes[parent.index()].kind, id) },
    ).push(SpecNode { parent: Some(parent), kind })
}

pub open spec fn spec_push_tag(
    b: SpecBuilder,
    tag: Tag,
    attributes: Seq<SpecAttribute>,
    kind: TagKind,
) -> Result<SpecBuilder, ParseError> {
    match kind {
        TagKind::Open => Ok(
            SpecBuilder {
                nodes: push_node(
                    b.nodes,
                    current_parent(b),
                    SpecKind::Tag { tag, attributes, children: seq![] },
                ),
                unfinished: b.unfinished.push((tag, DomId(b.nodes.len() as usize))),
            },
        ),
        TagKind::Close => if b.unfinished.len() == 0 {
            Err(ParseError::UnmatchedCloseTag(tag))
        } else if b.unfinished.last().0 != tag {
            Err(ParseError::MismatchedTag { expected: b.unfinished.last().0, found: tag })
        } else {
            Ok(SpecBuilder { nodes: b.nodes, unfinished: b.unfinished.drop_last() })
        },
        TagKind::SelfClosing => Ok(
            SpecBuilder {
                nodes: push_node(
                    b.nodes,
                    current_parent(b),
                    SpecKind::Tag { tag, attributes, children: seq![] },
                ),
                unfinished: b.unfinished,
            },
        ),
    }
}

/// What one token does to the parser's state.
pub open spec fn apply_token(b: SpecBuilder, t: SpecToken) -> Result<SpecBuilder, ParseError> {
    match t {
        SpecToken::Text(text) => Ok(
            SpecBuilder {
                nodes: push_node(b.nodes, current_parent(b), SpecKind::Text { text }),
                unfinished: b.unfinished,
            },
        ),
        SpecToken::OpenTag { tag, attributes } => spec_push_tag(b, tag, attributes, TagKind::Open),
        SpecToken::SelfClosingTag { tag, attributes } => spec_push_tag(
            b,
            tag,
            attributes,
            TagKind::SelfClosing,
        ),
        SpecToken::CloseTag(tag) => spec_push_tag(b, tag, seq![], TagKind::Close),
        _ => Ok(b),
    }
}

/// The nodes built from the tokens of `s` from position `p` on, starting
/// from the state `b`, or the first error met.
pub open spec fn parse_from(s: Seq<char>, p: int, b: SpecBuilder) -> Result<Seq<SpecNode>, ParseError>
    decreases s.len() - p,
{
    match spec_scan_token(s, p) {
        Err(e) => Err(ParseError::Lex(e)),
        Ok((t, q)) => if t is Eof {
            Ok(b.nodes)
        } else {
            proof {
                lemma_scan_token_advances(s, p);
            }
            match apply_token(b, t) {
                Err(e) => Err(e),
                Ok(b2) => parse_from(s, q, b2),
            }
        },
    }
}

/// The nodes of the document `s` parses to, or the error that stops it.
pub open spec fn spec_parse(s: Seq<char>) -> Result<Seq<SpecNode>, ParseError> {
    parse_from(s, 0, initial_builder())
}

/// How one step of parsing ends: a lexer error stops it with that error;
/// the end of the input ends it with the nodes so far, whatever tags are
/// still open; a close tag with no tag open, or one that does not name the
/// innermost open tag, stops it with the matching error; a close tag that
/// names the innermost open tag closes it and parsing goes on after it.
pub proof fn lemma_parse_step(s: Seq<char>, p: int, b: SpecBuilder)
    ensures
        spec_scan_token(s, p) matches Err(e) ==> parse_from(s, p, b) == Err::<
            Seq<SpecNode>,
            ParseError,
        >(ParseError::Lex(e)),
        spec_scan_token(s, p) matches Ok((SpecToken::Eof, _)) ==> parse_from(s, p, b) == Ok::<
            Seq<SpecNode>,
            ParseError,
        >(b.nodes),
        spec_scan_token(s, p) matches Ok((SpecToken::CloseTag(t), q)) ==> {
            &&& b.unfinished.len() == 0 ==> parse_from(s, p, b) == Err::<
                Seq<SpecNode>,
                ParseError,
            >(ParseError::UnmatchedCloseTag(t))
            &&& b.unfinished.len() > 0 && b.unfinished.last().0 != t ==> parse_from(s, p, b)
                == Err::<Seq<SpecNode>, ParseError>(
                ParseError::MismatchedTag { expected: b.unfinished.last().0, found: t },
            )
            &&& b.unfinished.len() > 0 && b.unfinished.last().0 == t ==> parse_from(s, p, b)
                == parse_from(
                s,
                q,
                SpecBuilder { nodes: b.nodes, unfinished: b.unfinished.drop_last() },
            )
        },
{
}

/// Two node kinds carry the same content: the same tag and attributes, the
/// same text, or both are the document; children may differ.
pub open spec fn same_content(a: SpecKind, b: SpecKind) -> bool {
    match a {
        SpecKind::Document { .. } => b is Document,
        SpecKind::Tag { tag, attributes, .. } => b matches SpecKind::Tag {
            tag: t2,
            attributes: a2,
            ..
        } && t2 == tag && a2 == attributes,
        SpecKind::Text { text } => b matches SpecKind::Text { text: t2 } && t2 == text,
    }
}

/// Each token that makes a node appends exactly one node, as the last child
/// of the innermost open tag (or of the document): a text token a text node
/// with its text, an open or self-closing tag a tag node with the token's
/// tag and attributes and no children yet. An open tag is then the
/// innermost open tag; a self-closing one leaves the open tags as they were.
pub proof fn lemma_token_makes_node(b: SpecBuilder, t: SpecToken)
    requires
        builder_wf(b),
    ensures
        t matches SpecToken::Text(text) ==> {
            &&& apply_token(b, t) matches Ok(b2)
            &&& b2.nodes.len() == b.nodes.len() + 1
            &&& b2.nodes.last() == (SpecNode {
                parent: Some(current_parent(b)),
                kind: SpecKind::Text { text },
            })
            &&& b2.unfinished == b.unfinished
        },
        t matches SpecToken::SelfClosingTag { tag, attributes } ==> {
            &&& apply_token(b, t) matches Ok(b2)
            &&& b2.nodes.len() == b.nodes.len() + 1
            &&& b2.nodes.last() == (SpecNode {
                parent: Some(current_parent(b)),
                kind: SpecKind::Tag { tag, attributes, children: seq![] },
            })
            &&& b2.unfinished == b.unfinished
        },
        t matches SpecToken::OpenTag { tag, attributes } ==> {
            &&& apply_token(b, t) matches Ok(b2)
            &&& b2.nodes.len() == b.nodes.len() + 1
            &&& b2.nodes.last() == (SpecNode {
                parent: Some(current_parent(b)),
                kind: SpecKind::Tag { tag, attributes, children: seq![] },
            })
            &&& b2.unfinished == b.unfinished.push((tag, DomId(b.nodes.len() as usize)))
        },
{
    let parent = current_parent(b);
    lemma_current_parent_valid(b);
    match t {
        SpecToken::Text(text) => {
            let kind = SpecKind::Text { text };
            let nodes = push_node(b.nodes, parent, kind);
            assert(nodes.last() == SpecNode { parent: Some(parent), kind });
        },
        SpecToken::SelfClosingTag { tag, attributes } => {
            let kind = SpecKind::Tag { tag, attributes, children: seq![] };
            let nodes = push_node(b.nodes, parent, kind);
            assert(nodes.last() == SpecNode { parent: Some(parent), kind });
            assert(apply_token(b, t) == spec_push_tag(b, tag, attributes, TagKind::SelfClosing));
        },
        SpecToken::OpenTag { tag, attributes } => {
            let kind = SpecKind::Tag { tag, attributes, children: seq![] };
            let nodes = push_node(b.nodes, parent, kind);
            assert(nodes.last() == SpecNode { parent: Some(parent), kind });
            assert(apply_token(b, t) == spec_push_tag(b, tag, attributes, TagKind::Open));
        },
        _ => {},
    }
}

/// `k` is a tag node of `tag` with exactly `attributes`.
pub open spec fn tag_with(k: SpecKind, tag: Tag, attributes: Seq<SpecAttribute>) -> bool {
    k matches SpecKind::Tag { tag: t2, attributes: a2, .. } && t2 == tag && a2 == attributes
}

/// A token never changes the content or the parent of a node already built.
pub proof fn lemma_token_keeps_nodes(b: SpecBuilder, t: SpecToken)
    requires
        builder_wf(b),
    ensures
        apply_token(b, t) matches Ok(b2) ==> {
            &&& b2.nodes.len() >= b.nodes.len()
            &&& forall|i: int|
                0 <= i < b.nodes.len() ==> same_content(b.nodes[i].kind, #[trigger] b2.nodes[i].kind)
                    && b2.nodes[i].parent == b.nodes[i].parent
        },
{
    if let Ok(b2) = apply_token(b, t) {
        let parent = current_parent(b);
        lemma_current_parent_valid(b);
        let kind = match t {
            SpecToken::Text(text) => SpecKind::Text { text },
            SpecToken::OpenTag { tag, attributes } => SpecKind::Tag {
                tag,
                attributes,
                children: seq![],
            },
            SpecToken::SelfClosingTag { tag, attributes } => SpecKind::Tag {
                tag,
                attributes,
                children: seq![],
            },
            _ => SpecKind::Text { text: seq![] },
        };
        let grows = t is Text || t is OpenTag || t is SelfClosingTag;
        if grows {
            assert(b2.nodes == push_node(b.nodes, parent, kind));
        } else {
            assert(b2.nodes == b.nodes);
        }
        assert forall|i: int| 0 <= i < b.nodes.len() implies same_content(
            b.nodes[i].kind,
            #[trigger] b2.nodes[i].kind,
        ) && b2.nodes[i].parent == b.nodes[i].parent by {
            if grows && i != parent.index() {
                assert(b2.nodes[i] == b.nodes[i]);
            }
        }
    }
}

/// Parsing on from a state never changes the content or parent of a node
/// already built.
pub proof fn lemma_parse_keeps_nodes(s: Seq<char>, p: int, b: SpecBuilder)
    requires
        builder_wf(b),
        0 <= p <= s.len(),
        b.nodes.len() + (s.len() - p) < usize::MAX,
    ensures
        parse_from(s, p, b) matches Ok(nodes) ==> {
            &&& nodes.len() >= b.nodes.len()
            &&& forall|i: int|
                0 <= i < b.nodes.len() ==> same_content(b.nodes[i].kind, #[trigger] nodes[i].kind)
                    && nodes[i].parent == b.nodes[i].parent
        },
    decreases s.len() - p,
{
    lemma_scan_token_advances(s, p);
    match spec_scan_token(s, p) {
        Err(_) => {},
        Ok((t, q)) => {
            if !(t is Eof) {
                lemma_token_keeps_nodes(b, t);
                lemma_apply_token_wf(b, t);
                if let Ok(b2) = apply_token(b, t) {
                    lemma_parse_keeps_nodes(s, q, b2);
                    if let Ok(nodes) = parse_from(s, q, b2) {
                        assert forall|i: int| 0 <= i < b.nodes.len() implies same_content(
                            b.nodes[i].kind,
                            #[trigger] nodes[i].kind,
                        ) && nodes[i].parent == b.nodes[i].parent by {
                            assert(same_content(b.nodes[i].kind, b2.nodes[i].kind));
                            assert(same_content(b2.nodes[i].kind, nodes[i].kind));
                        }
                    }
                }
            }
        },
    }
}

/// A tag read at `p` ends up in the parsed document as the node after those
/// built so far, with the tag and every attribute of its token, whether it
/// opens an element or is self-closing (a void element).
pub proof fn lemma_tag_keeps_attributes(s: Seq<char>, p: int, b: SpecBuilder)
    requires
        builder_wf(b),
        0 <= p <= s.len(),
        b.nodes.len() + (s.len() - p) < usize::MAX,
    ensures
        spec_scan_token(s, p) matches Ok((SpecToken::SelfClosingTag { tag, attributes }, _))
            ==> (parse_from(s, p, b) matches Ok(nodes) ==> nodes.len() > b.nodes.len() && tag_with(
            nodes[b.nodes.len() as int].kind,
            tag,
            attributes,
        )),
        spec_scan_token(s, p) matches Ok((SpecToken::OpenTag { tag, attributes }, _)) ==> (
        parse_from(s, p, b) matches Ok(nodes) ==> nodes.len() > b.nodes.len() && tag_with(
            nodes[b.nodes.len() as int].kind,
            tag,
            attributes,
        )),
{
    if let Ok((t, q)) = spec_scan_token(s, p) {
        if t is SelfClosingTag || t is OpenTag {
            lemma_token_makes_node(b, t);
            lemma_apply_token_wf(b, t);
            lemma_scan_token_advances(s, p);
            let b2 = apply_token(b, t)->Ok_0;
            lemma_parse_keeps_nodes(s, q, b2);
            let k = b.nodes.len() as int;
            assert(b2.nodes[k] == b2.nodes.last());
        }
    }
}

/// Parsing a whole document: a tag at the very start becomes the first node
/// after the document node, carrying every attribute of the tag.
pub proof fn lemma_first_tag_keeps_attributes(s: Seq<char>)
    requires
        s.len() + 1 < usize::MAX,
    ensures
        spec_scan_token(s, 0) matches Ok((SpecToken::SelfClosingTag { tag, attributes }, _)) ==> (
        spec_parse(s) matches Ok(nodes) ==> nodes.len() > 1 && tag_with(nodes[1].kind, tag, attributes)),
        spec_scan_token(s, 0) matches Ok((SpecToken::OpenTag { tag, attributes }, _)) ==> (
        spec_parse(s) matches Ok(nodes) ==> nodes.len() > 1 && tag_with(nodes[1].kind, tag, attributes)),
{
    let b = initial_builder();
    assert(wf_tree(b.nodes));
    lemma_tag_keeps_attributes(s, 0, b);
}

proof fn lemma_current_parent_valid(b: SpecBuilder)
    requires
        builder_wf(b),
    ensures
        0 <= current_parent(b).index() < b.nodes.len(),
        !(b.nodes[current_parent(b).index()].kind is Text),
{
    if b.unfinished.len() > 0 {
        let k = b.unfinished.len() - 1;
        assert(b.unfinished[k] == b.unfinished.last());
    }
}

pub proof fn lemma_push_node_wf(nodes: Seq<SpecNode>, parent: DomId, kind: SpecKind)
    requires
        wf_tree(nodes),
        0 <= parent.index() < nodes.len(),
        !(nodes[parent.index()].kind is Text),
        !(kind is Document),
        kind_children(kind).len() == 0,
        nodes.len() < usize::MAX,
    ensures
        wf_tree(push_node(nodes, parent, kind)),
        push_node(nodes, parent, kind).len() == nodes.len() + 1,
        forall|i: int|
            0 <= i < nodes.len() ==> (#[trigger] push_node(nodes, parent, kind)[i]).kind is Tag
                == nodes[i].kind is Tag,
        forall|i: int|
            0 <= i < nodes.len() && nodes[i].kind is Tag ==> (match (#[trigger] push_node(
                nodes,
                parent,
                kind,
            )[i]).kind {
                SpecKind::Tag { tag, .. } => Some(tag),
                _ => None,
            }) == (match nodes[i].kind {
                SpecKind::Tag { tag, .. } => Some(tag),
                _ => None,
            }),
{
    let n = nodes.len() as int;
    let id = DomId(n as usize);
    let new = push_node(nodes, parent, kind);
    let p = parent.index();
    assert(new[p].kind == add_child(nodes[p].kind, id));
    assert(kind_children(new[p].kind) == kind_children(nodes[p].kind).push(id));
    assert forall|i: int| #![trigger new[i]] 1 <= i < new.len() implies {
        &&& new[i].parent matches Some(q)
        &&& 0 <= q.index() < i
        &&& !(new[q.index()].kind is Text)
        &&& !(new[i].kind is Document)
        &&& kind_children(new[q.index()].kind).contains(DomId(i as usize))
    } by {
        if i == n {
            assert(kind_children(new[p].kind).last() == id);
        } else {
            assert(new[i].parent == nodes[i].parent);
            let q = nodes[i].parent.unwrap();
            if q.index() == p {
                let j = choose|j: int|
                    0 <= j < kind_children(nodes[p].kind).len() && kind_children(nodes[p].kind)[j]
                        == DomId(i as usize);
                assert(kind_children(new[p].kind)[j] == DomId(i as usize));
            } else {
                assert(new[q.index()] == nodes[q.index()]);
            }
        }
    }
    assert forall|i: int, j: int|
        #![trigger kind_children(new[i].kind)[j]]
        0 <= i < new.len() && 0 <= j < kind_children(new[i].kind).len() implies {
        let c = kind_children(new[i].kind)[j];
        &&& i < c.index() < new.len()
        &&& new[c.index()].parent == Some(DomId(i as usize))
    } by {
        if i == n {
        } else if i == p {
            if j < kind_children(nodes[p].kind).len() {
                assert(kind_children(new[i].kind)[j] == kind_children(nodes[i].kind)[j]);
                let c = kind_children(nodes[i].kind)[j];
                assert(new[c.index()].parent == nodes[c.index()].parent);
            } else {
                assert(kind_children(new[i].kind)[j] == id);
                assert(DomId(i as usize) == parent);
            }
        } else {
            assert(new[i] == nodes[i]);
            let c = kind_children(nodes[i].kind)[j];
            assert(new[c.index()].parent == nodes[c.index()].parent);
        }
    }
    assert forall|i: int, j: int, k: int|
        #![trigger kind_children(new[i].kind)[j], kind_children(new[i].kind)[k]]
        0 <= i < new.len() && 0 <= j < k < kind_children(new[i].kind).len() implies kind_children(
        new[i].kind,
    )[j].index() < kind_children(new[i].kind)[k].index() by {
        if i == n {
        } else if i == p {
            let old_cs = kind_children(nodes[p].kind);
            if k < old_cs.len() {
                assert(kind_children(new[i].kind)[j] == old_cs[j]);
                assert(kind_children(new[i].kind)[k] == old_cs[k]);
            } else {
                assert(kind_children(new[i].kind)[j] == old_cs[j]);
                assert(kind_children(new[i].kind)[k] == id);
            }
        } else {
            assert(new[i] == nodes[i]);
        }
    }
    assert forall|i: int|
        0 <= i < nodes.len() && nodes[i].kind is Tag implies (match (#[trigger] new[i]).kind {
        SpecKind::Tag { tag, .. } => Some(tag),
        _ => None,
    }) == (match nodes[i].kind {
        SpecKind::Tag { tag, .. } => Some(tag),
        _ => None,
    }) by {
        if i != p {
            assert(new[i] == nodes[i]);
        }
    }
}

pub proof fn lemma_apply_token_wf(b: SpecBuilder, t: SpecToken)
    requires
        builder_wf(b),
        b.nodes.len() < usize::MAX,
    ensures
        apply_token(b, t) matches Ok(b2) ==> builder_wf(b2) && b2.nodes.len() <= b.nodes.len()
            + 1,
{
    let parent = current_parent(b);
    if b.unfinished.len() > 0 {
        let k = b.unfinished.len() - 1;
        assert(b.unfinished[k] == b.unfinished.last());
    }
    let kind = match t {
        SpecToken::Text(text) => SpecKind::Text { text },
        SpecToken::OpenTag { tag, attributes } => SpecKind::Tag { tag, attributes, children: seq![] },
        SpecToken::SelfClosingTag { tag, attributes } => SpecKind::Tag {
            tag,
            attributes,
            children: seq![],
        },
        _ => SpecKind::Text { text: seq![] },
    };
    match t {
        SpecToken::Text(_) | SpecToken::OpenTag { .. } | SpecToken::SelfClosingTag { .. } => {
            lemma_push_node_wf(b.nodes, parent, kind);
            let new = push_node(b.nodes, parent, kind);
            if let Ok(b2) = apply_token(b, t) {
                assert(b2.nodes == new);
                assert forall|k: int|
                    #![trigger b2.unfinished[k]]
                    0 <= k < b2.unfinished.len() implies {
                    let (tg, id) = b2.unfinished[k];
                    &&& 1 <= id.index() < b2.nodes.len()
                    &&& b2.nodes[id.index()].kind matches SpecKind::Tag { tag, .. }
                    &&& tag == tg
                } by {
                    if k < b.unfinished.len() {
                        assert(b2.unfinished[k] == b.unfinished[k]);
                        let (tg, id) = b.unfinished[k];
                        assert(new[id.index()].kind is Tag);
                    } else {
                        assert(new[b.nodes.len() as int] == SpecNode { parent: Some(parent), kind });
                    }
                }
            }
        },
        SpecToken::CloseTag(tag) => {
            if let Ok(b2) = apply_token(b, t) {
                assert forall|k: int|
                    #![trigger b2.unfinished[k]]
                    0 <= k < b2.unfinished.len() implies {
                    let (tg, id) = b2.unfinished[k];
                    &&& 1 <= id.index() < b2.nodes.len()
                    &&& b2.nodes[id.index()].kind matches SpecKind::Tag { tag, .. }
                    &&& tag == tg
                } by {
                    assert(b2.unfinished[k] == b.unfinished[k]);
                }
            }
        },
        _ => {},
    }
}

/// Every document the parser builds is a well-formed tree.
pub proof fn lemma_parse_from_wf(s: Seq<char>, p: int, b: SpecBuilder)
    requires
        builder_wf(b),
        0 <= p <= s.len(),
        b.nodes.len() + (s.len() - p) < usize::MAX,
    ensures
        parse_from(s, p, b) matches Ok(nodes) ==> wf_tree(nodes),
    decreases s.len() - p,
{
    lemma_scan_token_advances(s, p);
    if let Ok((t, q)) = spec_scan_token(s, p) {
        if !(t is Eof) {
            lemma_apply_token_wf(b, t);
            if let Ok(b2) = apply_token(b, t) {
                lemma_parse_from_wf(s, q, b2);
            }
        }
    }
}

/// Every document `parse` returns is a well-formed tree.
pub proof fn lemma_parse_wf(s: Seq<char>)
    requires
        s.len() + 1 < usize::MAX,
    ensures
        spec_parse(s) matches Ok(nodes) ==> wf_tree(nodes),
{
    let b = initial_builder();
    assert(wf_tree(b.nodes));
    lemma_parse_from_wf(s, 0, b);
}

/// No void element has children.
pub open spec fn void_leaves(nodes: Seq<SpecNode>) -> bool {
    forall|i: int|
        0 <= i < nodes.len() ==> ((#[trigger] nodes[i]).kind matches SpecKind::Tag {
            tag,
            children,
            ..
        } ==> (tag.spec_is_self_closing() ==> children.len() == 0))
}

/// No open tag is a void element.
pub open spec fn open_tags_not_void(b: SpecBuilder) -> bool {
    forall|k: int| 0 <= k < b.unfinished.len() ==> !(#[trigger] b.unfinished[k]).0.spec_is_self_closing()
}

/// The lexer only opens tags that are not void.
pub proof fn lemma_scan_token_open_not_void(s: Seq<char>, p: int)
    ensures
        spec_scan_token(s, p) matches Ok((SpecToken::OpenTag { tag, .. }, _)) ==> !tag.spec_is_self_closing(),
{
}

proof fn lemma_push_node_void(nodes: Seq<SpecNode>, parent: DomId, kind: SpecKind)
    requires
        void_leaves(nodes),
        0 <= parent.index() < nodes.len(),
        nodes[parent.index()].kind matches SpecKind::Tag { tag, .. } ==> !tag.spec_is_self_closing(),
        kind_children(kind).len() == 0,
    ensures
        void_leaves(push_node(nodes, parent, kind)),
{
    let new = push_node(nodes, parent, kind);
    assert forall|i: int| 0 <= i < new.len() implies ((#[trigger] new[i]).kind matches SpecKind::Tag {
        tag,
        children,
        ..
    } ==> (tag.spec_is_self_closing() ==> children.len() == 0)) by {
        if i < nodes.len() && i != parent.index() {
            assert(new[i] == nodes[i]);
        }
    }
}

proof fn lemma_apply_token_void(b: SpecBuilder, t: SpecToken)
    requires
        builder_wf(b),
        void_leaves(b.nodes),
        open_tags_not_void(b),
        t matches SpecToken::OpenTag { tag, .. } ==> !tag.spec_is_self_closing(),
    ensures
        apply_token(b, t) matches Ok(b2) ==> void_leaves(b2.nodes) && open_tags_not_void(b2),
{
    let parent = current_parent(b);
    if b.unfinished.len() > 0 {
        let k = b.unfinished.len() - 1;
        assert(b.unfinished[k] == b.unfinished.last());
    }
    match t {
        SpecToken::Text(text) => {
            lemma_push_node_void(b.nodes, parent, SpecKind::Text { text });
        },
        SpecToken::OpenTag { tag, attributes } => {
            lemma_push_node_void(
                b.nodes,
                parent,
                SpecKind::Tag { tag, attributes, children: seq![] },
            );
            if let Ok(b2) = apply_token(b, t) {
                assert forall|k: int| 0 <= k < b2.unfinished.len() implies !(
                #[trigger] b2.unfinished[k]).0.spec_is_self_closing() by {
                    if k < b.unfinished.len() {
                        assert(b2.unfinished[k] == b.unfinished[k]);
                    }
                }
            }
        },
        SpecToken::SelfClosingTag { tag, attributes } => {
            lemma_push_node_void(
                b.nodes,
                parent,
                SpecKind::Tag { tag, attributes, children: seq![] },
            );
        },
        SpecToken::CloseTag(tag) => {
            if let Ok(b2) = apply_token(b, t) {
                assert forall|k: int| 0 <= k < b2.unfinished.len() implies !(
                #[trigger] b2.unfinished[k]).0.spec_is_self_closing() by {
                    assert(b2.unfinished[k] == b.unfinished[k]);
                }
            }
        },
        _ => {},
    }
}

proof fn lemma_parse_from_void(s: Seq<char>, p: int, b: SpecBuilder)
    requires
        builder_wf(b),
        void_leaves(b.nodes),
        open_tags_not_void(b),
        0 <= p <= s.len(),
        b.nodes.len() + (s.len() - p) < usize::MAX,
    ensures
        parse_from(s, p, b) matches Ok(nodes) ==> void_leaves(nodes),
    decreases s.len() - p,
{
    lemma_scan_token_advances(s, p);
    lemma_scan_token_open_not_void(s, p);
    if let Ok((t, q)) = spec_scan_token(s, p) {
        if !(t is Eof) {
            lemma_apply_token_wf(b, t);
            lemma_apply_token_void(b, t);
            if let Ok(b2) = apply_token(b, t) {
                lemma_parse_from_void(s, q, b2);
            }
        }
    }
}

/// Void elements (`br`, `hr`, `img`, `input`, `link`, `meta`) never have
/// children in a parsed document.
pub proof fn lemma_parse_void_leaves(s: Seq<char>)
    requires
        s.len() + 1 < usize::MAX,
    ensures
        spec_parse(s) matches Ok(nodes) ==> void_leaves(nodes),
{
    let b = initial_builder();
    assert(wf_tree(b.nodes));
    lemma_parse_from_void(s, 0, b);
}

struct DocumentBuilder {
    arena: Vec<DomNode>,
    unfinished: Vec<(Tag, DomId)>,
}

struct ParsingTag {
    tag: Tag,
    attributes: Vec<Attribute>,
    kind: TagKind,
}

impl DocumentBuilder {
    spec fn view(&self) -> SpecBuilder {
        SpecBuilder { nodes: arena_view(self.arena@), unfinished: self.unfinished@ }
    }

    fn new() -> (r: Self)
        ensures
            r.view() == initial_builder(),
    {
        let root = DomNode {
            parent: None,
            kind: DomKind::Document(DocumentNode { children: Vec::new() }),
        };
        let r = DocumentBuilder { arena: vec![root], unfinished: Vec::new() };
        assert(r.view().nodes =~= initial_builder().nodes);
        r
    }

    fn current_parent(&self) -> (r: DomId)
        ensures
            r == current_parent(self.view()),
    {
        match self.unfinished.last() {
            Some(last) => last.1,
            None => DomId(0),
        }
    }

    fn push_tag(&mut self, tag: ParsingTag) -> (r: Result<(), ParseError>)
        requires
            builder_wf(old(self).view()),
            old(self).view().nodes.len() < usize::MAX,
        ensures
            match spec_push_tag(
                old(self).view(),
                tag.tag,
                attributes_view(tag.attributes@),
                tag.kind,
            ) {
                Ok(b) => r is Ok && final(self).view() == b,
                Err(e) => r == Err::<(), ParseError>(e),
            },
    {
        let ghost b = self.view();
        proof {
            if b.unfinished.len() > 0 {
                let k = b.unfinished.len() - 1;
                assert(b.unfinished[k] == b.unfinished.last());
            }
        }
        match tag.kind {
            TagKind::Open => {
                let parent = self.current_parent();
                let id = self.push_tag_node(parent, tag.tag, tag.attributes);
                self.unfinished.push((tag.tag, id));
            },
            TagKind::Close => {
                let last = match self.unfinished.last() {
                    Some(last) => last.0,
                    None => {
                        return Err(ParseError::UnmatchedCloseTag(tag.tag));
                    },
                };
                if last != tag.tag {
                    return Err(ParseError::MismatchedTag { expected: last, found: tag.tag });
                }
                self.unfinished.pop();
            },
            TagKind::SelfClosing => {
                let parent = self.current_parent();
                self.push_tag_node(parent, tag.tag, tag.attributes);
            },
        }
        Ok(())
    }

    fn push_tag_node(&mut self, parent: DomId, tag: Tag, attributes: Vec<Attribute>) -> (r: DomId)
        requires
            wf_tree(old(self).view().nodes),
            0 <= parent.index() < old(self).view().nodes.len(),
            !(old(self).view().nodes[parent.index()].kind is Text),
        ensures
            final(self).view() == (SpecBuilder {
                nodes: push_node(
                    old(self).view().nodes,
                    parent,
                    SpecKind::Tag { tag, attributes: attributes_view(attributes@), children: seq![] },
                ),
                unfinished: old(self).view().unfinished,
            }),
            r == DomId(old(self).view().nodes.len() as usize),
    {
        let kind = DomKind::Tag(TagNode { tag, attributes, children: Vec::new() });
        assert(kind_view(kind) == SpecKind::Tag {
            tag,
            attributes: attributes_view(attributes@),
            children: seq![],
        });
        self.push_node(parent, kind)
    }

    fn push_text(&mut self, parent: DomId, text: String) -> (r: DomId)
        requires
            wf_tree(old(self).view().nodes),
            0 <= parent.index() < old(self).view().nodes.len(),
            !(old(self).view().nodes[parent.index()].kind is Text),
        ensures
            final(self).view() == (SpecBuilder {
                nodes: push_node(old(self).view().nodes, parent, SpecKind::Text { text: text@ }),
                unfinished: old(self).view().unfinished,
            }),
            r == DomId(old(self).view().nodes.len() as usize),
    {
        self.push_node(parent, DomKind::Text(TextNode { text }))
    }

    fn push_node(&mut self, parent: DomId, kind: DomKind) -> (r: DomId)
        requires
            wf_tree(old(self).view().nodes),
            0 <= parent.index() < old(self).view().nodes.len(),
            !(old(self).view().nodes[parent.index()].kind is Text),
        ensures
            final(self).view() == (SpecBuilder {
                nodes: push_node(old(self).view().nodes, parent, kind_view(kind)),
                unfinished: old(self).view().unfinished,
            }),
            r == DomId(old(self).view().nodes.len() as usize),
    {
        let id = DomId(self.arena.len());
        let ghost before = self.arena@;
        assert(node_view(before[parent.index()]) == old(self).view().nodes[parent.index()]);
        let pushed = self.arena[parent.0].kind.push_child(id);
        self.arena.push(DomNode { parent: Some(parent), kind });
        proof {
            let expect = push_node(arena_view(before), parent, kind_view(kind));
            assert(arena_view(self.arena@) =~= expect) by {
                assert forall|i: int| 0 <= i < expect.len() implies arena_view(self.arena@)[i]
                    == #[trigger] expect[i] by {
                    if i < before.len() && i != parent.index() {
                        assert(self.arena@[i] == before[i]);
                    }
                }
            }
        }
        id
    }

    fn build(self) -> (r: Vec<DomNode>)
        ensures
            arena_view(r@) == self.view().nodes,
    {
        self.arena
    }
}

/// Parses `source` into a document.
pub fn parse(source: String) -> (r: Result<Document, ParseError>)
    requires
        source@.len() + 1 < usize::MAX,
    ensures
        match spec_parse(source@) {
            Ok(nodes) => r matches Ok(d) && d.nodes() == nodes && d.spec_source() == source@,
            Err(e) => r == Err::<Document, ParseError>(e),
        },
{
    let arena = match parse_nodes(source.as_str()) {
        Ok(arena) => arena,
        Err(e) => {
            return Err(e);
        },
    };
    proof {
        lemma_parse_wf(source@);
    }
    Ok(Document::from_parts(source, arena))
}

fn parse_nodes(source: &str) -> (r: Result<Vec<DomNode>, ParseError>)
    requires
        source@.len() + 1 < usize::MAX,
    ensures
        match spec_parse(source@) {
            Ok(nodes) => r matches Ok(a) && arena_view(a@) == nodes,
            Err(e) => r == Err::<Vec<DomNode>, ParseError>(e),
        },
{
    let mut builder = DocumentBuilder::new();
    let mut lexer = Lexer::new(source);
    let ghost s = source@;
    assert(wf_tree(builder.view().nodes));
    loop
        invariant
            lexer.input() == s,
            s == source@,
            s.len() + 1 < usize::MAX,
            0 <= lexer.position() <= s.len(),
            builder_wf(builder.view()),
            builder.view().nodes.len() <= lexer.position() + 1,
            parse_from(s, lexer.position(), builder.view()) == spec_parse(s),
        decreases s.len() - lexer.position(),
    {
        let ghost p = lexer.position();
        let ghost b = builder.view();
        let token = match lexer.next() {
            Ok(t) => t,
            Err(e) => {
                return Err(ParseError::Lex(e));
            },
        };
        proof {
            lemma_scan_token_advances(s, p);
            lemma_apply_token_wf(b, token@);
            if b.unfinished.len() > 0 {
                let k = b.unfinished.len() - 1;
                assert(b.unfinished[k] == b.unfinished.last());
            }
        }
        match token {
            Token::Comment(_) | Token::Doctype(_) => {},
            Token::Text(text) => {
                let parent = builder.current_parent();
                builder.push_text(parent, text);
            },
            Token::OpenTag { tag, attributes } => {
                match builder.push_tag(ParsingTag { tag, attributes, kind: TagKind::Open }) {
                    Ok(()) => {},
                    Err(e) => {
                        return Err(e);
                    },
                }
            },
            Token::SelfClosingTag { tag, attributes } => {
                match builder.push_tag(ParsingTag { tag, attributes, kind: TagKind::SelfClosing }) {
                    Ok(()) => {},
                    Err(e) => {
                        return Err(e);
                    },
                }
            },
            Token::CloseTag(tag) => {
                let attributes: Vec<Attribute> = Vec::new();
                assert(attributes_view(attributes@) =~= Seq::<SpecAttribute>::empty());
                match builder.push_tag(ParsingTag { tag, attributes, kind: TagKind::Close }) {
                    Ok(()) => {},
                    Err(e) => {
                        return Err(e);
                    },
                }
            },
            Token::Eof => {
                return Ok(builder.build());
            },
        }
    }
}

} // verus!
