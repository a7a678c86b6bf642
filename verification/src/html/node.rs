//! A small HTML tree builder that reads tags by hand, without the lexer.
//!
//! A tag runs from `<` to the next `>`; its name is the first word after
//! an optional leading `/`, in ASCII lowercase. A trailing `/`, a void
//! element or a name starting with `!` makes the tag self-closing. Text runs
//! up to the next `<`. Tags still open at the end are closed there.
//! A `<` without a later `>`, a close tag that does not match the innermost
//! open tag, and a close tag with no open tag are not accepted.
use vstd::prelude::*;

use crate::html::lexer::char_at;
use crate::html::lexer::lemma_scan_until;
use crate::html::lexer::scan_until;
use crate::html::lexer::Stop;
use crate::html::tag::Tag;
use crate::html::tag::TagKind;
use crate::text::ascii_lowercase;
use crate::text::ascii_lowercase_exec;
use crate::text::chars_of;
use crate::text::is_whitespace;
use crate::text::leading_ws;
use crate::text::trailing_ws;
use crate::text::slice_to_vec_range;
use crate::text::string_of_range;
use crate::text::trim;
use crate::text::trim_end;
use crate::text::trim_end_exec;
use crate::text::trim_exec;
use crate::text::trim_start;
use crate::text::trim_start_exec;
use crate::text::whitespace;

verus! {

/// The index of a node in a document's arena.
#[derive(Debug, Clone, Copy, PartialEq, Eq, Hash, Structural)]
pub struct NodeId(pub usize);

impl NodeId {
    pub open spec fn index(self) -> int {
        self.0 as int
    }
}

/// A node as plain values.
pub struct NodeSpec {
    pub parent: Option<NodeId>,
    pub kind: NodeSpecKind,
}

pub enum NodeSpecKind {
    Document { children: Seq<NodeId> },
    Tag { tag: Tag, children: Seq<NodeId> },
    Text { text: Seq<char> },
}

pub open spec fn children_of(k: NodeSpecKind) -> Seq<NodeId> {
    match k {
        NodeSpecKind::Document { children } => children,
        NodeSpecKind::Tag { children, .. } => children,
        NodeSpecKind::Text { .. } => seq![],
    }
}

/// Node 0 is the document node and the only node without a parent; every
/// other node's parent comes before it, is not a text node, and lists it
/// among its children; every child of a node comes after it and names that
/// node as its parent; each children list is in document order.
pub open spec fn tree_wf(nodes: Seq<NodeSpec>) -> bool {
    &&& nodes.len() >= 1
    &&& nodes[0].parent is None
    &&& nodes[0].kind is Document
    &&& forall|i: int|
        #![trigger nodes[i]]
        1 <= i < nodes.len() ==> {
            &&& nodes[i].parent matches Some(p)
            &&& 0 <= p.index() < i
            &&& !(nodes[p.index()].kind is Text)
            &&& !(nodes[i].kind is Document)
            &&& children_of(nodes[p.index()].kind).contains(NodeId(i as usize))
        }
    &&& forall|i: int, j: int|
        #![trigger children_of(nodes[i].kind)[j]]
        0 <= i < nodes.len() && 0 <= j < children_of(nodes[i].kind).len() ==> {
            let c = children_of(nodes[i].kind)[j];
            &&& i < c.index() < nodes.len()
            &&& nodes[c.index()].parent == Some(NodeId(i as usize))
        }
    &&& forall|i: int, j: int, k: int|
        #![trigger children_of(nodes[i].kind)[j], children_of(nodes[i].kind)[k]]
        0 <= i < nodes.len() && 0 <= j < k < children_of(nodes[i].kind).len()
            ==> children_of(nodes[i].kind)[j].index() < children_of(nodes[i].kind)[k].index()
}

/// The builder's state as plain values: the nodes so far, and the open tags
/// from outermost to innermost.
pub struct BuilderSpec {
    pub nodes: Seq<NodeSpec>,
    pub unfinished: Seq<(Tag, NodeId)>,
}

pub open spec fn builder_ok(b: BuilderSpec) -> bool {
    &&& tree_wf(b.nodes)
    &&& forall|k: int|
        #![trigger b.unfinished[k]]
        0 <= k < b.unfinished.len() ==> {
            let (t, id) = b.unfinished[k];
            &&& 1 <= id.index() < b.nodes.len()
            &&& b.nodes[id.index()].kind matches NodeSpecKind::Tag { tag, .. }
            &&& tag == t
        }
}

pub open spec fn empty_builder() -> BuilderSpec {
    BuilderSpec {
        nodes: seq![NodeSpec { parent: None, kind: NodeSpecKind::Document { children: seq![] } }],
        unfinished: seq![],
    }
}

/// The innermost open tag, else the document node.
pub open spec fn open_parent(b: BuilderSpec) -> NodeId {
    if b.unfinished.len() > 0 {
        b.unfinished.last().1
    } else {
        NodeId(0)
    }
}

pub open spec fn with_child(k: NodeSpecKind, c: NodeId) -> NodeSpecKind {
    match k {
        NodeSpecKind::Document { children } => NodeSpecKind::Document { children: children.push(c) },
        NodeSpecKind::Tag { tag, children } => NodeSpecKind::Tag { tag, children: children.push(c) },
        NodeSpecKind::Text { text } => NodeSpecKind::Text { text },
    }
}

/// Appends a node of kind `kind` as the last child of `parent`.
pub open spec fn append_node(nodes: Seq<NodeSpec>, parent: NodeId, kind: NodeSpecKind) -> Seq<
    NodeSpec,
> {
    let id = NodeId(nodes.len() as usize);
    nodes.update(
        parent.index(),
        NodeSpec {
            parent: nodes[parent.index()].parent,
            kind: with_child(nodes[parent.index()].kind, id),
        },
    ).push(NodeSpec { parent: Some(parent), kind })
}

pub open spec fn builder_push(b: BuilderSpec, kind: NodeSpecKind) -> BuilderSpec {
    BuilderSpec { nodes: append_node(b.nodes, open_parent(b), kind), unfinished: b.unfinished }
}

/// What a tag does to the builder; `None` where the builder gives up.
pub open spec fn builder_push_tag(b: BuilderSpec, tag: Tag, kind: TagKind) -> Option<BuilderSpec> {
    match kind {
        TagKind::Open => Some(
            BuilderSpec {
                nodes: append_node(
                    b.nodes,
                    open_parent(b),
                    NodeSpecKind::Tag { tag, children: seq![] },
                ),
                unfinished: b.unfinished.push((tag, NodeId(b.nodes.len() as usize))),
            },
        ),
        TagKind::Close => if b.unfinished.len() > 0 && b.unfinished.last().0 == tag {
            Some(BuilderSpec { nodes: b.nodes, unfinished: b.unfinished.drop_last() })
        } else {
            None
        },
        TagKind::SelfClosing => Some(
            builder_push(b, NodeSpecKind::Tag { tag, children: seq![] }),
        ),
    }
}

/// The length of the run of non-whitespace characters `s` starts with.
pub open spec fn word_len(s: Seq<char>) -> nat
    decreases s.len(),
{
    if s.len() > 0 && !is_whitespace(s[0]) {
        1 + word_len(s.drop_first())
    } else {
        0
    }
}

/// The first whitespace-separated word of `s`, or nothing.
pub open spec fn first_word(s: Seq<char>) -> Seq<char> {
    let t = trim_start(s);
    t.take(word_len(t) as int)
}

/// What lies between `<` and `>` makes a tag: a leading `/` closes, a
/// trailing `/` self-closes, and the name is the first word in ASCII
/// lowercase.
pub open spec fn read_tag(raw: Seq<char>) -> (Tag, TagKind) {
    let a = trim(raw);
    let closing = a.len() > 0 && a[0] == '/';
    let b = if closing {
        trim_start(a.subrange(1, a.len() as int))
    } else {
        a
    };
    let self_closing = b.len() > 0 && b.last() == '/';
    let c = if self_closing {
        trim_end(b.subrange(0, b.len() - 1))
    } else {
        b
    };
    let name = ascii_lowercase(first_word(c));
    let tag = Tag::spec_parse(name);
    let kind = if closing {
        TagKind::Close
    } else if self_closing || tag.spec_is_self_closing() || (name.len() > 0 && name[0] == '!') {
        TagKind::SelfClosing
    } else {
        TagKind::Open
    };
    (tag, kind)
}

proof fn lemma_word_whole(w: Seq<char>)
    requires
        forall|i: int| 0 <= i < w.len() ==> !is_whitespace(#[trigger] w[i]),
    ensures
        word_len(w) == w.len(),
        leading_ws(w) == 0,
        trailing_ws(w) == 0,
        trim(w) == w,
        trim_start(w) == w,
        trim_end(w) == w,
        first_word(w) == w,
    decreases w.len(),
{
    if w.len() > 0 {
        let t = w.drop_first();
        assert forall|i: int| 0 <= i < t.len() implies !is_whitespace(#[trigger] t[i]) by {
            assert(t[i] == w[i + 1]);
        }
        lemma_word_whole(t);
        assert(w.last() == w[w.len() - 1]);
    }
    assert(w.skip(0) =~= w);
    assert(w.take(w.len() as int) =~= w);
}

/// What a hand-read tag is: `/name` closes the element the name names,
/// in ASCII lowercase; a bare `name` opens it, or is self-closing for a
/// void element or a `!` name; `name/` is self-closing.
pub proof fn lemma_read_tag_name(name: Seq<char>)
    requires
        name.len() > 0,
        forall|i: int| 0 <= i < name.len() ==> !is_whitespace(#[trigger] name[i]),
        name[0] != '/',
        name.last() != '/',
    ensures
        read_tag(seq!['/'] + name) == (Tag::spec_parse(ascii_lowercase(name)), TagKind::Close),
        read_tag(name + seq!['/']) == (Tag::spec_parse(ascii_lowercase(name)), TagKind::SelfClosing),
        read_tag(name) == ({
            let tag = Tag::spec_parse(ascii_lowercase(name));
            (
                tag,
                if tag.spec_is_self_closing() || ascii_lowercase(name)[0] == '!' {
                    TagKind::SelfClosing
                } else {
                    TagKind::Open
                },
            )
        }),
{
    lemma_word_whole(name);
    let closing = seq!['/'] + name;
    assert forall|i: int| 0 <= i < closing.len() implies !is_whitespace(#[trigger] closing[i]) by {
        if i > 0 {
            assert(closing[i] == name[i - 1]);
        }
    }
    lemma_word_whole(closing);
    assert(closing.subrange(1, closing.len() as int) =~= name);
    assert(closing.last() == name.last());
    let selfc = name + seq!['/'];
    assert forall|i: int| 0 <= i < selfc.len() implies !is_whitespace(#[trigger] selfc[i]) by {
        if i < name.len() {
            assert(selfc[i] == name[i]);
        }
    }
    lemma_word_whole(selfc);
    assert(selfc[0] == name[0]);
    assert(selfc.subrange(0, selfc.len() - 1) =~= name);
}

/// The nodes built from `s` from position `p` on, starting from `b`;
/// `None` where the builder gives up.
pub open spec fn build_from(s: Seq<char>, p: int, b: BuilderSpec) -> Option<Seq<NodeSpec>>
    decreases s.len() - p,
{
    if p < 0 || p >= s.len() {
        Some(b.nodes)
    } else if s[p] == '<' {
        let e = scan_until(s, p + 1, Stop::Gt);
        proof {
            lemma_scan_until(s, p + 1, Stop::Gt);
        }
        if e >= s.len() {
            None
        } else {
            let (tag, kind) = read_tag(s.subrange(p + 1, e));
            match builder_push_tag(b, tag, kind) {
                None => None,
                Some(b2) => build_from(s, e + 1, b2),
            }
        }
    } else {
        let e = scan_until(s, p, Stop::Lt);
        proof {
            lemma_scan_until(s, p, Stop::Lt);
        }
        build_from(s, e, builder_push(b, NodeSpecKind::Text { text: s.subrange(p, e) }))
    }
}

/// Building reads text up to the next `<` (or the end) as one text node
/// with exactly those characters, whitespace included, and goes on there.
pub proof fn lemma_build_text(s: Seq<char>, p: int, e: int, b: BuilderSpec)
    requires
        0 <= p < e <= s.len(),
        forall|i: int| p <= i < e ==> #[trigger] s[i] != '<',
        e == s.len() || s[e] == '<',
    ensures
        build_from(s, p, b) == build_from(
            s,
            e,
            builder_push(b, NodeSpecKind::Text { text: s.subrange(p, e) }),
        ),
{
    lemma_scan_to_lt(s, p, e);
}

/// Building reads `<...>` up to the first `>` as one tag, and goes on after
/// it; a `<` with no `>` after it is not accepted.
pub proof fn lemma_build_tag(s: Seq<char>, p: int, e: int, b: BuilderSpec)
    requires
        0 <= p < e <= s.len(),
        s[p] == '<',
        forall|i: int| p < i < e ==> #[trigger] s[i] != '>',
        e == s.len() || s[e] == '>',
    ensures
        e == s.len() ==> build_from(s, p, b) is None,
        e < s.len() ==> build_from(s, p, b) == match builder_push_tag(
            b,
            read_tag(s.subrange(p + 1, e)).0,
            read_tag(s.subrange(p + 1, e)).1,
        ) {
            None => None,
            Some(b2) => build_from(s, e + 1, b2),
        },
{
    lemma_scan_to_gt(s, p + 1, e);
}

proof fn lemma_scan_to_lt(s: Seq<char>, p: int, e: int)
    requires
        0 <= p <= e <= s.len(),
        forall|i: int| p <= i < e ==> #[trigger] s[i] != '<',
        e == s.len() || s[e] == '<',
    ensures
        scan_until(s, p, Stop::Lt) == e,
    decreases e - p,
{
    if p < e {
        lemma_scan_to_lt(s, p + 1, e);
    }
}

proof fn lemma_scan_to_gt(s: Seq<char>, p: int, e: int)
    requires
        0 <= p <= e <= s.len(),
        forall|i: int| p <= i < e ==> #[trigger] s[i] != '>',
        e == s.len() || s[e] == '>',
    ensures
        scan_until(s, p, Stop::Gt) == e,
    decreases e - p,
{
    if p < e {
        lemma_scan_to_gt(s, p + 1, e);
    }
}

/// The nodes of the document `s` builds, or `None` where it is not accepted.
pub open spec fn build(s: Seq<char>) -> Option<Seq<NodeSpec>> {
    build_from(s, 0, empty_builder())
}

pub proof fn lemma_append_node_wf(nodes: Seq<NodeSpec>, parent: NodeId, kind: NodeSpecKind)
    requires
        tree_wf(nodes),
        0 <= parent.index() < nodes.len(),
        !(nodes[parent.index()].kind is Text),
        !(kind is Document),
        children_of(kind).len() == 0,
        nodes.len() < usize::MAX,
    ensures
        tree_wf(append_node(nodes, parent, kind)),
        append_node(nodes, parent, kind).len() == nodes.len() + 1,
        forall|i: int|
            0 <= i < nodes.len() ==> (match (#[trigger] append_node(nodes, parent, kind)[i]).kind {
                NodeSpecKind::Tag { tag, .. } => Some(tag),
                _ => None,
            }) == (match nodes[i].kind {
                NodeSpecKind::Tag { tag, .. } => Some(tag),
                _ => None,
            }),
{
    let n = nodes.len() as int;
    let id = NodeId(n as usize);
    let new = append_node(nodes, parent, kind);
    let p = parent.index();
    assert(new[p].kind == with_child(nodes[p].kind, id));
    assert(children_of(new[p].kind) == children_of(nodes[p].kind).push(id));
    assert forall|i: int| #![trigger new[i]] 1 <= i < new.len() implies {
        &&& new[i].parent matches Some(q)
        &&& 0 <= q.index() < i
        &&& !(new[q.index()].kind is Text)
        &&& !(new[i].kind is Document)
        &&& children_of(new[q.index()].kind).contains(NodeId(i as usize))
    } by {
        if i == n {
            assert(children_of(new[p].kind).last() == id);
        } else {
            assert(new[i].parent == nodes[i].parent);
            let q = nodes[i].parent.unwrap();
            if q.index() == p {
                let j = choose|j: int|
                    0 <= j < children_of(nodes[p].kind).len() && children_of(nodes[p].kind)[j]
                        == NodeId(i as usize);
                assert(children_of(new[p].kind)[j] == NodeId(i as usize));
            } else {
                assert(new[q.index()] == nodes[q.index()]);
            }
        }
    }
    assert forall|i: int, j: int|
        #![trigger children_of(new[i].kind)[j]]
        0 <= i < new.len() && 0 <= j < children_of(new[i].kind).len() implies {
        let c = children_of(new[i].kind)[j];
        &&& i < c.index() < new.len()
        &&& new[c.index()].parent == Some(NodeId(i as usize))
    } by {
        if i == n {
        } else if i == p {
            if j < children_of(nodes[p].kind).len() {
                assert(children_of(new[i].kind)[j] == children_of(nodes[i].kind)[j]);
                let c = children_of(nodes[i].kind)[j];
                assert(new[c.index()].parent == nodes[c.index()].parent);
            } else {
                assert(children_of(new[i].kind)[j] == id);
                assert(NodeId(i as usize) == parent);
            }
        } else {
            assert(new[i] == nodes[i]);
            let c = children_of(nodes[i].kind)[j];
            assert(new[c.index()].parent == nodes[c.index()].parent);
        }
    }
    assert forall|i: int, j: int, k: int|
        #![trigger children_of(new[i].kind)[j], children_of(new[i].kind)[k]]
        0 <= i < new.len() && 0 <= j < k < children_of(new[i].kind).len() implies children_of(
        new[i].kind,
    )[j].index() < children_of(new[i].kind)[k].index() by {
        if i == n {
        } else if i == p {
            let old_cs = children_of(nodes[p].kind);
            if k < old_cs.len() {
                assert(children_of(new[i].kind)[j] == old_cs[j]);
                assert(children_of(new[i].kind)[k] == old_cs[k]);
            } else {
                assert(children_of(new[i].kind)[j] == old_cs[j]);
                assert(children_of(new[i].kind)[k] == id);
            }
        } else {
            assert(new[i] == nodes[i]);
        }
    }
    assert forall|i: int| 0 <= i < nodes.len() implies (match (#[trigger] new[i]).kind {
        NodeSpecKind::Tag { tag, .. } => Some(tag),
        _ => None,
    }) == (match nodes[i].kind {
        NodeSpecKind::Tag { tag, .. } => Some(tag),
        _ => None,
    }) by {
        if i != p {
            assert(new[i] == nodes[i]);
        }
    }
}

proof fn lemma_last_unfinished(b: BuilderSpec)
    requires
        builder_ok(b),
    ensures
        0 <= open_parent(b).index() < b.nodes.len(),
        !(b.nodes[open_parent(b).index()].kind is Text),
{
    if b.unfinished.len() > 0 {
        let k = b.unfinished.len() - 1;
        assert(b.unfinished[k] == b.unfinished.last());
    }
}

pub proof fn lemma_builder_push_ok(b: BuilderSpec, kind: NodeSpecKind, opens: Option<Tag>)
    requires
        builder_ok(b),
        b.nodes.len() < usize::MAX,
        !(kind is Document),
        children_of(kind).len() == 0,
        opens matches Some(t) ==> kind == (NodeSpecKind::Tag { tag: t, children: seq![] }),
    ensures
        builder_ok(
            BuilderSpec {
                nodes: append_node(b.nodes, open_parent(b), kind),
                unfinished: match opens {
                    Some(t) => b.unfinished.push((t, NodeId(b.nodes.len() as usize))),
                    None => b.unfinished,
                },
            },
        ),
{
    lemma_last_unfinished(b);
    lemma_append_node_wf(b.nodes, open_parent(b), kind);
    let new = append_node(b.nodes, open_parent(b), kind);
    let un = match opens {
        Some(t) => b.unfinished.push((t, NodeId(b.nodes.len() as usize))),
        None => b.unfinished,
    };
    assert forall|k: int| #![trigger un[k]] 0 <= k < un.len() implies {
        let (tg, id) = un[k];
        &&& 1 <= id.index() < new.len()
        &&& new[id.index()].kind matches NodeSpecKind::Tag { tag, .. }
        &&& tag == tg
    } by {
        if k < b.unfinished.len() {
            assert(un[k] == b.unfinished[k]);
            let (tg, id) = b.unfinished[k];
            assert(new[id.index()].kind is Tag);
        } else {
            assert(new[b.nodes.len() as int] == NodeSpec { parent: Some(open_parent(b)), kind });
        }
    }
}

pub proof fn lemma_push_tag_ok(b: BuilderSpec, tag: Tag, kind: TagKind)
    requires
        builder_ok(b),
        b.nodes.len() < usize::MAX,
    ensures
        builder_push_tag(b, tag, kind) matches Some(b2) ==> builder_ok(b2) && b2.nodes.len()
            <= b.nodes.len() + 1,
{
    let k = NodeSpecKind::Tag { tag, children: seq![] };
    match kind {
        TagKind::Open => lemma_builder_push_ok(b, k, Some(tag)),
        TagKind::SelfClosing => lemma_builder_push_ok(b, k, None),
        TagKind::Close => {
            if let Some(b2) = builder_push_tag(b, tag, kind) {
                assert forall|k: int| #![trigger b2.unfinished[k]] 0 <= k < b2.unfinished.len() implies {
                    let (tg, id) = b2.unfinished[k];
                    &&& 1 <= id.index() < b2.nodes.len()
                    &&& b2.nodes[id.index()].kind matches NodeSpecKind::Tag { tag, .. }
                    &&& tag == tg
                } by {
                    assert(b2.unfinished[k] == b.unfinished[k]);
                }
            }
        },
    }
}

/// Every document the builder accepts is a well-formed tree.
pub proof fn lemma_build_from_wf(s: Seq<char>, p: int, b: BuilderSpec)
    requires
        builder_ok(b),
        0 <= p <= s.len(),
        b.nodes.len() + (s.len() - p) < usize::MAX,
    ensures
        build_from(s, p, b) matches Some(nodes) ==> tree_wf(nodes),
    decreases s.len() - p,
{
    if p < s.len() {
        if s[p] == '<' {
            lemma_scan_until(s, p + 1, Stop::Gt);
            let e = scan_until(s, p + 1, Stop::Gt);
            if e < s.len() {
                let (tag, kind) = read_tag(s.subrange(p + 1, e));
                lemma_push_tag_ok(b, tag, kind);
                if let Some(b2) = builder_push_tag(b, tag, kind) {
                    lemma_build_from_wf(s, e + 1, b2);
                }
            }
        } else {
            lemma_scan_until(s, p, Stop::Lt);
            let e = scan_until(s, p, Stop::Lt);
            let kind = NodeSpecKind::Text { text: s.subrange(p, e) };
            lemma_builder_push_ok(b, kind, None);
            lemma_build_from_wf(s, e, builder_push(b, kind));
        }
    }
}

/// No void element has children.
pub open spec fn void_leaves(nodes: Seq<NodeSpec>) -> bool {
    forall|i: int|
        0 <= i < nodes.len() ==> ((#[trigger] nodes[i]).kind matches NodeSpecKind::Tag {
            tag,
            children,
        } ==> (tag.spec_is_self_closing() ==> children.len() == 0))
}

pub open spec fn open_tags_not_void(b: BuilderSpec) -> bool {
    forall|k: int| 0 <= k < b.unfinished.len() ==> !(#[trigger] b.unfinished[k]).0.spec_is_self_closing()
}

proof fn lemma_append_node_void(nodes: Seq<NodeSpec>, parent: NodeId, kind: NodeSpecKind)
    requires
        void_leaves(nodes),
        0 <= parent.index() < nodes.len(),
        nodes[parent.index()].kind matches NodeSpecKind::Tag { tag, .. } ==> !tag.spec_is_self_closing(),
        children_of(kind).len() == 0,
    ensures
        void_leaves(append_node(nodes, parent, kind)),
{
    let new = append_node(nodes, parent, kind);
    assert forall|i: int| 0 <= i < new.len() implies ((#[trigger] new[i]).kind matches NodeSpecKind::Tag {
        tag,
        children,
    } ==> (tag.spec_is_self_closing() ==> children.len() == 0)) by {
        if i < nodes.len() && i != parent.index() {
            assert(new[i] == nodes[i]);
        }
    }
}

proof fn lemma_push_tag_void(b: BuilderSpec, tag: Tag, kind: TagKind)
    requires
        builder_ok(b),
        void_leaves(b.nodes),
        open_tags_not_void(b),
        kind == TagKind::Open ==> !tag.spec_is_self_closing(),
    ensures
        builder_push_tag(b, tag, kind) matches Some(b2) ==> void_leaves(b2.nodes)
            && open_tags_not_void(b2),
{
    lemma_last_unfinished(b);
    let parent = open_parent(b);
    if b.unfinished.len() > 0 {
        let k = b.unfinished.len() - 1;
        assert(b.unfinished[k] == b.unfinished.last());
    }
    let k = NodeSpecKind::Tag { tag, children: seq![] };
    if kind != TagKind::Close {
        lemma_append_node_void(b.nodes, parent, k);
    }
    if let Some(b2) = builder_push_tag(b, tag, kind) {
        assert forall|j: int| 0 <= j < b2.unfinished.len() implies !(
        #[trigger] b2.unfinished[j]).0.spec_is_self_closing() by {
            if j < b.unfinished.len() {
                assert(b2.unfinished[j] == b.unfinished[j]);
            }
        }
    }
}

proof fn lemma_build_from_void(s: Seq<char>, p: int, b: BuilderSpec)
    requires
        builder_ok(b),
        void_leaves(b.nodes),
        open_tags_not_void(b),
        0 <= p <= s.len(),
        b.nodes.len() + (s.len() - p) < usize::MAX,
    ensures
        build_from(s, p, b) matches Some(nodes) ==> void_leaves(nodes),
    decreases s.len() - p,
{
    if p < s.len() {
        if s[p] == '<' {
            lemma_scan_until(s, p + 1, Stop::Gt);
            let e = scan_until(s, p + 1, Stop::Gt);
            if e < s.len() {
                let (tag, kind) = read_tag(s.subrange(p + 1, e));
                lemma_push_tag_ok(b, tag, kind);
                lemma_push_tag_void(b, tag, kind);
                if let Some(b2) = builder_push_tag(b, tag, kind) {
                    lemma_build_from_void(s, e + 1, b2);
                }
            }
        } else {
            lemma_scan_until(s, p, Stop::Lt);
            let e = scan_until(s, p, Stop::Lt);
            let kind = NodeSpecKind::Text { text: s.subrange(p, e) };
            lemma_last_unfinished(b);
            if b.unfinished.len() > 0 {
                let k = b.unfinished.len() - 1;
                assert(b.unfinished[k] == b.unfinished.last());
            }
            lemma_append_node_void(b.nodes, open_parent(b), kind);
            lemma_builder_push_ok(b, kind, None);
            lemma_build_from_void(s, e, builder_push(b, kind));
        }
    }
}

/// Void elements never have children in a document the builder accepts.
pub proof fn lemma_build_void_leaves(s: Seq<char>)
    requires
        s.len() + 1 < usize::MAX,
    ensures
        build(s) matches Some(nodes) ==> void_leaves(nodes),
{
    lemma_build_from_void(s, 0, empty_builder());
}

/// A node of the tree.
#[derive(Debug)]
pub struct Node {
    parent: Option<NodeId>,
    kind: NodeKind,
}

#[derive(Debug)]
enum NodeKind {
    Document(DocumentNode),
    Tag(TagNode),
    Text(TextNode),
}

#[derive(Debug)]
struct DocumentNode {
    children: Vec<NodeId>,
}

#[derive(Debug)]
struct TagNode {
    tag: Tag,
    children: Vec<NodeId>,
}

#[derive(Debug)]
struct TextNode {
    text: String,
}

spec fn kind_spec(k: NodeKind) -> NodeSpecKind {
    match k {
        NodeKind::Document(d) => NodeSpecKind::Document { children: d.children@ },
        NodeKind::Tag(t) => NodeSpecKind::Tag { tag: t.tag, children: t.children@ },
        NodeKind::Text(t) => NodeSpecKind::Text { text: t.text@ },
    }
}

spec fn node_spec(n: Node) -> NodeSpec {
    NodeSpec { parent: n.parent, kind: kind_spec(n.kind) }
}

spec fn arena_spec(arena: Seq<Node>) -> Seq<NodeSpec> {
    arena.map_values(|n: Node| node_spec(n))
}

impl NodeKind {
    /// Appends `child` to a document or tag node; a text node takes none.
    fn push_child(&mut self, child: NodeId)
        requires
            !(kind_spec(*old(self)) is Text),
        ensures
            kind_spec(*final(self)) == with_child(kind_spec(*old(self)), child),
    {
        match self {
            NodeKind::Document(document) => document.children.push(child),
            NodeKind::Tag(tag) => tag.children.push(child),
            NodeKind::Text(_) => {},
        }
    }
}

/// A document: its source and its tree of nodes.
#[derive(Debug)]
pub struct Document {
    source: String,
    arena: Vec<Node>,
}

/// What a node holds, borrowed from the document.
#[derive(Debug, Clone, Copy)]
pub enum NodeView<'s> {
    Document { children: &'s [NodeId] },
    Tag { tag: Tag, children: &'s [NodeId] },
    Text(&'s str),
}

impl<'s> NodeView<'s> {
    pub open spec fn shows(self, k: NodeSpecKind) -> bool {
        match self {
            NodeView::Document { children } => k == NodeSpecKind::Document { children: children@ },
            NodeView::Tag { tag, children } => k == NodeSpecKind::Tag { tag, children: children@ },
            NodeView::Text(text) => k == NodeSpecKind::Text { text: text@ },
        }
    }
}

impl Document {
    #[verifier::type_invariant]
    spec fn inv(self) -> bool {
        tree_wf(arena_spec(self.arena@))
    }

    /// The nodes of the tree, indexed by `NodeId`.
    pub closed spec fn nodes(&self) -> Seq<NodeSpec> {
        arena_spec(self.arena@)
    }

    pub closed spec fn spec_source(&self) -> Seq<char> {
        self.source@
    }

    pub open spec fn valid(&self, id: NodeId) -> bool {
        0 <= id.index() < self.nodes().len()
    }

    /// Every document is a well-formed tree.
    pub fn lemma_wf(&self)
        ensures
            tree_wf(self.nodes()),
    {
        proof {
            use_type_invariant(self);
        }
    }

    pub fn source(&self) -> (r: &str)
        ensures
            r@ == self.spec_source(),
    {
        self.source.as_str()
    }

    pub fn root(&self) -> (r: NodeId)
        ensures
            r.index() == 0,
            self.valid(r),
            self.nodes()[0].kind is Document,
    {
        proof {
            use_type_invariant(self);
        }
        NodeId(0)
    }

    pub fn view(&self, id: NodeId) -> (r: NodeView<'_>)
        requires
            self.valid(id),
        ensures
            r.shows(self.nodes()[id.index()].kind),
    {
        match &self.arena[id.0].kind {
            NodeKind::Document(document) => NodeView::Document {
                children: document.children.as_slice(),
            },
            NodeKind::Tag(tag) => NodeView::Tag { tag: tag.tag, children: tag.children.as_slice() },
            NodeKind::Text(node) => NodeView::Text(node.text.as_str()),
        }
    }

    /// The children of a node, in document order; each names `id` as its parent.
    pub fn children(&self, id: NodeId) -> (r: &[NodeId])
        requires
            self.valid(id),
        ensures
            r@ == children_of(self.nodes()[id.index()].kind),
            forall|j: int|
                0 <= j < r@.len() ==> self.valid(#[trigger] r@[j]) && self.nodes()[r@[j].index()].parent
                    == Some(id),
    {
        proof {
            use_type_invariant(self);
            assert(self.nodes()[id.index()] == node_spec(self.arena@[id.index()]));
        }
        let r = match &self.arena[id.0].kind {
            NodeKind::Document(document) => document.children.as_slice(),
            NodeKind::Tag(tag) => tag.children.as_slice(),
            _ => {
                let empty: &[NodeId] = &[];
                assert(empty@ =~= Seq::<NodeId>::empty());
                empty
            },
        };
        proof {
            assert(NodeId(id.index() as usize) == id);
            assert forall|j: int| 0 <= j < r@.len() implies self.valid(#[trigger] r@[j])
                && self.nodes()[r@[j].index()].parent == Some(id) by {
                assert(children_of(self.nodes()[id.index()].kind)[j] == r@[j]);
            }
        }
        r
    }

    pub fn tag(&self, id: NodeId) -> (r: Option<Tag>)
        requires
            self.valid(id),
        ensures
            r == match self.nodes()[id.index()].kind {
                NodeSpecKind::Tag { tag, .. } => Some(tag),
                _ => None,
            },
    {
        match &self.arena[id.0].kind {
            NodeKind::Tag(tag) => Some(tag.tag),
            _ => None,
        }
    }

    pub fn text(&self, id: NodeId) -> (r: Option<&str>)
        requires
            self.valid(id),
        ensures
            match self.nodes()[id.index()].kind {
                NodeSpecKind::Text { text } => r matches Some(t) && t@ == text,
                _ => r is None,
            },
    {
        match &self.arena[id.0].kind {
            NodeKind::Text(node) => Some(node.text.as_str()),
            _ => None,
        }
    }

    /// The parent of a node; only the root has none, and a parent lists
    /// the node among its children.
    pub fn parent(&self, id: NodeId) -> (r: Option<NodeId>)
        requires
            self.valid(id),
        ensures
            r == self.nodes()[id.index()].parent,
            r is None <==> id.index() == 0,
            r matches Some(p) ==> self.valid(p) && children_of(self.nodes()[p.index()].kind).contains(
                id,
            ),
    {
        proof {
            use_type_invariant(self);
            if id.index() > 0 {
                assert(NodeId(id.index() as usize) == id);
            }
        }
        self.arena[id.0].parent
    }
}

/// Builds the arena of a document.
#[derive(Debug)]
pub struct DocumentBuilder {
    arena: Vec<Node>,
    unfinished: Vec<(Tag, NodeId)>,
}

struct ParsingTag {
    tag: Tag,
    kind: TagKind,
}

impl DocumentBuilder {
    spec fn state(&self) -> BuilderSpec {
        BuilderSpec { nodes: arena_spec(self.arena@), unfinished: self.unfinished@ }
    }

    fn new() -> (r: Self)
        ensures
            r.state() == empty_builder(),
    {
        let root = Node {
            parent: None,
            kind: NodeKind::Document(DocumentNode { children: Vec::new() }),
        };
        let r = DocumentBuilder { arena: vec![root], unfinished: Vec::new() };
        assert(r.state().nodes =~= empty_builder().nodes);
        r
    }

    fn push_node(&mut self, kind: NodeKind) -> (r: NodeId)
        requires
            builder_ok(old(self).state()),
        ensures
            final(self).state() == builder_push(old(self).state(), kind_spec(kind)),
            r == NodeId(old(self).state().nodes.len() as usize),
    {
        proof {
            lemma_last_unfinished(self.state());
        }
        let id = NodeId(self.arena.len());
        let parent = match self.unfinished.last() {
            Some(last) => last.1,
            None => NodeId(0),
        };
        let ghost before = self.arena@;
        assert(node_spec(before[parent.index()]) == old(self).state().nodes[parent.index()]);
        self.arena[parent.0].kind.push_child(id);
        self.arena.push(Node { parent: Some(parent), kind });
        proof {
            let expect = append_node(arena_spec(before), parent, kind_spec(kind));
            assert(arena_spec(self.arena@) =~= expect) by {
                assert forall|i: int| 0 <= i < expect.len() implies arena_spec(self.arena@)[i]
                    == #[trigger] expect[i] by {
                    if i < before.len() && i != parent.index() {
                        assert(self.arena@[i] == before[i]);
                    }
                }
            }
        }
        id
    }

    /// Whether the builder takes `tag`: a closing tag must name the
    /// innermost open tag.
    fn accepts(&self, tag: &ParsingTag) -> (r: bool)
        ensures
            r == builder_push_tag(self.state(), tag.tag, tag.kind) is Some,
    {
        match tag.kind {
            TagKind::Close => match self.unfinished.last() {
                Some(last) => last.0 == tag.tag,
                None => false,
            },
            _ => true,
        }
    }

    fn push_tag(&mut self, tag: ParsingTag)
        requires
            builder_ok(old(self).state()),
            builder_push_tag(old(self).state(), tag.tag, tag.kind) is Some,
        ensures
            builder_push_tag(old(self).state(), tag.tag, tag.kind) == Some(final(self).state()),
    {
        match tag.kind {
            TagKind::Open => {
                let kind = NodeKind::Tag(TagNode { tag: tag.tag, children: Vec::new() });
                assert(kind_spec(kind) == NodeSpecKind::Tag { tag: tag.tag, children: seq![] });
                let id = self.push_node(kind);
                self.unfinished.push((tag.tag, id));
            },
            TagKind::Close => {
                self.unfinished.pop();
            },
            TagKind::SelfClosing => {
                let kind = NodeKind::Tag(TagNode { tag: tag.tag, children: Vec::new() });
                assert(kind_spec(kind) == NodeSpecKind::Tag { tag: tag.tag, children: seq![] });
                self.push_node(kind);
            },
        }
    }

    fn push_text(&mut self, text: TextNode)
        requires
            builder_ok(old(self).state()),
        ensures
            final(self).state() == builder_push(
                old(self).state(),
                NodeSpecKind::Text { text: text.text@ },
            ),
    {
        let kind = NodeKind::Text(text);
        self.push_node(kind);
    }
}

struct Parser {
    source: Vec<char>,
    pos: usize,
    builder: DocumentBuilder,
}

impl Parser {
    fn peek(&self) -> (r: Option<char>)
        ensures
            r == char_at(self.source@, self.pos as int),
    {
        if self.pos < self.source.len() {
            Some(self.source[self.pos])
        } else {
            None
        }
    }

    fn advance(&mut self) -> (r: Option<char>)
        ensures
            r == char_at(old(self).source@, old(self).pos as int),
            final(self).source == old(self).source,
            final(self).builder == old(self).builder,
            final(self).pos == if old(self).pos < old(self).source@.len() {
                old(self).pos + 1
            } else {
                old(self).pos as int
            },
    {
        if self.pos < self.source.len() {
            let c = self.source[self.pos];
            self.pos = self.pos + 1;
            Some(c)
        } else {
            None
        }
    }

    fn consume(&mut self, expected: char)
        requires
            char_at(old(self).source@, old(self).pos as int) == Some(expected),
        ensures
            final(self).source == old(self).source,
            final(self).builder == old(self).builder,
            final(self).pos == old(self).pos + 1,
    {
        self.advance();
    }
}

/// Builds the document of `source`.
pub fn parse(source: String) -> (r: Document)
    requires
        build(source@) is Some,
        source@.len() + 1 < usize::MAX,
    ensures
        Some(r.nodes()) == build(source@),
        r.spec_source() == source@,
{
    try_parse(source).unwrap()
}

/// Builds the document of `source`, or `None` where the builder gives up: a
/// `<` with no `>` after it, or a closing tag that does not name the
/// innermost open tag.
pub fn try_parse(source: String) -> (r: Option<Document>)
    requires
        source@.len() + 1 < usize::MAX,
    ensures
        match build(source@) {
            Some(nodes) => r matches Some(d) && d.nodes() == nodes && d.spec_source() == source@,
            None => r is None,
        },
{
    let mut parser = Parser {
        source: chars_of(source.as_str()),
        pos: 0,
        builder: DocumentBuilder::new(),
    };
    let ghost s = source@;
    assert(tree_wf(parser.builder.state().nodes));
    loop
        invariant
            parser.source@ == s,
            s == source@,
            s.len() + 1 < usize::MAX,
            0 <= parser.pos <= s.len(),
            builder_ok(parser.builder.state()),
            parser.builder.state().nodes.len() <= parser.pos + 1,
            build_from(s, parser.pos as int, parser.builder.state()) == build(s),
        ensures
            parser.pos == s.len(),
        decreases s.len() - parser.pos,
    {
        let ghost p = parser.pos as int;
        let ghost b = parser.builder.state();
        match parser.peek() {
            None => {
                break ;
            },
            Some(c) => {
                if c == '<' {
                    proof {
                        lemma_scan_until(s, p + 1, Stop::Gt);
                    }
                    if !closes_before_end(parser.source.as_slice(), parser.pos + 1) {
                        assert(s[p] == '<');
                        assert(build_from(s, p, b) is None);
                        return None;
                    }
                    let tag = parse_tag(&mut parser);
                    if !parser.builder.accepts(&tag) {
                        assert(s[p] == '<');
                        assert(build_from(s, p, b) is None);
                        return None;
                    }
                    proof {
                        lemma_push_tag_ok(b, tag.tag, tag.kind);
                    }
                    parser.builder.push_tag(tag);
                } else {
                    proof {
                        lemma_scan_until(s, p, Stop::Lt);
                    }
                    let text = parse_text(&mut parser);
                    proof {
                        lemma_builder_push_ok(b, NodeSpecKind::Text { text: text.text@ }, None);
                    }
                    parser.builder.push_text(text);
                }
            },
        }
    }
    proof {
        lemma_build_from_wf(s, 0, empty_builder());
    }
    let arena = parser.builder.arena;
    Some(Document { source, arena })
}

/// Whether a `>` follows position `from`.
fn closes_before_end(s: &[char], from: usize) -> (r: bool)
    requires
        from <= s@.len(),
    ensures
        r == (scan_until(s@, from as int, Stop::Gt) < s@.len()),
{
    let mut i = from;
    while i < s.len()
        invariant
            from <= i <= s@.len(),
            scan_until(s@, i as int, Stop::Gt) == scan_until(s@, from as int, Stop::Gt),
        decreases s@.len() - i,
    {
        if s[i] == '>' {
            return true;
        }
        i += 1;
    }
    false
}

fn parse_tag(parser: &mut Parser) -> (r: ParsingTag)
    requires
        char_at(old(parser).source@, old(parser).pos as int) == Some('<'),
        scan_until(old(parser).source@, old(parser).pos + 1, Stop::Gt) < old(parser).source@.len(),
    ensures
        final(parser).source == old(parser).source,
        final(parser).builder == old(parser).builder,
        final(parser).pos == scan_until(old(parser).source@, old(parser).pos + 1, Stop::Gt) + 1,
        (r.tag, r.kind) == read_tag(
            old(parser).source@.subrange(
                old(parser).pos + 1,
                scan_until(old(parser).source@, old(parser).pos + 1, Stop::Gt),
            ),
        ),
{
    let ghost s = parser.source@;
    let ghost e = scan_until(s, parser.pos + 1, Stop::Gt);
    parser.consume('<');
    let start = parser.pos;
    proof {
        lemma_scan_until(s, start as int, Stop::Gt);
    }
    loop
        invariant_except_break
            start <= parser.pos <= e,
            scan_until(s, parser.pos as int, Stop::Gt) == e,
        invariant
            parser.source == old(parser).source,
            parser.source@ == s,
            parser.builder == old(parser).builder,
            e < s.len(),
            s[e] == '>',
        ensures
            parser.source@ == s,
            parser.builder == old(parser).builder,
            parser.pos == e + 1,
        decreases s.len() - parser.pos,
    {
        match parser.peek() {
            Some(c) => {
                if c == '>' {
                    parser.consume('>');
                    break ;
                }
                assert(scan_until(s, parser.pos as int, Stop::Gt) == scan_until(
                    s,
                    parser.pos + 1,
                    Stop::Gt,
                ));
                parser.advance();
            },
            None => {
                break ;
            },
        }
    }
    let raw0 = slice_to_vec_range(parser.source.as_slice(), start, parser.pos - 1);
    let mut raw = trim_exec(raw0.as_slice());
    let closing = raw.len() > 0 && raw[0] == '/';
    if closing {
        let rest = slice_to_vec_range(raw.as_slice(), 1, raw.len());
        raw = trim_start_exec(rest.as_slice());
    }
    let explicit_self_closing = raw.len() > 0 && raw[raw.len() - 1] == '/';
    if explicit_self_closing {
        let rest = slice_to_vec_range(raw.as_slice(), 0, raw.len() - 1);
        raw = trim_end_exec(rest.as_slice());
    }
    let word = first_word_exec(raw.as_slice());
    let name = ascii_lowercase_exec(word.as_slice());
    let tag = Tag::parse_chars(name.as_slice());
    if closing {
        ParsingTag { tag, kind: TagKind::Close }
    } else if explicit_self_closing || tag.is_self_closing() || (name.len() > 0 && name[0]
        == '!') {
        ParsingTag { tag, kind: TagKind::SelfClosing }
    } else {
        ParsingTag { tag, kind: TagKind::Open }
    }
}

/// The first whitespace-separated word of `s`.
fn first_word_exec(s: &[char]) -> (r: Vec<char>)
    ensures
        r@ == first_word(s@),
{
    let t = trim_start_exec(s);
    let mut n: usize = 0;
    assert(t@.skip(0) =~= t@);
    while n < t.len() && !whitespace(t[n])
        invariant
            n <= t@.len(),
            word_len(t@) == n + word_len(t@.skip(n as int)),
        decreases t@.len() - n,
    {
        assert(t@.skip(n as int).drop_first() =~= t@.skip(n + 1));
        n += 1;
    }
    assert(word_len(t@.skip(n as int)) == 0);
    assert(t@.skip(0) =~= t@);
    let r = slice_to_vec_range(t.as_slice(), 0, n);
    assert(r@ =~= t@.take(n as int));
    r
}

fn parse_text(parser: &mut Parser) -> (r: TextNode)
    requires
        old(parser).pos <= old(parser).source@.len(),
    ensures
        final(parser).source == old(parser).source,
        final(parser).builder == old(parser).builder,
        final(parser).pos == scan_until(old(parser).source@, old(parser).pos as int, Stop::Lt),
        r.text@ == old(parser).source@.subrange(old(parser).pos as int, final(parser).pos as int),
{
    let ghost s = parser.source@;
    let start = parser.pos;
    proof {
        lemma_scan_until(s, start as int, Stop::Lt);
    }
    loop
        invariant
            parser.source == old(parser).source,
            parser.source@ == s,
            parser.builder == old(parser).builder,
            start <= parser.pos <= s.len(),
            scan_until(s, parser.pos as int, Stop::Lt) == scan_until(s, start as int, Stop::Lt),
        ensures
            parser.source@ == s,
            parser.builder == old(parser).builder,
            parser.pos == scan_until(s, start as int, Stop::Lt),
        decreases s.len() - parser.pos,
    {
        match parser.peek() {
            None => {
                break ;
            },
            Some(c) => {
                if c == '<' {
                    break ;
                }
                parser.advance();
            },
        }
    }
    TextNode { text: string_of_range(parser.source.as_slice(), start, parser.pos) }
}

} // verus!
