//! The document tree: an arena of nodes addressed by `DomId`.
use vstd::prelude::*;

use crate::html::tag::Tag;

verus! {

/// An attribute of a tag: its name and, when given, its value.
#[derive(Debug, PartialEq, Eq)]
pub struct Attribute {
    pub name: String,
    pub value: Option<String>,
}

pub struct SpecAttribute {
    pub name: Seq<char>,
    pub value: Option<Seq<char>>,
}

impl View for Attribute {
    type V = SpecAttribute;

    open spec fn view(&self) -> SpecAttribute {
        SpecAttribute {
            name: self.name@,
            value: match &self.value {
                Some(v) => Some(v@),
                None => None,
            },
        }
    }
}

impl Attribute {
    pub fn name(&self) -> (r: &str)
        ensures
            r@ == self.name@,
    {
        self.name.as_str()
    }

    pub fn value(&self) -> (r: Option<&str>)
        ensures
            r matches Some(v) ==> self@.value == Some(v@),
            r is None ==> self@.value is None,
    {
        match &self.value {
            Some(v) => Some(v.as_str()),
            None => None,
        }
    }
}

} // verus!

verus! {

/// The index of a node in a document's arena.
#[derive(Debug, Clone, Copy, PartialEq, Eq, Hash, Structural)]
pub struct DomId(pub usize);

impl DomId {
    pub open spec fn index(self) -> int {
        self.0 as int
    }
}

/// A node as plain values.
pub struct SpecNode {
    pub parent: Option<DomId>,
    pub kind: SpecKind,
}

pub enum SpecKind {
    Document { children: Seq<DomId> },
    Tag { tag: Tag, attributes: Seq<SpecAttribute>, children: Seq<DomId> },
    Text { text: Seq<char> },
}

pub open spec fn kind_children(k: SpecKind) -> Seq<DomId> {
    match k {
        SpecKind::Document { children } => children,
        SpecKind::Tag { children, .. } => children,
        SpecKind::Text { .. } => seq![],
    }
}

/// The shape every document has: node 0 is the document node and the only
/// node without a parent; every other node's parent comes before it, is not
/// a text node, and lists it among its children; every child of a node
/// comes after it and names that node as its parent; each children list is
/// in document order.
pub open spec fn wf_tree(nodes: Seq<SpecNode>) -> bool {
    &&& nodes.len() >= 1
    &&& nodes[0].parent is None
    &&& nodes[0].kind is Document
    &&& forall|i: int|
        #![trigger nodes[i]]
        1 <= i < nodes.len() ==> {
            &&& nodes[i].parent matches Some(p)
            &&& 0 <= p.index() < i
            &&& !(nodes[p.index()].kind is Text)
            &&& !(nodes[i].kind is Document)
            &&& kind_children(nodes[p.index()].kind).contains(DomId(i as usize))
        }
    &&& forall|i: int, j: int|
        #![trigger kind_children(nodes[i].kind)[j]]
        0 <= i < nodes.len() && 0 <= j < kind_children(nodes[i].kind).len() ==> {
            let c = kind_children(nodes[i].kind)[j];
            &&& i < c.index() < nodes.len()
            &&& nodes[c.index()].parent == Some(DomId(i as usize))
        }
    &&& forall|i: int, j: int, k: int|
        #![trigger kind_children(nodes[i].kind)[j], kind_children(nodes[i].kind)[k]]
        0 <= i < nodes.len() && 0 <= j < k < kind_children(nodes[i].kind).len()
            ==> kind_children(nodes[i].kind)[j].index() < kind_children(nodes[i].kind)[k].index()
}

/// In a well-formed tree every node but the root is listed exactly once
/// among all children lists: under its parent, and at one position there.
pub proof fn lemma_listed_once(nodes: Seq<SpecNode>, i: int, j: int, i2: int, j2: int)
    requires
        wf_tree(nodes),
        0 <= i < nodes.len(),
        0 <= i2 < nodes.len(),
        0 <= j < kind_children(nodes[i].kind).len(),
        0 <= j2 < kind_children(nodes[i2].kind).len(),
        kind_children(nodes[i].kind)[j] == kind_children(nodes[i2].kind)[j2],
    ensures
        i == i2,
        j == j2,
{
    let c = kind_children(nodes[i].kind)[j];
    assert(nodes[c.index()].parent == Some(DomId(i as usize)));
    assert(nodes[c.index()].parent == Some(DomId(i2 as usize)));
    if j < j2 {
        assert(kind_children(nodes[i].kind)[j].index() < kind_children(nodes[i].kind)[j2].index());
    } else if j2 < j {
        assert(kind_children(nodes[i].kind)[j2].index() < kind_children(nodes[i].kind)[j].index());
    }
}

#[derive(Debug)]
pub(crate) struct DomNode {
    pub(crate) parent: Option<DomId>,
    pub(crate) kind: DomKind,
}

#[derive(Debug)]
pub(crate) enum DomKind {
    Document(DocumentNode),
    Tag(TagNode),
    Text(TextNode),
}

#[derive(Debug)]
pub(crate) struct DocumentNode {
    pub(crate) children: Vec<DomId>,
}

#[derive(Debug)]
pub(crate) struct TagNode {
    pub(crate) tag: Tag,
    pub(crate) attributes: Vec<Attribute>,
    pub(crate) children: Vec<DomId>,
}

#[derive(Debug)]
pub(crate) struct TextNode {
    pub(crate) text: String,
}

pub(crate) open spec fn kind_view(k: DomKind) -> SpecKind {
        match k {
            DomKind::Document(d) => SpecKind::Document { children: d.children@ },
            DomKind::Tag(t) => SpecKind::Tag {
                tag: t.tag,
                attributes: t.attributes@.map_values(|a: Attribute| a@),
                children: t.children@,
            },
            DomKind::Text(t) => SpecKind::Text { text: t.text@ },
        }
}

pub(crate) open spec fn node_view(n: DomNode) -> SpecNode {
    SpecNode { parent: n.parent, kind: kind_view(n.kind) }
}

pub(crate) open spec fn arena_view(arena: Seq<DomNode>) -> Seq<SpecNode> {
    arena.map_values(|n: DomNode| node_view(n))
}

impl DomKind {
    /// Appends `child` to the children of a document or tag node; a text
    /// node has none and is left as it is.
    pub(crate) fn push_child(&mut self, child: DomId) -> (r: bool)
        ensures
            r == !(kind_view(*old(self)) is Text),
            kind_view(*final(self)) == match kind_view(*old(self)) {
                SpecKind::Document { children } => SpecKind::Document {
                    children: children.push(child),
                },
                SpecKind::Tag { tag, attributes, children } => SpecKind::Tag {
                    tag,
                    attributes,
                    children: children.push(child),
                },
                SpecKind::Text { text } => SpecKind::Text { text },
            },
    {
        match self {
            DomKind::Document(document) => {
                document.children.push(child);
                true
            },
            DomKind::Tag(tag) => {
                tag.children.push(child);
                true
            },
            DomKind::Text(_) => false,
        }
    }
}

/// A parsed HTML document: its source and its tree of nodes.
#[derive(Debug)]
pub struct Document {
    source: String,
    arena: Vec<DomNode>,
}

/// What a node holds, borrowed from the document.
#[derive(Debug, Clone, Copy)]
pub enum NodeView<'s> {
    Document { children: &'s [DomId] },
    Tag { tag: Tag, attributes: &'s [Attribute], children: &'s [DomId] },
    Text(&'s str),
}

impl<'s> NodeView<'s> {
    pub open spec fn matches_kind(self, k: SpecKind) -> bool {
        match self {
            NodeView::Document { children } => k == SpecKind::Document { children: children@ },
            NodeView::Tag { tag, attributes, children } => k == SpecKind::Tag {
                tag,
                attributes: attributes@.map_values(|a: Attribute| a@),
                children: children@,
            },
            NodeView::Text(text) => k == SpecKind::Text { text: text@ },
        }
    }
}

impl Document {
    #[verifier::type_invariant]
    spec fn inv(self) -> bool {
        wf_tree(arena_view(self.arena@))
    }

    /// The nodes of the tree, indexed by `DomId`.
    pub closed spec fn nodes(&self) -> Seq<SpecNode> {
        arena_view(self.arena@)
    }

    pub closed spec fn spec_source(&self) -> Seq<char> {
        self.source@
    }

    pub open spec fn valid(&self, id: DomId) -> bool {
        0 <= id.index() < self.nodes().len()
    }

    pub(crate) fn from_parts(source: String, arena: Vec<DomNode>) -> (r: Self)
        requires
            wf_tree(arena_view(arena@)),
        ensures
            r.nodes() == arena_view(arena@),
            r.spec_source() == source@,
    {
        Document { source, arena }
    }

    /// Every document is a well-formed tree.
    pub fn lemma_wf(&self)
        ensures
            wf_tree(self.nodes()),
    {
        proof {
            use_type_invariant(self);
        }
    }

    pub fn source(&self) -> (r: &str)
        ensures
            r@ == self.spec_source(),
    {
        self.source.as_str()
    }

    pub fn root(&self) -> (r: DomId)
        ensures
            r.index() == 0,
            self.valid(r),
            self.nodes()[0].kind is Document,
    {
        proof {
            use_type_invariant(self);
        }
        DomId(0)
    }

    pub fn view(&self, id: DomId) -> (r: NodeView<'_>)
        requires
            self.valid(id),
        ensures
            r.matches_kind(self.nodes()[id.index()].kind),
    {
        match &self.arena[id.0].kind {
            DomKind::Document(document) => NodeView::Document {
                children: document.children.as_slice(),
            },
            DomKind::Tag(tag) => NodeView::Tag {
                tag: tag.tag,
                attributes: tag.attributes.as_slice(),
                children: tag.children.as_slice(),
            },
            DomKind::Text(node) => NodeView::Text(node.text.as_str()),
        }
    }

    /// The children of a node, in document order; each names `id` as its parent.
    pub fn children(&self, id: DomId) -> (r: &[DomId])
        requires
            self.valid(id),
        ensures
            r@ == kind_children(self.nodes()[id.index()].kind),
            forall|j: int|
                0 <= j < r@.len() ==> self.valid(#[trigger] r@[j]) && self.nodes()[r@[j].index()].parent
                    == Some(id),
    {
        proof {
            use_type_invariant(self);
            assert(self.nodes()[id.index()] == node_view(self.arena@[id.index()]));
        }
        let r = match &self.arena[id.0].kind {
            DomKind::Document(document) => document.children.as_slice(),
            DomKind::Tag(tag) => tag.children.as_slice(),
            _ => {
                let empty: &[DomId] = &[];
                assert(empty@ =~= Seq::<DomId>::empty());
                empty
            },
        };
        proof {
            assert(DomId(id.index() as usize) == id);
            assert forall|j: int| 0 <= j < r@.len() implies self.valid(#[trigger] r@[j])
                && self.nodes()[r@[j].index()].parent == Some(id) by {
                assert(kind_children(self.nodes()[id.index()].kind)[j] == r@[j]);
            }
        }
        r
    }

    pub fn tag(&self, id: DomId) -> (r: Option<Tag>)
        requires
            self.valid(id),
        ensures
            r == match self.nodes()[id.index()].kind {
                SpecKind::Tag { tag, .. } => Some(tag),
                _ => None,
            },
    {
        match &self.arena[id.0].kind {
            DomKind::Tag(tag) => Some(tag.tag),
            _ => None,
        }
    }

    pub fn text(&self, id: DomId) -> (r: Option<&str>)
        requires
            self.valid(id),
        ensures
            match self.nodes()[id.index()].kind {
                SpecKind::Text { text } => r matches Some(t) && t@ == text,
                _ => r is None,
            },
    {
        match &self.arena[id.0].kind {
            DomKind::Text(node) => Some(node.text.as_str()),
            _ => None,
        }
    }

    /// The parent of a node; only the root has none, and a parent lists
    /// the node among its children.
    pub fn parent(&self, id: DomId) -> (r: Option<DomId>)
        requires
            self.valid(id),
        ensures
            r == self.nodes()[id.index()].parent,
            r is None <==> id.index() == 0,
            r matches Some(p) ==> self.valid(p) && kind_children(
                self.nodes()[p.index()].kind,
            ).contains(id),
    {
        proof {
            use_type_invariant(self);
            if id.index() > 0 {
                assert(DomId(id.index() as usize) == id);
            }
        }
        self.arena[id.0].parent
    }
}

} // verus!
