//! The tree of layout boxes a document becomes.
//!
//! Every node that is drawn gets a box. A block box whose boxed children
//! are all inline holds an inline box for each; otherwise it holds a block
//! box for each block child and, for each run of inline children between
//! them, an anonymous block holding an inline box for each member of the
//! run (a run of blank text makes none). An inline box holds an inline box
//! for each child that is drawn. So a box's children are either all inline
//! or all block-level.
//!
//! Positions and sizes are not part of this tree: they are measured with
//! fonts and kept beside it, indexed by `LayoutId`.
use vstd::prelude::*;

use crate::html::document::kind_children;
use crate::html::document::wf_tree;
use crate::html::document::Document;
use crate::html::document::DomId;
use crate::html::document::SpecKind;
use crate::html::document::SpecNode;
use crate::html::NodeView;
use crate::html::Tag;
use crate::text::chars_of;
use crate::text::trim;
use crate::text::trim_exec;

verus! {

/// The index of a box in a layout tree.
#[derive(Debug, Clone, Copy, PartialEq, Eq, Hash, Structural)]
pub struct LayoutId(pub usize);

impl LayoutId {
    pub open spec fn index(self) -> int {
        self.0 as int
    }
}

/// What a box stands for: a block or inline document node, or a run of
/// inline nodes inside a block.
#[derive(Debug, Clone, Copy, PartialEq, Eq, Structural)]
pub enum LayoutBox {
    Block(DomId),
    Inline(DomId),
    AnonymousBlock,
}

/// Whether a node of this kind is drawn.
pub open spec fn shows(k: SpecKind) -> bool {
    match k {
        SpecKind::Document { .. } => false,
        SpecKind::Tag { tag, .. } => !tag.spec_is_hidden(),
        SpecKind::Text { text } => text.len() > 0,
    }
}

/// Whether the node `d` gets a box: a tag that is not hidden, non-empty
/// text, or a document with such a child.
#[verifier::opaque]
pub open spec fn creates_box(nodes: Seq<SpecNode>, d: DomId) -> bool {
    match nodes[d.index()].kind {
        SpecKind::Document { children } => exists|j: int|
            0 <= j < children.len() && shows(#[trigger] nodes[children[j].index()].kind),
        k => shows(k),
    }
}

/// The node `d` is a block element.
pub open spec fn block_dom(nodes: Seq<SpecNode>, d: DomId) -> bool {
    nodes[d.index()].kind matches SpecKind::Tag { tag, .. } && tag.spec_is_block()
}

/// The node `d` is text with nothing but whitespace.
pub open spec fn blank_text(nodes: Seq<SpecNode>, d: DomId) -> bool {
    nodes[d.index()].kind matches SpecKind::Text { text } && trim(text).len() == 0
}

/// The members of `c` that get a box, in order.
pub open spec fn boxed(nodes: Seq<SpecNode>, c: Seq<DomId>) -> Seq<DomId>
    decreases c.len(),
{
    if c.len() == 0 {
        seq![]
    } else if creates_box(nodes, c.last()) {
        boxed(nodes, c.drop_last()).push(c.last())
    } else {
        boxed(nodes, c.drop_last())
    }
}

pub open spec fn boxed_children(nodes: Seq<SpecNode>, d: DomId) -> Seq<DomId> {
    boxed(nodes, kind_children(nodes[d.index()].kind))
}

pub open spec fn has_block(nodes: Seq<SpecNode>, c: Seq<DomId>) -> bool {
    exists|k: int| 0 <= k < c.len() && block_dom(nodes, #[trigger] c[k])
}

pub open spec fn all_blank(nodes: Seq<SpecNode>, run: Seq<DomId>) -> bool {
    forall|k: int| 0 <= k < run.len() ==> blank_text(nodes, #[trigger] run[k])
}

/// A child of a block box whose children are block-level.
pub enum LayoutItem {
    Block(DomId),
    Anonymous(Seq<DomId>),
}

pub open spec fn item_box(it: LayoutItem) -> LayoutBox {
    match it {
        LayoutItem::Block(d) => LayoutBox::Block(d),
        LayoutItem::Anonymous(_) => LayoutBox::AnonymousBlock,
    }
}

pub open spec fn flush_items(nodes: Seq<SpecNode>, run: Seq<DomId>) -> Seq<LayoutItem> {
    if all_blank(nodes, run) {
        seq![]
    } else {
        seq![LayoutItem::Anonymous(run)]
    }
}

/// The children of a block box for the boxed nodes `c`, with `run` the
/// inline nodes seen since the last block.
pub open spec fn block_items(nodes: Seq<SpecNode>, c: Seq<DomId>, run: Seq<DomId>) -> Seq<
    LayoutItem,
>
    decreases c.len(),
{
    if c.len() == 0 {
        flush_items(nodes, run)
    } else if block_dom(nodes, c[0]) {
        flush_items(nodes, run) + seq![LayoutItem::Block(c[0])] + block_items(
            nodes,
            c.drop_first(),
            seq![],
        )
    } else {
        block_items(nodes, c.drop_first(), run.push(c[0]))
    }
}

pub open spec fn inline_boxes(c: Seq<DomId>) -> Seq<LayoutBox> {
    c.map_values(|d: DomId| LayoutBox::Inline(d))
}

/// A box as plain values.
pub struct BoxSpec {
    pub kind: LayoutBox,
    pub parent: Option<LayoutId>,
    pub previous: Option<LayoutId>,
    pub children: Seq<LayoutId>,
}

/// Box 0 is the root; every other box's parent comes before it and lists
/// it; every child of a box comes after it, names it as parent, and names
/// the child before it (if any) as its previous sibling.
#[verifier::opaque]
pub open spec fn boxes_wf(bs: Seq<BoxSpec>) -> bool {
    &&& 1 <= bs.len() <= usize::MAX
    &&& bs[0].parent is None
    &&& bs[0].previous is None
    &&& forall|i: int|
        #![trigger bs[i].parent]
        1 <= i < bs.len() ==> {
            &&& bs[i].parent matches Some(p)
            &&& 0 <= p.index() < i
            &&& bs[p.index()].children.contains(LayoutId(i as usize))
        }
    &&& forall|i: int, j: int|
        #![trigger bs[i].children[j]]
        0 <= i < bs.len() && 0 <= j < bs[i].children.len() ==> {
            let c = bs[i].children[j];
            &&& i < c.index() < bs.len()
            &&& bs[c.index()].parent == Some(LayoutId(i as usize))
        }
    &&& forall|i: int, j: int|
        #![trigger bs[bs[i].children[j].index()].previous]
        0 <= i < bs.len() && 0 <= j < bs[i].children.len() ==> bs[bs[i].children[j].index()].previous
            == if j == 0 {
            None
        } else {
            Some(bs[i].children[j - 1])
        }
}

/// Appends a box of kind `kind` as the last child of `parent`.
pub open spec fn push_box(bs: Seq<BoxSpec>, parent: LayoutId, kind: LayoutBox) -> Seq<BoxSpec> {
    let p = parent.index();
    let id = LayoutId(bs.len() as usize);
    let previous = if bs[p].children.len() > 0 {
        Some(bs[p].children.last())
    } else {
        None
    };
    bs.update(
        p,
        BoxSpec {
            kind: bs[p].kind,
            parent: bs[p].parent,
            previous: bs[p].previous,
            children: bs[p].children.push(id),
        },
    ).push(BoxSpec { kind, parent: Some(parent), previous, children: seq![] })
}

pub open spec fn child_kinds(bs: Seq<BoxSpec>, b: int) -> Seq<LayoutBox> {
    bs[b].children.map_values(|c: LayoutId| bs[c.index()].kind)
}

/// Box `b` holds what its node calls for; `runs` gives each anonymous
/// block the run of inline nodes it stands for.
#[verifier::opaque]
pub open spec fn box_ok(
    nodes: Seq<SpecNode>,
    bs: Seq<BoxSpec>,
    runs: Map<int, Seq<DomId>>,
    b: int,
) -> bool {
    match bs[b].kind {
        LayoutBox::Inline(d) => 0 <= d.index() < nodes.len() && child_kinds(bs, b) == inline_boxes(
            boxed_children(nodes, d),
        ),
        LayoutBox::Block(d) => 0 <= d.index() < nodes.len() && if has_block(
            nodes,
            boxed_children(nodes, d),
        ) {
            let items = block_items(nodes, boxed_children(nodes, d), seq![]);
            &&& child_kinds(bs, b) == items.map_values(|it: LayoutItem| item_box(it))
            &&& forall|k: int|
                0 <= k < items.len() ==> (#[trigger] items[k] matches LayoutItem::Anonymous(run)
                    ==> runs.dom().contains(bs[b].children[k].index()) && runs[bs[b].children[k].index()]
                    == run)
        } else {
            child_kinds(bs, b) == inline_boxes(boxed_children(nodes, d))
        },
        LayoutBox::AnonymousBlock => runs.dom().contains(b) && child_kinds(bs, b) == inline_boxes(
            runs[b],
        ),
    }
}

/// The boxes `bs` are the layout tree of the document `nodes`.
pub open spec fn tree_matches(
    nodes: Seq<SpecNode>,
    bs: Seq<BoxSpec>,
    runs: Map<int, Seq<DomId>>,
) -> bool {
    &&& boxes_wf(bs)
    &&& bs[0].kind == LayoutBox::Block(DomId(0))
    &&& forall|b: int| 0 <= b < bs.len() ==> box_ok(nodes, bs, runs, b)
}

/// `b` is `a` with more boxes after it and more children for `p`; nothing
/// else changed.
#[verifier::opaque]
pub open spec fn extends(a: Seq<BoxSpec>, b: Seq<BoxSpec>, p: int) -> bool {
    &&& a.len() <= b.len()
    &&& 0 <= p < a.len()
    &&& forall|i: int| #![trigger b[i]] 0 <= i < a.len() && i != p ==> b[i] == a[i]
    &&& b[p].kind == a[p].kind
    &&& b[p].parent == a[p].parent
    &&& b[p].previous == a[p].previous
    &&& a[p].children.len() <= b[p].children.len()
    &&& b[p].children.take(a[p].children.len() as int) == a[p].children
}

pub open spec fn runs_extend(r1: Map<int, Seq<DomId>>, r2: Map<int, Seq<DomId>>) -> bool {
    forall|k: int| #[trigger] r1.dom().contains(k) ==> r2.dom().contains(k) && r2[k] == r1[k]
}

#[verifier::opaque]
pub open spec fn doms_valid(nodes: Seq<SpecNode>, bs: Seq<BoxSpec>) -> bool {
    forall|i: int|
        #![trigger bs[i]]
        0 <= i < bs.len() ==> match bs[i].kind {
            LayoutBox::Block(d) => 0 <= d.index() < nodes.len(),
            LayoutBox::Inline(d) => 0 <= d.index() < nodes.len(),
            LayoutBox::AnonymousBlock => true,
        }
}

pub open spec fn kind_valid(nodes: Seq<SpecNode>, k: LayoutBox) -> bool {
    match k {
        LayoutBox::Block(d) => 0 <= d.index() < nodes.len(),
        LayoutBox::Inline(d) => 0 <= d.index() < nodes.len(),
        LayoutBox::AnonymousBlock => true,
    }
}

pub open spec fn runs_bounded(runs: Map<int, Seq<DomId>>, bs: Seq<BoxSpec>) -> bool {
    forall|k: int| #[trigger] runs.dom().contains(k) ==> 0 <= k < bs.len()
}

/// The invariant of a layout builder: the document and the boxes are
/// well-formed trees, boxes name nodes of the document, and runs are
/// given only for boxes that exist.
#[verifier::opaque]
pub open spec fn builder_inv(
    nodes: Seq<SpecNode>,
    bs: Seq<BoxSpec>,
    runs: Map<int, Seq<DomId>>,
) -> bool {
    &&& wf_tree(nodes)
    &&& boxes_wf(bs)
    &&& doms_valid(nodes, bs)
    &&& runs_bounded(runs, bs)
}

pub proof fn lemma_builder_inv(nodes: Seq<SpecNode>, bs: Seq<BoxSpec>, runs: Map<int, Seq<DomId>>)
    ensures
        builder_inv(nodes, bs, runs) <==> (wf_tree(nodes) && boxes_wf(bs) && doms_valid(nodes, bs)
            && runs_bounded(runs, bs)),
{
    reveal(builder_inv);
}

pub proof fn lemma_builder_inv_boxes(
    nodes: Seq<SpecNode>,
    bs: Seq<BoxSpec>,
    runs: Map<int, Seq<DomId>>,
)
    requires
        builder_inv(nodes, bs, runs),
    ensures
        boxes_wf(bs),
        doms_valid(nodes, bs),
        runs_bounded(runs, bs),
{
    reveal(builder_inv);
}

proof fn lemma_push_box_extends(bs: Seq<BoxSpec>, parent: LayoutId, kind: LayoutBox)
    requires
        0 <= parent.index() < bs.len(),
    ensures
        extends(bs, push_box(bs, parent, kind), parent.index()),
{
    reveal(extends);
    let new = push_box(bs, parent, kind);
    let p = parent.index();
    assert(new[p].children.take(bs[p].children.len() as int) =~= bs[p].children);
}

/// Every box after the root still has an earlier parent that lists it.
#[verifier::rlimit(60)]
proof fn lemma_push_box_parents(
    bs: Seq<BoxSpec>,
    parent: LayoutId,
    kind: LayoutBox,
    new: Seq<BoxSpec>,
)
    requires
        boxes_wf(bs),
        0 <= parent.index() < bs.len(),
        bs.len() < usize::MAX,
        new == push_box(bs, parent, kind),
    ensures
        forall|i: int|
            #![trigger new[i].parent]
            1 <= i < new.len() ==> {
                &&& new[i].parent matches Some(q)
                &&& 0 <= q.index() < i
                &&& new[q.index()].children.contains(LayoutId(i as usize))
            },
{
    reveal(boxes_wf);
    let n = bs.len() as int;
    let id = LayoutId(n as usize);
    let p = parent.index();
    assert(new[p].children == bs[p].children.push(id));
    assert forall|i: int| #![trigger new[i].parent] 1 <= i < new.len() implies {
        &&& new[i].parent matches Some(q)
        &&& 0 <= q.index() < i
        &&& new[q.index()].children.contains(LayoutId(i as usize))
    } by {
        if i == n {
            assert(new[p].children.last() == id);
        } else {
            assert(new[i].parent == bs[i].parent);
            let q = bs[i].parent.unwrap();
            if q.index() == p {
                let j = choose|j: int|
                    0 <= j < bs[p].children.len() && bs[p].children[j] == LayoutId(i as usize);
                assert(new[p].children[j] == LayoutId(i as usize));
            } else {
                assert(new[q.index()] == bs[q.index()]);
            }
        }
    }
}

/// The child `j` of box `i` still comes after it, names it, and names the
/// sibling before it.
proof fn lemma_push_box_child(
    bs: Seq<BoxSpec>,
    parent: LayoutId,
    kind: LayoutBox,
    new: Seq<BoxSpec>,
    i: int,
    j: int,
)
    requires
        boxes_wf(bs),
        0 <= parent.index() < bs.len(),
        bs.len() < usize::MAX,
        new == push_box(bs, parent, kind),
        0 <= i < new.len(),
        0 <= j < new[i].children.len(),
    ensures
        ({
            let c = new[i].children[j];
            &&& i < c.index() < new.len()
            &&& new[c.index()].parent == Some(LayoutId(i as usize))
            &&& new[c.index()].previous == if j == 0 {
                None
            } else {
                Some(new[i].children[j - 1])
            }
        }),
{
    reveal(boxes_wf);
    let n = bs.len() as int;
    let id = LayoutId(n as usize);
    let p = parent.index();
    assert(new[p].children == bs[p].children.push(id));
    if i == n {
    } else if i == p {
        if j < bs[p].children.len() {
            assert(new[i].children[j] == bs[i].children[j]);
            let c = bs[i].children[j];
            assert(new[c.index()] == bs[c.index()]);
            if j > 0 {
                assert(new[i].children[j - 1] == bs[i].children[j - 1]);
            }
        } else {
            assert(new[i].children[j] == id);
            assert(LayoutId(i as usize) == parent);
            if j > 0 {
                assert(new[i].children[j - 1] == bs[p].children.last());
            }
        }
    } else {
        assert(new[i] == bs[i]);
        let c = bs[i].children[j];
        assert(new[c.index()].parent == bs[c.index()].parent);
        assert(new[c.index()].previous == bs[c.index()].previous);
    }
}

proof fn lemma_push_box_children(
    bs: Seq<BoxSpec>,
    parent: LayoutId,
    kind: LayoutBox,
    new: Seq<BoxSpec>,
)
    requires
        boxes_wf(bs),
        0 <= parent.index() < bs.len(),
        bs.len() < usize::MAX,
        new == push_box(bs, parent, kind),
    ensures
        forall|i: int, j: int|
            #![trigger new[i].children[j]]
            0 <= i < new.len() && 0 <= j < new[i].children.len() ==> {
                let c = new[i].children[j];
                &&& i < c.index() < new.len()
                &&& new[c.index()].parent == Some(LayoutId(i as usize))
            },
        forall|i: int, j: int|
            #![trigger new[new[i].children[j].index()].previous]
            0 <= i < new.len() && 0 <= j < new[i].children.len() ==> new[new[i].children[j].index()].previous == if j == 0 {
                None
            } else {
                Some(new[i].children[j - 1])
            },
{
    assert forall|i: int, j: int|
        #![trigger new[i].children[j]]
        0 <= i < new.len() && 0 <= j < new[i].children.len() implies {
        let c = new[i].children[j];
        &&& i < c.index() < new.len()
        &&& new[c.index()].parent == Some(LayoutId(i as usize))
    } by {
        lemma_push_box_child(bs, parent, kind, new, i, j);
    }
    assert forall|i: int, j: int|
        #![trigger new[new[i].children[j].index()].previous]
        0 <= i < new.len() && 0 <= j < new[i].children.len() implies new[new[i].children[j].index()].previous == if j == 0 {
            None
        } else {
            Some(new[i].children[j - 1])
        } by {
        lemma_push_box_child(bs, parent, kind, new, i, j);
    }
}

pub proof fn lemma_push_box_wf(bs: Seq<BoxSpec>, parent: LayoutId, kind: LayoutBox)
    requires
        boxes_wf(bs),
        0 <= parent.index() < bs.len(),
        bs.len() < usize::MAX,
    ensures
        boxes_wf(push_box(bs, parent, kind)),
        extends(bs, push_box(bs, parent, kind), parent.index()),
        push_box(bs, parent, kind)[parent.index()].children == bs[parent.index()].children.push(
            LayoutId(bs.len() as usize),
        ),
        push_box(bs, parent, kind)[bs.len() as int].kind == kind,
        push_box(bs, parent, kind)[bs.len() as int].children.len() == 0,
        push_box(bs, parent, kind).len() == bs.len() + 1,
{
    let new = push_box(bs, parent, kind);
    let p = parent.index();
    lemma_push_box_extends(bs, parent, kind);
    lemma_push_box_parents(bs, parent, kind, new);
    lemma_push_box_children(bs, parent, kind, new);
    assert(bs[0].parent is None && bs[0].previous is None) by {
        reveal(boxes_wf);
    }
    if p != 0 {
        assert(new[0] == bs[0]);
    }
    reveal(boxes_wf);
}

pub proof fn lemma_push_box_valid(
    nodes: Seq<SpecNode>,
    runs: Map<int, Seq<DomId>>,
    bs: Seq<BoxSpec>,
    parent: LayoutId,
    kind: LayoutBox,
)
    requires
        doms_valid(nodes, bs),
        runs_bounded(runs, bs),
        kind_valid(nodes, kind),
        0 <= parent.index() < bs.len(),
    ensures
        doms_valid(nodes, push_box(bs, parent, kind)),
        runs_bounded(runs, push_box(bs, parent, kind)),
        !runs.dom().contains(bs.len() as int),
{
    reveal(doms_valid);
    let new = push_box(bs, parent, kind);
    assert forall|i: int| #![trigger new[i]] 0 <= i < new.len() implies match new[i].kind {
        LayoutBox::Block(d) => 0 <= d.index() < nodes.len(),
        LayoutBox::Inline(d) => 0 <= d.index() < nodes.len(),
        LayoutBox::AnonymousBlock => true,
    } by {
        if i < bs.len() {
            assert(new[i].kind == bs[i].kind);
        }
    }
}

pub proof fn lemma_doms_valid_at(nodes: Seq<SpecNode>, bs: Seq<BoxSpec>, i: int)
    requires
        doms_valid(nodes, bs),
        0 <= i < bs.len(),
    ensures
        kind_valid(nodes, bs[i].kind),
{
    reveal(doms_valid);
}

pub proof fn lemma_extends_refl(a: Seq<BoxSpec>, p: int)
    requires
        0 <= p < a.len(),
    ensures
        extends(a, a, p),
{
    reveal(extends);
    assert(a[p].children.take(a[p].children.len() as int) =~= a[p].children);
}

/// What extending keeps: the length grows, and `p`'s kind stays.
pub proof fn lemma_extends_basic(a: Seq<BoxSpec>, b: Seq<BoxSpec>, p: int)
    requires
        extends(a, b, p),
    ensures
        a.len() <= b.len(),
        0 <= p < a.len(),
        b[p].kind == a[p].kind,
{
    reveal(extends);
}

pub proof fn lemma_extends_at(a: Seq<BoxSpec>, b: Seq<BoxSpec>, p: int, i: int)
    requires
        extends(a, b, p),
        0 <= i < a.len(),
        i != p,
    ensures
        b[i] == a[i],
{
    reveal(extends);
    assert(b[i] == a[i]);
}

/// Extending twice, the second time only at boxes the first one added or
/// at the same box, is extending once.
pub proof fn lemma_extends_trans(a: Seq<BoxSpec>, b: Seq<BoxSpec>, c: Seq<BoxSpec>, p: int, q: int)
    requires
        extends(a, b, p),
        extends(b, c, q),
        q == p || q >= a.len(),
    ensures
        extends(a, c, p),
{
    reveal(extends);
    if q == p {
        assert(c[p].children.take(a[p].children.len() as int) =~= b[p].children.take(
            a[p].children.len() as int,
        ));
    } else {
        assert(c[p] == b[p]);
    }
}

/// When `x` got the children `added` and nothing else changed before
/// `a.len()`, its child kinds grew by theirs.
pub proof fn lemma_child_kinds_append(a: Seq<BoxSpec>, b: Seq<BoxSpec>, x: int, added: Seq<LayoutId>)
    requires
        boxes_wf(a),
        extends(a, b, x),
        b[x].children == a[x].children + added,
    ensures
        child_kinds(b, x) == child_kinds(a, x) + added.map_values(
            |c: LayoutId| b[c.index()].kind,
        ),
{
    reveal(boxes_wf);
    reveal(extends);
    assert forall|j: int| 0 <= j < a[x].children.len() implies b[(
    #[trigger] a[x].children[j]).index()].kind == a[a[x].children[j].index()].kind by {
        let c = a[x].children[j].index();
        assert(a[x].children[j] == a[x].children[j]);
        assert(b[c] == a[c]);
    }
    assert(child_kinds(b, x) =~= child_kinds(a, x) + added.map_values(
        |c: LayoutId| b[c.index()].kind,
    ));
}

/// A box that was in place before the tree was extended somewhere else
/// still holds what its node calls for.
pub proof fn lemma_box_ok_frame(
    nodes: Seq<SpecNode>,
    a: Seq<BoxSpec>,
    b: Seq<BoxSpec>,
    r1: Map<int, Seq<DomId>>,
    r2: Map<int, Seq<DomId>>,
    p: int,
    x: int,
)
    requires
        boxes_wf(a),
        extends(a, b, p),
        runs_extend(r1, r2),
        0 <= x < a.len(),
        x != p,
        box_ok(nodes, a, r1, x),
    ensures
        box_ok(nodes, b, r2, x),
{
    reveal(boxes_wf);
    reveal(extends);
    reveal(box_ok);
    assert(b[x] == a[x]);
    assert forall|k: int| 0 <= k < a[x].children.len() implies b[(
    #[trigger] a[x].children[k]).index()].kind == a[a[x].children[k].index()].kind by {
        let c = a[x].children[k].index();
        if c != p {
            assert(b[c] == a[c]);
        }
    }
    assert(child_kinds(b, x) =~= child_kinds(a, x));
    if a[x].kind is AnonymousBlock {
        assert(r1.dom().contains(x));
    }
}

/// Boxes from `lo` on, other than `x`, keep holding what they should when
/// `x` is extended and the new boxes hold what they should.
pub proof fn lemma_boxes_ok_frame(
    nodes: Seq<SpecNode>,
    a: Seq<BoxSpec>,
    b: Seq<BoxSpec>,
    r1: Map<int, Seq<DomId>>,
    r2: Map<int, Seq<DomId>>,
    x: int,
    lo: int,
)
    requires
        boxes_wf(a),
        extends(a, b, x),
        runs_extend(r1, r2),
        0 <= lo,
        forall|y: int| lo <= y < a.len() && y != x ==> box_ok(nodes, a, r1, y),
        forall|y: int| a.len() <= y < b.len() ==> box_ok(nodes, b, r2, y),
    ensures
        forall|y: int| lo <= y < b.len() && y != x ==> box_ok(nodes, b, r2, y),
{
    lemma_extends_basic(a, b, x);
    assert forall|y: int| lo <= y < b.len() && y != x implies box_ok(nodes, b, r2, y) by {
        if y < a.len() {
            lemma_box_ok_frame(nodes, a, b, r1, r2, x, y);
        }
    }
}

pub proof fn lemma_inline_box_ok(
    nodes: Seq<SpecNode>,
    bs: Seq<BoxSpec>,
    runs: Map<int, Seq<DomId>>,
    b: int,
    d: DomId,
)
    requires
        0 <= b < bs.len(),
        bs[b].kind == LayoutBox::Inline(d),
        0 <= d.index() < nodes.len(),
        child_kinds(bs, b) == inline_boxes(boxed_children(nodes, d)),
    ensures
        box_ok(nodes, bs, runs, b),
{
    reveal(box_ok);
}

pub proof fn lemma_anonymous_box_ok(
    nodes: Seq<SpecNode>,
    bs: Seq<BoxSpec>,
    runs: Map<int, Seq<DomId>>,
    b: int,
)
    requires
        0 <= b < bs.len(),
        bs[b].kind == LayoutBox::AnonymousBlock,
        runs.dom().contains(b),
        child_kinds(bs, b) == inline_boxes(runs[b]),
    ensures
        box_ok(nodes, bs, runs, b),
{
    reveal(box_ok);
}

pub proof fn lemma_block_box_ok(
    nodes: Seq<SpecNode>,
    bs: Seq<BoxSpec>,
    runs: Map<int, Seq<DomId>>,
    b: int,
    d: DomId,
)
    requires
        0 <= b < bs.len(),
        bs[b].kind == LayoutBox::Block(d),
        0 <= d.index() < nodes.len(),
        has_block(nodes, boxed_children(nodes, d)) ==> {
            let items = block_items(nodes, boxed_children(nodes, d), seq![]);
            &&& child_kinds(bs, b) == items.map_values(|it: LayoutItem| item_box(it))
            &&& forall|k: int|
                0 <= k < items.len() ==> (#[trigger] items[k] matches LayoutItem::Anonymous(run)
                    ==> runs.dom().contains(bs[b].children[k].index()) && runs[bs[b].children[k].index()]
                    == run)
        },
        !has_block(nodes, boxed_children(nodes, d)) ==> child_kinds(bs, b) == inline_boxes(
            boxed_children(nodes, d),
        ),
    ensures
        box_ok(nodes, bs, runs, b),
{
    reveal(box_ok);
}

/// One step of filling an inline box `l` with the boxes of the nodes `c`:
/// the `k`-th node was handed to the builder.
pub proof fn lemma_inline_fill_step(
    nodes: Seq<SpecNode>,
    b1: Seq<BoxSpec>,
    cur: Seq<BoxSpec>,
    next: Seq<BoxSpec>,
    r: Map<int, Seq<DomId>>,
    l: int,
    c: Seq<DomId>,
    k: int,
)
    requires
        boxes_wf(cur),
        extends(b1, cur, l),
        extends(cur, next, l),
        0 <= k < c.len(),
        child_kinds(cur, l) == inline_boxes(boxed(nodes, c.take(k))),
        forall|x: int| l < x < cur.len() ==> box_ok(nodes, cur, r, x),
        forall|x: int| cur.len() <= x < next.len() ==> box_ok(nodes, next, r, x),
        next[l].children == cur[l].children + if creates_box(nodes, c[k]) {
            seq![LayoutId(cur.len() as usize)]
        } else {
            seq![]
        },
        creates_box(nodes, c[k]) ==> next[cur.len() as int].kind == LayoutBox::Inline(c[k])
            && cur.len() < usize::MAX,
    ensures
        extends(b1, next, l),
        child_kinds(next, l) == inline_boxes(boxed(nodes, c.take(k + 1))),
        forall|x: int| l < x < next.len() ==> box_ok(nodes, next, r, x),
{
    lemma_extends_basic(b1, cur, l);
    lemma_extends_trans(b1, cur, next, l, l);
    lemma_boxes_ok_frame(nodes, cur, next, r, r, l, l + 1);
    lemma_boxed_push(nodes, c, k);
    let added = if creates_box(nodes, c[k]) {
        seq![LayoutId(cur.len() as usize)]
    } else {
        seq![]
    };
    lemma_child_kinds_append(cur, next, l, added);
    assert(added.map_values(|x: LayoutId| next[x.index()].kind) =~= if creates_box(nodes, c[k]) {
        seq![LayoutBox::Inline(c[k])]
    } else {
        seq![]
    });
    assert(child_kinds(next, l) =~= inline_boxes(boxed(nodes, c.take(k + 1))));
}

pub proof fn lemma_boxed_push(nodes: Seq<SpecNode>, c: Seq<DomId>, i: int)
    requires
        0 <= i < c.len(),
    ensures
        boxed(nodes, c.take(i + 1)) == if creates_box(nodes, c[i]) {
            boxed(nodes, c.take(i)).push(c[i])
        } else {
            boxed(nodes, c.take(i))
        },
{
    assert(c.take(i + 1).drop_last() =~= c.take(i));
}

/// In a layout tree, the children of a box are all inline or all
/// block-level, and those of an inline box or an anonymous block are all
/// inline.
pub proof fn lemma_children_uniform(
    nodes: Seq<SpecNode>,
    bs: Seq<BoxSpec>,
    runs: Map<int, Seq<DomId>>,
    b: int,
    j: int,
    k: int,
)
    requires
        tree_matches(nodes, bs, runs),
        0 <= b < bs.len(),
        0 <= j < bs[b].children.len(),
        0 <= k < bs[b].children.len(),
    ensures
        (bs[bs[b].children[j].index()].kind is Inline) == (bs[bs[b].children[k].index()].kind is Inline),
        !(bs[b].kind is Block) ==> bs[bs[b].children[j].index()].kind is Inline,
{
    reveal(box_ok);
    assert(box_ok(nodes, bs, runs, b));
    let ck = child_kinds(bs, b);
    assert(ck.len() == bs[b].children.len());
    assert(ck[j] == bs[bs[b].children[j].index()].kind);
    assert(ck[k] == bs[bs[b].children[k].index()].kind);
    match bs[b].kind {
        LayoutBox::Inline(d) => {
            assert(ck == inline_boxes(boxed_children(nodes, d)));
            assert(ck.len() == boxed_children(nodes, d).len());
            assert(ck[j] == LayoutBox::Inline(boxed_children(nodes, d)[j]));
            assert(ck[k] == LayoutBox::Inline(boxed_children(nodes, d)[k]));
        },
        LayoutBox::AnonymousBlock => {
            assert(ck == inline_boxes(runs[b]));
            assert(ck.len() == runs[b].len());
            assert(ck[j] == LayoutBox::Inline(runs[b][j]));
            assert(ck[k] == LayoutBox::Inline(runs[b][k]));
        },
        LayoutBox::Block(d) => {
            if has_block(nodes, boxed_children(nodes, d)) {
                let items = block_items(nodes, boxed_children(nodes, d), seq![]);
                assert(ck == items.map_values(|it: LayoutItem| item_box(it)));
                assert(ck[j] == item_box(items[j]));
                assert(ck[k] == item_box(items[k]));
            } else {
                assert(ck == inline_boxes(boxed_children(nodes, d)));
                assert(ck.len() == boxed_children(nodes, d).len());
                assert(ck[j] == LayoutBox::Inline(boxed_children(nodes, d)[j]));
                assert(ck[k] == LayoutBox::Inline(boxed_children(nodes, d)[k]));
            }
        },
    }
}

/// Every member of `boxed(nodes, c)` gets a box.
pub proof fn lemma_boxed_creates(nodes: Seq<SpecNode>, c: Seq<DomId>)
    ensures
        forall|k: int|
            0 <= k < boxed(nodes, c).len() ==> creates_box(nodes, #[trigger] boxed(nodes, c)[k]),
    decreases c.len(),
{
    if c.len() > 0 {
        let prev = boxed(nodes, c.drop_last());
        lemma_boxed_creates(nodes, c.drop_last());
        assert forall|k: int| 0 <= k < boxed(nodes, c).len() implies creates_box(
            nodes,
            #[trigger] boxed(nodes, c)[k],
        ) by {
            if k < prev.len() {
                assert(boxed(nodes, c)[k] == prev[k]);
            }
        }
    }
}

/// The block items of `c` after `run`: each block is a member of `c`, and
/// each run holds members of `run` or of `c`.
pub proof fn lemma_block_items_members(nodes: Seq<SpecNode>, c: Seq<DomId>, run: Seq<DomId>)
    ensures
        forall|k: int|
            0 <= k < block_items(nodes, c, run).len() ==> match #[trigger] block_items(
                nodes,
                c,
                run,
            )[k] {
                LayoutItem::Block(d) => c.contains(d),
                LayoutItem::Anonymous(r) => forall|m: int|
                    0 <= m < r.len() ==> run.contains(#[trigger] r[m]) || c.contains(r[m]),
            },
    decreases c.len(),
{
    let items = block_items(nodes, c, run);
    if c.len() == 0 {
        assert forall|k: int| 0 <= k < items.len() implies match #[trigger] items[k] {
            LayoutItem::Block(d) => c.contains(d),
            LayoutItem::Anonymous(r) => forall|m: int|
                0 <= m < r.len() ==> run.contains(#[trigger] r[m]) || c.contains(r[m]),
        } by {
            assert(items[k] == LayoutItem::Anonymous(run));
            assert forall|m: int| 0 <= m < run.len() implies run.contains(#[trigger] run[m]) by {}
        }
    } else {
        let rest = c.drop_first();
        if block_dom(nodes, c[0]) {
            lemma_block_items_members(nodes, rest, seq![]);
            let fl = flush_items(nodes, run);
            let tail = block_items(nodes, rest, seq![]);
            assert(items == fl + seq![LayoutItem::Block(c[0])] + tail);
            assert forall|k: int| 0 <= k < items.len() implies match #[trigger] items[k] {
                LayoutItem::Block(d) => c.contains(d),
                LayoutItem::Anonymous(r) => forall|m: int|
                    0 <= m < r.len() ==> run.contains(#[trigger] r[m]) || c.contains(r[m]),
            } by {
                if k < fl.len() {
                    assert(items[k] == LayoutItem::Anonymous(run));
                    assert forall|m: int| 0 <= m < run.len() implies run.contains(
                        #[trigger] run[m],
                    ) by {}
                } else if k == fl.len() {
                    assert(items[k] == LayoutItem::Block(c[0]));
                } else {
                    let k2 = k - fl.len() - 1;
                    assert(items[k] == tail[k2]);
                    match tail[k2] {
                        LayoutItem::Block(d) => {
                            let j = choose|j: int| 0 <= j < rest.len() && rest[j] == d;
                            assert(c[j + 1] == d);
                        },
                        LayoutItem::Anonymous(r) => {
                            assert forall|m: int| 0 <= m < r.len() implies run.contains(
                                #[trigger] r[m],
                            ) || c.contains(r[m]) by {
                                assert(seq![].contains(r[m]) || rest.contains(r[m]));
                                let j = choose|j: int| 0 <= j < rest.len() && rest[j] == r[m];
                                assert(c[j + 1] == r[m]);
                            }
                        },
                    }
                }
            }
        } else {
            let run2 = run.push(c[0]);
            lemma_block_items_members(nodes, rest, run2);
            assert(items == block_items(nodes, rest, run2));
            assert forall|k: int| 0 <= k < items.len() implies match #[trigger] items[k] {
                LayoutItem::Block(d) => c.contains(d),
                LayoutItem::Anonymous(r) => forall|m: int|
                    0 <= m < r.len() ==> run.contains(#[trigger] r[m]) || c.contains(r[m]),
            } by {
                match items[k] {
                    LayoutItem::Block(d) => {
                        let j = choose|j: int| 0 <= j < rest.len() && rest[j] == d;
                        assert(c[j + 1] == d);
                    },
                    LayoutItem::Anonymous(r) => {
                        assert forall|m: int| 0 <= m < r.len() implies run.contains(
                            #[trigger] r[m],
                        ) || c.contains(r[m]) by {
                            if run2.contains(r[m]) {
                                let j = choose|j: int| 0 <= j < run2.len() && run2[j] == r[m];
                                if j < run.len() {
                                    assert(run[j] == r[m]);
                                } else {
                                    assert(c[0] == r[m]);
                                }
                            } else {
                                let j = choose|j: int| 0 <= j < rest.len() && rest[j] == r[m];
                                assert(c[j + 1] == r[m]);
                            }
                        }
                    },
                }
            }
        }
    }
}

/// Only drawn nodes get boxes: every box below the root stands for a node
/// that gets one (so never for a hidden element or empty text), and every
/// anonymous block holds only such nodes.
pub proof fn lemma_boxes_are_drawn(
    nodes: Seq<SpecNode>,
    bs: Seq<BoxSpec>,
    runs: Map<int, Seq<DomId>>,
    x: int,
)
    requires
        tree_matches(nodes, bs, runs),
        1 <= x < bs.len(),
    ensures
        match bs[x].kind {
            LayoutBox::Block(d) => creates_box(nodes, d),
            LayoutBox::Inline(d) => creates_box(nodes, d),
            LayoutBox::AnonymousBlock => runs.dom().contains(x) && forall|m: int|
                0 <= m < runs[x].len() ==> creates_box(nodes, #[trigger] runs[x][m]),
        },
        bs[x].kind matches LayoutBox::Block(d) ==> (nodes[d.index()].kind matches SpecKind::Tag {
            tag,
            ..
        } ==> !tag.spec_is_hidden()),
        bs[x].kind matches LayoutBox::Inline(d) ==> (nodes[d.index()].kind matches SpecKind::Tag {
            tag,
            ..
        } ==> !tag.spec_is_hidden()),
    decreases x,
{
    reveal(boxes_wf);
    reveal(box_ok);
    let p = bs[x].parent.unwrap().index();
    let j = choose|j: int| 0 <= j < bs[p].children.len() && bs[p].children[j] == LayoutId(x as usize);
    assert(box_ok(nodes, bs, runs, p));
    let ck = child_kinds(bs, p);
    assert(ck.len() == bs[p].children.len());
    assert(ck[j] == bs[x].kind);
    match bs[p].kind {
        LayoutBox::Inline(d) => {
            lemma_boxed_creates(nodes, kind_children(nodes[d.index()].kind));
            assert(ck == inline_boxes(boxed_children(nodes, d)));
            assert(ck[j] == LayoutBox::Inline(boxed_children(nodes, d)[j]));
        },
        LayoutBox::AnonymousBlock => {
            assert(ck == inline_boxes(runs[p]));
            assert(ck[j] == LayoutBox::Inline(runs[p][j]));
            lemma_boxes_are_drawn(nodes, bs, runs, p);
        },
        LayoutBox::Block(d) => {
            let c = boxed_children(nodes, d);
            lemma_boxed_creates(nodes, kind_children(nodes[d.index()].kind));
            if has_block(nodes, c) {
                let items = block_items(nodes, c, seq![]);
                lemma_block_items_members(nodes, c, seq![]);
                assert(ck == items.map_values(|it: LayoutItem| item_box(it)));
                assert(ck[j] == item_box(items[j]));
                match items[j] {
                    LayoutItem::Block(e) => {
                        let i = choose|i: int| 0 <= i < c.len() && c[i] == e;
                        assert(creates_box(nodes, c[i]));
                    },
                    LayoutItem::Anonymous(r) => {
                        assert(runs.dom().contains(x) && runs[x] == r);
                        assert forall|m: int| 0 <= m < r.len() implies creates_box(
                            nodes,
                            #[trigger] r[m],
                        ) by {
                            assert(!seq![].contains(r[m]));
                            let i = choose|i: int| 0 <= i < c.len() && c[i] == r[m];
                            assert(creates_box(nodes, c[i]));
                        }
                    },
                }
            } else {
                assert(ck == inline_boxes(c));
                assert(ck[j] == LayoutBox::Inline(c[j]));
            }
        },
    }
    reveal(creates_box);
}

} // verus!

verus! {

/// A box of the tree.
#[derive(Debug)]
pub struct LayoutNode {
    kind: LayoutBox,
    parent: Option<LayoutId>,
    previous: Option<LayoutId>,
    children: Vec<LayoutId>,
}

spec fn node_box(n: LayoutNode) -> BoxSpec {
    BoxSpec { kind: n.kind, parent: n.parent, previous: n.previous, children: n.children@ }
}

impl LayoutNode {
    fn root(dom: DomId) -> (r: Self)
        ensures
            node_box(r) == (BoxSpec {
                kind: LayoutBox::Block(dom),
                parent: None,
                previous: None,
                children: seq![],
            }),
    {
        Self::new(LayoutBox::Block(dom), None, None)
    }

    fn new(kind: LayoutBox, parent: Option<LayoutId>, previous: Option<LayoutId>) -> (r: Self)
        ensures
            node_box(r) == (BoxSpec { kind, parent, previous, children: seq![] }),
    {
        LayoutNode { kind, parent, previous, children: Vec::new() }
    }
}

/// The boxes of a layout, indexed by `LayoutId`.
#[derive(Debug)]
pub struct LayoutTree {
    nodes: Vec<LayoutNode>,
}

impl LayoutTree {
    pub closed spec fn boxes(&self) -> Seq<BoxSpec> {
        self.nodes@.map_values(|n: LayoutNode| node_box(n))
    }

    pub open spec fn valid(&self, id: LayoutId) -> bool {
        0 <= id.index() < self.boxes().len()
    }

    /// A tree holding only a block box for `root`.
    pub fn new(root: DomId) -> (r: Self)
        ensures
            r.boxes() == seq![
                BoxSpec {
                    kind: LayoutBox::Block(root),
                    parent: None,
                    previous: None,
                    children: seq![],
                },
            ],
    {
        let r = LayoutTree { nodes: vec![LayoutNode::root(root)] };
        assert(r.boxes() =~= seq![
            BoxSpec { kind: LayoutBox::Block(root), parent: None, previous: None, children: seq![] },
        ]);
        r
    }

    pub fn root(&self) -> (r: LayoutId)
        ensures
            r.index() == 0,
    {
        LayoutId(0)
    }

    /// Adds a box of kind `kind` as the last child of `parent`.
    pub fn push(&mut self, parent: LayoutId, kind: LayoutBox) -> (r: LayoutId)
        requires
            old(self).valid(parent),
        ensures
            old(self).boxes().len() < usize::MAX,
            final(self).boxes() == push_box(old(self).boxes(), parent, kind),
            r == LayoutId(old(self).boxes().len() as usize),
    {
        let id = LayoutId(self.nodes.len());
        let ghost before = self.nodes@;
        assert(node_box(before[parent.index()]) == self.boxes()[parent.index()]);
        let previous = match self.nodes[parent.0].children.last() {
            Some(last) => Some(*last),
            None => None,
        };
        self.nodes.push(LayoutNode::new(kind, Some(parent), previous));
        assert(self.nodes.len() == before.len() + 1);
        self.nodes[parent.0].children.push(id);
        proof {
            let expect = push_box(before.map_values(|n: LayoutNode| node_box(n)), parent, kind);
            assert(self.boxes() =~= expect) by {
                assert forall|i: int| 0 <= i < expect.len() implies self.boxes()[i]
                    == #[trigger] expect[i] by {
                    if i < before.len() && i != parent.index() {
                        assert(self.nodes@[i] == before[i]);
                    }
                }
            }
        }
        id
    }

    /// The children of a box, in order.
    pub fn children(&self, parent: LayoutId) -> (r: &[LayoutId])
        requires
            self.valid(parent),
        ensures
            r@ == self.boxes()[parent.index()].children,
    {
        self.nodes[parent.0].children.as_slice()
    }

    pub fn kind(&self, id: LayoutId) -> (r: LayoutBox)
        requires
            self.valid(id),
        ensures
            r == self.boxes()[id.index()].kind,
    {
        self.nodes[id.0].kind
    }

    pub fn parent(&self, id: LayoutId) -> (r: Option<LayoutId>)
        requires
            self.valid(id),
        ensures
            r == self.boxes()[id.index()].parent,
    {
        self.nodes[id.0].parent
    }

    /// The sibling laid out just before `id`.
    pub fn previous(&self, id: LayoutId) -> (r: Option<LayoutId>)
        requires
            self.valid(id),
        ensures
            r == self.boxes()[id.index()].previous,
    {
        self.nodes[id.0].previous
    }

    pub fn len(&self) -> (r: usize)
        ensures
            r == self.boxes().len(),
    {
        self.nodes.len()
    }
}

/// Whether `dom` gets a box.
pub fn should_create_layout_node(document: &Document, dom: DomId) -> (r: bool)
    requires
        document.valid(dom),
    ensures
        r == creates_box(document.nodes(), dom),
    decreases document.nodes().len() - dom.index(),
{
    document.lemma_wf();
    let ghost nodes = document.nodes();
    reveal(creates_box);
    match document.view(dom) {
        NodeView::Document { children } => {
            let mut i: usize = 0;
            while i < children.len()
                invariant
                    nodes == document.nodes(),
                    wf_tree(nodes),
                    document.valid(dom),
                    children@ == kind_children(nodes[dom.index()].kind),
                    nodes[dom.index()].kind is Document,
                    i <= children@.len(),
                    forall|j: int| 0 <= j < i ==> !shows(#[trigger] nodes[children@[j].index()].kind),
                decreases children.len() - i,
            {
                reveal(creates_box);
                let c = children[i];
                assert(kind_children(nodes[dom.index()].kind)[i as int] == c);
                if should_create_layout_node(document, c) {
                    return true;
                }
                i += 1;
            }
            false
        },
        NodeView::Tag { tag, .. } => !tag.is_hidden(),
        NodeView::Text(text) => !text.is_empty(),
    }
}

/// Whether `dom` is text with nothing but whitespace.
pub fn is_whitespace_text(document: &Document, dom: DomId) -> (r: bool)
    requires
        document.valid(dom),
    ensures
        r == blank_text(document.nodes(), dom),
{
    match document.view(dom) {
        NodeView::Text(text) => {
            let cs = chars_of(text);
            let t = trim_exec(cs.as_slice());
            t.len() == 0
        },
        _ => false,
    }
}

/// Whether `dom` is a block element.
pub fn is_block_node(document: &Document, dom: DomId) -> (r: bool)
    requires
        document.valid(dom),
    ensures
        r == block_dom(document.nodes(), dom),
{
    match document.view(dom) {
        NodeView::Tag { tag, .. } => tag.is_block(),
        _ => false,
    }
}

/// Builds the layout tree of a document.
pub struct LayoutBuilder<'a> {
    document: &'a Document,
    tree: LayoutTree,
    runs: Ghost<Map<int, Seq<DomId>>>,
}

impl<'a> LayoutBuilder<'a> {
    pub closed spec fn doc_nodes(&self) -> Seq<SpecNode> {
        self.document.nodes()
    }

    pub closed spec fn boxes(&self) -> Seq<BoxSpec> {
        self.tree.boxes()
    }

    /// The run of inline nodes each anonymous block stands for.
    pub closed spec fn runs(&self) -> Map<int, Seq<DomId>> {
        self.runs@
    }

    pub open spec fn inv(&self) -> bool {
        builder_inv(self.doc_nodes(), self.boxes(), self.runs())
    }

    /// A builder whose tree holds only a block box for the document node.
    pub fn new(document: &'a Document) -> (r: Self)
        ensures
            r.inv(),
            r.doc_nodes() == document.nodes(),
            r.boxes() == seq![
                BoxSpec {
                    kind: LayoutBox::Block(DomId(0)),
                    parent: None,
                    previous: None,
                    children: seq![],
                },
            ],
            r.runs() == Map::<int, Seq<DomId>>::empty(),
    {
        document.lemma_wf();
        let root = document.root();
        let r = LayoutBuilder { document, tree: LayoutTree::new(root), runs: Ghost(Map::empty()) };
        proof {
            reveal(boxes_wf);
            reveal(doms_valid);
            assert(root == DomId(0));
            let bs = r.boxes();
            assert(bs[0].kind == LayoutBox::Block(DomId(0)));
            lemma_builder_inv(r.doc_nodes(), bs, r.runs());
        }
        r
    }

    pub fn tree(&self) -> (r: &LayoutTree)
        ensures
            r.boxes() == self.boxes(),
    {
        &self.tree
    }

    pub fn into_tree(self) -> (r: LayoutTree)
        ensures
            r.boxes() == self.boxes(),
    {
        self.tree
    }

    /// The box `id` holds inline boxes (its first child is one).
    pub fn has_inline_children(&self, id: LayoutId) -> (r: bool)
        requires
            0 <= id.index() < self.boxes().len(),
            boxes_wf(self.boxes()),
        ensures
            r == (self.boxes()[id.index()].children.len() > 0 && self.boxes()[self.boxes()[
                id.index()].children[0].index()].kind is Inline),
    {
        proof {
            reveal(boxes_wf);
        }
        let children = self.tree.children(id);
        if children.len() == 0 {
            return false;
        }
        let first = children[0];
        assert(self.boxes()[id.index()].children[0] == first);
        match self.tree.kind(first) {
            LayoutBox::Inline(_) => true,
            _ => false,
        }
    }

    /// The box `id` is a block box for a list item.
    pub fn is_list_item(&self, id: LayoutId) -> (r: bool)
        requires
            0 <= id.index() < self.boxes().len(),
            doms_valid(self.doc_nodes(), self.boxes()),
        ensures
            r == (self.boxes()[id.index()].kind matches LayoutBox::Block(d)
                && self.doc_nodes()[d.index()].kind matches SpecKind::Tag { tag, .. } && tag
                == Tag::Li),
    {
        proof {
            lemma_doms_valid_at(self.doc_nodes(), self.boxes(), id.index());
        }
        match self.tree.kind(id) {
            LayoutBox::Block(dom) => match self.document.tag(dom) {
                Some(t) => t == Tag::Li,
                None => false,
            },
            _ => false,
        }
    }

    /// Adds a box for `dom` under `parent`, and boxes for its descendants
    /// under it, if `dom` gets one.
    fn build_inline_node(&mut self, parent: LayoutId, dom: DomId)
        requires
            old(self).inv(),
            0 <= parent.index() < old(self).boxes().len(),
            0 <= dom.index() < old(self).doc_nodes().len(),
        ensures
            final(self).inv(),
            final(self).doc_nodes() == old(self).doc_nodes(),
            final(self).runs() == old(self).runs(),
            extends(old(self).boxes(), final(self).boxes(), parent.index()),
            final(self).boxes()[parent.index()].children == old(self).boxes()[parent.index()].children
                + if creates_box(old(self).doc_nodes(), dom) {
                seq![LayoutId(old(self).boxes().len() as usize)]
            } else {
                seq![]
            },
            creates_box(old(self).doc_nodes(), dom) ==> final(self).boxes()[old(
                self,
            ).boxes().len() as int].kind == LayoutBox::Inline(dom) && old(self).boxes().len()
                < usize::MAX,
            forall|x: int|
                old(self).boxes().len() <= x < final(self).boxes().len() ==> box_ok(
                    final(self).doc_nodes(),
                    final(self).boxes(),
                    final(self).runs(),
                    x,
                ),
        decreases old(self).doc_nodes().len() - dom.index(),
    {
        let document = self.document;
        let ghost nodes = self.doc_nodes();
        let ghost b0 = self.boxes();
        let ghost r0 = self.runs();
        proof {
            lemma_builder_inv(nodes, b0, r0);
        }
        if !should_create_layout_node(document, dom) {
            proof {
                lemma_extends_refl(b0, parent.index());
                assert(b0[parent.index()].children + seq![] =~= b0[parent.index()].children);
            }
            return ;
        }
        let layout = self.tree.push(parent, LayoutBox::Inline(dom));
        proof {
            lemma_push_box_wf(b0, parent, LayoutBox::Inline(dom));
            lemma_push_box_valid(nodes, r0, b0, parent, LayoutBox::Inline(dom));
            lemma_builder_inv(nodes, self.boxes(), r0);
        }
        let ghost b1 = self.boxes();
        let ghost l = layout.index();
        let children = document.children(dom);
        let mut k: usize = 0;
        proof {
            assert forall|j: int| 0 <= j < children@.len() implies dom.index() < (
            #[trigger] children@[j]).index() < nodes.len() by {
                assert(kind_children(nodes[dom.index()].kind)[j] == children@[j]);
            }
            lemma_extends_refl(b1, l);
            assert(children@.take(0) =~= Seq::<DomId>::empty());
            assert(child_kinds(b1, l) =~= Seq::<LayoutBox>::empty());
            assert(inline_boxes(boxed(nodes, children@.take(0))) =~= Seq::<LayoutBox>::empty());
        }
        while k < children.len()
            invariant
                self.inv(),
                self.doc_nodes() == nodes,
                self.runs() == r0,
                nodes == document.nodes(),
                nodes == old(self).doc_nodes(),
                forall|j: int|
                    0 <= j < children@.len() ==> dom.index() < (#[trigger] children@[j]).index()
                        < nodes.len(),
                children@ == kind_children(nodes[dom.index()].kind),
                0 <= dom.index() < nodes.len(),
                l == layout.index(),
                l == b0.len(),
                b1.len() == b0.len() + 1,
                b1[l].kind == LayoutBox::Inline(dom),
                extends(b1, self.boxes(), l),
                k <= children@.len(),
                child_kinds(self.boxes(), l) == inline_boxes(boxed(nodes, children@.take(k as int))),
                forall|x: int| l < x < self.boxes().len() ==> box_ok(nodes, self.boxes(), r0, x),
            decreases children.len() - k,
        {
            let child = children[k];
            let ghost cur = self.boxes();
            proof {
                lemma_extends_basic(b1, cur, l);
                lemma_builder_inv_boxes(nodes, cur, r0);
            }
            self.build_inline_node(layout, child);
            let ghost next = self.boxes();
            proof {
                lemma_inline_fill_step(nodes, b1, cur, next, r0, l, children@, k as int);
            }
            k += 1;
        }
        proof {
            let cur = self.boxes();
            assert(children@.take(children@.len() as int) =~= children@);
            lemma_extends_basic(b1, cur, l);
            lemma_inline_box_ok(nodes, cur, r0, l, dom);
            lemma_extends_trans(b0, b1, cur, parent.index(), l);
            lemma_extends_at(b1, cur, l, parent.index());
            assert(b1[parent.index()].children =~= b0[parent.index()].children + seq![layout]);
        }
    }

    /// Adds an anonymous block under `parent` for the nodes of `inline_run`
    /// unless they are all blank text, and empties `inline_run`.
    fn flush_anonymous_block(&mut self, parent: LayoutId, inline_run: &mut Vec<DomId>)
        requires
            old(self).inv(),
            0 <= parent.index() < old(self).boxes().len(),
            forall|k: int|
                0 <= k < old(inline_run)@.len() ==> 0 <= (#[trigger] old(inline_run)@[k]).index()
                    < old(self).doc_nodes().len() && creates_box(
                    old(self).doc_nodes(),
                    old(inline_run)@[k],
                ),
        ensures
            final(self).inv(),
            final(inline_run)@ == Seq::<DomId>::empty(),
            final(self).doc_nodes() == old(self).doc_nodes(),
            runs_extend(old(self).runs(), final(self).runs()),
            extends(old(self).boxes(), final(self).boxes(), parent.index()),
            final(self).boxes()[parent.index()].children == old(self).boxes()[parent.index()].children
                + if all_blank(old(self).doc_nodes(), old(inline_run)@) {
                seq![]
            } else {
                seq![LayoutId(old(self).boxes().len() as usize)]
            },
            !all_blank(old(self).doc_nodes(), old(inline_run)@) ==> {
                &&& final(self).boxes()[old(self).boxes().len() as int].kind
                    == LayoutBox::AnonymousBlock
                &&& final(self).runs().dom().contains(old(self).boxes().len() as int)
                &&& final(self).runs()[old(self).boxes().len() as int] == old(inline_run)@
                &&& old(self).boxes().len() < usize::MAX
            },
            forall|x: int|
                old(self).boxes().len() <= x < final(self).boxes().len() ==> box_ok(
                    final(self).doc_nodes(),
                    final(self).boxes(),
                    final(self).runs(),
                    x,
                ),
    {
        let document = self.document;
        let ghost nodes = self.doc_nodes();
        let ghost b0 = self.boxes();
        let ghost r0 = self.runs();
        let ghost run = inline_run@;
        proof {
            lemma_builder_inv(nodes, b0, r0);
        }
        let mut blank = true;
        let mut i: usize = 0;
        while i < inline_run.len()
            invariant
                inline_run@ == run,
                nodes == document.nodes(),
                i <= run.len(),
                forall|k: int|
                    0 <= k < run.len() ==> 0 <= (#[trigger] run[k]).index() < nodes.len(),
                blank == forall|k: int| 0 <= k < i ==> blank_text(nodes, #[trigger] run[k]),
            decreases inline_run.len() - i,
        {
            if !is_whitespace_text(document, inline_run[i]) {
                blank = false;
            }
            i += 1;
        }
        if blank {
            inline_run.clear();
            proof {
                lemma_extends_refl(b0, parent.index());
                assert(b0[parent.index()].children + seq![] =~= b0[parent.index()].children);
            }
            return ;
        }
        let anonymous = self.tree.push(parent, LayoutBox::AnonymousBlock);
        proof {
            lemma_push_box_wf(b0, parent, LayoutBox::AnonymousBlock);
            lemma_push_box_valid(nodes, r0, b0, parent, LayoutBox::AnonymousBlock);
        }
        let ghost a = anonymous.index();
        self.runs = Ghost(self.runs@.insert(a, run));
        let ghost b1 = self.boxes();
        let ghost r1 = self.runs();
        let mut k: usize = 0;
        proof {
            assert(runs_bounded(r1, b1));
            lemma_builder_inv(nodes, b1, r1);
            lemma_extends_refl(b1, a);
            assert(run.take(0) =~= Seq::<DomId>::empty());
            assert(child_kinds(b1, a) =~= Seq::<LayoutBox>::empty());
            assert(inline_boxes(run.take(0)) =~= Seq::<LayoutBox>::empty());
        }
        while k < inline_run.len()
            invariant
                self.inv(),
                self.doc_nodes() == nodes,
                self.runs() == r1,
                r1.dom().contains(a),
                r1[a] == run,
                runs_extend(r0, r1),
                inline_run@ == run,
                nodes == document.nodes(),
                forall|j: int|
                    0 <= j < run.len() ==> 0 <= (#[trigger] run[j]).index() < nodes.len()
                        && creates_box(nodes, run[j]),
                a == anonymous.index(),
                a == b0.len(),
                b1.len() == b0.len() + 1,
                b1[a].kind == LayoutBox::AnonymousBlock,
                extends(b1, self.boxes(), a),
                k <= run.len(),
                child_kinds(self.boxes(), a) == inline_boxes(run.take(k as int)),
                forall|x: int| a < x < self.boxes().len() ==> box_ok(nodes, self.boxes(), r1, x),
            decreases inline_run.len() - k,
        {
            let child = inline_run[k];
            let ghost cur = self.boxes();
            proof {
                lemma_extends_basic(b1, cur, a);
                lemma_builder_inv_boxes(nodes, cur, r1);
            }
            self.build_inline_node(anonymous, child);
            let ghost next = self.boxes();
            proof {
                lemma_extends_trans(b1, cur, next, a, a);
                lemma_boxes_ok_frame(nodes, cur, next, r1, r1, a, a + 1);
                lemma_child_kinds_append(cur, next, a, seq![LayoutId(cur.len() as usize)]);
                assert(seq![LayoutId(cur.len() as usize)].map_values(
                    |c: LayoutId| next[c.index()].kind,
                ) =~= seq![LayoutBox::Inline(child)]);
                assert(run.take(k + 1) =~= run.take(k as int).push(child));
                assert(child_kinds(next, a) =~= inline_boxes(run.take(k + 1)));
            }
            k += 1;
        }
        inline_run.clear();
        proof {
            let cur = self.boxes();
            assert(run.take(run.len() as int) =~= run);
            lemma_extends_basic(b1, cur, a);
            lemma_anonymous_box_ok(nodes, cur, r1, a);
            lemma_extends_trans(b0, b1, cur, parent.index(), a);
            lemma_extends_at(b1, cur, a, parent.index());
            assert(b1[parent.index()].children =~= b0[parent.index()].children + seq![anonymous]);
        }
    }

    /// Fills the block box `parent`, which has no children yet, with boxes
    /// for its node's children; nothing happens for other boxes.
    #[verifier::rlimit(50)]
    pub fn build_children(&mut self, parent: LayoutId)
        requires
            old(self).inv(),
            0 <= parent.index() < old(self).boxes().len(),
            old(self).boxes()[parent.index()].children.len() == 0,
        ensures
            final(self).inv(),
            final(self).doc_nodes() == old(self).doc_nodes(),
            runs_extend(old(self).runs(), final(self).runs()),
            extends(old(self).boxes(), final(self).boxes(), parent.index()),
            old(self).boxes()[parent.index()].kind is Block ==> box_ok(
                final(self).doc_nodes(),
                final(self).boxes(),
                final(self).runs(),
                parent.index(),
            ),
            forall|x: int|
                old(self).boxes().len() <= x < final(self).boxes().len() ==> box_ok(
                    final(self).doc_nodes(),
                    final(self).boxes(),
                    final(self).runs(),
                    x,
                ),
        decreases old(self).doc_nodes().len() - match old(self).boxes()[parent.index()].kind {
            LayoutBox::Block(d) => d.index(),
            _ => 0,
        },
    {
        let document = self.document;
        let ghost nodes = self.doc_nodes();
        let ghost b0 = self.boxes();
        let ghost r0 = self.runs();
        let ghost p = parent.index();
        proof {
            lemma_builder_inv(nodes, b0, r0);
            lemma_extends_refl(b0, p);
            lemma_doms_valid_at(nodes, b0, p);
        }
        let dom_parent = match self.tree.kind(parent) {
            LayoutBox::Block(d) => d,
            _ => {
                return ;
            },
        };
        let all_children = document.children(dom_parent);
        let mut children: Vec<DomId> = Vec::new();
        let mut i: usize = 0;
        assert(all_children@.take(0) =~= Seq::<DomId>::empty());
        while i < all_children.len()
            invariant
                nodes == document.nodes(),
                wf_tree(nodes),
                0 <= dom_parent.index() < nodes.len(),
                all_children@ == kind_children(nodes[dom_parent.index()].kind),
                i <= all_children@.len(),
                children@ == boxed(nodes, all_children@.take(i as int)),
            decreases all_children.len() - i,
        {
            let c = all_children[i];
            proof {
                assert(kind_children(nodes[dom_parent.index()].kind)[i as int] == c);
                lemma_boxed_push(nodes, all_children@, i as int);
            }
            if should_create_layout_node(document, c) {
                children.push(c);
            }
            i += 1;
        }
        assert(all_children@.take(all_children@.len() as int) =~= all_children@);
        let ghost cs = children@;
        assert(cs == boxed_children(nodes, dom_parent));
        proof {
            lemma_boxed_members(nodes, all_children@, dom_parent);
        }
        let mut all_inline = true;
        let mut i: usize = 0;
        while i < children.len()
            invariant
                nodes == document.nodes(),
                children@ == cs,
                forall|k: int| 0 <= k < cs.len() ==> 0 <= (#[trigger] cs[k]).index() < nodes.len(),
                i <= cs.len(),
                all_inline == !(exists|k: int| 0 <= k < i && block_dom(nodes, #[trigger] cs[k])),
            decreases children.len() - i,
        {
            if is_block_node(document, children[i]) {
                all_inline = false;
            }
            i += 1;
        }
        if all_inline {
            self.build_inline_children(parent, children.as_slice());
            proof {
                let next = self.boxes();
                assert(cs.take(cs.len() as int) =~= cs);
                lemma_extends_basic(b0, next, p);
                lemma_block_box_ok(nodes, next, self.runs(), p, dom_parent);
            }
            return ;
        }
        self.build_block_children(parent, dom_parent, children.as_slice());
    }

    /// Adds an inline box under `parent` for each node of `children`.
    fn build_inline_children(&mut self, parent: LayoutId, children: &[DomId])
        requires
            old(self).inv(),
            0 <= parent.index() < old(self).boxes().len(),
            forall|j: int|
                0 <= j < children@.len() ==> 0 <= (#[trigger] children@[j]).index() < old(
                    self,
                ).doc_nodes().len() && creates_box(old(self).doc_nodes(), children@[j]),
        ensures
            final(self).inv(),
            final(self).doc_nodes() == old(self).doc_nodes(),
            final(self).runs() == old(self).runs(),
            extends(old(self).boxes(), final(self).boxes(), parent.index()),
            child_kinds(final(self).boxes(), parent.index()) == child_kinds(
                old(self).boxes(),
                parent.index(),
            ) + inline_boxes(children@),
            forall|x: int|
                old(self).boxes().len() <= x < final(self).boxes().len() ==> box_ok(
                    final(self).doc_nodes(),
                    final(self).boxes(),
                    final(self).runs(),
                    x,
                ),
    {
        let ghost nodes = self.doc_nodes();
        let ghost b0 = self.boxes();
        let ghost r0 = self.runs();
        let ghost p = parent.index();
        let mut k: usize = 0;
        proof {
            lemma_extends_refl(b0, p);
            assert(children@.take(0) =~= Seq::<DomId>::empty());
            assert(child_kinds(b0, p) + inline_boxes(children@.take(0)) =~= child_kinds(b0, p));
        }
        while k < children.len()
            invariant
                self.inv(),
                self.doc_nodes() == nodes,
                self.runs() == r0,
                forall|j: int|
                    0 <= j < children@.len() ==> 0 <= (#[trigger] children@[j]).index()
                        < nodes.len() && creates_box(nodes, children@[j]),
                p == parent.index(),
                0 <= p < b0.len(),
                extends(b0, self.boxes(), p),
                k <= children@.len(),
                child_kinds(self.boxes(), p) == child_kinds(b0, p) + inline_boxes(
                    children@.take(k as int),
                ),
                forall|x: int| b0.len() <= x < self.boxes().len() ==> box_ok(nodes, self.boxes(), r0, x),
            decreases children.len() - k,
        {
            let child = children[k];
            let ghost cur = self.boxes();
            proof {
                lemma_extends_basic(b0, cur, p);
                lemma_builder_inv_boxes(nodes, cur, r0);
            }
            self.build_inline_node(parent, child);
            let ghost next = self.boxes();
            proof {
                lemma_extends_trans(b0, cur, next, p, p);
                lemma_boxes_ok_frame(nodes, cur, next, r0, r0, p, b0.len() as int);
                lemma_child_kinds_append(cur, next, p, seq![LayoutId(cur.len() as usize)]);
                assert(seq![LayoutId(cur.len() as usize)].map_values(
                    |c: LayoutId| next[c.index()].kind,
                ) =~= seq![LayoutBox::Inline(child)]);
                assert(children@.take(k + 1) =~= children@.take(k as int).push(child));
                assert(child_kinds(next, p) =~= child_kinds(b0, p) + inline_boxes(
                    children@.take(k + 1),
                ));
            }
            k += 1;
        }
        assert(children@.take(children@.len() as int) =~= children@);
    }

    /// Fills the block box `parent` for its boxed children `children`, at
    /// least one of which is a block: block boxes for those, anonymous
    /// blocks for the runs between them.
    #[verifier::rlimit(50)]
    fn build_block_children(&mut self, parent: LayoutId, dom_parent: DomId, children: &[DomId])
        requires
            old(self).inv(),
            0 <= parent.index() < old(self).boxes().len(),
            old(self).boxes()[parent.index()].children.len() == 0,
            old(self).boxes()[parent.index()].kind == LayoutBox::Block(dom_parent),
            0 <= dom_parent.index() < old(self).doc_nodes().len(),
            children@ == boxed_children(old(self).doc_nodes(), dom_parent),
            has_block(old(self).doc_nodes(), children@),
            forall|j: int|
                0 <= j < children@.len() ==> dom_parent.index() < (#[trigger] children@[j]).index()
                    < old(self).doc_nodes().len() && creates_box(old(self).doc_nodes(), children@[j]),
        ensures
            final(self).inv(),
            final(self).doc_nodes() == old(self).doc_nodes(),
            runs_extend(old(self).runs(), final(self).runs()),
            extends(old(self).boxes(), final(self).boxes(), parent.index()),
            box_ok(final(self).doc_nodes(), final(self).boxes(), final(self).runs(), parent.index()),
            forall|x: int|
                old(self).boxes().len() <= x < final(self).boxes().len() ==> box_ok(
                    final(self).doc_nodes(),
                    final(self).boxes(),
                    final(self).runs(),
                    x,
                ),
        decreases old(self).doc_nodes().len() - dom_parent.index(), 0nat,
    {
        let document = self.document;
        let ghost nodes = self.doc_nodes();
        let ghost b0 = self.boxes();
        let ghost r0 = self.runs();
        let ghost p = parent.index();
        let ghost cs = children@;
        let mut inline_run: Vec<DomId> = Vec::new();
        let ghost mut done: Seq<LayoutItem> = seq![];
        let mut k: usize = 0;
        proof {
            lemma_extends_refl(b0, p);
            assert(cs.skip(0) =~= cs);
            assert(child_kinds(b0, p) =~= Seq::<LayoutBox>::empty());
            assert(done.map_values(|it: LayoutItem| item_box(it)) =~= Seq::<LayoutBox>::empty());
            assert(done + block_items(nodes, cs.skip(0), inline_run@) =~= block_items(
                nodes,
                cs,
                seq![],
            ));
        }
        while k < children.len()
            invariant
                self.inv(),
                self.doc_nodes() == nodes,
                nodes == document.nodes(),
                nodes == old(self).doc_nodes(),
                children@ == cs,
                forall|j: int|
                    0 <= j < cs.len() ==> dom_parent.index() < (#[trigger] cs[j]).index()
                        < nodes.len() && creates_box(nodes, cs[j]),
                forall|j: int|
                    0 <= j < inline_run@.len() ==> 0 <= (#[trigger] inline_run@[j]).index()
                        < nodes.len() && creates_box(nodes, inline_run@[j]),
                p == parent.index(),
                0 <= p < b0.len(),
                runs_extend(r0, self.runs()),
                extends(b0, self.boxes(), p),
                k <= cs.len(),
                block_items(nodes, cs, seq![]) == done + block_items(
                    nodes,
                    cs.skip(k as int),
                    inline_run@,
                ),
                child_kinds(self.boxes(), p) == done.map_values(|it: LayoutItem| item_box(it)),
                self.boxes()[p].children.len() == done.len(),
                forall|j: int|
                    0 <= j < done.len() ==> (#[trigger] done[j] matches LayoutItem::Anonymous(run)
                        ==> self.runs().dom().contains(self.boxes()[p].children[j].index())
                        && self.runs()[self.boxes()[p].children[j].index()] == run),
                forall|x: int|
                    b0.len() <= x < self.boxes().len() ==> box_ok(
                        nodes,
                        self.boxes(),
                        self.runs(),
                        x,
                    ),
            decreases children.len() - k,
        {
            let child = children[k];
            proof {
                assert(cs.skip(k as int)[0] == child);
                assert(cs.skip(k as int).drop_first() =~= cs.skip(k + 1));
            }
            if is_block_node(document, child) {
                let ghost run = inline_run@;
                let ghost cur = self.boxes();
                let ghost rc = self.runs();
                proof {
                    lemma_extends_basic(b0, cur, p);
                    lemma_builder_inv_boxes(nodes, cur, rc);
                }
                self.flush_anonymous_block(parent, &mut inline_run);
                let ghost mid = self.boxes();
                let ghost rm = self.runs();
                proof {
                    lemma_extends_basic(cur, mid, p);
                    lemma_builder_inv(nodes, mid, rm);
                }
                let layout = self.tree.push(parent, LayoutBox::Block(child));
                proof {
                    lemma_push_box_wf(mid, parent, LayoutBox::Block(child));
                    lemma_push_box_valid(nodes, rm, mid, parent, LayoutBox::Block(child));
                    lemma_builder_inv(nodes, self.boxes(), rm);
                }
                let ghost pushed = self.boxes();
                let ghost l = layout.index();
                self.build_children(layout);
                let ghost next = self.boxes();
                let ghost rn = self.runs();
                proof {
                    lemma_boxes_ok_frame(nodes, cur, mid, rc, rm, p, b0.len() as int);
                    lemma_extends_trans(mid, pushed, next, p, l);
                    lemma_boxes_ok_frame(nodes, mid, next, rm, rn, p, b0.len() as int);
                    lemma_extends_trans(cur, mid, next, p, p);
                    lemma_extends_trans(b0, cur, next, p, p);
                    let added = if all_blank(nodes, run) {
                        seq![]
                    } else {
                        seq![LayoutId(cur.len() as usize)]
                    };
                    lemma_extends_at(pushed, next, l, p);
                    assert(next[p].children =~= cur[p].children + (added + seq![layout]));
                    lemma_extends_basic(pushed, next, l);
                    if !all_blank(nodes, run) {
                        let an = cur.len() as int;
                        lemma_extends_at(mid, pushed, p, an);
                        lemma_extends_at(pushed, next, l, an);
                    }
                    lemma_block_item_step(nodes, cs, k as int, run, done, cur, next, rc, rn, p, layout);
                    let new_done = done + flush_items(nodes, run) + seq![LayoutItem::Block(child)];
                    done = new_done;
                }
            } else {
                let ghost before = inline_run@;
                inline_run.push(child);
                proof {
                    assert(block_items(nodes, cs.skip(k as int), before) == block_items(
                        nodes,
                        cs.skip(k + 1),
                        before.push(child),
                    ));
                }
            }
            k += 1;
        }
        let ghost run = inline_run@;
        let ghost cur = self.boxes();
        let ghost rc = self.runs();
        proof {
            lemma_extends_basic(b0, cur, p);
            lemma_builder_inv_boxes(nodes, cur, rc);
        }
        self.flush_anonymous_block(parent, &mut inline_run);
        proof {
            let next = self.boxes();
            let rn = self.runs();
            lemma_boxes_ok_frame(nodes, cur, next, rc, rn, p, b0.len() as int);
            lemma_extends_trans(b0, cur, next, p, p);
            assert(cs.skip(cs.len() as int) =~= Seq::<DomId>::empty());
            let fl = flush_items(nodes, run);
            let new_done = done + fl;
            assert(block_items(nodes, cs, seq![]) =~= new_done);
            let added = if all_blank(nodes, run) {
                seq![]
            } else {
                seq![LayoutId(cur.len() as usize)]
            };
            lemma_child_kinds_append(cur, next, p, added);
            assert(child_kinds(next, p) =~= new_done.map_values(|it: LayoutItem| item_box(it)));
            assert forall|j: int| 0 <= j < new_done.len() implies (
            #[trigger] new_done[j] matches LayoutItem::Anonymous(r) ==> rn.dom().contains(
                next[p].children[j].index(),
            ) && rn[next[p].children[j].index()] == r) by {
                if j < done.len() {
                    assert(new_done[j] == done[j]);
                    assert(next[p].children[j] == cur[p].children[j]);
                } else {
                    assert(next[p].children[j] == LayoutId(cur.len() as usize));
                }
            }
            lemma_extends_basic(b0, next, p);
            lemma_block_box_ok(nodes, next, rn, p, dom_parent);
        }
    }
}

/// One block child handled: the run before it became an anonymous block
/// (unless blank), and the child a block box.
proof fn lemma_block_item_step(
    nodes: Seq<SpecNode>,
    cs: Seq<DomId>,
    k: int,
    run: Seq<DomId>,
    done: Seq<LayoutItem>,
    cur: Seq<BoxSpec>,
    next: Seq<BoxSpec>,
    rc: Map<int, Seq<DomId>>,
    rn: Map<int, Seq<DomId>>,
    p: int,
    layout: LayoutId,
)
    requires
        boxes_wf(cur),
        extends(cur, next, p),
        runs_extend(rc, rn),
        0 <= k < cs.len(),
        block_dom(nodes, cs[k]),
        block_items(nodes, cs, seq![]) == done + block_items(nodes, cs.skip(k), run),
        child_kinds(cur, p) == done.map_values(|it: LayoutItem| item_box(it)),
        cur[p].children.len() == done.len(),
        forall|j: int|
            0 <= j < done.len() ==> (#[trigger] done[j] matches LayoutItem::Anonymous(r)
                ==> rc.dom().contains(cur[p].children[j].index()) && rc[cur[p].children[j].index()]
                == r),
        next[p].children == cur[p].children + ((if all_blank(nodes, run) {
            seq![]
        } else {
            seq![LayoutId(cur.len() as usize)]
        }) + seq![layout]),
        !all_blank(nodes, run) ==> {
            &&& next[cur.len() as int].kind == LayoutBox::AnonymousBlock
            &&& rn.dom().contains(cur.len() as int)
            &&& rn[cur.len() as int] == run
            &&& cur.len() < usize::MAX
        },
        next[layout.index()].kind == LayoutBox::Block(cs[k]),
    ensures
        block_items(nodes, cs, seq![]) == done + flush_items(nodes, run) + seq![
            LayoutItem::Block(cs[k]),
        ] + block_items(nodes, cs.skip(k + 1), seq![]),
        child_kinds(next, p) == (done + flush_items(nodes, run) + seq![
            LayoutItem::Block(cs[k]),
        ]).map_values(|it: LayoutItem| item_box(it)),
        next[p].children.len() == done.len() + flush_items(nodes, run).len() + 1,
        forall|j: int|
            0 <= j < done.len() + flush_items(nodes, run).len() + 1 ==> (#[trigger] (done
                + flush_items(nodes, run) + seq![LayoutItem::Block(cs[k])])[j] matches LayoutItem::Anonymous(
                r,
            ) ==> rn.dom().contains(next[p].children[j].index()) && rn[next[p].children[j].index()]
                == r),
{
    let child = cs[k];
    let fl = flush_items(nodes, run);
    let added = if all_blank(nodes, run) {
        seq![]
    } else {
        seq![LayoutId(cur.len() as usize)]
    };
    let new_done = done + fl + seq![LayoutItem::Block(child)];
    assert(cs.skip(k)[0] == child);
    assert(cs.skip(k).drop_first() =~= cs.skip(k + 1));
    assert(block_items(nodes, cs.skip(k), run) == fl + seq![LayoutItem::Block(child)]
        + block_items(nodes, cs.skip(k + 1), seq![]));
    assert(block_items(nodes, cs, seq![]) =~= new_done + block_items(nodes, cs.skip(k + 1), seq![]));
    lemma_child_kinds_append(cur, next, p, added + seq![layout]);
    assert(child_kinds(next, p) =~= new_done.map_values(|it: LayoutItem| item_box(it)));
    assert forall|j: int| 0 <= j < new_done.len() implies (#[trigger] new_done[j] matches LayoutItem::Anonymous(
        r,
    ) ==> rn.dom().contains(next[p].children[j].index()) && rn[next[p].children[j].index()] == r) by {
        if j < done.len() {
            assert(new_done[j] == done[j]);
            assert(next[p].children[j] == cur[p].children[j]);
        } else if j < done.len() + fl.len() {
            assert(next[p].children[j] == LayoutId(cur.len() as usize));
        }
    }
}

/// Every child in `boxed_children` is a valid node that gets a box, and
/// comes after its parent.
proof fn lemma_boxed_members(nodes: Seq<SpecNode>, c: Seq<DomId>, d: DomId)
    requires
        wf_tree(nodes),
        0 <= d.index() < nodes.len(),
        c == kind_children(nodes[d.index()].kind),
    ensures
        forall|k: int|
            0 <= k < boxed(nodes, c).len() ==> d.index() < (#[trigger] boxed(nodes, c)[k]).index()
                < nodes.len() && creates_box(nodes, boxed(nodes, c)[k]),
{
    lemma_boxed_sub(nodes, c, c.len() as int, d);
    assert(c.take(c.len() as int) =~= c);
}

proof fn lemma_boxed_sub(nodes: Seq<SpecNode>, c: Seq<DomId>, n: int, d: DomId)
    requires
        wf_tree(nodes),
        0 <= d.index() < nodes.len(),
        c == kind_children(nodes[d.index()].kind),
        0 <= n <= c.len(),
    ensures
        forall|k: int|
            0 <= k < boxed(nodes, c.take(n)).len() ==> d.index() < (#[trigger] boxed(
                nodes,
                c.take(n),
            )[k]).index() < nodes.len() && creates_box(nodes, boxed(nodes, c.take(n))[k]),
    decreases n,
{
    if n > 0 {
        lemma_boxed_sub(nodes, c, n - 1, d);
        lemma_boxed_push(nodes, c, n - 1);
        assert(kind_children(nodes[d.index()].kind)[n - 1] == c[n - 1]);
    } else {
        assert(c.take(0) =~= Seq::<DomId>::empty());
    }
}

/// The layout tree of `document`: a block box for the document node, and
/// below it what each box calls for.
pub fn build_layout_tree(document: &Document) -> (r: LayoutTree)
    ensures
        exists|runs: Map<int, Seq<DomId>>| tree_matches(document.nodes(), r.boxes(), runs),
{
    let mut builder = LayoutBuilder::new(document);
    let root = builder.tree.root();
    builder.build_children(root);
    let ghost bs = builder.boxes();
    let ghost runs = builder.runs();
    proof {
        lemma_extends_basic(
            seq![
                BoxSpec {
                    kind: LayoutBox::Block(DomId(0)),
                    parent: None,
                    previous: None,
                    children: seq![],
                },
            ],
            bs,
            0,
        );
        lemma_builder_inv(document.nodes(), bs, runs);
        assert(tree_matches(document.nodes(), bs, runs));
    }
    builder.into_tree()
}

} // verus!
