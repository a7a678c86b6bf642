//! The rules of inline text: how text breaks into words and spaces, and
//! what each tag does to the line and the text style. Measuring and placing
//! the words is left to the caller.
use vstd::prelude::*;

use crate::html::Tag;
use crate::text::chars_of;
use crate::text::is_whitespace;
use crate::text::string_of;
use crate::text::whitespace;

verus! {

/// A piece of inline text.
#[derive(Debug, PartialEq, Eq)]
pub enum TextPiece {
    /// Whitespace: the next word is set apart from the one before.
    Space,
    /// A run of characters that are not whitespace.
    Word(String),
}

/// A piece of inline text, as plain values.
pub enum SpecPiece {
    Space,
    Word(Seq<char>),
}

pub open spec fn piece_view(p: TextPiece) -> SpecPiece {
    match p {
        TextPiece::Space => SpecPiece::Space,
        TextPiece::Word(w) => SpecPiece::Word(w@),
    }
}

pub open spec fn pieces_view(ps: Seq<TextPiece>) -> Seq<SpecPiece> {
    ps.map_values(|p: TextPiece| piece_view(p))
}

/// The pieces with the word in progress `w` added, where there is one.
pub open spec fn with_word(ps: Seq<SpecPiece>, w: Seq<char>) -> Seq<SpecPiece> {
    if w.len() > 0 {
        ps.push(SpecPiece::Word(w))
    } else {
        ps
    }
}

/// The pieces finished after reading `s`, and the word still in progress.
pub open spec fn split_run(s: Seq<char>) -> (Seq<SpecPiece>, Seq<char>)
    decreases s.len(),
{
    if s.len() == 0 {
        (seq![], seq![])
    } else {
        let (ps, w) = split_run(s.drop_last());
        let c = s.last();
        if is_whitespace(c) {
            (with_word(ps, w).push(SpecPiece::Space), seq![])
        } else {
            (ps, w.push(c))
        }
    }
}

/// Each whitespace character (as `char::is_whitespace` has it) gives a
/// space, and each run of other characters between them a word, in order.
pub open spec fn spec_text_pieces(s: Seq<char>) -> Seq<SpecPiece> {
    with_word(split_run(s).0, split_run(s).1)
}

/// The text a piece stands for, a space standing for one blank.
pub open spec fn piece_text(p: SpecPiece) -> Seq<char> {
    match p {
        SpecPiece::Space => seq![' '],
        SpecPiece::Word(w) => w,
    }
}

/// The pieces written out one after another.
pub open spec fn flatten(ps: Seq<SpecPiece>) -> Seq<char>
    decreases ps.len(),
{
    if ps.len() == 0 {
        seq![]
    } else {
        flatten(ps.drop_last()) + piece_text(ps.last())
    }
}

/// `s` with each whitespace character replaced by a blank.
pub open spec fn blank_whitespace(s: Seq<char>) -> Seq<char> {
    s.map_values(|c: char| if is_whitespace(c) { ' ' } else { c })
}

/// Words are non-empty, hold no whitespace, and never follow one another
/// directly.
pub open spec fn pieces_ok(ps: Seq<SpecPiece>) -> bool {
    &&& forall|i: int|
        0 <= i < ps.len() ==> (#[trigger] ps[i] matches SpecPiece::Word(w) ==> w.len() > 0
            && forall|k: int| 0 <= k < w.len() ==> !is_whitespace(#[trigger] w[k]))
    &&& forall|i: int|
        0 <= i < ps.len() - 1 ==> !(#[trigger] ps[i] is Word && ps[i + 1] is Word)
}

proof fn lemma_split_run_flat(s: Seq<char>)
    ensures
        flatten(split_run(s).0) + split_run(s).1 == blank_whitespace(s),
        pieces_ok(split_run(s).0),
        forall|k: int| 0 <= k < split_run(s).1.len() ==> !is_whitespace(#[trigger] split_run(s).1[k]),
        split_run(s).1.len() > 0 && split_run(s).0.len() > 0 ==> split_run(s).0.last() is Space,
    decreases s.len(),
{
    if s.len() == 0 {
        assert(blank_whitespace(s) =~= Seq::<char>::empty());
    } else {
        let pre = s.drop_last();
        lemma_split_run_flat(pre);
        let (ps, w) = split_run(pre);
        let c = s.last();
        assert(blank_whitespace(s) =~= blank_whitespace(pre).push(
            if is_whitespace(c) { ' ' } else { c },
        ));
        if is_whitespace(c) {
            let ps2 = with_word(ps, w);
            let ps3 = ps2.push(SpecPiece::Space);
            if w.len() > 0 {
                assert(ps2.drop_last() =~= ps);
                assert(flatten(ps2) == flatten(ps) + w);
            } else {
                assert(w =~= Seq::<char>::empty());
                assert(flatten(ps) + w =~= flatten(ps));
            }
            assert(ps3.drop_last() =~= ps2);
            assert(flatten(ps3) == flatten(ps2) + seq![' ']);
            assert(flatten(ps3) + Seq::<char>::empty() =~= flatten(ps3));
            assert(flatten(ps2) + seq![' '] =~= (flatten(ps) + w).push(' '));
            assert forall|i: int| 0 <= i < ps3.len() implies (#[trigger] ps3[i] matches SpecPiece::Word(
                x,
            ) ==> x.len() > 0 && forall|k: int| 0 <= k < x.len() ==> !is_whitespace(
                #[trigger] x[k],
            )) by {
                if i < ps.len() {
                    assert(ps3[i] == ps[i]);
                }
            }
            assert forall|i: int| 0 <= i < ps3.len() - 1 implies !(#[trigger] ps3[i] is Word
                && ps3[i + 1] is Word) by {
                if i + 1 < ps.len() {
                    assert(ps3[i] == ps[i] && ps3[i + 1] == ps[i + 1]);
                } else if i + 1 == ps.len() && w.len() > 0 {
                    assert(ps3[i] == ps[i]);
                    assert(ps[i] == ps.last());
                }
            }
        } else {
            assert((flatten(ps) + w).push(c) =~= flatten(ps) + w.push(c));
            assert forall|k: int| 0 <= k < w.push(c).len() implies !is_whitespace(
                #[trigger] w.push(c)[k],
            ) by {
                if k < w.len() {
                    assert(w.push(c)[k] == w[k]);
                }
            }
        }
    }
}

/// Writing the pieces out, a space as one blank, gives back the text with
/// each whitespace character as a blank: no character is lost, added or
/// moved. The words are non-empty runs without whitespace, and two words
/// always have a space between them.
pub proof fn lemma_text_pieces_cover(s: Seq<char>)
    ensures
        flatten(spec_text_pieces(s)) == blank_whitespace(s),
        pieces_ok(spec_text_pieces(s)),
{
    lemma_split_run_flat(s);
    let (ps, w) = split_run(s);
    let r = with_word(ps, w);
    if w.len() > 0 {
        assert(r.drop_last() =~= ps);
        assert(flatten(r) == flatten(ps) + w);
        assert forall|i: int| 0 <= i < r.len() implies (#[trigger] r[i] matches SpecPiece::Word(x)
            ==> x.len() > 0 && forall|k: int| 0 <= k < x.len() ==> !is_whitespace(#[trigger] x[k])) by {
            if i < ps.len() {
                assert(r[i] == ps[i]);
            }
        }
        assert forall|i: int| 0 <= i < r.len() - 1 implies !(#[trigger] r[i] is Word && r[i + 1] is Word) by {
            if i + 1 < ps.len() {
                assert(r[i] == ps[i] && r[i + 1] == ps[i + 1]);
            } else {
                assert(r[i] == ps[i]);
                assert(ps[i] == ps.last());
            }
        }
    } else {
        assert(flatten(ps) + w =~= flatten(ps));
    }
}

/// Breaks `text` into words and spaces.
pub fn text_pieces(text: &str) -> (r: Vec<TextPiece>)
    ensures
        pieces_view(r@) == spec_text_pieces(text@),
{
    let cs = chars_of(text);
    let mut out: Vec<TextPiece> = Vec::new();
    let mut word: Vec<char> = Vec::new();
    let mut i: usize = 0;
    while i < cs.len()
        invariant
            cs@ == text@,
            i <= cs@.len(),
            pieces_view(out@) == split_run(text@.take(i as int)).0,
            word@ == split_run(text@.take(i as int)).1,
        decreases cs@.len() - i,
    {
        let c = cs[i];
        assert(text@.take(i + 1).drop_last() =~= text@.take(i as int));
        assert(text@.take(i + 1).last() == c);
        if whitespace(c) {
            if word.len() > 0 {
                let w = string_of(word.as_slice());
                let ghost before = out@;
                out.push(TextPiece::Word(w));
                assert(pieces_view(out@) =~= pieces_view(before).push(SpecPiece::Word(word@)));
            }
            let ghost before = out@;
            out.push(TextPiece::Space);
            assert(pieces_view(out@) =~= pieces_view(before).push(SpecPiece::Space));
            word = Vec::new();
            assert(word@ =~= Seq::<char>::empty());
        } else {
            word.push(c);
        }
        i += 1;
    }
    assert(text@.take(cs@.len() as int) =~= text@);
    if word.len() > 0 {
        let w = string_of(word.as_slice());
        let ghost before = out@;
        out.push(TextPiece::Word(w));
        assert(pieces_view(out@) =~= pieces_view(before).push(SpecPiece::Word(word@)));
    }
    out
}

/// How a tag changes the text style.
#[derive(Debug, Clone, Copy, PartialEq, Eq, Structural)]
pub enum StyleChange {
    Bold,
    Italic,
    Smaller,
    Larger,
}

/// What an opening tag does to inline layout.
#[derive(Debug, Clone, Copy, PartialEq, Eq, Structural)]
pub enum TagEffect {
    /// The line ends here.
    LineBreak,
    /// The text inside is set in a changed style.
    Style(StyleChange),
    /// Nothing.
    Nothing,
}

/// `br` breaks the line; `b` and `strong` set bold, `i` and `em` italic,
/// `small` a smaller and `big` a larger size.
pub open spec fn spec_open_effect(tag: Tag) -> TagEffect {
    match tag {
        Tag::Br => TagEffect::LineBreak,
        Tag::B | Tag::Strong => TagEffect::Style(StyleChange::Bold),
        Tag::I | Tag::Em => TagEffect::Style(StyleChange::Italic),
        Tag::Small => TagEffect::Style(StyleChange::Smaller),
        Tag::Big => TagEffect::Style(StyleChange::Larger),
        _ => TagEffect::Nothing,
    }
}

/// Which tags do what: only `br` breaks the line; exactly `b` and `strong`
/// set bold, `i` and `em` italic, `small` a smaller size and `big` a larger
/// one; every other tag leaves line and style alone.
pub proof fn lemma_open_effects(tag: Tag)
    ensures
        (spec_open_effect(tag) == TagEffect::LineBreak) <==> tag == Tag::Br,
        (spec_open_effect(tag) == TagEffect::Style(StyleChange::Bold)) <==> (tag == Tag::B || tag
            == Tag::Strong),
        (spec_open_effect(tag) == TagEffect::Style(StyleChange::Italic)) <==> (tag == Tag::I || tag
            == Tag::Em),
        (spec_open_effect(tag) == TagEffect::Style(StyleChange::Smaller)) <==> tag == Tag::Small,
        (spec_open_effect(tag) == TagEffect::Style(StyleChange::Larger)) <==> tag == Tag::Big,
{
}

/// What opening `tag` does.
pub fn open_effect(tag: Tag) -> (r: TagEffect)
    ensures
        r == spec_open_effect(tag),
{
    match tag {
        Tag::Br => TagEffect::LineBreak,
        Tag::B | Tag::Strong => TagEffect::Style(StyleChange::Bold),
        Tag::I | Tag::Em => TagEffect::Style(StyleChange::Italic),
        Tag::Small => TagEffect::Style(StyleChange::Smaller),
        Tag::Big => TagEffect::Style(StyleChange::Larger),
        _ => TagEffect::Nothing,
    }
}

/// Whether closing `tag` restores the style from before it: exactly when
/// opening it changed the style, so the styles stay balanced.
pub fn closes_style(tag: Tag) -> (r: bool)
    ensures
        r == spec_open_effect(tag) is Style,
{
    match tag {
        Tag::B | Tag::Strong | Tag::I | Tag::Em | Tag::Small | Tag::Big => true,
        _ => false,
    }
}

} // verus!
