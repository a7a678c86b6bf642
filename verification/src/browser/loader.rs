//! What a loaded page's text looks like before it is laid out.
use vstd::prelude::*;

use crate::text::chars_of;

verus! {

/// The text and tag depth after some prefix of the input.
pub open spec fn strip_run(s: Seq<char>) -> (Seq<char>, int)
    decreases s.len(),
{
    if s.len() == 0 {
        (seq![], 0)
    } else {
        let (text, level) = strip_run(s.drop_last());
        let c = s.last();
        if c == '<' {
            (text, level + 1)
        } else if c == '>' {
            (text, level - 1)
        } else if level == 0 {
            (text.push(c), level)
        } else {
            (text, level)
        }
    }
}

/// The characters of `html` that stand outside every tag: `<` opens a
/// level, `>` closes one, and only characters at level zero are kept.
pub open spec fn spec_render_text(html: Seq<char>) -> Seq<char> {
    strip_run(html).0
}

proof fn lemma_strip_run(s: Seq<char>)
    ensures
        -s.len() <= strip_run(s).1 <= s.len(),
        strip_run(s).0.len() <= s.len(),
        !strip_run(s).0.contains('<'),
        !strip_run(s).0.contains('>'),
        (!s.contains('<') && !s.contains('>')) ==> strip_run(s).0 == s && strip_run(s).1 == 0,
    decreases s.len(),
{
    if s.len() > 0 {
        let pre = s.drop_last();
        lemma_strip_run(pre);
        let (text, level) = strip_run(pre);
        let c = s.last();
        if level == 0 && c != '<' && c != '>' {
            assert forall|i: int| 0 <= i < text.push(c).len() implies text.push(c)[i] != '<'
                && text.push(c)[i] != '>' by {
                if i < text.len() {
                    assert(text.push(c)[i] == text[i]);
                }
            }
        }
        if !s.contains('<') && !s.contains('>') {
            assert forall|i: int| 0 <= i < pre.len() implies pre[i] != '<' && pre[i] != '>' by {
                assert(pre[i] == s[i]);
            }
            assert(c == s[s.len() - 1]);
            assert(s =~= pre.push(c));
        }
    }
}

/// What `render_text` keeps holds no `<` or `>` and is no longer than its
/// input; input without either character comes back unchanged.
pub proof fn lemma_render_text(html: Seq<char>)
    ensures
        !spec_render_text(html).contains('<'),
        !spec_render_text(html).contains('>'),
        spec_render_text(html).len() <= html.len(),
        (!html.contains('<') && !html.contains('>')) ==> spec_render_text(html) == html,
{
    lemma_strip_run(html);
}

proof fn lemma_strip_run_append(a: Seq<char>, b: Seq<char>)
    requires
        strip_run(a).1 == 0,
    ensures
        strip_run(a + b) == (strip_run(a).0 + strip_run(b).0, strip_run(b).1),
    decreases b.len(),
{
    if b.len() == 0 {
        assert(a + b =~= a);
        assert(strip_run(a).0 + Seq::<char>::empty() =~= strip_run(a).0);
    } else {
        lemma_strip_run_append(a, b.drop_last());
        assert((a + b).drop_last() =~= a + b.drop_last());
        assert((a + b).last() == b.last());
        let (tb, lb) = strip_run(b.drop_last());
        let c = b.last();
        assert(strip_run(a).0 + tb.push(c) =~= (strip_run(a).0 + tb).push(c));
    }
}

/// Inside an open tag, characters without brackets change nothing.
proof fn lemma_strip_inside_tag(a: Seq<char>, t: Seq<char>)
    requires
        strip_run(a).1 > 0,
        !t.contains('<'),
        !t.contains('>'),
    ensures
        strip_run(a + t) == strip_run(a),
    decreases t.len(),
{
    if t.len() == 0 {
        assert(a + t =~= a);
    } else {
        assert forall|i: int| 0 <= i < t.drop_last().len() implies t.drop_last()[i] != '<'
            && t.drop_last()[i] != '>' by {
            assert(t.drop_last()[i] == t[i]);
        }
        assert(t.last() == t[t.len() - 1]);
        lemma_strip_inside_tag(a, t.drop_last());
        assert((a + t).drop_last() =~= a + t.drop_last());
        assert((a + t).last() == t.last());
    }
}

/// Text outside tags is kept in order: what a page shows is what its first
/// part shows followed by what the rest shows, where the first part closes
/// every tag it opens; and a tag with only its name and attributes in it
/// shows nothing and leaves no tag open.
pub proof fn lemma_render_text_concat(a: Seq<char>, b: Seq<char>, t: Seq<char>)
    requires
        strip_run(a).1 == 0,
        !t.contains('<'),
        !t.contains('>'),
    ensures
        spec_render_text(a + b) == spec_render_text(a) + spec_render_text(b),
        spec_render_text(seq!['<'] + t + seq!['>']) == Seq::<char>::empty(),
        strip_run(seq!['<'] + t + seq!['>']).1 == 0,
{
    lemma_strip_run_append(a, b);
    let open = seq!['<'];
    assert(open.drop_last() =~= Seq::<char>::empty());
    assert(strip_run(Seq::<char>::empty()) == (Seq::<char>::empty(), 0int));
    assert(open.last() == '<');
    assert(strip_run(open).1 == 1);
    assert(strip_run(open).0 =~= Seq::<char>::empty());
    lemma_strip_inside_tag(open, t);
    let u = open + t;
    let w = u + seq!['>'];
    assert(w.drop_last() =~= u);
    assert(w.last() == '>');
}

/// The text of `html` outside its tags.
pub fn render_text(html: &str) -> (r: String)
    ensures
        r@ == spec_render_text(html@),
{
    let cs = chars_of(html);
    let mut text = String::new();
    let mut tag_level: i128 = 0;
    let mut i: usize = 0;
    while i < cs.len()
        invariant
            cs@ == html@,
            i <= cs@.len(),
            text@ == strip_run(html@.take(i as int)).0,
            tag_level == strip_run(html@.take(i as int)).1,
        decreases cs@.len() - i,
    {
        let c = cs[i];
        proof {
            lemma_strip_run(html@.take(i as int));
        }
        assert(html@.take(i + 1).drop_last() =~= html@.take(i as int));
        assert(html@.take(i + 1).last() == c);
        if c == '<' {
            tag_level += 1;
        } else if c == '>' {
            tag_level -= 1;
        } else if tag_level == 0 {
            text.push(c);
        }
        i += 1;
    }
    assert(html@.take(html@.len() as int) =~= html@);
    text
}

} // verus!
