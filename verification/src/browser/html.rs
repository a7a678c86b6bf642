//! A flat lexer that splits a page into text and tags.
//!
//! A `<` outside a tag opens one and the next `>` closes it; every other
//! character goes to the current text or tag. Empty text is dropped, and a
//! tag still open at the end comes back as text that starts with `<`.
use vstd::prelude::*;

use crate::text::string_of;

verus! {

#[derive(Debug, Clone, PartialEq, Eq)]
pub enum Token {
    Text(String),
    Tag(String),
}

/// A token as plain values.
pub enum SpecFlatToken {
    Text(Seq<char>),
    Tag(Seq<char>),
}

impl View for Token {
    type V = SpecFlatToken;

    open spec fn view(&self) -> SpecFlatToken {
        match self {
            Token::Text(s) => SpecFlatToken::Text(s@),
            Token::Tag(s) => SpecFlatToken::Tag(s@),
        }
    }
}

pub open spec fn tokens_view(ts: Seq<Token>) -> Seq<SpecFlatToken> {
    ts.map_values(|t: Token| t@)
}

/// The lexer's state after some prefix of the input: the tokens so far,
/// the pending characters, and whether a tag is open.
pub struct LexState {
    pub tokens: Seq<SpecFlatToken>,
    pub buffer: Seq<char>,
    pub in_tag: bool,
}

pub open spec fn lex_start() -> LexState {
    LexState { tokens: seq![], buffer: seq![], in_tag: false }
}

/// What one character does to the lexer's state.
pub open spec fn lex_step(st: LexState, c: char) -> LexState {
    if c == '<' && !st.in_tag {
        LexState {
            tokens: if st.buffer.len() > 0 {
                st.tokens.push(SpecFlatToken::Text(st.buffer))
            } else {
                st.tokens
            },
            buffer: seq![],
            in_tag: true,
        }
    } else if c == '>' && st.in_tag {
        LexState { tokens: st.tokens.push(SpecFlatToken::Tag(st.buffer)), buffer: seq![], in_tag: false }
    } else {
        LexState { tokens: st.tokens, buffer: st.buffer.push(c), in_tag: st.in_tag }
    }
}

pub open spec fn lex_run(s: Seq<char>) -> LexState
    decreases s.len(),
{
    if s.len() == 0 {
        lex_start()
    } else {
        lex_step(lex_run(s.drop_last()), s.last())
    }
}

/// The pending characters become a last text token; an open tag gets its `<` back.
pub open spec fn lex_finish(st: LexState) -> Seq<SpecFlatToken> {
    if st.buffer.len() > 0 {
        st.tokens.push(
            SpecFlatToken::Text(
                if st.in_tag {
                    seq!['<'] + st.buffer
                } else {
                    st.buffer
                },
            ),
        )
    } else {
        st.tokens
    }
}

pub open spec fn spec_lex(s: Seq<char>) -> Seq<SpecFlatToken> {
    lex_finish(lex_run(s))
}

/// The source text a token stands for.
pub open spec fn token_source(t: SpecFlatToken) -> Seq<char> {
    match t {
        SpecFlatToken::Text(s) => s,
        SpecFlatToken::Tag(s) => seq!['<'] + s + seq!['>'],
    }
}

pub open spec fn tokens_source(ts: Seq<SpecFlatToken>) -> Seq<char>
    decreases ts.len(),
{
    if ts.len() == 0 {
        seq![]
    } else {
        tokens_source(ts.drop_last()) + token_source(ts.last())
    }
}

/// No text token is empty, and no tag token holds a `>`.
pub open spec fn tokens_tidy(ts: Seq<SpecFlatToken>) -> bool {
    forall|i: int|
        0 <= i < ts.len() ==> match #[trigger] ts[i] {
            SpecFlatToken::Text(s) => s.len() > 0,
            SpecFlatToken::Tag(s) => !s.contains('>'),
        }
}

proof fn lemma_tokens_source_push(ts: Seq<SpecFlatToken>, t: SpecFlatToken)
    ensures
        tokens_source(ts.push(t)) == tokens_source(ts) + token_source(t),
{
    assert(ts.push(t).drop_last() =~= ts);
}

proof fn lemma_lex_run(s: Seq<char>)
    ensures
        tokens_source(lex_run(s).tokens) + (if lex_run(s).in_tag {
            seq!['<'] + lex_run(s).buffer
        } else {
            lex_run(s).buffer
        }) == s,
        tokens_tidy(lex_run(s).tokens),
        lex_run(s).in_tag ==> !lex_run(s).buffer.contains('>'),
    decreases s.len(),
{
    if s.len() > 0 {
        let pre = s.drop_last();
        let c = s.last();
        lemma_lex_run(pre);
        let st = lex_run(pre);
        assert(s =~= pre.push(c));
        if c == '<' && !st.in_tag {
            if st.buffer.len() > 0 {
                lemma_tokens_source_push(st.tokens, SpecFlatToken::Text(st.buffer));
            }
            assert(tokens_source(lex_run(s).tokens) =~= tokens_source(st.tokens) + st.buffer);
            assert(tokens_source(lex_run(s).tokens) + (seq!['<'] + seq![]) =~= s);
        } else if c == '>' && st.in_tag {
            lemma_tokens_source_push(st.tokens, SpecFlatToken::Tag(st.buffer));
            assert(tokens_source(lex_run(s).tokens) =~= s);
        } else {
            if st.in_tag {
                assert(tokens_source(st.tokens) + (seq!['<'] + st.buffer.push(c)) =~= s);
                assert forall|i: int| 0 <= i < st.buffer.push(c).len() implies st.buffer.push(
                    c,
                )[i] != '>' by {
                    if i < st.buffer.len() {
                        assert(st.buffer.push(c)[i] == st.buffer[i]);
                    }
                }
            } else {
                assert(tokens_source(st.tokens) + st.buffer.push(c) =~= s);
            }
        }
    }
}

/// Lexing loses nothing but a `<` that ends the input outside a tag: the
/// tokens, written back as text and `<tag>`s, give the source again, or
/// the source without that last `<`. No text token is empty and no tag
/// holds a `>`.
pub proof fn lemma_lex_roundtrip(s: Seq<char>)
    ensures
        tokens_source(spec_lex(s)) == s || (s.len() > 0 && s.last() == '<'
            && tokens_source(spec_lex(s)) == s.drop_last()),
        !(s.len() > 0 && s.last() == '<') ==> tokens_source(spec_lex(s)) == s,
        tokens_tidy(spec_lex(s)),
{
    lemma_lex_run(s);
    let st = lex_run(s);
    if st.buffer.len() > 0 {
        let last = SpecFlatToken::Text(
            if st.in_tag {
                seq!['<'] + st.buffer
            } else {
                st.buffer
            },
        );
        lemma_tokens_source_push(st.tokens, last);
        let ts = st.tokens.push(last);
        assert forall|i: int| 0 <= i < ts.len() implies match #[trigger] ts[i] {
            SpecFlatToken::Text(x) => x.len() > 0,
            SpecFlatToken::Tag(x) => !x.contains('>'),
        } by {
            if i < st.tokens.len() {
                assert(ts[i] == st.tokens[i]);
            }
        }
    } else {
        assert(tokens_source(st.tokens) + seq![] =~= tokens_source(st.tokens));
        if st.in_tag {
            assert(tokens_source(st.tokens) + (seq!['<'] + st.buffer) =~= tokens_source(
                st.tokens,
            ).push('<'));
            assert(s.drop_last() =~= tokens_source(st.tokens));
        }
    }
}

/// Splits `source` into text and tags.
pub fn lex(source: &str) -> (r: Vec<Token>)
    ensures
        tokens_view(r@) == spec_lex(source@),
{
    let mut tokens: Vec<Token> = Vec::new();
    let mut buffer: Vec<char> = Vec::new();
    let mut in_tag = false;
    for c in it: source.chars()
        invariant
            it.seq() == source@,
            tokens_view(tokens@) == lex_run(source@.take(it.index() as int)).tokens,
            buffer@ == lex_run(source@.take(it.index() as int)).buffer,
            in_tag == lex_run(source@.take(it.index() as int)).in_tag,
    {
        let ghost i = it.index() as int;
        assert(source@.take(i + 1).drop_last() =~= source@.take(i));
        assert(source@.take(i + 1).last() == c);
        let ghost before = tokens@;
        if c == '<' && !in_tag {
            if buffer.len() > 0 {
                let text = string_of(buffer.as_slice());
                tokens.push(Token::Text(text));
                assert(tokens_view(tokens@) =~= tokens_view(before).push(
                    SpecFlatToken::Text(buffer@),
                ));
            }
            buffer = Vec::new();
            in_tag = true;
        } else if c == '>' && in_tag {
            let tag = string_of(buffer.as_slice());
            tokens.push(Token::Tag(tag));
            assert(tokens_view(tokens@) =~= tokens_view(before).push(SpecFlatToken::Tag(buffer@)));
            buffer = Vec::new();
            in_tag = false;
        } else {
            buffer.push(c);
        }
    }
    assert(source@.take(source@.len() as int) =~= source@);
    if buffer.len() > 0 {
        let ghost before = tokens@;
        let text = if in_tag {
            let mut t: Vec<char> = Vec::new();
            t.push('<');
            let mut k: usize = 0;
            while k < buffer.len()
                invariant
                    k <= buffer@.len(),
                    t@ == seq!['<'] + buffer@.take(k as int),
                decreases buffer@.len() - k,
            {
                t.push(buffer[k]);
                assert(buffer@.take(k + 1) =~= buffer@.take(k as int).push(buffer@[k as int]));
                k += 1;
            }
            assert(buffer@.take(buffer@.len() as int) =~= buffer@);
            string_of(t.as_slice())
        } else {
            string_of(buffer.as_slice())
        };
        tokens.push(Token::Text(text));
        assert(tokens_view(tokens@) =~= tokens_view(before).push(SpecFlatToken::Text(text@)));
    }
    tokens
}

} // verus!
