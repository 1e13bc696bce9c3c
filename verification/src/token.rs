use vstd::prelude::*;

use crate::span::Span;

verus! {

/// The punctuation marks the base tokenizer recognizes.
#[derive(Clone, Copy, Debug, PartialEq, Eq, Structural)]
pub enum Punctuation {
    Period,
    Comma,
    QuestionMark,
    Bang,
    Colon,
    Semicolon,
    Apostrophe,
    Quote,
    Hyphen,
    OpenParen,
    CloseParen,
}

/// Classification of a span of text.
///
/// Consecutive same-class whitespace collapses into one token carrying
/// a run-length count. A `Newline` count of two or more marks a
/// paragraph break for downstream linting rules.
#[derive(Clone, Copy, Debug, PartialEq, Eq, Structural)]
pub enum TokenKind {
    Word,
    Space(usize),
    Newline(usize),
    Punctuation(Punctuation),
    /// A region a grammar checker must not apply natural-language rules to.
    Unlintable,
}

impl TokenKind {
    pub fn is_word(&self) -> (r: bool)
        ensures
            r == (*self is Word),
    {
        matches!(self, TokenKind::Word)
    }

    pub fn is_newline(&self) -> (r: bool)
        ensures
            r == (*self is Newline),
    {
        matches!(self, TokenKind::Newline(_))
    }

    pub fn is_space(&self) -> (r: bool)
        ensures
            r == (*self is Space),
    {
        matches!(self, TokenKind::Space(_))
    }

    pub fn is_unlintable(&self) -> (r: bool)
        ensures
            r == (*self is Unlintable),
    {
        matches!(self, TokenKind::Unlintable)
    }
}

/// A classified span. Tokens do not own source text: consumers re-slice
/// the original character buffer using the span.
#[derive(Clone, Copy, Debug, PartialEq, Eq, Structural)]
pub struct Token {
    pub span: Span,
    pub kind: TokenKind,
}

/// The contract every tokenizer satisfies: the spans of the output,
/// read left to right, exactly tile the half-open range `[0, len)`.
/// Each span is well-formed, each token begins where the previous one
/// ended, the first begins at offset zero, and the last ends at `len`.
pub open spec fn tokens_tile(toks: Seq<Token>, len: nat) -> bool {
    &&& forall|i: int| 0 <= i < toks.len() ==> (#[trigger] toks[i].span).wf()
    &&& forall|i: int|
        1 <= i < toks.len() ==> (#[trigger] toks[i].span).start == toks[i - 1].span.end
    &&& if toks.len() == 0 {
        len == 0
    } else {
        toks[0].span.start == 0 && toks[toks.len() - 1].span.end == len
    }
}

/// Contiguity, spelled out: under `tokens_tile` the spans are
/// non-decreasing, consecutive gaps are zero characters, and the final
/// span's end equals the input length.
pub proof fn lemma_tile_contiguity(toks: Seq<Token>, len: nat)
    requires
        tokens_tile(toks, len),
    ensures
        forall|i: int, j: int|
            0 <= i <= j < toks.len() ==> (#[trigger] toks[i].span).start <= (
            #[trigger] toks[j].span).start,
        forall|i: int| 1 <= i < toks.len() ==> (#[trigger] toks[i].span).start == toks[i - 1].span.end,
        toks.len() > 0 ==> toks[toks.len() - 1].span.end == len,
    decreases toks.len(),
{
    if toks.len() > 1 {
        lemma_tile_contiguity(toks.drop_last(), toks[toks.len() - 2].span.end as nat);
        assert(toks.drop_last()[0] == toks[0]);
        assert forall|i: int, j: int| 0 <= i <= j < toks.len() implies (
        #[trigger] toks[i].span).start <= (#[trigger] toks[j].span).start by {
            if j < toks.len() - 1 {
                assert(toks.drop_last()[i] == toks[i]);
                assert(toks.drop_last()[j] == toks[j]);
            } else if i < j {
                assert(toks.drop_last()[i] == toks[i]);
                assert(toks.drop_last()[j - 1] == toks[j - 1]);
            }
        }
    }
}

/// Coverage, spelled out: under `tokens_tile` every character offset of
/// the input falls inside some token's span.
pub proof fn lemma_tile_coverage(toks: Seq<Token>, len: nat, p: int)
    requires
        tokens_tile(toks, len),
        0 <= p < len,
    ensures
        exists|i: int|
            0 <= i < toks.len() && (#[trigger] toks[i].span).start <= p < toks[i].span.end,
    decreases toks.len(),
{
    let last = toks[toks.len() - 1];
    if last.span.start <= p {
        assert(last.span.start <= p < last.span.end);
    } else {
        let rest = toks.drop_last();
        assert(tokens_tile(rest, last.span.start as nat));
        lemma_tile_coverage(rest, last.span.start as nat, p);
        let i = choose|i: int|
            0 <= i < rest.len() && (#[trigger] rest[i].span).start <= p < rest[i].span.end;
        assert(toks[i].span.start <= p < toks[i].span.end);
    }
}

/// The mathematical shape of a token: its span as unbounded integers
/// and its kind. Token streams are specified as sequences of these.
pub struct TokenModel {
    pub start: int,
    pub end: int,
    pub kind: TokenKind,
}

pub open spec fn token_model(t: Token) -> TokenModel {
    TokenModel { start: t.span.start as int, end: t.span.end as int, kind: t.kind }
}

/// The models of a token sequence, in order.
pub open spec fn tokens_model(s: Seq<Token>) -> Seq<TokenModel>
    decreases s.len(),
{
    if s.len() == 0 {
        Seq::empty()
    } else {
        tokens_model(s.drop_last()) + seq![token_model(s.last())]
    }
}

pub proof fn lemma_tokens_model_len(s: Seq<Token>)
    ensures
        tokens_model(s).len() == s.len(),
    decreases s.len(),
{
    if s.len() > 0 {
        lemma_tokens_model_len(s.drop_last());
    }
}

pub proof fn lemma_tokens_model_index(s: Seq<Token>, i: int)
    requires
        0 <= i < s.len(),
    ensures
        tokens_model(s).len() == s.len(),
        tokens_model(s)[i] == token_model(s[i]),
    decreases s.len(),
{
    lemma_tokens_model_len(s);
    if i < s.len() - 1 {
        lemma_tokens_model_index(s.drop_last(), i);
    } else {
        lemma_tokens_model_len(s.drop_last());
    }
}

/// A token is its model: equal model sequences mean equal token
/// sequences, so a contract over models pins the tokens themselves.
pub proof fn lemma_tokens_model_injective(a: Seq<Token>, b: Seq<Token>)
    requires
        tokens_model(a) == tokens_model(b),
    ensures
        a == b,
{
    lemma_tokens_model_len(a);
    lemma_tokens_model_len(b);
    assert forall|i: int| 0 <= i < a.len() implies a[i] == b[i] by {
        lemma_tokens_model_index(a, i);
        lemma_tokens_model_index(b, i);
        assert(token_model(a[i]) == token_model(b[i]));
        assert(a[i].span.start == b[i].span.start && a[i].span.end == b[i].span.end);
    }
    assert(a =~= b);
}

/// The same stream of tokens, translated forward by an offset.
pub open spec fn shift_models(g: Seq<TokenModel>, off: int) -> Seq<TokenModel>
    decreases g.len(),
{
    if g.len() == 0 {
        Seq::empty()
    } else {
        shift_models(g.drop_last(), off) + seq![
            TokenModel {
                start: g.last().start + off,
                end: g.last().end + off,
                kind: g.last().kind,
            },
        ]
    }
}

pub proof fn lemma_shift_models_index(g: Seq<TokenModel>, off: int, i: int)
    requires
        0 <= i < g.len(),
    ensures
        shift_models(g, off).len() == g.len(),
        shift_models(g, off)[i] == (TokenModel {
            start: g[i].start + off,
            end: g[i].end + off,
            kind: g[i].kind,
        }),
    decreases g.len(),
{
    lemma_shift_models_len(g, off);
    if i < g.len() - 1 {
        lemma_shift_models_index(g.drop_last(), off, i);
    } else {
        lemma_shift_models_len(g.drop_last(), off);
    }
}

pub proof fn lemma_shift_models_len(g: Seq<TokenModel>, off: int)
    ensures
        shift_models(g, off).len() == g.len(),
    decreases g.len(),
{
    if g.len() > 0 {
        lemma_shift_models_len(g.drop_last(), off);
    }
}

pub proof fn lemma_shift_models_concat(a: Seq<TokenModel>, b: Seq<TokenModel>, off: int)
    ensures
        shift_models(a + b, off) == shift_models(a, off) + shift_models(b, off),
    decreases b.len(),
{
    if b.len() == 0 {
        assert(a + b =~= a);
        assert(shift_models(b, off) =~= Seq::<TokenModel>::empty());
        assert(shift_models(a, off) + shift_models(b, off) =~= shift_models(a, off));
    } else {
        assert((a + b).drop_last() =~= a + b.drop_last());
        assert((a + b).last() == b.last());
        lemma_shift_models_concat(a, b.drop_last(), off);
        assert(shift_models(a + b, off) =~= shift_models(a, off) + shift_models(b, off));
    }
}

pub proof fn lemma_shift_models_compose(g: Seq<TokenModel>, a: int, b: int)
    ensures
        shift_models(shift_models(g, a), b) == shift_models(g, a + b),
    decreases g.len(),
{
    if g.len() > 0 {
        lemma_shift_models_compose(g.drop_last(), a, b);
        assert(shift_models(g, a).drop_last() =~= shift_models(g.drop_last(), a));
        assert(shift_models(shift_models(g, a), b) =~= shift_models(g, a + b));
    }
}

pub proof fn lemma_shift_models_zero(g: Seq<TokenModel>)
    ensures
        shift_models(g, 0) == g,
    decreases g.len(),
{
    if g.len() > 0 {
        lemma_shift_models_zero(g.drop_last());
        assert(shift_models(g, 0) =~= g);
    }
}

} // verus!
