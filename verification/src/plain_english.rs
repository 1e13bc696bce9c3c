use vstd::prelude::*;

use crate::span::Span;
use crate::token::{
    Punctuation, Token, TokenKind, TokenModel, shift_models, token_model, tokens_model,
    tokens_tile,
};
use crate::token::{
    lemma_shift_models_compose, lemma_shift_models_concat, lemma_shift_models_zero,
};

verus! {

/// What `char::is_alphabetic` returns. The result depends on the
/// character alone, so it is only named here, never written out.
pub uninterp spec fn alphabetic(c: char) -> bool;

/// Relies on char::is_alphabetic: whether the character has the
/// Unicode `Alphabetic` property.
#[verifier::external_body]
fn is_alphabetic_char(c: char) -> (r: bool)
    ensures
        r == alphabetic(c),
{
    c.is_alphabetic()
}

/// The sole line-breaking character the tokenizers count.
pub open spec fn is_newline_char(c: char) -> bool {
    c == '\n'
}

/// Horizontal whitespace: everything collapsed into `Space` tokens.
pub open spec fn is_space_char(c: char) -> bool {
    c == ' ' || c == '\t' || c == '\r'
}

pub(crate) fn space_char(c: char) -> (r: bool)
    ensures
        r == is_space_char(c),
{
    c == ' ' || c == '\t' || c == '\r'
}

/// A word character: alphabetic, once the whitespace classes have had
/// their chance. The classification chain is newline, then horizontal
/// space, then alphabetic, then punctuation, then everything else.
pub open spec fn is_word_char(c: char) -> bool {
    !is_newline_char(c) && !is_space_char(c) && alphabetic(c)
}

fn word_char(c: char) -> (r: bool)
    ensures
        r == is_word_char(c),
{
    c != '\n' && !space_char(c) && is_alphabetic_char(c)
}

/// Which punctuation mark a character is, if any.
pub open spec fn spec_punct(c: char) -> Option<Punctuation> {
    if c == '.' {
        Some(Punctuation::Period)
    } else if c == ',' {
        Some(Punctuation::Comma)
    } else if c == '?' {
        Some(Punctuation::QuestionMark)
    } else if c == '!' {
        Some(Punctuation::Bang)
    } else if c == ':' {
        Some(Punctuation::Colon)
    } else if c == ';' {
        Some(Punctuation::Semicolon)
    } else if c == '\'' {
        Some(Punctuation::Apostrophe)
    } else if c == '"' {
        Some(Punctuation::Quote)
    } else if c == '-' {
        Some(Punctuation::Hyphen)
    } else if c == '(' {
        Some(Punctuation::OpenParen)
    } else if c == ')' {
        Some(Punctuation::CloseParen)
    } else {
        None
    }
}

fn punct_kind(c: char) -> (r: Option<Punctuation>)
    ensures
        r == spec_punct(c),
{
    match c {
        '.' => Some(Punctuation::Period),
        ',' => Some(Punctuation::Comma),
        '?' => Some(Punctuation::QuestionMark),
        '!' => Some(Punctuation::Bang),
        ':' => Some(Punctuation::Colon),
        ';' => Some(Punctuation::Semicolon),
        '\'' => Some(Punctuation::Apostrophe),
        '"' => Some(Punctuation::Quote),
        '-' => Some(Punctuation::Hyphen),
        '(' => Some(Punctuation::OpenParen),
        ')' => Some(Punctuation::CloseParen),
        _ => None,
    }
}

/// What a single base-tokenizer token claims about the text it covers:
/// the kind names exactly the class of the covered characters, run
/// tokens carry their length as the count, and a run never stops short
/// of the end of its class (the character after a run, if any, is of
/// another class).
pub open spec fn plain_token_ok(s: Seq<char>, t: Token) -> bool {
    &&& t.span.wf()
    &&& t.span.end <= s.len()
    &&& match t.kind {
        TokenKind::Word => {
            &&& t.span.spec_len() > 0
            &&& forall|j: int| t.span.start <= j < t.span.end ==> is_word_char(#[trigger] s[j])
            &&& (t.span.end == s.len() || !is_word_char(s[t.span.end as int]))
        },
        TokenKind::Space(n) => {
            &&& n == t.span.spec_len()
            &&& t.span.spec_len() > 0
            &&& forall|j: int| t.span.start <= j < t.span.end ==> is_space_char(#[trigger] s[j])
            &&& (t.span.end == s.len() || !is_space_char(s[t.span.end as int]))
        },
        TokenKind::Newline(n) => {
            &&& n == t.span.spec_len()
            &&& t.span.spec_len() > 0
            &&& forall|j: int| t.span.start <= j < t.span.end ==> is_newline_char(#[trigger] s[j])
            &&& (t.span.end == s.len() || !is_newline_char(s[t.span.end as int]))
        },
        TokenKind::Punctuation(p) => {
            &&& t.span.spec_len() == 1
            &&& !is_newline_char(s[t.span.start as int])
            &&& !is_space_char(s[t.span.start as int])
            &&& !is_word_char(s[t.span.start as int])
            &&& spec_punct(s[t.span.start as int]) == Some(p)
        },
        TokenKind::Unlintable => {
            &&& t.span.spec_len() == 1
            &&& !is_newline_char(s[t.span.start as int])
            &&& !is_space_char(s[t.span.start as int])
            &&& !is_word_char(s[t.span.start as int])
            &&& spec_punct(s[t.span.start as int]) is None
        },
    }
}

/// The length of the leading newline run.
pub open spec fn newline_run(s: Seq<char>) -> int
    decreases s.len(),
{
    if s.len() == 0 || !is_newline_char(s.first()) {
        0
    } else {
        1 + newline_run(s.drop_first())
    }
}

/// The length of the leading horizontal-whitespace run.
pub open spec fn space_run(s: Seq<char>) -> int
    decreases s.len(),
{
    if s.len() == 0 || !is_space_char(s.first()) {
        0
    } else {
        1 + space_run(s.drop_first())
    }
}

/// The length of the leading word-character run.
pub open spec fn word_run(s: Seq<char>) -> int
    decreases s.len(),
{
    if s.len() == 0 || !is_word_char(s.first()) {
        0
    } else {
        1 + word_run(s.drop_first())
    }
}

proof fn lemma_newline_run_is(t: Seq<char>, n: int)
    requires
        0 <= n <= t.len(),
        forall|m: int| 0 <= m < n ==> is_newline_char(#[trigger] t[m]),
        n == t.len() || !is_newline_char(t[n]),
    ensures
        newline_run(t) == n,
    decreases n,
{
    if n > 0 {
        assert(is_newline_char(t[0]));
        assert forall|m: int| 0 <= m < n - 1 implies is_newline_char(
            #[trigger] t.drop_first()[m],
        ) by {
            assert(t.drop_first()[m] == t[m + 1]);
        }
        lemma_newline_run_is(t.drop_first(), n - 1);
    }
}

proof fn lemma_space_run_is(t: Seq<char>, n: int)
    requires
        0 <= n <= t.len(),
        forall|m: int| 0 <= m < n ==> is_space_char(#[trigger] t[m]),
        n == t.len() || !is_space_char(t[n]),
    ensures
        space_run(t) == n,
    decreases n,
{
    if n > 0 {
        assert(is_space_char(t[0]));
        assert forall|m: int| 0 <= m < n - 1 implies is_space_char(
            #[trigger] t.drop_first()[m],
        ) by {
            assert(t.drop_first()[m] == t[m + 1]);
        }
        lemma_space_run_is(t.drop_first(), n - 1);
    }
}

proof fn lemma_word_run_is(t: Seq<char>, n: int)
    requires
        0 <= n <= t.len(),
        forall|m: int| 0 <= m < n ==> is_word_char(#[trigger] t[m]),
        n == t.len() || !is_word_char(t[n]),
    ensures
        word_run(t) == n,
    decreases n,
{
    if n > 0 {
        assert(is_word_char(t[0]));
        assert forall|m: int| 0 <= m < n - 1 implies is_word_char(
            #[trigger] t.drop_first()[m],
        ) by {
            assert(t.drop_first()[m] == t[m + 1]);
        }
        lemma_word_run_is(t.drop_first(), n - 1);
    }
}

proof fn lemma_runs_bounded(s: Seq<char>)
    ensures
        0 <= newline_run(s) <= s.len(),
        0 <= space_run(s) <= s.len(),
        0 <= word_run(s) <= s.len(),
    decreases s.len(),
{
    if s.len() > 0 {
        lemma_runs_bounded(s.drop_first());
    }
}

/// What the base tokenizer returns, as a function of the text alone:
/// the maximal leading run of the first character's class becomes one
/// token, and the rest of the text is tokenized after it, its spans
/// translated past the run. The classification chain is newline, then
/// horizontal space, then alphabetic, then punctuation, then a
/// one-character `Unlintable`.
pub open spec fn plain_tokens(s: Seq<char>) -> Seq<TokenModel>
    decreases s.len(),
    via plain_tokens_decreases
{
    if s.len() == 0 {
        Seq::empty()
    } else {
        let c = s.first();
        if is_newline_char(c) {
            let n = newline_run(s);
            seq![TokenModel { start: 0, end: n, kind: TokenKind::Newline(n as usize) }]
                + shift_models(plain_tokens(s.skip(n)), n)
        } else if is_space_char(c) {
            let n = space_run(s);
            seq![TokenModel { start: 0, end: n, kind: TokenKind::Space(n as usize) }]
                + shift_models(plain_tokens(s.skip(n)), n)
        } else if is_word_char(c) {
            let n = word_run(s);
            seq![TokenModel { start: 0, end: n, kind: TokenKind::Word }] + shift_models(
                plain_tokens(s.skip(n)),
                n,
            )
        } else {
            let k = match spec_punct(c) {
                Some(p) => TokenKind::Punctuation(p),
                None => TokenKind::Unlintable,
            };
            seq![TokenModel { start: 0, end: 1, kind: k }] + shift_models(
                plain_tokens(s.skip(1)),
                1,
            )
        }
    }
}

#[via_fn]
proof fn plain_tokens_decreases(s: Seq<char>) {
    if s.len() > 0 {
        lemma_runs_bounded(s);
        lemma_runs_bounded(s.drop_first());
    }
}

/// One step of the decomposition, moved from run-local coordinates to
/// document coordinates.
proof fn lemma_plain_step(s: Seq<char>, i: int, j: int, k: TokenKind)
    requires
        0 <= i < j <= s.len(),
        plain_tokens(s.skip(i)) == seq![TokenModel { start: 0, end: j - i, kind: k }]
            + shift_models(plain_tokens(s.skip(j)), j - i),
    ensures
        shift_models(plain_tokens(s.skip(i)), i) == seq![TokenModel { start: i, end: j, kind: k }]
            + shift_models(plain_tokens(s.skip(j)), j),
{
    let one = seq![TokenModel { start: 0, end: j - i, kind: k }];
    lemma_shift_models_concat(one, shift_models(plain_tokens(s.skip(j)), j - i), i);
    lemma_shift_models_compose(plain_tokens(s.skip(j)), j - i, i);
    assert(one.drop_last() =~= Seq::<TokenModel>::empty());
    assert(shift_models(one.drop_last(), i) == Seq::<TokenModel>::empty());
    assert(shift_models(one, i) =~= seq![TokenModel { start: i, end: j, kind: k }]);
}

/// The base tokenizer. It assumes no markup: runs of alphabetic
/// characters become `Word`, runs of horizontal whitespace `Space(n)`,
/// runs of newline characters `Newline(n)`, punctuation marks
/// `Punctuation`, and any other character a one-character `Unlintable`.
pub struct PlainEnglish;

impl PlainEnglish {
    /// Tokenizes plain text. The result is exactly `plain_tokens` of
    /// the input: spans tile the input and every token correctly and
    /// maximally classifies its characters.
    #[verifier::loop_isolation(false)]
    #[verifier::rlimit(100)]
    pub fn parse(&mut self, source: &[char]) -> (r: Vec<Token>)
        ensures
            tokens_tile(r@, source@.len()),
            forall|k: int| 0 <= k < r@.len() ==> plain_token_ok(source@, #[trigger] r@[k]),
            tokens_model(r@) == plain_tokens(source@),
    {
        let len = source.len();
        let mut toks: Vec<Token> = Vec::new();
        let mut i: usize = 0;
        proof {
            assert(source@.skip(0) =~= source@);
            lemma_shift_models_zero(plain_tokens(source@));
            assert(tokens_model(toks@) + shift_models(plain_tokens(source@.skip(0)), 0)
                =~= plain_tokens(source@));
        }
        while i < len
            invariant
                i <= len,
                tokens_tile(toks@, i as nat),
                forall|k: int| 0 <= k < toks@.len() ==> plain_token_ok(source@, #[trigger] toks@[k]),
                plain_tokens(source@) == tokens_model(toks@) + shift_models(
                    plain_tokens(source@.skip(i as int)),
                    i as int,
                ),
            decreases len - i,
        {
            let ghost sk = source@.skip(i as int);
            proof {
                assert(sk.first() == source@[i as int]);
            }
            let c = source[i];
            let kind: TokenKind;
            let mut j: usize = i + 1;
            if c == '\n' {
                while j < len && source[j] == '\n'
                    invariant
                        i < j <= len,
                        forall|m: int| i <= m < j ==> is_newline_char(#[trigger] source@[m]),
                    decreases len - j,
                {
                    j = j + 1;
                }
                kind = TokenKind::Newline(j - i);
                proof {
                    assert forall|m: int| 0 <= m < j - i implies is_newline_char(
                        #[trigger] sk[m],
                    ) by {
                        assert(sk[m] == source@[i + m]);
                    }
                    lemma_newline_run_is(sk, j - i);
                }
            } else if space_char(c) {
                while j < len && space_char(source[j])
                    invariant
                        i < j <= len,
                        forall|m: int| i <= m < j ==> is_space_char(#[trigger] source@[m]),
                    decreases len - j,
                {
                    j = j + 1;
                }
                kind = TokenKind::Space(j - i);
                proof {
                    assert forall|m: int| 0 <= m < j - i implies is_space_char(
                        #[trigger] sk[m],
                    ) by {
                        assert(sk[m] == source@[i + m]);
                    }
                    lemma_space_run_is(sk, j - i);
                }
            } else if word_char(c) {
                while j < len && word_char(source[j])
                    invariant
                        i < j <= len,
                        forall|m: int| i <= m < j ==> is_word_char(#[trigger] source@[m]),
                    decreases len - j,
                {
                    j = j + 1;
                }
                kind = TokenKind::Word;
                proof {
                    assert forall|m: int| 0 <= m < j - i implies is_word_char(
                        #[trigger] sk[m],
                    ) by {
                        assert(sk[m] == source@[i + m]);
                    }
                    lemma_word_run_is(sk, j - i);
                }
            } else {
                match punct_kind(c) {
                    Some(p) => {
                        kind = TokenKind::Punctuation(p);
                    },
                    None => {
                        kind = TokenKind::Unlintable;
                    },
                }
            }
            proof {
                assert(sk.skip(j - i as int) =~= source@.skip(j as int));
                assert(plain_tokens(sk) == seq![
                    TokenModel { start: 0, end: j - i as int, kind },
                ] + shift_models(plain_tokens(source@.skip(j as int)), j - i as int));
                lemma_plain_step(source@, i as int, j as int, kind);
            }
            let t = Token { span: Span { start: i, end: j }, kind };
            assert(plain_token_ok(source@, t));
            let ghost prev = toks@;
            toks.push(t);
            proof {
                assert(toks@.drop_last() =~= prev);
                assert(token_model(toks@.last()) == (TokenModel {
                    start: i as int,
                    end: j as int,
                    kind,
                }));
                assert(tokens_model(toks@) == tokens_model(prev) + seq![
                    TokenModel { start: i as int, end: j as int, kind },
                ]);
                assert(tokens_model(prev) + (seq![
                    TokenModel { start: i as int, end: j as int, kind },
                ] + shift_models(plain_tokens(source@.skip(j as int)), j as int)) =~= tokens_model(
                    toks@,
                ) + shift_models(plain_tokens(source@.skip(j as int)), j as int));
            }
            i = j;
        }
        proof {
            assert(source@.skip(len as int).len() == 0);
            assert(shift_models(plain_tokens(source@.skip(len as int)), len as int)
                =~= Seq::<TokenModel>::empty());
            assert(tokens_model(toks@) + Seq::<TokenModel>::empty() =~= tokens_model(toks@));
        }
        toks
    }
}

} // verus!
