use vstd::prelude::*;

use crate::plain_english::{
    PlainEnglish, is_newline_char, is_space_char, is_word_char, plain_token_ok, plain_tokens,
    spec_punct,
};
use crate::chars::{chars_to_string, str_to_chars};
use crate::span::Span;
use crate::token::{
    Token, TokenKind, TokenModel, lemma_tokens_model_injective, lemma_tokens_model_len,
    shift_models, token_model, tokens_model, tokens_tile,
};

verus! {

/// The structural kind tag of a syntax-tree leaf, reduced to what the
/// dialect tokenizer dispatches on. Every tag the state machine does
/// not treat specially collapses into `Other`.
#[derive(Clone, Copy, Debug, PartialEq, Eq, Structural)]
pub enum LeafKind {
    /// Prose, delegated to the base tokenizer.
    Text,
    /// Whitespace, horizontal or containing line breaks.
    Space,
    /// An inline-math delimiter; opens and closes a non-lintable region.
    MathDelim,
    /// A raw/code delimiter; opens and closes a non-lintable region.
    RawDelim,
    /// Any other structural node: markers, brackets, code, errors.
    Other,
}

/// One leaf of the syntax tree: its kind tag and the characters it
/// covers. Leaves carry their own text, so their concatenation is the
/// whole document.
pub struct Leaf {
    pub kind: LeafKind,
    pub text: Vec<char>,
}

/// The mathematical shape of a leaf: its kind tag and the characters
/// it covers.
pub struct LeafModel {
    pub kind: LeafKind,
    pub text: Seq<char>,
}

pub open spec fn leaf_model(l: Leaf) -> LeafModel {
    LeafModel { kind: l.kind, text: l.text@ }
}

/// The models of a leaf sequence, in order.
pub open spec fn leaves_view(s: Seq<Leaf>) -> Seq<LeafModel>
    decreases s.len(),
{
    if s.len() == 0 {
        Seq::empty()
    } else {
        leaves_view(s.drop_last()) + seq![leaf_model(s.last())]
    }
}

pub proof fn lemma_leaves_view_len(s: Seq<Leaf>)
    ensures
        leaves_view(s).len() == s.len(),
    decreases s.len(),
{
    if s.len() > 0 {
        lemma_leaves_view_len(s.drop_last());
    }
}

pub proof fn lemma_leaves_view_index(s: Seq<Leaf>, i: int)
    requires
        0 <= i < s.len(),
    ensures
        leaves_view(s).len() == s.len(),
        leaves_view(s)[i] == leaf_model(s[i]),
    decreases s.len(),
{
    lemma_leaves_view_len(s);
    if i < s.len() - 1 {
        lemma_leaves_view_index(s.drop_last(), i);
    } else {
        lemma_leaves_view_len(s.drop_last());
    }
}

/// The leaf sequence that parsing a document with typst_syntax yields.
/// typst_syntax::parse is a pure function of the text, so the sequence
/// depends on the source alone; it is only named here, never written
/// out.
pub uninterp spec fn typst_leaves_of(s: Seq<char>) -> Seq<LeafModel>;

/// The characters of a leaf sequence, concatenated in order.
pub open spec fn leaf_text_concat(leaves: Seq<Leaf>) -> Seq<char>
    decreases leaves.len(),
{
    if leaves.len() == 0 {
        Seq::empty()
    } else {
        leaves.first().text@ + leaf_text_concat(leaves.drop_first())
    }
}

/// The number of characters covered by the first `i` leaves.
pub open spec fn leaf_prefix_len(leaves: Seq<Leaf>, i: int) -> int
    decreases i,
{
    if i <= 0 {
        0
    } else {
        leaf_prefix_len(leaves, i - 1) + leaves[i - 1].text@.len()
    }
}

proof fn lemma_prefix_len_drop_first(leaves: Seq<Leaf>, i: int)
    requires
        1 <= i <= leaves.len(),
    ensures
        leaf_prefix_len(leaves, i) == leaves.first().text@.len() + leaf_prefix_len(
            leaves.drop_first(),
            i - 1,
        ),
    decreases i,
{
    if i == 1 {
        assert(leaf_prefix_len(leaves, 1) == leaf_prefix_len(leaves, 0) + leaves[0].text@.len());
        assert(leaf_prefix_len(leaves.drop_first(), 0) == 0);
    } else {
        lemma_prefix_len_drop_first(leaves, i - 1);
        assert(leaves.drop_first()[i - 2] == leaves[i - 1]);
        assert(leaf_prefix_len(leaves, i) == leaf_prefix_len(leaves, i - 1) + leaves[i
            - 1].text@.len());
        assert(leaf_prefix_len(leaves.drop_first(), i - 1) == leaf_prefix_len(
            leaves.drop_first(),
            i - 2,
        ) + leaves.drop_first()[i - 2].text@.len());
    }
}

/// The slice of the document that leaf `i` covers is exactly that
/// leaf's own text, and the prefix lengths stay within the document.
proof fn lemma_leaf_slice(leaves: Seq<Leaf>, i: int)
    requires
        0 <= i < leaves.len(),
    ensures
        0 <= leaf_prefix_len(leaves, i),
        leaf_prefix_len(leaves, i + 1) == leaf_prefix_len(leaves, i) + leaves[i].text@.len(),
        leaf_prefix_len(leaves, i + 1) <= leaf_text_concat(leaves).len(),
        leaves[i].text@ == leaf_text_concat(leaves).subrange(
            leaf_prefix_len(leaves, i),
            leaf_prefix_len(leaves, i + 1),
        ),
    decreases leaves.len(),
{
    let c = leaf_text_concat(leaves);
    lemma_concat_len(leaves);
    if i == 0 {
        assert(leaves[0].text@ =~= c.subrange(0, leaves[0].text@.len() as int));
    } else {
        let rest = leaves.drop_first();
        lemma_leaf_slice(rest, i - 1);
        lemma_prefix_len_drop_first(leaves, i);
        lemma_prefix_len_drop_first(leaves, i + 1);
        let f = leaves.first().text@.len() as int;
        assert(rest[i - 1] == leaves[i]);
        lemma_concat_len(rest);
        assert(leaf_text_concat(rest) =~= c.subrange(f, c.len() as int));
        assert(leaves[i].text@ =~= c.subrange(
            leaf_prefix_len(leaves, i),
            leaf_prefix_len(leaves, i + 1),
        ));
    }
}

/// The prefix length over all leaves is the length of the document.
proof fn lemma_concat_len(leaves: Seq<Leaf>)
    ensures
        leaf_prefix_len(leaves, leaves.len() as int) == leaf_text_concat(leaves).len(),
    decreases leaves.len(),
{
    if leaves.len() > 0 {
        lemma_concat_len(leaves.drop_first());
        lemma_prefix_len_drop_first(leaves, leaves.len() as int);
    }
}

/// The number of newline characters in a character sequence.
pub open spec fn nl_count(s: Seq<char>) -> int
    decreases s.len(),
{
    if s.len() == 0 {
        0
    } else {
        (if is_newline_char(s.first()) {
            1int
        } else {
            0int
        }) + nl_count(s.drop_first())
    }
}

proof fn lemma_nl_count_all_newlines(s: Seq<char>)
    requires
        forall|j: int| 0 <= j < s.len() ==> is_newline_char(#[trigger] s[j]),
    ensures
        nl_count(s) == s.len(),
    decreases s.len(),
{
    if s.len() > 0 {
        lemma_nl_count_all_newlines(s.drop_first());
    }
}

proof fn lemma_nl_count_nonneg(s: Seq<char>)
    ensures
        0 <= nl_count(s) <= s.len(),
    decreases s.len(),
{
    if s.len() > 0 {
        lemma_nl_count_nonneg(s.drop_first());
    }
}

fn count_nl(text: &Vec<char>) -> (r: usize)
    ensures
        r == nl_count(text@),
{
    let mut n: usize = 0;
    let mut i: usize = 0;
    while i < text.len()
        invariant
            i <= text@.len(),
            n == nl_count(text@.take(i as int)),
            n <= i,
        decreases text@.len() - i,
    {
        proof {
            assert(text@.take(i + 1).drop_last() =~= text@.take(i as int));
            lemma_nl_count_take_step(text@, i as int);
        }
        if text[i] == '\n' {
            n = n + 1;
        }
        i = i + 1;
    }
    proof {
        assert(text@.take(text@.len() as int) =~= text@);
    }
    n
}

proof fn lemma_nl_count_take_step(s: Seq<char>, i: int)
    requires
        0 <= i < s.len(),
    ensures
        nl_count(s.take(i + 1)) == nl_count(s.take(i)) + (if is_newline_char(s[i]) {
            1int
        } else {
            0int
        }),
    decreases i,
{
    if i == 0 {
        assert(s.take(1).drop_first() =~= s.take(0));
    } else {
        lemma_nl_count_take_step(s.drop_first(), i - 1);
        assert(s.take(i + 1).drop_first() =~= s.drop_first().take(i));
        assert(s.take(i).drop_first() =~= s.drop_first().take(i - 1));
    }
}

/// What the dialect tokenizer emits, as a function of the leaf
/// sequence alone. A cursor walks the leaves in order. While a
/// disable region is active every leaf becomes one `Unlintable` token,
/// and the first leaf of the region's kind closes it (a single active
/// region, never a stack). Otherwise: prose is delegated to the base
/// tokenizer with its spans translated to document coordinates; a
/// whitespace leaf becomes one `Newline(count + 1)` token when it
/// holds newline characters (the extra one marks the end of a lintable
/// section) and one `Space(len)` token otherwise; a math or raw
/// delimiter becomes `Unlintable` and opens a disable region of its
/// kind; every other leaf becomes one `Unlintable` token.
pub open spec fn dialect_tokens(
    leaves: Seq<LeafModel>,
    cursor: int,
    disable: Option<LeafKind>,
) -> Seq<TokenModel>
    decreases leaves.len(),
{
    if leaves.len() == 0 {
        Seq::empty()
    } else {
        let l = leaves.first();
        let end = cursor + l.text.len();
        let rest = leaves.drop_first();
        match disable {
            Some(k) => seq![TokenModel { start: cursor, end, kind: TokenKind::Unlintable }]
                + dialect_tokens(
                rest,
                end,
                if l.kind == k {
                    None
                } else {
                    Some(k)
                },
            ),
            None => match l.kind {
                LeafKind::Text => shift_models(plain_tokens(l.text), cursor) + dialect_tokens(
                    rest,
                    end,
                    None,
                ),
                LeafKind::Space => (if nl_count(l.text) > 0 {
                    seq![
                        TokenModel {
                            start: cursor,
                            end,
                            kind: TokenKind::Newline((nl_count(l.text) + 1) as usize),
                        },
                    ]
                } else {
                    seq![
                        TokenModel {
                            start: cursor,
                            end,
                            kind: TokenKind::Space(l.text.len() as usize),
                        },
                    ]
                }) + dialect_tokens(rest, end, None),
                LeafKind::MathDelim | LeafKind::RawDelim => seq![
                    TokenModel { start: cursor, end, kind: TokenKind::Unlintable },
                ] + dialect_tokens(rest, end, Some(l.kind)),
                LeafKind::Other => seq![
                    TokenModel { start: cursor, end, kind: TokenKind::Unlintable },
                ] + dialect_tokens(rest, end, None),
            },
        }
    }
}

/// What one token of the dialect tokenizer claims about the document,
/// a per-token soundness summary beside the exact stream that
/// `dialect_tokens` pins: no token is zero-width, `Word` and
/// `Punctuation` tokens correctly classify their characters, `Space`
/// carries its span's length, and a `Newline` token's count is the
/// number of newline characters it covers (a newline run inside
/// prose), or one more than that (a whitespace leaf marking the end
/// of a lintable section).
pub open spec fn dialect_token_ok(s: Seq<char>, t: Token) -> bool {
    &&& t.span.wf()
    &&& t.span.end <= s.len()
    &&& match t.kind {
        TokenKind::Word => {
            &&& t.span.spec_len() > 0
            &&& forall|j: int| t.span.start <= j < t.span.end ==> is_word_char(#[trigger] s[j])
        },
        TokenKind::Space(n) => n == t.span.spec_len() && t.span.spec_len() > 0,
        TokenKind::Newline(n) => {
            let w = s.subrange(t.span.start as int, t.span.end as int);
            &&& t.span.spec_len() > 0
            &&& 1 <= nl_count(w)
            &&& (n == nl_count(w) || n == nl_count(w) + 1)
        },
        TokenKind::Punctuation(p) => {
            &&& t.span.spec_len() == 1
            &&& !is_newline_char(s[t.span.start as int])
            &&& !is_space_char(s[t.span.start as int])
            &&& !is_word_char(s[t.span.start as int])
            &&& spec_punct(s[t.span.start as int]) == Some(p)
        },
        TokenKind::Unlintable => t.span.spec_len() > 0,
    }
}

/// Declares typst_syntax::SyntaxKind so that the conversion below may
/// take it as a parameter; the type stays opaque.
#[verifier::external_type_specification]
#[verifier::external_body]
pub struct ExSyntaxKind(typst_syntax::SyntaxKind);

/// Relies on typst_syntax::SyntaxKind only to tell its variants apart:
/// each arm moves a tag to the library's own kind. `Dollar` and
/// `RawDelim` stay distinct so that a non-lintable region closes only
/// on a delimiter of its opening kind; every tag without a special
/// role in the state machine collapses into `Other`.
#[verifier::external_body]
fn leaf_kind_of(k: typst_syntax::SyntaxKind) -> LeafKind {
    match k {
        typst_syntax::SyntaxKind::Text => LeafKind::Text,
        typst_syntax::SyntaxKind::Space | typst_syntax::SyntaxKind::Parbreak => LeafKind::Space,
        typst_syntax::SyntaxKind::Dollar => LeafKind::MathDelim,
        typst_syntax::SyntaxKind::RawDelim => LeafKind::RawDelim,
        _ => LeafKind::Other,
    }
}

/// Relies on typst_syntax::parse, LinkedNode::leaf_at and leaf_text.
/// The syntax tree is lossless: an inner node's length is the sum of
/// its children's, a leaf's length is its text's, and the tree's text
/// is the source. `leaf_at(c, Side::After)` returns the leaf containing
/// byte `c`, so walking the tree from byte zero yields every non-empty
/// leaf in order; their texts concatenate to exactly the source.
#[verifier::external_body]
fn parse_typst_leaves(source: &str) -> (r: Vec<Leaf>)
    ensures
        leaves_view(r@) == typst_leaves_of(source@),
        leaf_text_concat(r@) == source@,
        forall|i: int| 0 <= i < r@.len() ==> (#[trigger] r@[i]).text@.len() > 0,
{
    let tree = typst_syntax::parse(source);
    let root = typst_syntax::LinkedNode::new(&tree);
    let mut out: Vec<Leaf> = Vec::new();
    let mut cursor: usize = 0;
    while cursor < tree.len() {
        let node = root.leaf_at(cursor, typst_syntax::Side::After).unwrap();
        let text = node.get().leaf_text().chars().collect();
        out.push(Leaf { kind: leaf_kind_of(node.kind()), text });
        cursor = node.range().end;
    }
    out
}

/// Appends base-tokenizer output for one prose leaf, shifting every
/// span by the leaf's offset so the tokens land in document
/// coordinates.
#[verifier::rlimit(80)]
fn append_shifted(
    dest: &mut Vec<Token>,
    sub: &Vec<Token>,
    cursor: usize,
    Ghost(doc): Ghost<Seq<char>>,
    Ghost(piece): Ghost<Seq<char>>,
)
    requires
        tokens_tile(old(dest)@, cursor as nat),
        forall|k: int|
            0 <= k < old(dest)@.len() ==> dialect_token_ok(doc, #[trigger] old(dest)@[k]),
        tokens_tile(sub@, piece.len()),
        forall|k: int| 0 <= k < sub@.len() ==> plain_token_ok(piece, #[trigger] sub@[k]),
        cursor + piece.len() <= doc.len(),
        doc.len() <= usize::MAX,
        piece == doc.subrange(cursor as int, cursor + piece.len()),
    ensures
        tokens_tile(final(dest)@, (cursor + piece.len()) as nat),
        forall|k: int|
            0 <= k < final(dest)@.len() ==> dialect_token_ok(doc, #[trigger] final(dest)@[k]),
        tokens_model(final(dest)@) == tokens_model(old(dest)@) + shift_models(
            tokens_model(sub@),
            cursor as int,
        ),
{
    let mut q: usize = 0;
    let mut cov: usize = cursor;
    proof {
        assert(sub@.take(0) =~= Seq::<Token>::empty());
        assert(tokens_model(sub@.take(0)) == Seq::<TokenModel>::empty());
        assert(shift_models(tokens_model(sub@.take(0)), cursor as int)
            == Seq::<TokenModel>::empty());
        assert(tokens_model(old(dest)@) + Seq::<TokenModel>::empty() =~= tokens_model(
            old(dest)@,
        ));
    }
    while q < sub.len()
        invariant
            q <= sub@.len(),
            tokens_tile(sub@, piece.len()),
            forall|k: int| 0 <= k < sub@.len() ==> plain_token_ok(piece, #[trigger] sub@[k]),
            cursor + piece.len() <= doc.len(),
            doc.len() <= usize::MAX,
            piece == doc.subrange(cursor as int, cursor + piece.len()),
            cov == cursor + (if q == 0 {
                0int
            } else {
                sub@[q - 1].span.end as int
            }),
            tokens_tile(dest@, cov as nat),
            forall|k: int| 0 <= k < dest@.len() ==> dialect_token_ok(doc, #[trigger] dest@[k]),
            tokens_model(dest@) == tokens_model(old(dest)@) + shift_models(
                tokens_model(sub@.take(q as int)),
                cursor as int,
            ),
        decreases sub@.len() - q,
    {
        let t = sub[q];
        let nt = Token {
            span: Span { start: cursor + t.span.start, end: cursor + t.span.end },
            kind: t.kind,
        };
        proof {
            assert(plain_token_ok(piece, sub@[q as int]));
            lemma_shift_token(doc, piece, cursor as int, t, nt);
        }
        let ghost prev = dest@;
        dest.push(nt);
        proof {
            let ghost a = tokens_model(sub@.take(q as int));
            assert(sub@.take(q + 1).drop_last() =~= sub@.take(q as int));
            assert(sub@.take(q + 1).last() == sub@[q as int]);
            assert(tokens_model(sub@.take(q + 1)) == a + seq![token_model(sub@[q as int])]);
            assert((a + seq![token_model(sub@[q as int])]).drop_last() =~= a);
            assert((a + seq![token_model(sub@[q as int])]).last() == token_model(
                sub@[q as int],
            ));
            assert(shift_models(tokens_model(sub@.take(q + 1)), cursor as int) == shift_models(
                a,
                cursor as int,
            ) + seq![token_model(nt)]);
            assert(dest@.drop_last() =~= prev);
            assert(tokens_model(dest@) == tokens_model(prev) + seq![token_model(nt)]);
            assert((tokens_model(old(dest)@) + shift_models(a, cursor as int)) + seq![
                token_model(nt),
            ] =~= tokens_model(old(dest)@) + (shift_models(a, cursor as int) + seq![
                token_model(nt),
            ]));
        }
        cov = cursor + t.span.end;
        q = q + 1;
    }
    proof {
        assert(sub@.take(sub@.len() as int) =~= sub@);
    }
}

/// A base-tokenizer token, judged against the leaf's own text, remains
/// correct in document coordinates once its span is shifted by the
/// leaf's offset.
proof fn lemma_shift_token(doc: Seq<char>, piece: Seq<char>, cursor: int, t: Token, nt: Token)
    requires
        0 <= cursor,
        cursor + piece.len() <= doc.len(),
        piece == doc.subrange(cursor, cursor + piece.len()),
        plain_token_ok(piece, t),
        nt.kind == t.kind,
        nt.span.start == cursor + t.span.start,
        nt.span.end == cursor + t.span.end,
    ensures
        dialect_token_ok(doc, nt),
{
    let st = t.span.start as int;
    let en = t.span.end as int;
    let w = doc.subrange(nt.span.start as int, nt.span.end as int);
    let v = piece.subrange(st, en);
    assert(w =~= v);
    match t.kind {
        TokenKind::Word => {
            assert forall|j: int| nt.span.start <= j < nt.span.end implies is_word_char(
                #[trigger] doc[j],
            ) by {
                assert(doc[j] == piece[j - cursor]);
                assert(is_word_char(piece[j - cursor]));
            }
        },
        TokenKind::Newline(_) => {
            assert forall|j: int| 0 <= j < v.len() implies is_newline_char(#[trigger] v[j]) by {
                assert(v[j] == piece[st + j]);
                assert(is_newline_char(piece[st + j]));
            }
            lemma_nl_count_all_newlines(v);
        },
        TokenKind::Punctuation(_) => {
            assert(doc[nt.span.start as int] == piece[st]);
        },
        _ => {},
    }
}

/// The Typst dialect tokenizer.
///
/// It satisfies the same span contract as the base tokenizer while
/// additionally detecting structurally non-prose regions: math and raw
/// delimiters toggle a single non-nesting disable region, markers and
/// unrecognized nodes become `Unlintable`, whitespace nodes collapse
/// into `Space` or paragraph-break `Newline` tokens, and prose is
/// delegated to the base tokenizer with spans translated back into
/// document coordinates.
pub struct Typst;

impl Typst {
    /// Tokenizes Typst markup given as a character slice. The spans of
    /// the result exactly tile the input, and the token stream is
    /// exactly the state machine `dialect_tokens` run over the named
    /// leaf sequence of the source — a function of the source alone.
    pub fn parse(&mut self, source: &[char]) -> (r: Vec<Token>)
        requires
            source@.len() < usize::MAX,
        ensures
            tokens_tile(r@, source@.len()),
            forall|k: int| 0 <= k < r@.len() ==> dialect_token_ok(source@, #[trigger] r@[k]),
            tokens_model(r@) == dialect_tokens(typst_leaves_of(source@), 0, None),
            source@.len() == 0 ==> r@.len() == 0,
    {
        let s = chars_to_string(source);
        let leaves = parse_typst_leaves(s.as_str());
        let r = tokens_from_leaves(&leaves);
        proof {
            assert(leaves_view(leaves@) == typst_leaves_of(source@));
            if source@.len() == 0 {
                if leaves@.len() > 0 {
                    assert(leaf_text_concat(leaves@) == leaves@.first().text@ + leaf_text_concat(
                        leaves@.drop_first(),
                    ));
                    assert(leaf_text_concat(leaves@).len() > 0);
                }
            }
        }
        r
    }

    /// Tokenizes Typst markup given as a string slice, under the same
    /// contract.
    pub fn parse_str(&mut self, source: &str) -> (r: Vec<Token>)
        requires
            source@.len() < usize::MAX,
        ensures
            tokens_tile(r@, source@.len()),
            forall|k: int| 0 <= k < r@.len() ==> dialect_token_ok(source@, #[trigger] r@[k]),
            tokens_model(r@) == dialect_tokens(typst_leaves_of(source@), 0, None),
            source@.len() == 0 ==> r@.len() == 0,
    {
        let v = str_to_chars(source);
        self.parse(v.as_slice())
    }
}

/// The core state machine: walks the leaves in order, maintaining a
/// cursor and the optional kind that will close the active non-lintable
/// region. The result is exactly `dialect_tokens` of the leaf models,
/// and its spans tile the whole document.
#[verifier::rlimit(100)]
fn tokens_from_leaves(leaves: &Vec<Leaf>) -> (r: Vec<Token>)
    requires
        forall|i: int| 0 <= i < leaves@.len() ==> (#[trigger] leaves@[i]).text@.len() > 0,
        leaf_text_concat(leaves@).len() < usize::MAX,
    ensures
        tokens_tile(r@, leaf_text_concat(leaves@).len()),
        forall|k: int|
            0 <= k < r@.len() ==> dialect_token_ok(leaf_text_concat(leaves@), #[trigger] r@[k]),
        tokens_model(r@) == dialect_tokens(leaves_view(leaves@), 0, None),
        leaves@.len() == 0 ==> r@.len() == 0,
{
    let ghost doc = leaf_text_concat(leaves@);
    let ghost lv = leaves_view(leaves@);
    proof {
        lemma_concat_len(leaves@);
        lemma_leaves_view_len(leaves@);
        assert(lv.skip(0) =~= lv);
    }
    let mut toks: Vec<Token> = Vec::new();
    let mut cursor: usize = 0;
    let mut disable: Option<LeafKind> = None;
    let mut idx: usize = 0;
    while idx < leaves.len()
        invariant
            idx <= leaves@.len(),
            doc == leaf_text_concat(leaves@),
            lv == leaves_view(leaves@),
            lv.len() == leaves@.len(),
            doc.len() < usize::MAX,
            forall|i: int| 0 <= i < leaves@.len() ==> (#[trigger] leaves@[i]).text@.len() > 0,
            cursor == leaf_prefix_len(leaves@, idx as int),
            cursor <= doc.len(),
            leaf_prefix_len(leaves@, leaves@.len() as int) == doc.len(),
            tokens_tile(toks@, cursor as nat),
            forall|k: int| 0 <= k < toks@.len() ==> dialect_token_ok(doc, #[trigger] toks@[k]),
            dialect_tokens(lv, 0, None) == tokens_model(toks@) + dialect_tokens(
                lv.skip(idx as int),
                cursor as int,
                disable,
            ),
        decreases leaves@.len() - idx,
    {
        proof {
            lemma_leaf_slice(leaves@, idx as int);
            lemma_prefix_len_mono(leaves@, idx + 1, leaves@.len() as int);
            lemma_leaves_view_index(leaves@, idx as int);
            assert(lv.skip(idx as int).first() == lv[idx as int]);
            assert(lv.skip(idx as int).drop_first() =~= lv.skip(idx + 1));
        }
        let leaf = &leaves[idx];
        let ghost lm = leaf_model(leaves@[idx as int]);
        let ghost tail = dialect_tokens(lv.skip(idx + 1), leaf_prefix_len(leaves@, idx + 1), disable);
        let tlen = leaf.text.len();
        let end = cursor + tlen;
        let ghost prev = toks@;
        match disable {
            Some(k) => {
                let ghost g = TokenModel {
                    start: cursor as int,
                    end: end as int,
                    kind: TokenKind::Unlintable,
                };
                proof {
                    assert(dialect_tokens(lv.skip(idx as int), cursor as int, Some(k)) == seq![g]
                        + dialect_tokens(
                        lv.skip(idx + 1),
                        end as int,
                        if lm.kind == k {
                            None
                        } else {
                            Some(k)
                        },
                    ));
                }
                toks.push(Token { span: Span { start: cursor, end }, kind: TokenKind::Unlintable });
                if k == leaf.kind {
                    // The matching node closes the region; it is itself
                    // still marked unlintable.
                    disable = None;
                }
                proof {
                    assert(toks@.drop_last() =~= prev);
                    assert(token_model(toks@.last()) == g);
                    assert(tokens_model(toks@) == tokens_model(prev) + seq![g]);
                    assert(tokens_model(prev) + (seq![g] + dialect_tokens(
                        lv.skip(idx + 1),
                        end as int,
                        disable,
                    )) =~= tokens_model(toks@) + dialect_tokens(
                        lv.skip(idx + 1),
                        end as int,
                        disable,
                    ));
                }
            },
            None => {
                match leaf.kind {
                    LeafKind::Text => {
                        let mut english = PlainEnglish;
                        let sub = english.parse(leaf.text.as_slice());
                        append_shifted(&mut toks, &sub, cursor, Ghost(doc), Ghost(leaf.text@));
                        proof {
                            let ghost head = shift_models(plain_tokens(lm.text), cursor as int);
                            assert(tokens_model(sub@) == plain_tokens(lm.text));
                            assert(tokens_model(toks@) == tokens_model(prev) + head);
                            assert(dialect_tokens(lv.skip(idx as int), cursor as int, None)
                                == head + dialect_tokens(lv.skip(idx + 1), end as int, None));
                            assert(tokens_model(prev) + (head + dialect_tokens(
                                lv.skip(idx + 1),
                                end as int,
                                None,
                            )) =~= tokens_model(toks@) + dialect_tokens(
                                lv.skip(idx + 1),
                                end as int,
                                None,
                            ));
                        }
                    },
                    LeafKind::Space => {
                        let n = count_nl(&leaf.text);
                        proof {
                            lemma_nl_count_nonneg(leaf.text@);
                        }
                        let ghost g = if nl_count(lm.text) > 0 {
                            TokenModel {
                                start: cursor as int,
                                end: end as int,
                                kind: TokenKind::Newline((nl_count(lm.text) + 1) as usize),
                            }
                        } else {
                            TokenModel {
                                start: cursor as int,
                                end: end as int,
                                kind: TokenKind::Space(lm.text.len() as usize),
                            }
                        };
                        proof {
                            assert(dialect_tokens(lv.skip(idx as int), cursor as int, None)
                                == seq![g] + dialect_tokens(lv.skip(idx + 1), end as int, None));
                        }
                        if n > 0 {
                            // One more than the literal newline count, to
                            // mark the end of a lintable section.
                            toks.push(
                                Token {
                                    span: Span { start: cursor, end },
                                    kind: TokenKind::Newline(n + 1),
                                },
                            );
                        } else {
                            toks.push(
                                Token {
                                    span: Span { start: cursor, end },
                                    kind: TokenKind::Space(tlen),
                                },
                            );
                        }
                        proof {
                            assert(toks@.drop_last() =~= prev);
                            assert(token_model(toks@.last()) == g);
                            assert(tokens_model(toks@) == tokens_model(prev) + seq![g]);
                            assert(tokens_model(prev) + (seq![g] + dialect_tokens(
                                lv.skip(idx + 1),
                                end as int,
                                None,
                            )) =~= tokens_model(toks@) + dialect_tokens(
                                lv.skip(idx + 1),
                                end as int,
                                None,
                            ));
                        }
                    },
                    LeafKind::MathDelim | LeafKind::RawDelim => {
                        let ghost g = TokenModel {
                            start: cursor as int,
                            end: end as int,
                            kind: TokenKind::Unlintable,
                        };
                        proof {
                            assert(dialect_tokens(lv.skip(idx as int), cursor as int, None)
                                == seq![g] + dialect_tokens(
                                lv.skip(idx + 1),
                                end as int,
                                Some(lm.kind),
                            ));
                        }
                        disable = Some(leaf.kind);
                        toks.push(
                            Token { span: Span { start: cursor, end }, kind: TokenKind::Unlintable },
                        );
                        proof {
                            assert(toks@.drop_last() =~= prev);
                            assert(token_model(toks@.last()) == g);
                            assert(tokens_model(toks@) == tokens_model(prev) + seq![g]);
                            assert(tokens_model(prev) + (seq![g] + dialect_tokens(
                                lv.skip(idx + 1),
                                end as int,
                                Some(lm.kind),
                            )) =~= tokens_model(toks@) + dialect_tokens(
                                lv.skip(idx + 1),
                                end as int,
                                Some(lm.kind),
                            ));
                        }
                    },
                    LeafKind::Other => {
                        let ghost g = TokenModel {
                            start: cursor as int,
                            end: end as int,
                            kind: TokenKind::Unlintable,
                        };
                        proof {
                            assert(dialect_tokens(lv.skip(idx as int), cursor as int, None)
                                == seq![g] + dialect_tokens(lv.skip(idx + 1), end as int, None));
                        }
                        toks.push(
                            Token { span: Span { start: cursor, end }, kind: TokenKind::Unlintable },
                        );
                        proof {
                            assert(toks@.drop_last() =~= prev);
                            assert(token_model(toks@.last()) == g);
                            assert(tokens_model(toks@) == tokens_model(prev) + seq![g]);
                            assert(tokens_model(prev) + (seq![g] + dialect_tokens(
                                lv.skip(idx + 1),
                                end as int,
                                None,
                            )) =~= tokens_model(toks@) + dialect_tokens(
                                lv.skip(idx + 1),
                                end as int,
                                None,
                            ));
                        }
                    },
                }
            },
        }
        cursor = end;
        idx = idx + 1;
    }
    proof {
        assert(lv.skip(leaves@.len() as int).len() == 0);
        assert(dialect_tokens(lv.skip(leaves@.len() as int), cursor as int, disable)
            == Seq::<TokenModel>::empty());
        assert(tokens_model(toks@) + Seq::<TokenModel>::empty() =~= tokens_model(toks@));
        if leaves@.len() == 0 {
            assert(dialect_tokens(lv, 0, None) == Seq::<TokenModel>::empty());
            lemma_tokens_model_len(toks@);
        }
    }
    toks
}

/// Determinism: any two token vectors that satisfy the tokenizer's
/// model contract for the same source are equal, so independent calls
/// on equal input yield equal token streams.
pub proof fn lemma_parse_deterministic(a: Seq<Token>, b: Seq<Token>, source: Seq<char>)
    requires
        tokens_model(a) == dialect_tokens(typst_leaves_of(source), 0, None),
        tokens_model(b) == dialect_tokens(typst_leaves_of(source), 0, None),
    ensures
        a == b,
{
    lemma_tokens_model_injective(a, b);
}

proof fn lemma_prefix_len_mono(leaves: Seq<Leaf>, i: int, j: int)
    requires
        0 <= i <= j <= leaves.len(),
    ensures
        leaf_prefix_len(leaves, i) <= leaf_prefix_len(leaves, j),
    decreases j - i,
{
    if i < j {
        lemma_prefix_len_mono(leaves, i, j - 1);
        assert(leaves[j - 1].text@.len() >= 0);
    }
}

} // verus!
