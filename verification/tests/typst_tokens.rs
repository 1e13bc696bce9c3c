use harper_core::{Punctuation, Token, TokenKind, Typst};

fn all_chars_tokenized(tokens: &Vec<Token>) -> bool {
    let mut cursor = 0;
    for token in tokens {
        if token.span.start > cursor + 1 {
            return false;
        }

        cursor = token.span.end;
    }
    true
}

#[test]
fn regular_text() {
    let source = "This is a test.";

    let tokens = Typst.parse_str(source);
    assert!(all_chars_tokenized(&tokens));
    assert!(tokens.last().unwrap().span.end == source.len());

    let token_kinds = tokens.iter().map(|t| t.kind).collect::<Vec<_>>();
    assert!(matches!(
        token_kinds.as_slice(),
        &[
            TokenKind::Word,
            TokenKind::Space(1),
            TokenKind::Word,
            TokenKind::Space(1),
            TokenKind::Word,
            TokenKind::Space(1),
            TokenKind::Word,
            TokenKind::Punctuation(Punctuation::Period)
        ]
    ));
}

#[test]
fn headings() {
    let source = "= This is a heading";

    let tokens = Typst.parse_str(source);
    assert!(all_chars_tokenized(&tokens));
    assert!(tokens.last().unwrap().span.end == source.len());

    let token_kinds = tokens.iter().map(|t| t.kind).collect::<Vec<_>>();
    assert!(matches!(
        token_kinds.as_slice(),
        &[
            TokenKind::Unlintable,
            TokenKind::Space(1),
            TokenKind::Word,
            TokenKind::Space(1),
            TokenKind::Word,
            TokenKind::Space(1),
            TokenKind::Word,
            TokenKind::Space(1),
            TokenKind::Word,
        ]
    ));
}

#[test]
fn lists() {
    let source = "- test one\n- test two\n- test three";

    let tokens = Typst.parse_str(source);
    assert_eq!(
        tokens
            .iter()
            .filter(|token| token.kind.is_newline())
            .count(),
        2
    );
    assert!(all_chars_tokenized(&tokens));

    let token_kinds = tokens.iter().map(|t| t.kind).collect::<Vec<_>>();
    assert!(matches!(
        token_kinds.as_slice(),
        &[
            TokenKind::Unlintable,
            TokenKind::Space(1),
            TokenKind::Word,
            TokenKind::Space(1),
            TokenKind::Word,
            TokenKind::Newline(2),
            TokenKind::Unlintable,
            TokenKind::Space(1),
            TokenKind::Word,
            TokenKind::Space(1),
            TokenKind::Word,
            TokenKind::Newline(2),
            TokenKind::Unlintable,
            TokenKind::Space(1),
            TokenKind::Word,
            TokenKind::Space(1),
            TokenKind::Word,
        ]
    ));
}

#[test]
fn inline_math() {
    let source = "Let $x = 27$.";

    let tokens = Typst.parse_str(source);
    assert_eq!(
        tokens
            .iter()
            .filter(|token| token.kind.is_unlintable())
            .count(),
        7
    );
    assert!(all_chars_tokenized(&tokens));
    assert!(tokens.last().unwrap().span.end == source.len());

    let token_kinds = tokens.iter().map(|t| t.kind).collect::<Vec<_>>();
    assert!(matches!(
        token_kinds.as_slice(),
        &[
            TokenKind::Word,
            TokenKind::Space(1),
            TokenKind::Unlintable,
            TokenKind::Unlintable,
            TokenKind::Unlintable,
            TokenKind::Unlintable,
            TokenKind::Unlintable,
            TokenKind::Unlintable,
            TokenKind::Unlintable,
            TokenKind::Punctuation(Punctuation::Period),
        ]
    ));
}

#[test]
fn empty_document_yields_no_tokens() {
    let tokens = Typst.parse_str("");
    assert!(tokens.is_empty());
}

#[test]
fn raw_region_is_unlintable() {
    let source = "a `code` b";
    let tokens = Typst.parse_str(source);
    assert!(all_chars_tokenized(&tokens));
    assert!(tokens.last().unwrap().span.end == source.len());
    // The two backticks and the raw content must all be unlintable.
    assert!(tokens.iter().filter(|t| t.kind.is_unlintable()).count() >= 2);
    assert!(tokens.iter().filter(|t| t.kind.is_word()).count() >= 2);
}

#[test]
fn spans_exactly_tile_the_input() {
    let source = "Let $x = 27$.\n\n= Heading\n- one\n- two";
    let tokens = Typst.parse_str(source);
    let mut cursor = 0;
    for t in &tokens {
        assert_eq!(t.span.start, cursor);
        assert!(t.span.start <= t.span.end);
        cursor = t.span.end;
    }
    assert_eq!(cursor, source.chars().count());
}
