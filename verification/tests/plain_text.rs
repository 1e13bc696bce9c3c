use harper_core::{PlainEnglish, Punctuation, Span, TokenKind};

fn split(text: &str) -> Vec<char> {
    text.chars().collect()
}

#[test]
fn base_tokenizer_classifies_runs() {
    let source = split("Hello, world!\n\nok");
    let tokens = PlainEnglish.parse(&source);

    let kinds: Vec<TokenKind> = tokens.iter().map(|t| t.kind).collect();
    assert_eq!(
        kinds,
        vec![
            TokenKind::Word,
            TokenKind::Punctuation(Punctuation::Comma),
            TokenKind::Space(1),
            TokenKind::Word,
            TokenKind::Punctuation(Punctuation::Bang),
            TokenKind::Newline(2),
            TokenKind::Word,
        ]
    );

    let mut cursor = 0;
    for t in &tokens {
        assert_eq!(t.span.start, cursor);
        cursor = t.span.end;
    }
    assert_eq!(cursor, source.len());
}

#[test]
fn base_tokenizer_marks_unknown_chars() {
    let source = split("a 7 b");
    let tokens = PlainEnglish.parse(&source);
    let kinds: Vec<TokenKind> = tokens.iter().map(|t| t.kind).collect();
    assert_eq!(
        kinds,
        vec![
            TokenKind::Word,
            TokenKind::Space(1),
            TokenKind::Unlintable,
            TokenKind::Space(1),
            TokenKind::Word,
        ]
    );
}

#[test]
fn span_helpers() {
    let s = Span::new(2, 5);
    assert_eq!(s.len(), 3);
    let mut t = Span::new_with_len(1, 4);
    assert_eq!(t.end, 5);
    t.shift(10);
    assert_eq!((t.start, t.end), (11, 15));
}

#[test]
fn token_kind_predicates() {
    assert!(TokenKind::Word.is_word());
    assert!(TokenKind::Newline(2).is_newline());
    assert!(TokenKind::Space(1).is_space());
    assert!(TokenKind::Unlintable.is_unlintable());
    assert!(!TokenKind::Word.is_unlintable());
}
