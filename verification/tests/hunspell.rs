use harper_core::{
    Error, HumanReadableAttributeList, HumanReadableExpansion, HumanReadableReplacement,
    Tense, WordMap, WordMetadata, parse_default_attribute_list, parse_default_word_list,
    parse_word_list,
};

pub const TEST_WORD_LIST: &str = "3\nhello\ntry/B\nwork/AB";

fn split(text: &str) -> Vec<char> {
    text.chars().collect()
}

fn none_meta() -> WordMetadata {
    WordMetadata { kind: None, tense: None }
}

fn rep(remove: &str, add: &str, condition: &str) -> HumanReadableReplacement {
    HumanReadableReplacement {
        remove: split(remove),
        add: split(add),
        condition: split(condition),
    }
}

fn exp(
    suffix: bool,
    cross_product: bool,
    replacements: Vec<HumanReadableReplacement>,
    adds_metadata: WordMetadata,
) -> HumanReadableExpansion {
    HumanReadableExpansion { suffix, cross_product, replacements, adds_metadata }
}

/// The two-rule table used by the expansion tests: `A` prefixes `re`,
/// `B` suffixes `ed` (or `ied` after `y`).
fn ab_table() -> HumanReadableAttributeList {
    HumanReadableAttributeList {
        affixes: vec![
            ('A', exp(false, true, vec![rep("", "re", ".")], none_meta())),
            (
                'B',
                exp(
                    true,
                    true,
                    vec![rep("", "ed", "[^y]"), rep("y", "ied", "y")],
                    none_meta(),
                ),
            ),
        ],
    }
}

#[test]
fn correctly_expands_test_files() {
    let words = parse_word_list(TEST_WORD_LIST).unwrap();
    let attributes = ab_table().to_normal().unwrap();

    let mut expanded = WordMap::new();
    attributes.expand_marked_words(&words, &mut expanded);

    let expected = ["hello", "tried", "reworked", "rework", "worked", "work", "try"];
    for w in expected {
        assert!(expanded.contains_key(&split(w)), "missing {w}");
    }
    assert_eq!(expanded.words().len(), expected.len());
}

#[test]
fn plural_giants() {
    let words = parse_word_list("1\ngiant/SM").unwrap();

    let attributes = HumanReadableAttributeList {
        affixes: vec![
            (
                'S',
                exp(
                    true,
                    true,
                    vec![
                        rep("y", "ies", "[^aeiou]"),
                        rep("", "s", "[aeiou]y"),
                        rep("", "s", "[^sxzhy]"),
                    ],
                    none_meta(),
                ),
            ),
            ('M', exp(true, true, vec![rep("", "'s", ".")], none_meta())),
        ],
    }
    .to_normal()
    .unwrap();

    let mut expanded = WordMap::new();
    attributes.expand_marked_words(&words, &mut expanded);

    assert!(expanded.contains_key(&split("giants")))
}

fn build_expanded() -> WordMap {
    let words = parse_default_word_list().unwrap();
    let attributes = parse_default_attribute_list();

    let mut expanded = WordMap::new();
    attributes.expand_marked_words(&words, &mut expanded);

    expanded
}

#[test]
fn can_expand_default() {
    build_expanded();
}

#[test]
fn expanded_contains_giants() {
    assert!(build_expanded().contains_key(&split("giants")));
}

#[test]
fn expanded_contains_deallocate() {
    assert!(build_expanded().contains_key(&split("deallocate")));
}

#[test]
fn expansion_is_deterministic() {
    let first = build_expanded();
    let second = build_expanded();
    let mut first_words: Vec<String> = first
        .words()
        .into_iter()
        .map(|w| w.into_iter().collect())
        .collect();
    let mut second_words: Vec<String> = second
        .words()
        .into_iter()
        .map(|w| w.into_iter().collect())
        .collect();
    first_words.sort();
    second_words.sort();
    assert_eq!(first_words, second_words);
}

#[test]
fn expansion_is_idempotent() {
    let words = parse_word_list(TEST_WORD_LIST).unwrap();
    let attributes = ab_table().to_normal().unwrap();

    let mut expanded = WordMap::new();
    attributes.expand_marked_words(&words, &mut expanded);
    let mut once: Vec<String> = expanded
        .words()
        .into_iter()
        .map(|w| w.into_iter().collect())
        .collect();

    attributes.expand_marked_words(&words, &mut expanded);
    let mut twice: Vec<String> = expanded
        .words()
        .into_iter()
        .map(|w| w.into_iter().collect())
        .collect();

    once.sort();
    twice.sort();
    assert_eq!(once, twice);
}

#[test]
fn unknown_flag_keeps_base_word() {
    let with_unknown = parse_word_list("1\nfoo/Z").unwrap();
    let without = parse_word_list("1\nfoo").unwrap();
    let attributes = ab_table().to_normal().unwrap();

    let mut e1 = WordMap::new();
    attributes.expand_marked_words(&with_unknown, &mut e1);
    let mut e2 = WordMap::new();
    attributes.expand_marked_words(&without, &mut e2);

    assert!(e1.contains_key(&split("foo")));
    assert_eq!(e1.words().len(), e2.words().len());
}

#[test]
fn unknown_flag_does_not_drop_valid_flags() {
    let words = parse_word_list("1\nwork/ZB").unwrap();
    let attributes = ab_table().to_normal().unwrap();
    let mut expanded = WordMap::new();
    attributes.expand_marked_words(&words, &mut expanded);
    assert!(expanded.contains_key(&split("work")));
    assert!(expanded.contains_key(&split("worked")));
}

#[test]
fn past_tense_metadata_is_merged() {
    let expanded = build_expanded();
    let jumped = split("jumped");
    let meta = expanded.get(&jumped).expect("jumped should be derived");
    assert_eq!(meta.tense, Some(Tense::Past));
}

#[test]
fn word_list_count_must_be_decimal() {
    assert_eq!(parse_word_list("abc\nhello"), Err(Error::MalformedCount));
    assert_eq!(parse_word_list(""), Err(Error::MalformedCount));
}

#[test]
fn word_list_empty_word_is_reported_with_line() {
    assert_eq!(
        parse_word_list("2\nhello\n/AB"),
        Err(Error::MalformedWord { line: 3 })
    );
}

#[test]
fn word_list_tolerates_blank_lines_and_count_mismatch() {
    let words = parse_word_list("99\n\n  hello \n\n").unwrap();
    assert_eq!(words.len(), 1);
    assert_eq!(words[0].word, split("hello"));
    assert!(words[0].flags.is_empty());
}

#[test]
fn malformed_condition_fails_whole_load() {
    let table = HumanReadableAttributeList {
        affixes: vec![('Q', exp(true, true, vec![rep("", "s", "[ab")], none_meta()))],
    };
    assert!(matches!(
        table.to_normal(),
        Err(Error::MalformedCondition { flag: 'Q' })
    ));
}
