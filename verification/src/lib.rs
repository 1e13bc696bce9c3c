//! Analysis core of a grammar- and spell-checking engine.
//!
//! Two subsystems live here: a multi-dialect tokenizer that turns raw
//! document text into a span-annotated token stream while demarcating
//! prose from structurally non-lintable regions, and a hunspell-style
//! affix-expansion engine that turns a compact base word list plus a
//! rule table into a dictionary of valid surface forms with merged
//! grammatical metadata.

mod chars;
pub mod attribute_list;
pub mod error;
pub mod matcher;
pub mod plain_english;
pub mod span;
pub mod token;
pub mod typst;
pub mod word_list;
pub mod word_map;
pub mod word_metadata;

pub use attribute_list::{
    AttributeList, Expansion, HumanReadableAttributeList, HumanReadableExpansion,
    HumanReadableReplacement, Replacement, parse_default_attribute_list,
};
pub use error::Error;
pub use matcher::CondAtom;
pub use plain_english::PlainEnglish;
pub use span::Span;
pub use token::{Punctuation, Token, TokenKind};
pub use typst::Typst;
pub use word_list::{MarkedWord, parse_default_word_list, parse_word_list};
pub use word_map::WordMap;
pub use word_metadata::{Tense, WordKind, WordMetadata};
