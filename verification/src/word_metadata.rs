use vstd::prelude::*;

verus! {

/// A coarse part-of-speech tag.
#[derive(Clone, Copy, Debug, PartialEq, Eq, Structural)]
pub enum WordKind {
    Noun,
    Verb,
    Adjective,
}

/// A tense-like tag.
#[derive(Clone, Copy, Debug, PartialEq, Eq, Structural)]
pub enum Tense {
    Past,
    Present,
    Future,
}

/// Grammatical metadata attached to a dictionary word. Affix rules
/// contribute deltas that are merged field by field.
#[derive(Clone, Copy, Debug, PartialEq, Eq)]
pub struct WordMetadata {
    pub kind: Option<WordKind>,
    pub tense: Option<Tense>,
}

/// Metadata with nothing set: the base metadata of every word read
/// from the word list.
pub open spec fn empty_metadata() -> WordMetadata {
    WordMetadata { kind: None, tense: None }
}

/// The field-granular merge rule: a field set by the later contributor
/// wins; an unset field keeps the earlier value. This conflict rule is
/// associative and is the one the expansion engine commits to.
pub open spec fn spec_merge(a: WordMetadata, b: WordMetadata) -> WordMetadata {
    WordMetadata {
        kind: if b.kind is Some {
            b.kind
        } else {
            a.kind
        },
        tense: if b.tense is Some {
            b.tense
        } else {
            a.tense
        },
    }
}

impl WordMetadata {
    pub fn new_empty() -> (r: WordMetadata)
        ensures
            r == empty_metadata(),
    {
        WordMetadata { kind: None, tense: None }
    }

    /// Merges `other` over `self` under the documented conflict rule.
    pub fn merge(&self, other: &WordMetadata) -> (r: WordMetadata)
        ensures
            r == spec_merge(*self, *other),
    {
        WordMetadata {
            kind: match other.kind {
                Some(k) => Some(k),
                None => self.kind,
            },
            tense: match other.tense {
                Some(t) => Some(t),
                None => self.tense,
            },
        }
    }
}

/// The merge rule is associative, so sharded expansions may combine
/// their contributions in any grouping.
pub proof fn lemma_merge_associative(a: WordMetadata, b: WordMetadata, c: WordMetadata)
    ensures
        spec_merge(spec_merge(a, b), c) == spec_merge(a, spec_merge(b, c)),
{
}

} // verus!
