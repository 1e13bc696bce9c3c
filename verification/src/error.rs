use vstd::prelude::*;

verus! {

/// Failures of the dictionary resource loaders.
///
/// A malformed word-list line is reported with its 1-based line
/// number; a malformed affix condition aborts the whole rule-table
/// load, since a partially trusted rule table is unacceptable.
#[derive(Clone, Copy, Debug, PartialEq, Eq, Structural)]
pub enum Error {
    /// The word list's leading count line is not a decimal number.
    MalformedCount,
    /// A word-list line has an empty word.
    MalformedWord { line: usize },
    /// An affix condition pattern of the named flag does not compile.
    MalformedCondition { flag: char },
}

} // verus!
