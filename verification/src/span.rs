use vstd::prelude::*;

verus! {

/// A half-open range of character offsets into a document.
///
/// Zero-length spans are legal and serve as markers. A well-formed
/// span never has its start after its end.
#[derive(Clone, Copy, Debug, PartialEq, Eq, Structural)]
pub struct Span {
    pub start: usize,
    pub end: usize,
}

impl Span {
    /// Whether the span is a well-formed half-open range.
    pub open spec fn wf(self) -> bool {
        self.start <= self.end
    }

    /// The number of characters the span covers.
    pub open spec fn spec_len(self) -> int {
        self.end - self.start
    }

    pub fn new(start: usize, end: usize) -> (r: Span)
        requires
            start <= end,
        ensures
            r.start == start,
            r.end == end,
            r.wf(),
    {
        Span { start, end }
    }

    pub fn new_with_len(start: usize, len: usize) -> (r: Span)
        requires
            start + len <= usize::MAX,
        ensures
            r.start == start,
            r.end == start + len,
            r.wf(),
    {
        Span { start, end: start + len }
    }

    pub fn len(&self) -> (r: usize)
        requires
            self.wf(),
        ensures
            r == self.spec_len(),
    {
        self.end - self.start
    }

    /// Translates both ends forward, re-embedding a sub-parse's offsets
    /// into the parent document's coordinate space.
    pub fn shift(&mut self, by: usize)
        requires
            old(self).wf(),
            old(self).end + by <= usize::MAX,
        ensures
            final(self).start == old(self).start + by,
            final(self).end == old(self).end + by,
            final(self).wf(),
    {
        self.start = self.start + by;
        self.end = self.end + by;
    }
}

} // verus!
