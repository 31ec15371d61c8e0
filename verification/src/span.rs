//! Byte ranges into the source text.
use vstd::prelude::*;

verus! {

/// A half-open range `start..end` of byte offsets into the source text.
#[derive(Clone, Copy, Debug, PartialEq, Eq, Structural)]
pub struct Span {
    pub start: usize,
    pub end: usize,
}

impl Span {
    /// The range `start..end`.
    pub fn new(start: usize, end: usize) -> (r: Span)
        ensures
            r.start == start,
            r.end == end,
    {
        Span { start, end }
    }

    /// The smallest range that covers both `self` and `other`.
    pub open spec fn spec_merge(self, other: Span) -> Span {
        Span {
            start: if self.start <= other.start { self.start } else { other.start },
            end: if self.end >= other.end { self.end } else { other.end },
        }
    }
}

/// Merging gives the smallest range that covers both ranges; the order of the two does not
/// matter, and merging a range with itself gives it back.
pub proof fn law_merge_covers(a: Span, b: Span)
    ensures
        a.spec_merge(b).start <= a.start && a.spec_merge(b).start <= b.start,
        a.spec_merge(b).end >= a.end && a.spec_merge(b).end >= b.end,
        a.spec_merge(b).start == a.start || a.spec_merge(b).start == b.start,
        a.spec_merge(b).end == a.end || a.spec_merge(b).end == b.end,
        a.spec_merge(b) == b.spec_merge(a),
        a.spec_merge(a) == a,
{
}

} // verus!
