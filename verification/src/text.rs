//! Byte offsets and half-open ranges of a source text.

use vstd::prelude::*;

verus! {

/// A half-open range `[start, end)` of byte offsets.
///
/// Every value holds `start <= end`.
#[derive(Clone, Copy, Debug, PartialEq, Eq, Structural)]
pub struct TextRange {
    start: u32,
    end: u32,
}

impl View for TextRange {
    type V = (int, int);

    closed spec fn view(&self) -> (int, int) {
        (self.start as int, self.end as int)
    }
}

impl TextRange {
    #[verifier::type_invariant]
    spec fn ordered(self) -> bool {
        self.start <= self.end
    }

    /// What holds of every range that the program holds: its bounds are
    /// ordered. A range that only a proof speaks of has to be told so.
    pub open spec fn wf(self) -> bool {
        0 <= self.lo() <= self.hi() <= u32::MAX
    }

    /// The first offset of the range.
    pub open spec fn lo(self) -> int {
        self@.0
    }

    /// The offset just past the range.
    pub open spec fn hi(self) -> int {
        self@.1
    }

    /// Whether the range covers the offset `at`.
    pub open spec fn covers(self, at: int) -> bool {
        self.lo() <= at < self.hi()
    }

    /// Whether every offset of `inner` lies between the bounds of `self`.
    pub open spec fn encloses(self, inner: TextRange) -> bool {
        self.lo() <= inner.lo() && inner.hi() <= self.hi()
    }

    /// Whether two ranges are in conflict as edits of one text: they start at
    /// the same offset, or the one that starts later starts before the other
    /// ends. An empty range therefore conflicts exactly with the ranges that
    /// cover its offset and with those that start there.
    pub open spec fn overlaps(self, other: TextRange) -> bool {
        if self.lo() == other.lo() {
            true
        } else if self.lo() < other.lo() {
            other.lo() < self.hi()
        } else {
            self.lo() < other.hi()
        }
    }

    /// The range with the bounds `lo` and `hi`, for bounds that a range can
    /// have.
    pub closed spec fn spec_new(lo: int, hi: int) -> TextRange {
        TextRange { start: lo as u32, end: hi as u32 }
    }

    /// A range is its two bounds.
    pub broadcast proof fn lemma_spec_new(lo: int, hi: int)
        requires
            0 <= lo <= hi <= u32::MAX,
        ensures
            (#[trigger] TextRange::spec_new(lo, hi)).lo() == lo,
            TextRange::spec_new(lo, hi).hi() == hi,
            TextRange::spec_new(lo, hi).wf(),
    {
    }

    /// The range from `start` up to `end`.
    pub fn new(start: u32, end: u32) -> (r: TextRange)
        requires
            start <= end,
        ensures
            r == TextRange::spec_new(start as int, end as int),
            r.wf(),
            r.lo() == start,
            r.hi() == end,
    {
        TextRange { start, end }
    }

    /// The empty range at `offset`.
    pub fn empty(offset: u32) -> (r: TextRange)
        ensures
            r == TextRange::spec_new(offset as int, offset as int),
            r.wf(),
            r.lo() == offset,
            r.hi() == offset,
    {
        TextRange { start: offset, end: offset }
    }

    /// The first offset of the range.
    pub fn start(&self) -> (r: u32)
        ensures
            r == self.lo(),
            self.wf(),
    {
        proof {
            use_type_invariant(self);
        }
        self.start
    }

    /// The offset just past the range.
    pub fn end(&self) -> (r: u32)
        ensures
            r == self.hi(),
            self.wf(),
    {
        proof {
            use_type_invariant(self);
        }
        self.end
    }

    /// The number of bytes in the range.
    pub fn len(&self) -> (r: u32)
        ensures
            r == self.hi() - self.lo(),
    {
        proof {
            use_type_invariant(self);
        }
        self.end - self.start
    }

    /// Whether the range holds no byte.
    pub fn is_empty(&self) -> (r: bool)
        ensures
            r == (self.lo() == self.hi()),
    {
        self.start == self.end
    }

    /// Whether `offset` lies in the range.
    pub fn contains(&self, offset: u32) -> (r: bool)
        ensures
            r == self.covers(offset as int),
    {
        self.start <= offset && offset < self.end
    }

    /// Whether `inner` lies within the range.
    pub fn contains_range(&self, inner: TextRange) -> (r: bool)
        ensures
            r == self.encloses(inner),
    {
        self.start <= inner.start && inner.end <= self.end
    }

    /// Whether the two ranges conflict as edits.
    pub fn conflicts_with(&self, other: &TextRange) -> (r: bool)
        ensures
            r == self.overlaps(*other),
    {
        if self.start == other.start {
            true
        } else if self.start < other.start {
            other.start < self.end
        } else {
            self.start < other.end
        }
    }
}

} // verus!
