//! Half-open key ranges and how they are ordered.
use vstd::prelude::*;

verus! {

/// A half-open range `[start, end)` of keys. A segment with `start == end`
/// holds no keys; it is a point marker at `start`.
#[derive(Clone, Copy, Debug, PartialEq, Eq, Hash, Structural)]
pub struct Segment {
    pub start: i64,
    pub end: i64,
}

impl Segment {
    /// A segment never runs backwards.
    pub open spec fn wf(self) -> bool {
        self.start <= self.end
    }

    /// A point marker: a segment that holds no key.
    pub open spec fn is_marker(self) -> bool {
        self.start == self.end
    }

    /// Where the segment begins on a doubled number line, on which key `k`
    /// sits at `2k + 1` and the boundary in front of it at `2k`. A point
    /// marker at `p` is the single boundary position `2p`.
    pub open spec fn lo(self) -> int {
        if self.start == self.end {
            2 * self.start
        } else {
            2 * self.start + 1
        }
    }

    /// Where the segment ends on the doubled number line (inclusive).
    pub open spec fn hi(self) -> int {
        if self.start == self.end {
            2 * self.end
        } else {
            2 * self.end - 1
        }
    }

    /// `self` lies wholly before `other`: a point marker at `p` comes after a
    /// segment that ends at `p` and before one that starts at `p`, and two
    /// markers at the same point clash.
    pub open spec fn precedes(self, other: Segment) -> bool {
        self.hi() < other.lo()
    }

    /// Neither segment lies wholly before the other.
    pub open spec fn overlaps(self, other: Segment) -> bool {
        !self.precedes(other) && !other.precedes(self)
    }

    /// `key` lies in `[start, end)`.
    pub open spec fn contains(self, key: int) -> bool {
        self.start <= key < self.end
    }

    /// Order facts between well-formed segments.
    pub proof fn lemma_order(self, other: Segment)
        requires
            self.wf(),
            other.wf(),
        ensures
            self.lo() <= self.hi(),
            !self.precedes(self),
            self.precedes(other) ==> !other.precedes(self),
            self.precedes(other) ==> self.end <= other.start,
            self.precedes(other) && self.is_marker() && other.is_marker() ==> self.end
                < other.start,
            !self.overlaps(other) <==> (self.precedes(other) || other.precedes(self)),
    {
    }

    /// Lying before is transitive.
    pub proof fn lemma_trans(a: Segment, b: Segment, c: Segment)
        requires
            b.wf(),
            a.precedes(b),
            b.precedes(c),
        ensures
            a.precedes(c),
    {
    }

    pub fn new(start: i64, end: i64) -> (r: Segment)
        requires
            start <= end,
        ensures
            r.start == start,
            r.end == end,
    {
        Segment { start, end }
    }

    pub fn start(&self) -> (r: i64)
        ensures
            r == self.start,
    {
        self.start
    }

    pub fn end(&self) -> (r: i64)
        ensures
            r == self.end,
    {
        self.end
    }

    pub fn is_empty(&self) -> (r: bool)
        ensures
            r == self.is_marker(),
    {
        self.start == self.end
    }

    pub fn contains_key(&self, key: i64) -> (r: bool)
        ensures
            r == self.contains(key as int),
    {
        self.start <= key && key < self.end
    }

    /// Executable form of `precedes`.
    pub fn is_before(&self, other: &Segment) -> (r: bool)
        requires
            self.wf(),
            other.wf(),
        ensures
            r == self.precedes(*other),
    {
        self.end < other.start || (self.end == other.start && !(self.start == self.end
            && other.start == other.end))
    }
}

} // verus!
