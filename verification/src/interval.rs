//! Half-open intervals over 32-bit coordinates.

use vstd::prelude::*;

verus! {

/// A half-open interval `[start, end)`.
///
/// A well-formed interval has `start <= end`; the constructors establish this.
#[derive(Copy, Clone, Debug, PartialEq, Eq, PartialOrd, Ord, Structural)]
pub struct Interval {
    start: u32,
    end: u32,
}

impl Interval {
    /// The lower bound, which belongs to the interval.
    pub closed spec fn lo(self) -> int {
        self.start as int
    }

    /// The upper bound, which does not belong to the interval.
    pub closed spec fn hi(self) -> int {
        self.end as int
    }

    /// The interval with the given bounds.
    pub closed spec fn spanning(start: u32, end: u32) -> Interval {
        Interval { start, end }
    }

    pub broadcast proof fn lemma_spanning(start: u32, end: u32)
        ensures
            (#[trigger] Self::spanning(start, end)).lo() == start,
            Self::spanning(start, end).hi() == end,
    {
    }

    pub open spec fn wf(self) -> bool {
        self.lo() <= self.hi()
    }

    /// Whether the point `p` lies in `[lo, hi)`.
    pub open spec fn covers(self, p: int) -> bool {
        self.lo() <= p < self.hi()
    }

    /// The points of the interval.
    pub open spec fn points(self) -> Set<int> {
        Set::new(|p: int| self.covers(p))
    }

    /// Two intervals with the same bounds are the same interval, and the
    /// bounds fit the coordinate type.
    pub proof fn lemma_bounds(self, other: Interval)
        ensures
            0 <= self.lo() <= u32::MAX,
            0 <= self.hi() <= u32::MAX,
            self.lo() == other.lo() && self.hi() == other.hi() ==> self == other,
    {
    }

    pub fn from_start_and_end(start: u32, end: u32) -> (r: Interval)
        requires
            start <= end,
        ensures
            r.wf(),
            r == Self::spanning(start, end),
            r.lo() == start,
            r.hi() == end,
    {
        Interval { start, end }
    }

    pub fn from_start_and_len(start: u32, len: u32) -> (r: Interval)
        requires
            start + len <= u32::MAX,
        ensures
            r.wf(),
            r.lo() == start,
            r.hi() == start + len,
    {
        Interval { start, end: start + len }
    }

    pub fn start(&self) -> (r: u32)
        ensures
            r == self.lo(),
    {
        self.start
    }

    pub fn end(&self) -> (r: u32)
        ensures
            r == self.hi(),
    {
        self.end
    }

    pub fn len(&self) -> (r: u32)
        requires
            self.wf(),
        ensures
            r == self.hi() - self.lo(),
    {
        self.end - self.start
    }

    pub fn is_empty(&self) -> (r: bool)
        requires
            self.wf(),
        ensures
            r == (self.lo() == self.hi()),
            r == (self.points() =~= Set::<int>::empty()),
    {
        proof {
            if self.start < self.end {
                assert(self.points().contains(self.start as int));
            }
        }
        self.end - self.start == 0
    }

    /// The common part of two intervals; `[0, 0)` where they share no stretch
    /// of positive or zero length.
    pub fn intersection(&self, other: Interval) -> (r: Interval)
        ensures
            r.wf(),
            r.points() =~= self.points().intersect(other.points()),
            r.lo() == (if Self::spec_max(self.lo(), other.lo()) <= Self::spec_min(self.hi(), other.hi()) {
                Self::spec_max(self.lo(), other.lo())
            } else {
                0
            }),
            r.hi() == (if Self::spec_max(self.lo(), other.lo()) <= Self::spec_min(self.hi(), other.hi()) {
                Self::spec_min(self.hi(), other.hi())
            } else {
                0
            }),
    {
        let start = if self.start >= other.start { self.start } else { other.start };
        let end = if self.end <= other.end { self.end } else { other.end };
        if end < start {
            Interval { start: 0, end: 0 }
        } else {
            Interval { start, end }
        }
    }

    pub open spec fn spec_max(a: int, b: int) -> int {
        if a >= b { a } else { b }
    }

    pub open spec fn spec_min(a: int, b: int) -> int {
        if a <= b { a } else { b }
    }
}

} // verus!
