//! Sets of pairwise disjoint half-open intervals.

use vstd::prelude::*;
use crate::interval::Interval;
use crate::markers::{SetNode, pushed, removed, member_covers, markers_ordered, markers_wf, covers_in, splits_at, bridge, spliced, lemma_splits_unique, lemma_rank_monotone, lemma_covers_parity, lemma_spliced, lemma_pushed, lemma_removed, lemma_canonical};

verus! {

/// A set of intervals no two of which intersect or touch.
///
/// The set is stored as an ordered mapping from coordinate to marker, kept as
/// a vector in ascending coordinate order. Its view is the set of points that
/// its member intervals cover.
#[derive(Debug, Clone, PartialEq, Eq)]
pub struct IntervalSet {
    intervals: Vec<(u32, SetNode)>,
}

/// The sum of the lengths of a sequence of intervals.
pub open spec fn total_len(s: Seq<Interval>) -> int
    decreases s.len(),
{
    if s.len() == 0 {
        0
    } else {
        total_len(s.drop_last()) + (s.last().hi() - s.last().lo())
    }
}

/// The points that some interval of a sequence covers.
pub open spec fn union_points(s: Seq<Interval>) -> Set<int> {
    Set::new(|p: int| exists|k: int| 0 <= k < s.len() && (#[trigger] s[k]).covers(p))
}

impl View for IntervalSet {
    type V = Set<int>;

    open spec fn view(&self) -> Set<int> {
        Set::new(|p: int| covers_in(self.markers(), p))
    }
}

impl IntervalSet {
    /// The stored markers, in ascending coordinate order.
    pub closed spec fn markers(self) -> Seq<(u32, SetNode)> {
        self.intervals@
    }

    /// The stored markers ascend strictly and alternate `Start`, `End`.
    pub open spec fn wf(self) -> bool {
        markers_wf(self.markers())
    }

    /// The member intervals in ascending order: what iteration yields.
    pub open spec fn members(self) -> Seq<Interval> {
        Seq::new(
            self.markers().len() / 2,
            |k: int| Interval::spanning(self.markers()[2 * k].0, self.markers()[2 * k + 1].0),
        )
    }

    /// The nearest marker strictly before `p` is a `Start`.
    pub open spec fn start_precedes(self, p: int) -> bool {
        exists|i: int|
            0 <= i < self.markers().len() && (#[trigger] self.markers()[i]).0 < p
                && self.markers()[i].1 == SetNode::Start && forall|j: int|
                0 <= j < self.markers().len() && (#[trigger] self.markers()[j]).0 < p
                    ==> self.markers()[j].0 <= self.markers()[i].0
    }

    pub fn new() -> (r: IntervalSet)
        ensures
            r.wf(),
            r.markers() =~= Seq::<(u32, SetNode)>::empty(),
            r@ =~= Set::<int>::empty(),
    {
        let r = IntervalSet { intervals: Vec::new() };
        assert forall|p: int| !covers_in(r.markers(), p) by {}
        r
    }

    /// The number of markers below `p`, or at or below it if `inclusive`.
    fn count_upto(&self, p: u32, inclusive: bool) -> (r: usize)
        requires
            self.wf(),
        ensures
            splits_at(self.markers(), if inclusive { p as int } else { p - 1 }, r as int),
    {
        let ghost q: int = if inclusive { p as int } else { p - 1 };
        let mut lo: usize = 0;
        let mut hi: usize = self.intervals.len();
        while lo < hi
            invariant
                0 <= lo <= hi <= self.intervals@.len(),
                markers_ordered(self.intervals@),
                q == (if inclusive { p as int } else { p - 1 }),
                forall|i: int| 0 <= i < lo ==> (#[trigger] self.intervals@[i]).0 <= q,
                forall|i: int| hi <= i < self.intervals@.len() ==> (#[trigger] self.intervals@[i]).0 > q,
            decreases hi - lo,
        {
            let mid: usize = lo + (hi - lo) / 2;
            let c: u32 = self.intervals[mid].0;
            let below = if inclusive { c <= p } else { c < p };
            if below {
                assert forall|i: int| 0 <= i < mid + 1 implies (#[trigger] self.intervals@[i]).0 <= q by {
                    if i < mid {
                        assert(self.intervals@[i].0 < self.intervals@[mid as int].0);
                    }
                }
                lo = mid + 1;
            } else {
                assert forall|i: int| mid <= i < self.intervals@.len() implies (#[trigger] self.intervals@[i]).0 > q by {
                    if i > mid {
                        assert(self.intervals@[mid as int].0 < self.intervals@[i].0);
                    }
                }
                hi = mid;
            }
        }
        lo
    }

    /// Replaces the markers on the stretch `[a, b]` so that `[a, b)` is
    /// covered (`add`) or not covered (`!add`) afterwards.
    fn splice(&mut self, a: u32, b: u32, add: bool)
        requires
            old(self).wf(),
            a < b,
        ensures
            final(self).markers() == spliced(old(self).markers(), a, b, add),
    {
        let ghost m = self.intervals@;
        let lo = self.count_upto(a, false);
        let hi = self.count_upto(b, true);
        proof {
            lemma_splits_unique(m, a - 1, lo as int);
            lemma_splits_unique(m, b as int, hi as int);
            lemma_rank_monotone(m, a - 1, b as int);
        }
        let n = self.intervals.len();
        let first = (lo % 2 == 0) == add;
        let second = (hi % 2 == 0) == add;
        let ghost br = bridge(a, b, lo as int, hi as int, add);
        if lo == n {
            // Nothing lies at or after `a`: the new markers go at the end.
            if first {
                self.intervals.push((a, if add { SetNode::Start } else { SetNode::End }));
            }
            if second {
                self.intervals.push((b, if add { SetNode::End } else { SetNode::Start }));
            }
            assert(self.intervals@ =~= m.subrange(0, lo as int) + br + m.subrange(hi as int, m.len() as int));
            return ;
        }
        let mut out: Vec<(u32, SetNode)> = Vec::new();
        let mut i: usize = 0;
        while i < lo
            invariant
                0 <= i <= lo <= n,
                n == self.intervals@.len(),
                self.intervals@ == m,
                out@ =~= m.subrange(0, i as int),
            decreases lo - i,
        {
            out.push(self.intervals[i]);
            i += 1;
        }
        if first {
            out.push((a, if add { SetNode::Start } else { SetNode::End }));
        }
        if second {
            out.push((b, if add { SetNode::End } else { SetNode::Start }));
        }
        assert(out@ =~= m.subrange(0, lo as int) + br);
        let mut j: usize = hi;
        while j < n
            invariant
                lo <= hi <= j <= n,
                n == self.intervals@.len(),
                self.intervals@ == m,
                out@ =~= m.subrange(0, lo as int) + br + m.subrange(hi as int, j as int),
            decreases n - j,
        {
            out.push(self.intervals[j]);
            j += 1;
        }
        self.intervals = out;
    }

    /// Adds an interval to the set, merging it with every member that it
    /// intersects or touches. An empty interval changes nothing.
    pub fn push(&mut self, interval: Interval)
        requires
            old(self).wf(),
            interval.wf(),
        ensures
            final(self).wf(),
            final(self)@ =~= old(self)@.union(interval.points()),
            final(self).markers() == pushed(
                old(self).markers(),
                interval.lo() as u32,
                interval.hi() as u32,
            ),
    {
        if interval.is_empty() {
            assert(self@ =~= self@.union(interval.points()));
            return ;
        }
        let start = interval.start();
        let end = interval.end();
        proof {
            lemma_spliced(self.markers(), start, end, true);
        }
        self.splice(start, end, true);
    }

    /// Takes an interval out of the set, splitting the members that reach
    /// across one of its bounds. An empty interval changes nothing.
    pub fn remove(&mut self, interval: Interval)
        requires
            old(self).wf(),
            interval.wf(),
        ensures
            final(self).wf(),
            final(self)@ =~= old(self)@.difference(interval.points()),
            final(self).markers() == removed(
                old(self).markers(),
                interval.lo() as u32,
                interval.hi() as u32,
            ),
    {
        if interval.is_empty() {
            assert(self@ =~= self@.difference(interval.points()));
            return ;
        }
        let start = interval.start();
        let end = interval.end();
        proof {
            lemma_spliced(self.markers(), start, end, false);
        }
        self.splice(start, end, false);
    }

    /// Whether the nearest marker strictly before `value` is a `Start`: that
    /// is, whether some member `[s, e)` has `s < value <= e`.
    pub fn contains(&self, value: u32) -> (r: bool)
        requires
            self.wf(),
        ensures
            r == self.start_precedes(value as int),
            r == (value > 0 && self@.contains(value - 1)),
    {
        let c = self.count_upto(value, false);
        proof {
            let m = self.markers();
            lemma_covers_parity(m, value - 1, c as int);
            if c % 2 == 1 {
                assert(m[c - 1].0 < value && m[c - 1].1 == SetNode::Start);
                assert forall|j: int| 0 <= j < m.len() && (#[trigger] m[j]).0 < value implies m[j].0 <= m[c - 1].0 by {
                    if j > c - 1 {
                        assert(m[j].0 > value - 1);
                    }
                    if j < c - 1 {
                        assert(m[j].0 < m[c - 1].0);
                    }
                }
                assert(self.start_precedes(value as int));
            }
            if self.start_precedes(value as int) {
                let i = choose|i: int|
                    0 <= i < m.len() && (#[trigger] m[i]).0 < value && m[i].1 == SetNode::Start
                        && forall|j: int|
                        0 <= j < m.len() && (#[trigger] m[j]).0 < value ==> m[j].0 <= m[i].0;
                assert(i < c) by {
                    if i >= c {
                        assert(m[i].0 > value - 1);
                    }
                }
                if i < c - 1 {
                    assert(m[c - 1].0 <= value - 1);
                    assert(m[i].0 < m[c - 1].0);
                }
                assert(i == c - 1);
            }
            if value == 0 {
                assert(c == 0) by {
                    if c > 0 {
                        assert(m[0].0 <= -1);
                    }
                }
            }
        }
        c % 2 == 1
    }

    /// Shifts every member by `offset`. The caller sees to it that no
    /// coordinate wraps around.
    pub fn shift(&mut self, offset: u32)
        requires
            old(self).wf(),
            forall|i: int|
                0 <= i < old(self).markers().len() ==> (#[trigger] old(self).markers()[i]).0 + offset
                    <= u32::MAX,
        ensures
            final(self).wf(),
            final(self).markers() == shifted(old(self).markers(), offset),
            forall|p: int| final(self)@.contains(p) == old(self)@.contains(p - offset),
    {
        let ghost m = self.intervals@;
        let n = self.intervals.len();
        let mut out: Vec<(u32, SetNode)> = Vec::new();
        let mut i: usize = 0;
        while i < n
            invariant
                0 <= i <= n,
                n == m.len(),
                self.intervals@ == m,
                forall|k: int| 0 <= k < m.len() ==> (#[trigger] m[k]).0 + offset <= u32::MAX,
                out@ =~= shifted(m, offset).subrange(0, i as int),
            decreases n - i,
        {
            let (k, v) = self.intervals[i];
            out.push((k + offset, v));
            i += 1;
        }
        assert(out@ =~= shifted(m, offset));
        self.intervals = out;
        proof {
            lemma_shifted(m, offset);
            assert forall|p: int| self@.contains(p) == old(self)@.contains(p - offset) by {}
        }
    }

    /// Pushes every interval of `other`, in order.
    pub fn extend(&mut self, other: &Vec<Interval>)
        requires
            old(self).wf(),
            forall|k: int| 0 <= k < other@.len() ==> (#[trigger] other@[k]).wf(),
        ensures
            final(self).wf(),
            final(self)@ =~= old(self)@.union(union_points(other@)),
    {
        let mut i: usize = 0;
        while i < other.len()
            invariant
                0 <= i <= other@.len(),
                self.wf(),
                forall|k: int| 0 <= k < other@.len() ==> (#[trigger] other@[k]).wf(),
                self@ =~= old(self)@.union(union_points(other@.subrange(0, i as int))),
            decreases other@.len() - i,
        {
            let ghost before = self@;
            self.push(other[i]);
            proof {
                let s0 = other@.subrange(0, i as int);
                let s1 = other@.subrange(0, i + 1);
                assert forall|p: int| union_points(s1).contains(p) == (union_points(s0).contains(p)
                    || other@[i as int].covers(p)) by {
                    if union_points(s0).contains(p) {
                        let k = choose|k: int| 0 <= k < s0.len() && (#[trigger] s0[k]).covers(p);
                        assert(s1[k].covers(p));
                    }
                    if other@[i as int].covers(p) {
                        assert(s1[i as int].covers(p));
                    }
                    if union_points(s1).contains(p) {
                        let k = choose|k: int| 0 <= k < s1.len() && (#[trigger] s1[k]).covers(p);
                        if k < i {
                            assert(s0[k].covers(p));
                        }
                    }
                }
            }
            i += 1;
        }
        assert(other@.subrange(0, i as int) =~= other@);
    }

    /// The members in ascending order of their start.
    pub fn iter(&self) -> (r: IntervalSetIter<'_>)
        requires
            self.wf(),
        ensures
            r.set() == *self,
            r.position() == 0,
            r.wf(),
    {
        IntervalSetIter { inner: self, index: 0 }
    }

    /// The sum of the lengths of the members.
    pub fn coverage(&self) -> (r: u32)
        requires
            self.wf(),
        ensures
            r == total_len(self.members()),
    {
        let n = self.intervals.len();
        let mut acc: u32 = 0;
        let mut k: usize = 0;
        proof {
            assert(self.members().subrange(0, 0) =~= Seq::<Interval>::empty());
        }
        while 2 * k < n
            invariant
                n == self.markers().len(),
                self.wf(),
                0 <= 2 * k <= n,
                acc == total_len(self.members().subrange(0, k as int)),
                k > 0 ==> acc <= self.markers()[2 * k - 1].0,
            decreases n - 2 * k,
        {
            let s = self.intervals[2 * k].0;
            let e = self.intervals[2 * k + 1].0;
            proof {
                broadcast use Interval::lemma_spanning;

                let m = self.markers();
                assert(m[2 * k].0 < m[2 * k + 1].0);
                if k > 0 {
                    assert(m[2 * k - 1].0 < m[2 * k].0);
                }
                let t = self.members().subrange(0, k + 1);
                assert(t.drop_last() =~= self.members().subrange(0, k as int));
                assert(t.last() == self.members()[k as int]);
            }
            acc = acc + (e - s);
            k += 1;
        }
        assert(self.members().subrange(0, k as int) =~= self.members());
        acc
    }

    /// The end of the last member: the highest stored coordinate.
    pub fn last_end(&self) -> (r: Option<u32>)
        requires
            self.wf(),
        ensures
            match r {
                Some(end) => self.markers().len() > 0 && self.markers().last().0 == end && forall|i: int|
                    0 <= i < self.markers().len() ==> (#[trigger] self.markers()[i]).0 <= end,
                None => self.markers().len() == 0,
            },
    {
        let n = self.intervals.len();
        if n == 0 {
            None
        } else {
            proof {
                assert forall|i: int| 0 <= i < n implies (#[trigger] self.markers()[i]).0 <= self.markers()[n
                    - 1].0 by {
                    if i < n - 1 {
                        assert(self.markers()[i].0 < self.markers()[n - 1].0);
                    }
                }
            }
            Some(self.intervals[n - 1].0)
        }
    }

    /// A set with the same markers.
    pub fn duplicate(&self) -> (r: IntervalSet)
        ensures
            r.markers() == self.markers(),
            r@ == self@,
    {
        let n = self.intervals.len();
        let mut out: Vec<(u32, SetNode)> = Vec::new();
        let mut i: usize = 0;
        while i < n
            invariant
                0 <= i <= n,
                n == self.intervals@.len(),
                out@ =~= self.intervals@.subrange(0, i as int),
            decreases n - i,
        {
            out.push(self.intervals[i]);
            i += 1;
        }
        assert(out@ =~= self.intervals@);
        IntervalSet { intervals: out }
    }

    /// The part of the set that lies inside `window`.
    pub fn intersect(&self, window: Interval) -> (r: IntervalSet)
        requires
            self.wf(),
            window.wf(),
        ensures
            r.wf(),
            r@ =~= self@.intersect(window.points()),
    {
        let mut r = self.duplicate();
        let below = Interval::from_start_and_end(0, window.start());
        let above = Interval::from_start_and_end(window.end(), u32::MAX);
        r.remove(below);
        r.remove(above);
        proof {
            assert forall|p: int| self@.contains(p) implies 0 <= p < u32::MAX by {
                let k = choose|k: int|
                    0 <= k < self.markers().len() / 2 && #[trigger] member_covers(self.markers(), k, p);
            }
        }
        r
    }
}

/// The markers of `m`, each moved up by `offset`.
pub open spec fn shifted(m: Seq<(u32, SetNode)>, offset: u32) -> Seq<(u32, SetNode)> {
    Seq::new(m.len(), |i: int| ((m[i].0 + offset) as u32, m[i].1))
}

/// Shifting well-formed markers without wrap-around moves what they cover.
pub proof fn lemma_shifted(m: Seq<(u32, SetNode)>, offset: u32)
    requires
        markers_wf(m),
        forall|i: int| 0 <= i < m.len() ==> (#[trigger] m[i]).0 + offset <= u32::MAX,
    ensures
        markers_wf(shifted(m, offset)),
        forall|p: int| #[trigger] covers_in(shifted(m, offset), p) == covers_in(m, p - offset),
{
    let n = shifted(m, offset);
    assert forall|i: int, j: int| 0 <= i < j < n.len() implies (#[trigger] n[i]).0 < (#[trigger] n[j]).0 by {
        assert(m[i].0 < m[j].0);
    }
    assert forall|i: int| 0 <= i < n.len() implies ((#[trigger] n[i]).1 == SetNode::Start <==> i % 2 == 0) by {
        assert(m[i].1 == SetNode::Start <==> i % 2 == 0);
    }
    assert forall|p: int| #[trigger] covers_in(n, p) == covers_in(m, p - offset) by {
        if covers_in(n, p) {
            let k = choose|k: int| 0 <= k < n.len() / 2 && #[trigger] member_covers(n, k, p);
            assert(member_covers(m, k, p - offset));
        }
        if covers_in(m, p - offset) {
            let k = choose|k: int| 0 <= k < m.len() / 2 && #[trigger] member_covers(m, k, p - offset);
            assert(member_covers(n, k, p));
        }
    }
}

/// Walks the members of a set in ascending order.
pub struct IntervalSetIter<'a> {
    inner: &'a IntervalSet,
    index: usize,
}

impl<'a> IntervalSetIter<'a> {
    /// The set that is walked.
    pub closed spec fn set(self) -> IntervalSet {
        *self.inner
    }

    /// How many members were yielded so far.
    pub closed spec fn position(self) -> int {
        self.index as int
    }

    pub open spec fn wf(self) -> bool {
        self.set().wf() && 0 <= self.position() <= self.set().members().len()
    }

    /// The next member, or `None` after the last one.
    pub fn next(&mut self) -> (r: Option<Interval>)
        requires
            old(self).wf(),
        ensures
            final(self).wf(),
            final(self).set() == old(self).set(),
            old(self).position() < old(self).set().members().len() ==> r == Some(
                old(self).set().members()[old(self).position()],
            ) && final(self).position() == old(self).position() + 1,
            old(self).position() >= old(self).set().members().len() ==> r.is_none()
                && final(self).position() == old(self).position(),
            r matches Some(i) ==> i.wf(),
    {
        let n = self.inner.intervals.len();
        if self.index >= n / 2 {
            return None;
        }
        let s = self.inner.intervals[2 * self.index].0;
        let e = self.inner.intervals[2 * self.index + 1].0;
        proof {
            broadcast use Interval::lemma_spanning;

            let m = self.inner.markers();
            assert(m[2 * self.index].0 < m[2 * self.index + 1].0);
        }
        self.index = self.index + 1;
        Some(Interval::from_start_and_end(s, e))
    }

    /// The members not yet yielded, in order.
    pub fn collect(self) -> (r: Vec<Interval>)
        requires
            self.wf(),
        ensures
            r@ =~= self.set().members().subrange(self.position(), self.set().members().len() as int),
            forall|k: int| 0 <= k < r@.len() ==> (#[trigger] r@[k]).wf(),
    {
        let mut it = self;
        let mut out: Vec<Interval> = Vec::new();
        loop
            invariant
                it.wf(),
                it.set() == self.set(),
                self.position() <= it.position(),
                out@ =~= self.set().members().subrange(self.position(), it.position()),
                forall|k: int| 0 <= k < out@.len() ==> (#[trigger] out@[k]).wf(),
            ensures
                it.position() == self.set().members().len(),
            decreases self.set().members().len() - it.position(),
        {
            match it.next() {
                Some(i) => {
                    out.push(i);
                },
                None => {
                    break ;
                },
            }
        }
        out
    }
}

/// Pushing an interval yields the union with its points, removing it yields
/// the difference, and after either the stored markers still ascend strictly
/// and alternate `Start`, `End`.
pub proof fn law_push_remove_algebra(s: IntervalSet, i: Interval)
    requires
        s.wf(),
        i.wf(),
    ensures
        markers_wf(pushed(s.markers(), i.lo() as u32, i.hi() as u32)),
        markers_wf(removed(s.markers(), i.lo() as u32, i.hi() as u32)),
        forall|p: int| #[trigger]
            covers_in(pushed(s.markers(), i.lo() as u32, i.hi() as u32), p) <==> (s@.contains(p)
                || i.covers(p)),
        forall|p: int| #[trigger]
            covers_in(removed(s.markers(), i.lo() as u32, i.hi() as u32), p) <==> (s@.contains(p)
                && !i.covers(p)),
{
    i.lemma_bounds(i);
    lemma_pushed(s.markers(), i.lo() as u32, i.hi() as u32);
    lemma_removed(s.markers(), i.lo() as u32, i.hi() as u32);
}

/// Pushing two intervals gives the same set in either order: the same
/// markers, and so the same members.
pub proof fn law_push_commutes(s: IntervalSet, a: Interval, b: Interval)
    requires
        s.wf(),
        a.wf(),
        b.wf(),
    ensures
        pushed(pushed(s.markers(), a.lo() as u32, a.hi() as u32), b.lo() as u32, b.hi() as u32)
            == pushed(pushed(s.markers(), b.lo() as u32, b.hi() as u32), a.lo() as u32, a.hi() as u32),
{
    a.lemma_bounds(a);
    b.lemma_bounds(b);
    let (a0, a1, b0, b1) = (a.lo() as u32, a.hi() as u32, b.lo() as u32, b.hi() as u32);
    let m = s.markers();
    lemma_pushed(m, a0, a1);
    lemma_pushed(m, b0, b1);
    lemma_pushed(pushed(m, a0, a1), b0, b1);
    lemma_pushed(pushed(m, b0, b1), a0, a1);
    lemma_canonical(pushed(pushed(m, a0, a1), b0, b1), pushed(pushed(m, b0, b1), a0, a1));
}

/// Two well-formed sets that cover the same points hold the same markers.
pub proof fn law_one_representation(s: IntervalSet, t: IntervalSet)
    requires
        s.wf(),
        t.wf(),
        s@ == t@,
    ensures
        s.markers() == t.markers(),
        s.members() == t.members(),
{
    assert forall|q: int| covers_in(s.markers(), q) == covers_in(t.markers(), q) by {
        assert(s@.contains(q) == covers_in(s.markers(), q));
        assert(t@.contains(q) == covers_in(t.markers(), q));
    }
    lemma_canonical(s.markers(), t.markers());
}

} // verus!
