//! Ground truth about the addresses of an executable: which bytes belong to
//! instructions and which to data.

use vstd::prelude::*;
use crate::interval::Interval;
use crate::interval_set::{total_len, IntervalSet};

verus! {

/// The two classes of addresses that ground truth tells apart.
///
/// The two sets are expected to be disjoint; nothing here enforces it.
#[derive(Clone, Debug, PartialEq, Eq)]
pub struct AddressClasses {
    /// The bytes that begin or continue a true instruction.
    pub true_instructions: IntervalSet,
    /// The bytes that are data.
    pub true_data: IntervalSet,
}

impl AddressClasses {
    pub open spec fn wf(self) -> bool {
        self.true_instructions.wf() && self.true_data.wf()
    }

    pub fn new() -> (r: AddressClasses)
        ensures
            r.wf(),
            r.true_instructions@ =~= Set::<int>::empty(),
            r.true_data@ =~= Set::<int>::empty(),
    {
        AddressClasses { true_instructions: IntervalSet::new(), true_data: IntervalSet::new() }
    }

    /// Moves both classes up by `offset`. The caller sees to it that no
    /// address wraps around.
    pub fn relocate(&mut self, offset: u32)
        requires
            old(self).wf(),
            forall|i: int|
                0 <= i < old(self).true_instructions.markers().len() ==> (
                #[trigger] old(self).true_instructions.markers()[i]).0 + offset <= u32::MAX,
            forall|i: int|
                0 <= i < old(self).true_data.markers().len() ==> (
                #[trigger] old(self).true_data.markers()[i]).0 + offset <= u32::MAX,
        ensures
            final(self).wf(),
            forall|p: int|
                final(self).true_instructions@.contains(p) == old(self).true_instructions@.contains(
                    p - offset,
                ),
            forall|p: int| final(self).true_data@.contains(p) == old(self).true_data@.contains(p - offset),
    {
        self.true_instructions.shift(offset);
        self.true_data.shift(offset);
    }

    /// Keeps of both classes what lies inside `range`.
    pub fn filter_to(&mut self, range: Interval)
        requires
            old(self).wf(),
            range.wf(),
        ensures
            final(self).wf(),
            final(self).true_instructions@ =~= old(self).true_instructions@.intersect(range.points()),
            final(self).true_data@ =~= old(self).true_data@.intersect(range.points()),
    {
        let true_instructions = self.true_instructions.intersect(range);
        let true_data = self.true_data.intersect(range);
        self.true_instructions = true_instructions;
        self.true_data = true_data;
    }

    /// The number of bytes that the two classes cover. A byte that belongs to
    /// both counts twice.
    pub fn coverage(&self) -> (r: u64)
        requires
            self.wf(),
        ensures
            r == total_len(self.true_instructions.members()) + total_len(self.true_data.members()),
    {
        self.true_instructions.coverage() as u64 + self.true_data.coverage() as u64
    }
}

/// What a row of a dump stands for.
#[derive(Copy, Clone, Debug, PartialEq, Eq, Structural)]
pub enum RangeKind {
    Code,
    Data,
    /// The addresses between two rows that belong to neither class.
    Gap,
}

/// A row of a dump: a stretch of addresses and what it is.
#[derive(Copy, Clone, Debug, PartialEq, Eq, Structural)]
pub struct DumpRow {
    pub start: u32,
    pub end: u32,
    pub kind: RangeKind,
}

/// Whether the interval `a` stands before the interval `b`: by its start,
/// then by its end.
pub open spec fn stands_before(a: Interval, b: Interval) -> bool {
    a.lo() < b.lo() || (a.lo() == b.lo() && a.hi() < b.hi())
}

/// The members of both classes in ascending order; of two that are the same
/// stretch, the code stands first.
pub open spec fn merged(code: Seq<Interval>, data: Seq<Interval>) -> Seq<(Interval, RangeKind)>
    decreases code.len() + data.len(),
{
    if code.len() == 0 && data.len() == 0 {
        Seq::empty()
    } else if data.len() == 0 || (code.len() > 0 && !stands_before(data[0], code[0])) {
        seq![(code[0], RangeKind::Code)] + merged(code.drop_first(), data)
    } else {
        seq![(data[0], RangeKind::Data)] + merged(code, data.drop_first())
    }
}

/// The rows for the first `upto` of `ranges`: each range, after a row for
/// the gap between it and the range before it, if there is a gap.
pub open spec fn with_gaps(ranges: Seq<(Interval, RangeKind)>, upto: int) -> Seq<DumpRow>
    decreases upto,
{
    if upto <= 0 {
        Seq::empty()
    } else {
        let range = ranges[upto - 1];
        let row = DumpRow { start: range.0.lo() as u32, end: range.0.hi() as u32, kind: range.1 };
        let before = with_gaps(ranges, upto - 1);
        if upto >= 2 && ranges[upto - 2].0.hi() < range.0.lo() {
            before.push(
                DumpRow { start: ranges[upto - 2].0.hi() as u32, end: range.0.lo() as u32, kind: RangeKind::Gap },
            ).push(row)
        } else {
            before.push(row)
        }
    }
}

impl AddressClasses {
    /// The stretches of both classes in ascending order, with the gaps
    /// between them: what a dump of the classes lists, row by row.
    pub fn dump(&self) -> (r: Vec<DumpRow>)
        requires
            self.wf(),
        ensures
            r@ == with_gaps(
                merged(self.true_instructions.members(), self.true_data.members()),
                merged(self.true_instructions.members(), self.true_data.members()).len() as int,
            ),
    {
        let code = self.true_instructions.iter().collect();
        let data = self.true_data.iter().collect();
        assert(code@ =~= self.true_instructions.members());
        assert(data@ =~= self.true_data.members());
        let ghost all = merged(code@, data@);
        let mut ordered: Vec<(Interval, RangeKind)> = Vec::new();
        let mut i: usize = 0;
        let mut j: usize = 0;
        assert(code@.subrange(0, code@.len() as int) =~= code@);
        assert(data@.subrange(0, data@.len() as int) =~= data@);
        while i < code.len() || j < data.len()
            invariant
                0 <= i <= code@.len(),
                0 <= j <= data@.len(),
                all == ordered@ + merged(
                    code@.subrange(i as int, code@.len() as int),
                    data@.subrange(j as int, data@.len() as int),
                ),
            decreases code@.len() - i + data@.len() - j,
        {
            let ghost rest_code = code@.subrange(i as int, code@.len() as int);
            let ghost rest_data = data@.subrange(j as int, data@.len() as int);
            let take_code = if j >= data.len() {
                true
            } else if i >= code.len() {
                false
            } else {
                let c = code[i];
                let d = data[j];
                !(d.start() < c.start() || (d.start() == c.start() && d.end() < c.end()))
            };
            if take_code {
                proof {
                    assert(rest_code[0] == code@[i as int]);
                    assert(rest_code.drop_first() =~= code@.subrange(i + 1, code@.len() as int));
                    assert(ordered@.push((code@[i as int], RangeKind::Code)) + merged(
                        rest_code.drop_first(),
                        rest_data,
                    ) =~= ordered@ + merged(rest_code, rest_data));
                }
                ordered.push((code[i], RangeKind::Code));
                i += 1;
            } else {
                proof {
                    assert(rest_data[0] == data@[j as int]);
                    assert(rest_data.drop_first() =~= data@.subrange(j + 1, data@.len() as int));
                    assert(ordered@.push((data@[j as int], RangeKind::Data)) + merged(
                        rest_code,
                        rest_data.drop_first(),
                    ) =~= ordered@ + merged(rest_code, rest_data));
                }
                ordered.push((data[j], RangeKind::Data));
                j += 1;
            }
        }
        assert(ordered@ =~= all);
        let mut result: Vec<DumpRow> = Vec::new();
        let mut k: usize = 0;
        while k < ordered.len()
            invariant
                0 <= k <= ordered@.len(),
                result@ == with_gaps(ordered@, k as int),
            decreases ordered@.len() - k,
        {
            let (interval, kind) = ordered[k];
            if k > 0 {
                let prev = ordered[k - 1].0.end();
                if prev < interval.start() {
                    result.push(DumpRow { start: prev, end: interval.start(), kind: RangeKind::Gap });
                }
            }
            result.push(DumpRow { start: interval.start(), end: interval.end(), kind });
            k += 1;
        }
        result
    }
}

} // verus!
