//! The marker sequences that interval sets are stored as, and what splicing a
//! stretch of coordinates into one does to the points it covers.
//!
//! Markers stand in ascending coordinate order and alternate `Start`, `End`,
//! `Start`, `End`, ...: each `Start` opens a member interval and the `End`
//! after it closes that interval.

use vstd::prelude::*;

verus! {

/// What a stored coordinate marks.
#[derive(Copy, Clone, Debug, PartialEq, Eq, Structural)]
pub enum SetNode {
    Start,
    End,
}

/// Coordinates strictly ascend: no coordinate carries two markers.
pub open spec fn markers_ordered(m: Seq<(u32, SetNode)>) -> bool {
    forall|i: int, j: int| 0 <= i < j < m.len() ==> (#[trigger] m[i]).0 < (#[trigger] m[j]).0
}

/// Markers alternate, beginning with `Start` and ending with `End`.
pub open spec fn markers_alternate(m: Seq<(u32, SetNode)>) -> bool {
    &&& m.len() % 2 == 0
    &&& forall|i: int| 0 <= i < m.len() ==> ((#[trigger] m[i]).1 == SetNode::Start <==> i % 2 == 0)
}

pub open spec fn markers_wf(m: Seq<(u32, SetNode)>) -> bool {
    markers_ordered(m) && markers_alternate(m)
}

/// The `k`-th member interval of a marker sequence covers `p`.
pub open spec fn member_covers(m: Seq<(u32, SetNode)>, k: int, p: int) -> bool {
    m[2 * k].0 <= p < m[2 * k + 1].0
}

/// Some member interval covers `p`.
pub open spec fn covers_in(m: Seq<(u32, SetNode)>, p: int) -> bool {
    exists|k: int| 0 <= k < m.len() / 2 && #[trigger] member_covers(m, k, p)
}

/// `r` markers lie at or below `p`, the others above it.
pub open spec fn splits_at(m: Seq<(u32, SetNode)>, p: int, r: int) -> bool {
    &&& 0 <= r <= m.len()
    &&& forall|i: int| 0 <= i < r ==> (#[trigger] m[i]).0 <= p
    &&& forall|i: int| r <= i < m.len() ==> (#[trigger] m[i]).0 > p
}

/// The number of markers at or below `p` in an ordered sequence.
pub open spec fn rank(m: Seq<(u32, SetNode)>, p: int) -> int
    decreases m.len(),
{
    if m.len() == 0 {
        0
    } else if m.last().0 <= p {
        m.len() as int
    } else {
        rank(m.drop_last(), p)
    }
}

pub proof fn lemma_rank_splits(m: Seq<(u32, SetNode)>, p: int)
    requires
        markers_ordered(m),
    ensures
        splits_at(m, p, rank(m, p)),
    decreases m.len(),
{
    if m.len() == 0 {
    } else if m.last().0 <= p {
        assert forall|i: int| 0 <= i < m.len() implies (#[trigger] m[i]).0 <= p by {
            if i < m.len() - 1 {
                assert(m[i].0 < m[m.len() - 1].0);
            }
        }
    } else {
        let d = m.drop_last();
        assert forall|i: int, j: int| 0 <= i < j < d.len() implies (#[trigger] d[i]).0 < (#[trigger] d[j]).0 by {
            assert(m[i].0 < m[j].0);
        }
        lemma_rank_splits(d, p);
        let r = rank(d, p);
        assert forall|i: int| 0 <= i < r implies (#[trigger] m[i]).0 <= p by {
            assert(d[i] == m[i]);
        }
        assert forall|i: int| r <= i < m.len() implies (#[trigger] m[i]).0 > p by {
            if i < d.len() {
                assert(d[i] == m[i]);
            }
        }
    }
}

/// A point is covered exactly when an odd number of markers lie at or below it.
pub proof fn lemma_covers_parity(m: Seq<(u32, SetNode)>, p: int, r: int)
    requires
        markers_wf(m),
        splits_at(m, p, r),
    ensures
        covers_in(m, p) <==> r % 2 == 1,
{
    if r % 2 == 1 {
        let k = (r - 1) / 2;
        assert(m[2 * k].0 <= p);
        assert(m[2 * k + 1].0 > p);
        assert(member_covers(m, k, p));
    }
    if covers_in(m, p) {
        let k = choose|k: int| 0 <= k < m.len() / 2 && #[trigger] member_covers(m, k, p);
        if 2 * k >= r {
            assert(m[2 * k].0 > p);
        }
        if 2 * k + 1 < r {
            assert(m[2 * k + 1].0 <= p);
        }
    }
}

/// The markers that replace a stretch `[a, b]` of coordinates when `[a, b)` is
/// added to (`add`) or taken from (`!add`) a set with `lo` markers below `a`
/// and `hi` markers at or below `b`.
pub open spec fn bridge(a: u32, b: u32, lo: int, hi: int, add: bool) -> Seq<(u32, SetNode)> {
    let first = if (lo % 2 == 0) == add {
        seq![(a, if add { SetNode::Start } else { SetNode::End })]
    } else {
        Seq::<(u32, SetNode)>::empty()
    };
    let second = if (hi % 2 == 0) == add {
        seq![(b, if add { SetNode::End } else { SetNode::Start })]
    } else {
        Seq::<(u32, SetNode)>::empty()
    };
    first + second
}

/// The marker sequence after `[a, b)` was added to or taken from `m`.
pub open spec fn spliced(m: Seq<(u32, SetNode)>, a: u32, b: u32, add: bool) -> Seq<(u32, SetNode)> {
    let lo = rank(m, a - 1);
    let hi = rank(m, b as int);
    m.subrange(0, lo) + bridge(a, b, lo, hi, add) + m.subrange(hi, m.len() as int)
}

pub proof fn lemma_rank_monotone(m: Seq<(u32, SetNode)>, p: int, q: int)
    requires
        markers_ordered(m),
        p <= q,
    ensures
        0 <= rank(m, p) <= rank(m, q) <= m.len(),
{
    lemma_rank_splits(m, p);
    lemma_rank_splits(m, q);
    let rp = rank(m, p);
    let rq = rank(m, q);
    if rp > rq {
        assert(m[rq].0 <= p);
        assert(m[rq].0 > q);
    }
}

/// Only one count of markers can split a sequence at a point.
pub proof fn lemma_splits_unique(m: Seq<(u32, SetNode)>, p: int, r: int)
    requires
        markers_ordered(m),
        splits_at(m, p, r),
    ensures
        r == rank(m, p),
{
    lemma_rank_splits(m, p);
    let q = rank(m, p);
    if r < q {
        assert(m[r].0 > p);
        assert(m[r].0 <= p);
    }
    if q < r {
        assert(m[q].0 > p);
        assert(m[q].0 <= p);
    }
}

/// `n` is `m` with the markers from index `lo` up to `hi` replaced by `br`.
pub open spec fn is_splice(
    m: Seq<(u32, SetNode)>,
    n: Seq<(u32, SetNode)>,
    lo: int,
    hi: int,
    br: Seq<(u32, SetNode)>,
) -> bool {
    &&& 0 <= lo <= hi <= m.len()
    &&& n.len() == lo + br.len() + (m.len() - hi)
    &&& forall|i: int| 0 <= i < lo ==> #[trigger] n[i] == m[i]
    &&& forall|i: int| lo <= i < lo + br.len() ==> #[trigger] n[i] == br[i - lo]
    &&& forall|i: int| lo + br.len() <= i < n.len() ==> #[trigger] n[i] == m[i - lo - br.len() + hi]
}

proof fn lemma_spliced_shape(m: Seq<(u32, SetNode)>, a: u32, b: u32, add: bool)
    requires
        markers_ordered(m),
        a < b,
    ensures
        is_splice(
            m,
            spliced(m, a, b, add),
            rank(m, a - 1),
            rank(m, b as int),
            bridge(a, b, rank(m, a - 1), rank(m, b as int), add),
        ),
{
    lemma_rank_monotone(m, a - 1, b as int);
}

proof fn lemma_splice_ordered(
    m: Seq<(u32, SetNode)>,
    n: Seq<(u32, SetNode)>,
    a: u32,
    b: u32,
    lo: int,
    hi: int,
    add: bool,
)
    requires
        markers_ordered(m),
        a < b,
        splits_at(m, a - 1, lo),
        splits_at(m, b as int, hi),
        is_splice(m, n, lo, hi, bridge(a, b, lo, hi, add)),
    ensures
        markers_ordered(n),
{
    let br = bridge(a, b, lo, hi, add);
    assert forall|i: int, j: int| 0 <= i < j < n.len() implies (#[trigger] n[i]).0 < (#[trigger] n[j]).0 by {
        let ci: int = if i < lo {
            m[i].0 as int
        } else if i < lo + br.len() {
            br[i - lo].0 as int
        } else {
            m[i - lo - br.len() + hi].0 as int
        };
        let cj: int = if j < lo {
            m[j].0 as int
        } else if j < lo + br.len() {
            br[j - lo].0 as int
        } else {
            m[j - lo - br.len() + hi].0 as int
        };
        assert(n[i].0 == ci);
        assert(n[j].0 == cj);
        if j < lo {
            assert(m[i].0 < m[j].0);
        } else if i >= lo + br.len() {
            assert(m[i - lo - br.len() + hi].0 < m[j - lo - br.len() + hi].0);
        } else if i < lo {
            assert(ci <= a - 1);
            assert(cj >= a);
        } else {
            assert(ci <= b);
            if j >= lo + br.len() {
                assert(cj > b);
            }
        }
    }
}

proof fn lemma_splice_alternate(
    m: Seq<(u32, SetNode)>,
    n: Seq<(u32, SetNode)>,
    a: u32,
    b: u32,
    lo: int,
    hi: int,
    add: bool,
)
    requires
        markers_alternate(m),
        is_splice(m, n, lo, hi, bridge(a, b, lo, hi, add)),
    ensures
        markers_alternate(n),
{
    let br = bridge(a, b, lo, hi, add);
    assert forall|i: int| 0 <= i < n.len() implies ((#[trigger] n[i]).1 == SetNode::Start <==> i % 2 == 0) by {
        if i < lo {
            assert(n[i] == m[i]);
        } else if i >= lo + br.len() {
            let k = i - lo - br.len() + hi;
            assert(n[i] == m[k]);
            assert(m[k].1 == SetNode::Start <==> k % 2 == 0);
        } else {
            assert(n[i] == br[i - lo]);
        }
    }
}

proof fn lemma_splice_covers(
    m: Seq<(u32, SetNode)>,
    n: Seq<(u32, SetNode)>,
    a: u32,
    b: u32,
    lo: int,
    hi: int,
    add: bool,
    p: int,
)
    requires
        markers_wf(m),
        markers_wf(n),
        a < b,
        splits_at(m, a - 1, lo),
        splits_at(m, b as int, hi),
        is_splice(m, n, lo, hi, bridge(a, b, lo, hi, add)),
    ensures
        covers_in(n, p) <==> (if a <= p < b {
            add
        } else {
            covers_in(m, p)
        }),
{
    let br = bridge(a, b, lo, hi, add);
    lemma_rank_splits(m, p);
    let r = rank(m, p);
    lemma_covers_parity(m, p, r);
    lemma_splits_unique(m, a - 1, lo);
    lemma_splits_unique(m, b as int, hi);
    let first_len: int = if (lo % 2 == 0) == add { 1 } else { 0 };
    let r2: int = if p < a {
        r
    } else if p < b {
        lo + first_len
    } else {
        lo + br.len() + (r - hi)
    };
    if p < a {
        lemma_rank_monotone(m, p, a - 1);
    } else if p >= b {
        lemma_rank_monotone(m, b as int, p);
    }
    assert(0 <= r2 <= n.len());
    assert forall|i: int| 0 <= i < r2 implies (#[trigger] n[i]).0 <= p by {
        if i < lo {
            assert(n[i] == m[i]);
            if p >= a {
                assert(m[i].0 <= a - 1);
            }
        } else if i < lo + br.len() {
            assert(n[i] == br[i - lo]);
        } else {
            assert(n[i] == m[i - lo - br.len() + hi]);
        }
    }
    assert forall|i: int| r2 <= i < n.len() implies (#[trigger] n[i]).0 > p by {
        if i < lo {
            assert(n[i] == m[i]);
        } else if i < lo + br.len() {
            assert(n[i] == br[i - lo]);
        } else {
            assert(n[i] == m[i - lo - br.len() + hi]);
            if p < b {
                assert(m[i - lo - br.len() + hi].0 > b);
            }
        }
    }
    assert(splits_at(n, p, r2));
    lemma_covers_parity(n, p, r2);
}

/// Splicing keeps the markers well formed and adds or removes exactly the
/// points of `[a, b)`.
pub proof fn lemma_spliced(m: Seq<(u32, SetNode)>, a: u32, b: u32, add: bool)
    requires
        markers_wf(m),
        a < b,
    ensures
        markers_wf(spliced(m, a, b, add)),
        forall|p: int| #[trigger]
            covers_in(spliced(m, a, b, add), p) <==> (if a <= p < b {
                add
            } else {
                covers_in(m, p)
            }),
{
    let lo = rank(m, a - 1);
    let hi = rank(m, b as int);
    let n = spliced(m, a, b, add);
    lemma_rank_splits(m, a - 1);
    lemma_rank_splits(m, b as int);
    lemma_spliced_shape(m, a, b, add);
    lemma_splice_ordered(m, n, a, b, lo, hi, add);
    lemma_splice_alternate(m, n, a, b, lo, hi, add);
    assert forall|p: int| #[trigger]
        covers_in(n, p) <==> (if a <= p < b {
            add
        } else {
            covers_in(m, p)
        }) by {
        lemma_splice_covers(m, n, a, b, lo, hi, add, p);
    }
}

/// The markers after the interval `[a, b)` was pushed: unchanged where the
/// interval is empty.
pub open spec fn pushed(m: Seq<(u32, SetNode)>, a: u32, b: u32) -> Seq<(u32, SetNode)> {
    if a < b {
        spliced(m, a, b, true)
    } else {
        m
    }
}

/// The markers after the interval `[a, b)` was removed: unchanged where the
/// interval is empty.
pub open spec fn removed(m: Seq<(u32, SetNode)>, a: u32, b: u32) -> Seq<(u32, SetNode)> {
    if a < b {
        spliced(m, a, b, false)
    } else {
        m
    }
}

/// From one point to the next the number of markers at or below grows by one
/// exactly where coverage changes, and else not at all.
pub proof fn lemma_rank_step(m: Seq<(u32, SetNode)>, p: int)
    requires
        markers_wf(m),
    ensures
        rank(m, p) - rank(m, p - 1) == (if covers_in(m, p) != covers_in(m, p - 1) {
            1int
        } else {
            0int
        }),
{
    lemma_rank_monotone(m, p - 1, p);
    lemma_rank_splits(m, p - 1);
    lemma_rank_splits(m, p);
    let r0 = rank(m, p - 1);
    let r1 = rank(m, p);
    if r1 >= r0 + 2 {
        assert(m[r0].0 > p - 1);
        assert(m[r0 + 1].0 <= p);
        assert(m[r0].0 < m[r0 + 1].0);
    }
    lemma_covers_parity(m, p - 1, r0);
    lemma_covers_parity(m, p, r1);
}

proof fn lemma_rank_agrees(a: Seq<(u32, SetNode)>, b: Seq<(u32, SetNode)>, p: int)
    requires
        markers_wf(a),
        markers_wf(b),
        forall|q: int| covers_in(a, q) == covers_in(b, q),
    ensures
        rank(a, p) == rank(b, p),
    decreases p + 1,
{
    if p < 0 {
        lemma_rank_splits(a, p);
        lemma_rank_splits(b, p);
        if rank(a, p) > 0 {
            assert(a[0].0 <= p);
        }
        if rank(b, p) > 0 {
            assert(b[0].0 <= p);
        }
    } else {
        lemma_rank_agrees(a, b, p - 1);
        lemma_rank_step(a, p);
        lemma_rank_step(b, p);
    }
}

/// Well-formed markers are determined by the points that they cover: a set
/// of points has one representation only.
pub proof fn lemma_canonical(a: Seq<(u32, SetNode)>, b: Seq<(u32, SetNode)>)
    requires
        markers_wf(a),
        markers_wf(b),
        forall|q: int| covers_in(a, q) == covers_in(b, q),
    ensures
        a == b,
{
    let top = u32::MAX as int;
    lemma_rank_agrees(a, b, top);
    lemma_rank_splits(a, top);
    lemma_rank_splits(b, top);
    assert(rank(a, top) == a.len()) by {
        if rank(a, top) < a.len() {
            assert(a[rank(a, top)].0 > top);
        }
    }
    assert(rank(b, top) == b.len()) by {
        if rank(b, top) < b.len() {
            assert(b[rank(b, top)].0 > top);
        }
    }
    assert forall|i: int| 0 <= i < a.len() implies a[i] == b[i] by {
        let c = a[i].0 as int;
        lemma_rank_splits(a, c);
        lemma_rank_splits(a, c - 1);
        assert(rank(a, c) == i + 1) by {
            let r = rank(a, c);
            if r <= i {
                assert(a[i].0 > c);
            }
            if r > i + 1 {
                assert(a[i + 1].0 <= c);
                assert(a[i].0 < a[i + 1].0);
            }
        }
        assert(rank(a, c - 1) == i) by {
            let r = rank(a, c - 1);
            if r > i {
                assert(a[i].0 <= c - 1);
            }
            if r < i {
                assert(a[r].0 > c - 1);
                assert(a[r].0 < a[i].0);
            }
        }
        lemma_rank_agrees(a, b, c);
        lemma_rank_agrees(a, b, c - 1);
        lemma_rank_splits(b, c);
        lemma_rank_splits(b, c - 1);
        assert(b[i].0 <= c);
        assert(b[i].0 > c - 1);
        assert(a[i].1 == SetNode::Start <==> i % 2 == 0);
        assert(b[i].1 == SetNode::Start <==> i % 2 == 0);
    }
    assert(a =~= b);
}

/// Pushing keeps markers well formed and adds exactly the points of `[a, b)`.
pub proof fn lemma_pushed(m: Seq<(u32, SetNode)>, a: u32, b: u32)
    requires
        markers_wf(m),
        a <= b,
    ensures
        markers_wf(pushed(m, a, b)),
        forall|p: int| #[trigger] covers_in(pushed(m, a, b), p) <==> (covers_in(m, p) || a <= p < b),
{
    if a < b {
        lemma_spliced(m, a, b, true);
    }
}

/// Removing keeps markers well formed and takes away exactly the points of
/// `[a, b)`.
pub proof fn lemma_removed(m: Seq<(u32, SetNode)>, a: u32, b: u32)
    requires
        markers_wf(m),
        a <= b,
    ensures
        markers_wf(removed(m, a, b)),
        forall|p: int| #[trigger] covers_in(removed(m, a, b), p) <==> (covers_in(m, p) && !(a <= p < b)),
{
    if a < b {
        lemma_spliced(m, a, b, false);
    }
}

} // verus!
