//! Splitting samples into groups of given target sizes, whole components of
//! similar samples at a time.

use vstd::prelude::*;
use vstd::multiset::Multiset;

verus! {

/// The number of parts that a whole is divided into.
pub const MILLION: u32 = 1_000_000;

/// A share of a whole, in millionths.
#[derive(Copy, Clone, Debug, PartialEq, Eq, Structural)]
pub struct Fraction {
    pub millionths: u32,
}

impl Fraction {
    /// The share is no more than the whole.
    pub open spec fn wf(self) -> bool {
        self.millionths <= MILLION
    }
}

/// A group as the builder sees it: its target, the size of what it holds,
/// and the items it holds in the order in which they came.
pub struct GroupState {
    pub target: Fraction,
    pub size: u64,
    pub items: Seq<usize>,
}

/// The sum of the sizes of the first `upto` groups.
pub open spec fn sizes_sum(groups: Seq<GroupState>, upto: int) -> int
    decreases upto,
{
    if upto <= 0 {
        0
    } else {
        sizes_sum(groups, upto - 1) + groups[upto - 1].size
    }
}

/// The loss of group `i`, a million times the total size of all groups
/// (or a million times, while that is nothing): the less, the sooner the
/// group is chosen.
///
/// An empty group loses one and its target, so that empty groups fill first,
/// those with the larger target before the others. A group that holds
/// something loses by how much its share of the total is above its target.
pub open spec fn loss_key(groups: Seq<GroupState>, i: int) -> int {
    let total = sizes_sum(groups, groups.len() as int);
    let scale = if total > 0 { total } else { 1 };
    if groups[i].size == 0 {
        -scale * (MILLION + groups[i].target.millionths)
    } else {
        groups[i].size * MILLION - groups[i].target.millionths * total
    }
}

/// The group that the next component goes to: the first of those with the
/// least loss.
pub open spec fn is_choice(groups: Seq<GroupState>, chosen: int) -> bool {
    &&& 0 <= chosen < groups.len()
    &&& forall|j: int| 0 <= j < groups.len() ==> loss_key(groups, chosen) <= #[trigger] loss_key(groups, j)
    &&& forall|j: int| 0 <= j < chosen ==> loss_key(groups, chosen) < #[trigger] loss_key(groups, j)
}

/// The groups after a component of size `size` with the items `items` went to
/// group `chosen`.
pub open spec fn with_component(groups: Seq<GroupState>, chosen: int, items: Seq<usize>, size: u64) -> Seq<
    GroupState,
> {
    groups.update(
        chosen,
        GroupState {
            target: groups[chosen].target,
            size: (groups[chosen].size + size) as u64,
            items: groups[chosen].items + items,
        },
    )
}

/// The items of the first `upto` groups, pooled.
pub open spec fn pooled(groups: Seq<GroupState>, upto: int) -> Multiset<usize>
    decreases upto,
{
    if upto <= 0 {
        Multiset::empty()
    } else {
        pooled(groups, upto - 1).add(groups[upto - 1].items.to_multiset())
    }
}

struct SplitGroup {
    target_fraction: Fraction,
    current_size: u64,
    items: Vec<usize>,
}

/// Assigns components to groups so that the share of each group in the total
/// size stays close to its target.
pub struct SplitBuilder {
    current_size: u64,
    groups: Vec<SplitGroup>,
}

/// A group of a finished split.
#[derive(Debug, PartialEq, Eq)]
pub struct SplitGroupResult {
    pub target_fraction: Fraction,
    /// The size of what the group holds; its share of `total_size` is the
    /// fraction that the group reached.
    pub current_size: u64,
    /// The size of what all groups hold.
    pub total_size: u64,
    pub items: Vec<usize>,
}

impl View for SplitBuilder {
    type V = Seq<GroupState>;

    closed spec fn view(&self) -> Seq<GroupState> {
        Seq::new(
            self.groups@.len(),
            |i: int|
                GroupState {
                    target: self.groups@[i].target_fraction,
                    size: self.groups@[i].current_size,
                    items: self.groups@[i].items@,
                },
        )
    }
}

proof fn lemma_sizes_sum_frame(a: Seq<GroupState>, b: Seq<GroupState>, upto: int)
    requires
        0 <= upto <= a.len(),
        upto <= b.len(),
        forall|i: int| 0 <= i < upto ==> (#[trigger] a[i]).size == b[i].size,
    ensures
        sizes_sum(a, upto) == sizes_sum(b, upto),
    decreases upto,
{
    if upto > 0 {
        lemma_sizes_sum_frame(a, b, upto - 1);
    }
}

proof fn lemma_size_in_sum(groups: Seq<GroupState>, chosen: int, upto: int)
    requires
        0 <= chosen < groups.len(),
        0 <= upto <= groups.len(),
    ensures
        0 <= sizes_sum(groups, upto),
        chosen < upto ==> groups[chosen].size <= sizes_sum(groups, upto),
    decreases upto,
{
    if upto > 0 {
        lemma_size_in_sum(groups, chosen, upto - 1);
    }
}

proof fn lemma_sizes_sum_update(groups: Seq<GroupState>, chosen: int, items: Seq<usize>, size: u64, upto: int)
    requires
        0 <= chosen < groups.len(),
        0 <= upto <= groups.len(),
        groups[chosen].size + size <= u64::MAX,
    ensures
        sizes_sum(with_component(groups, chosen, items, size), upto) == sizes_sum(groups, upto) + (if chosen
            < upto {
            size as int
        } else {
            0
        }),
    decreases upto,
{
    if upto > 0 {
        lemma_sizes_sum_update(groups, chosen, items, size, upto - 1);
    }
}

proof fn lemma_pooled_update(groups: Seq<GroupState>, chosen: int, items: Seq<usize>, size: u64, upto: int)
    requires
        0 <= chosen < groups.len(),
        0 <= upto <= groups.len(),
    ensures
        pooled(with_component(groups, chosen, items, size), upto) =~= (if chosen < upto {
            pooled(groups, upto).add(items.to_multiset())
        } else {
            pooled(groups, upto)
        }),
    decreases upto,
{
    broadcast use vstd::multiset::group_multiset_axioms;

    if upto > 0 {
        lemma_pooled_update(groups, chosen, items, size, upto - 1);
        if chosen == upto - 1 {
            vstd::seq_lib::lemma_multiset_commutative(groups[chosen].items, items);
        }
    }
}

impl SplitBuilder {
    /// Each target is a share of the whole, and the total is the sum of the
    /// sizes of the groups.
    pub open spec fn wf(self) -> bool {
        &&& forall|i: int| 0 <= i < self@.len() ==> (#[trigger] self@[i]).target.wf()
        &&& self.total() == sizes_sum(self@, self@.len() as int)
    }

    /// The size of what all groups hold.
    pub closed spec fn total(self) -> u64 {
        self.current_size
    }

    /// The size of what all groups hold.
    pub fn total_size(&self) -> (r: u64)
        ensures
            r == self.total(),
    {
        self.current_size
    }

    /// A builder with an empty group for each target.
    pub fn new(groups: &[Fraction]) -> (r: SplitBuilder)
        requires
            forall|i: int| 0 <= i < groups@.len() ==> (#[trigger] groups@[i]).wf(),
        ensures
            r.wf(),
            r.total() == 0,
            r@.len() == groups@.len(),
            forall|i: int|
                0 <= i < groups@.len() ==> (#[trigger] r@[i]).target == groups@[i] && r@[i].size == 0
                    && r@[i].items =~= Seq::<usize>::empty(),
            pooled(r@, r@.len() as int) =~= Multiset::<usize>::empty(),
    {
        let mut made: Vec<SplitGroup> = Vec::new();
        let mut i: usize = 0;
        while i < groups.len()
            invariant
                0 <= i <= groups@.len(),
                made@.len() == i,
                forall|k: int|
                    0 <= k < i ==> (#[trigger] made@[k]).target_fraction == groups@[k]
                        && made@[k].current_size == 0 && made@[k].items@ =~= Seq::<usize>::empty(),
            decreases groups@.len() - i,
        {
            made.push(SplitGroup { target_fraction: groups[i], current_size: 0, items: Vec::new() });
            i += 1;
        }
        let r = SplitBuilder { current_size: 0, groups: made };
        proof {
            lemma_empty_groups(r@, r@.len() as int);
        }
        r
    }

    /// The loss of group `i`, see [`loss_key`].
    fn loss(&self, i: usize) -> (r: i128)
        requires
            self.wf(),
            i < self@.len(),
        ensures
            r == loss_key(self@, i as int),
    {
        let group = &self.groups[i];
        let total = self.current_size;
        let ppm = group.target_fraction.millionths;
        proof {
            assert(self@[i as int].target.wf());
            assert(self@[i as int].size == group.current_size);
        }
        if group.current_size == 0 {
            let scale: i128 = if total > 0 { total as i128 } else { 1 };
            assert(scale * (MILLION + ppm) <= 0x1_0000_0000_0000_0000 * 2_000_000) by (nonlinear_arith)
                requires
                    0 < scale <= 0x1_0000_0000_0000_0000,
                    ppm <= 1_000_000,
            ;
            assert(scale * (MILLION + ppm) >= 0) by (nonlinear_arith)
                requires
                    0 < scale,
                    ppm >= 0,
            ;
            assert((-scale) * (MILLION + ppm) == -(scale * (MILLION + ppm))) by (nonlinear_arith);
            -(scale * (MILLION as i128 + ppm as i128))
        } else {
            assert(group.current_size * MILLION <= 0x1_0000_0000_0000_0000 * 1_000_000) by (nonlinear_arith)
                requires
                    group.current_size <= 0x1_0000_0000_0000_0000,
            ;
            assert(ppm * total <= 1_000_000 * 0x1_0000_0000_0000_0000) by (nonlinear_arith)
                requires
                    ppm <= 1_000_000,
                    total <= 0x1_0000_0000_0000_0000,
            ;
            assert(ppm * total >= 0 && group.current_size * MILLION >= 0) by (nonlinear_arith)
                requires
                    ppm >= 0,
                    total >= 0,
                    group.current_size >= 0,
            ;
            (group.current_size as i128) * (MILLION as i128) - (ppm as i128) * (total as i128)
        }
    }

    /// Assigns a component of size `group_size`, whole, to the first of the
    /// groups with the least loss.
    pub fn push_component(&mut self, items: Vec<usize>, group_size: u64)
        requires
            old(self).wf(),
            old(self)@.len() > 0,
            old(self).total() + group_size <= u64::MAX,
        ensures
            final(self).wf(),
            final(self).total() == old(self).total() + group_size,
            exists|chosen: int| #[trigger]
                is_choice(old(self)@, chosen) && final(self)@ =~= with_component(
                    old(self)@,
                    chosen,
                    items@,
                    group_size,
                ),
            pooled(final(self)@, final(self)@.len() as int) =~= pooled(
                old(self)@,
                old(self)@.len() as int,
            ).add(items@.to_multiset()),
    {
        let count = self.groups.len();
        let mut target_group: usize = 0;
        let mut least = self.loss(0);
        let mut j: usize = 1;
        while j < count
            invariant
                1 <= j <= count,
                count == self@.len(),
                self.wf(),
                *self == *old(self),
                0 <= target_group < j,
                least == loss_key(self@, target_group as int),
                forall|k: int| 0 <= k < j ==> least <= #[trigger] loss_key(self@, k),
                forall|k: int| 0 <= k < target_group ==> least < #[trigger] loss_key(self@, k),
            decreases count - j,
        {
            let loss = self.loss(j);
            if loss < least {
                target_group = j;
                least = loss;
            }
            j += 1;
        }
        let ghost before = self@;
        let ghost chosen = target_group as int;
        assert(is_choice(before, chosen));
        proof {
            lemma_size_in_sum(before, chosen, before.len() as int);
            lemma_sizes_sum_update(before, chosen, items@, group_size, before.len() as int);
            lemma_pooled_update(before, chosen, items@, group_size, before.len() as int);
        }
        let ghost pushed = items@;
        let mut items = items;
        let group = &mut self.groups[target_group];
        group.current_size = group.current_size + group_size;
        group.items.append(&mut items);
        self.current_size = self.current_size + group_size;
        proof {
            assert(self@ =~= with_component(before, chosen, pushed, group_size));
            assert forall|i: int| 0 <= i < self@.len() implies (#[trigger] self@[i]).target.wf() by {
                assert(before[i].target.wf());
            }
        }
    }

    /// The groups, each with its target, its size and the total size, and
    /// its items.
    pub fn build(self) -> (r: Vec<SplitGroupResult>)
        requires
            self.wf(),
        ensures
            r@.len() == self@.len(),
            forall|i: int|
                0 <= i < r@.len() ==> (#[trigger] r@[i]).target_fraction == self@[i].target
                    && r@[i].current_size == self@[i].size && r@[i].total_size == self.total()
                    && r@[i].items@ == self@[i].items,
    {
        let total_size = self.current_size;
        let ghost model = self@;
        let mut groups = self.groups;
        let mut out: Vec<SplitGroupResult> = Vec::new();
        let count = groups.len();
        let mut i: usize = count;
        // Groups are taken from the back, and the results put in order after.
        while i > 0
            invariant
                0 <= i <= count,
                count == model.len(),
                groups@.len() == i,
                out@.len() == count - i,
                forall|k: int|
                    0 <= k < i ==> (#[trigger] groups@[k]).target_fraction == model[k].target
                        && groups@[k].current_size == model[k].size && groups@[k].items@
                        == model[k].items,
                forall|k: int|
                    0 <= k < out@.len() ==> (#[trigger] out@[k]).target_fraction == model[count - 1
                        - k].target && out@[k].current_size == model[count - 1 - k].size
                        && out@[k].total_size == total_size && out@[k].items@ == model[count - 1
                        - k].items,
            decreases i,
        {
            let group = groups.pop().unwrap();
            out.push(
                SplitGroupResult {
                    target_fraction: group.target_fraction,
                    current_size: group.current_size,
                    total_size,
                    items: group.items,
                },
            );
            i -= 1;
        }
        let mut result: Vec<SplitGroupResult> = Vec::new();
        let mut k: usize = count;
        while k > 0
            invariant
                0 <= k <= count,
                count == model.len(),
                out@.len() == k,
                result@.len() == count - k,
                forall|j: int|
                    0 <= j < k ==> (#[trigger] out@[j]).target_fraction == model[count - 1 - j].target
                        && out@[j].current_size == model[count - 1 - j].size && out@[j].total_size
                        == total_size && out@[j].items@ == model[count - 1 - j].items,
                forall|j: int|
                    0 <= j < result@.len() ==> (#[trigger] result@[j]).target_fraction == model[j].target
                        && result@[j].current_size == model[j].size && result@[j].total_size
                        == total_size && result@[j].items@ == model[j].items,
            decreases k,
        {
            let group = out.pop().unwrap();
            result.push(group);
            k -= 1;
        }
        result
    }
}

proof fn lemma_empty_groups(groups: Seq<GroupState>, upto: int)
    requires
        0 <= upto <= groups.len(),
        forall|i: int| 0 <= i < groups.len() ==> (#[trigger] groups[i]).size == 0 && groups[i].items
            =~= Seq::<usize>::empty(),
    ensures
        sizes_sum(groups, upto) == 0,
        pooled(groups, upto) =~= Multiset::<usize>::empty(),
    decreases upto,
{
    broadcast use vstd::multiset::group_multiset_axioms;

    if upto > 0 {
        lemma_empty_groups(groups, upto - 1);
        assert(groups[upto - 1].items =~= Seq::<usize>::empty());
        groups[upto - 1].items.to_multiset_ensures();
        assert(groups[upto - 1].items.to_multiset().len() == 0);
        let held = groups[upto - 1].items.to_multiset();
        assert(held =~= Multiset::<usize>::empty()) by {
            assert forall|x: usize| #[trigger] held.count(x) == 0 by {
                if held.count(x) > 0 {
                    assert(groups[upto - 1].items.contains(x));
                }
            }
        }
    }
}

/// Where no item was pushed twice, no item stands in two groups, nor twice in
/// one: the groups are disjoint, and together they hold what was pushed.
pub proof fn law_groups_disjoint(groups: Seq<GroupState>, g: int, h: int, x: usize)
    requires
        0 <= g < h < groups.len(),
        pooled(groups, groups.len() as int).count(x) <= 1,
    ensures
        !(groups[g].items.contains(x) && groups[h].items.contains(x)),
{
    broadcast use vstd::multiset::group_multiset_axioms;

    lemma_pooled_counts(groups, groups.len() as int, g, x);
    lemma_pooled_counts(groups, groups.len() as int, h, x);
    lemma_pooled_two(groups, groups.len() as int, g, h, x);
}

proof fn lemma_pooled_counts(groups: Seq<GroupState>, upto: int, g: int, x: usize)
    requires
        0 <= g < upto <= groups.len(),
    ensures
        pooled(groups, upto).count(x) >= groups[g].items.to_multiset().count(x),
    decreases upto,
{
    broadcast use vstd::multiset::group_multiset_axioms;

    if g < upto - 1 {
        lemma_pooled_counts(groups, upto - 1, g, x);
    }
}

proof fn lemma_pooled_two(groups: Seq<GroupState>, upto: int, g: int, h: int, x: usize)
    requires
        0 <= g < h < upto <= groups.len(),
    ensures
        pooled(groups, upto).count(x) >= groups[g].items.to_multiset().count(x)
            + groups[h].items.to_multiset().count(x),
        groups[g].items.contains(x) ==> groups[g].items.to_multiset().count(x) >= 1,
        groups[h].items.contains(x) ==> groups[h].items.to_multiset().count(x) >= 1,
    decreases upto,
{
    broadcast use vstd::multiset::group_multiset_axioms;

    groups[g].items.to_multiset_ensures();
    groups[h].items.to_multiset_ensures();
    if h < upto - 1 {
        lemma_pooled_two(groups, upto - 1, g, h, x);
    } else {
        lemma_pooled_counts(groups, upto - 1, g, x);
    }
}

} // verus!
