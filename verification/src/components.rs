//! Components of similar samples, and the split that assigns them to groups
//! largest first.

use vstd::prelude::*;
use crate::order::{is_stable_order, stable_sort_order};
use crate::split::{is_choice, loss_key, with_component, Fraction, GroupState, SplitBuilder, SplitGroupResult};

verus! {

/// The components of the undirected graph with the edges `edges`, as the
/// graph library lists them. The nodes are the numbers up to the largest that
/// an edge names.
pub uninterp spec fn components_of(edges: Seq<(usize, usize)>) -> Seq<Seq<usize>>;

/// Whether every edge joins nodes below `bound`, and some edge names
/// `bound - 1` if `bound` is not zero.
pub open spec fn is_node_bound(edges: Seq<(usize, usize)>, bound: int) -> bool {
    &&& forall|e: int| 0 <= e < edges.len() ==> (#[trigger] edges[e]).0 < bound && edges[e].1 < bound
    &&& bound == 0 || exists|e: int|
        0 <= e < edges.len() && ((#[trigger] edges[e]).0 == bound - 1 || edges[e].1 == bound - 1)
}

/// Whether `path` leads from `a` to `b` along edges, in either direction.
pub open spec fn is_path(edges: Seq<(usize, usize)>, path: Seq<usize>, a: usize, b: usize) -> bool {
    &&& path.len() > 0
    &&& path.first() == a
    &&& path.last() == b
    &&& forall|i: int|
        0 <= i < path.len() - 1 ==> edges.contains((#[trigger] path[i], path[i + 1])) || edges.contains(
            (path[i + 1], path[i]),
        )
}

/// Whether `a` and `b` are the same node or joined by a path of edges.
pub open spec fn linked(edges: Seq<(usize, usize)>, a: usize, b: usize) -> bool {
    exists|path: Seq<usize>| #[trigger] is_path(edges, path, a, b)
}

/// `components` holds each node once, and two nodes in one component exactly
/// where they are linked.
pub open spec fn is_components(edges: Seq<(usize, usize)>, components: Seq<Seq<usize>>) -> bool {
    &&& forall|bound: int, c: int, k: int|
        #![trigger is_node_bound(edges, bound), components[c][k]]
        is_node_bound(edges, bound) && 0 <= c < components.len() && 0 <= k < components[c].len()
            ==> components[c][k] < bound
    &&& forall|bound: int, node: usize|
        #![trigger is_node_bound(edges, bound), linked(edges, node, node)]
        is_node_bound(edges, bound) && node < bound ==> exists|c: int, k: int|
            0 <= c < components.len() && 0 <= k < components[c].len() && #[trigger] components[c][k]
                == node
    &&& forall|c: int, k: int, d: int, m: int|
        0 <= c < components.len() && 0 <= k < components[c].len() && 0 <= d < components.len() && 0
            <= m < components[d].len() ==> (#[trigger] components[c][k] == #[trigger] components[d][m]
            ==> c == d && k == m) && (c == d <==> linked(edges, components[c][k], components[d][m]))
}

/// Makes the undirected graph of the edges with
/// `petgraph::graph::Graph::from_edges` and lists its components with
/// `petgraph::algo::tarjan_scc`.
///
/// Trusted: the result is a function of the edges; it holds each node of
/// the graph in one component, once, and two nodes in the same component
/// exactly where a path of edges joins them.
#[verifier::external_body]
pub(crate) fn connected_components(edges: &Vec<(usize, usize)>) -> (components: Vec<Vec<usize>>)
    ensures
        components.deep_view() == components_of(edges@),
        is_components(edges@, components.deep_view()),
{
    let graph = petgraph::graph::UnGraph::<(), (), usize>::from_edges(edges.iter().copied());
    petgraph::algo::tarjan_scc(&graph).into_iter().map(|c| c.into_iter().map(|i| i.index()).collect()).collect()
}

/// The sum of the sizes of the samples `items`, as far as `upto`.
pub open spec fn component_size(sizes: Seq<u64>, items: Seq<usize>, upto: int) -> int
    decreases upto,
{
    if upto <= 0 {
        0
    } else {
        component_size(sizes, items, upto - 1) + sizes[items[upto - 1] as int]
    }
}

/// The sort key of a component by its size, largest first.
pub open spec fn size_key(size: u64) -> (u64, u64) {
    ((u64::MAX - size) as u64, 0u64)
}

/// The keys of the components with the sizes `component_sizes`.
pub open spec fn size_keys(component_sizes: Seq<u64>) -> Seq<(u64, u64)> {
    Seq::new(component_sizes.len(), |c: int| size_key(component_sizes[c]))
}

/// The group that the next component goes to.
pub open spec fn chosen_group(groups: Seq<GroupState>) -> int {
    choose|chosen: int| is_choice(groups, chosen)
}

/// The groups after the first `upto` of the components, each with its size,
/// were pushed in the order `order`; `None` where the total size is more than
/// a size can be.
pub open spec fn planned(
    groups: Seq<GroupState>,
    components: Seq<Seq<usize>>,
    component_sizes: Seq<u64>,
    order: Seq<usize>,
    upto: int,
) -> Option<Seq<GroupState>>
    decreases upto,
{
    if upto <= 0 {
        Some(groups)
    } else {
        match planned(groups, components, component_sizes, order, upto - 1) {
            None => None,
            Some(before) => {
                let at = order[upto - 1] as int;
                if crate::split::sizes_sum(before, before.len() as int) + component_sizes[at] > u64::MAX {
                    None
                } else {
                    Some(with_component(before, chosen_group(before), components[at], component_sizes[at]))
                }
            },
        }
    }
}

/// The empty groups with the targets `targets`.
pub open spec fn empty_groups(targets: Seq<Fraction>) -> Seq<GroupState> {
    Seq::new(
        targets.len(),
        |i: int| GroupState { target: targets[i], size: 0, items: Seq::empty() },
    )
}

/// Whether `groups` is the split of `components` over empty groups with the
/// targets `targets`: the components pushed largest first, components of the
/// same size in their order. `None` stands for a split that cannot be made:
/// a component, or all of them together, larger than a size can be.
pub open spec fn is_split_of(
    targets: Seq<Fraction>,
    sizes: Seq<u64>,
    components: Seq<Seq<usize>>,
    groups: Option<Seq<GroupState>>,
) -> bool {
    if exists|c: int|
        0 <= c < components.len() && #[trigger] component_size(sizes, components[c], components[c].len() as int)
            > u64::MAX {
        groups.is_none()
    } else {
        exists|order: Seq<usize>| #[trigger]
            is_stable_order(size_keys(sizes_of(sizes, components)), order) && groups == planned(
                empty_groups(targets),
                components,
                sizes_of(sizes, components),
                order,
                components.len() as int,
            )
    }
}

/// The size of each of `components`.
pub open spec fn sizes_of(sizes: Seq<u64>, components: Seq<Seq<usize>>) -> Seq<u64> {
    Seq::new(
        components.len(),
        |c: int| component_size(sizes, components[c], components[c].len() as int) as u64,
    )
}

/// The groups of a result, as the builder sees groups.
pub open spec fn groups_of(result: Seq<SplitGroupResult>) -> Seq<GroupState> {
    Seq::new(
        result.len(),
        |i: int|
            GroupState { target: result[i].target_fraction, size: result[i].current_size, items: result[i].items@ },
    )
}

/// The choice of a group is one only.
pub proof fn lemma_choice_unique(groups: Seq<GroupState>, a: int, b: int)
    requires
        is_choice(groups, a),
        is_choice(groups, b),
    ensures
        a == b,
{
    if a < b {
        assert(loss_key(groups, b) < loss_key(groups, a));
        assert(loss_key(groups, a) <= loss_key(groups, b));
    }
    if b < a {
        assert(loss_key(groups, a) < loss_key(groups, b));
        assert(loss_key(groups, b) <= loss_key(groups, a));
    }
}

proof fn lemma_planned_none(
    groups: Seq<GroupState>,
    components: Seq<Seq<usize>>,
    component_sizes: Seq<u64>,
    order: Seq<usize>,
    from: int,
    upto: int,
)
    requires
        0 <= from <= upto,
        planned(groups, components, component_sizes, order, from).is_none(),
    ensures
        planned(groups, components, component_sizes, order, upto).is_none(),
    decreases upto,
{
    if from < upto {
        lemma_planned_none(groups, components, component_sizes, order, from, upto - 1);
    }
}

/// The size of a component, or `None` where it is more than a size can be.
fn size_of_component(sample_sizes: &Vec<u64>, items: &Vec<usize>) -> (r: Option<u64>)
    requires
        forall|k: int| 0 <= k < items@.len() ==> (#[trigger] items@[k]) < sample_sizes@.len(),
    ensures
        match r {
            Some(size) => size == component_size(sample_sizes@, items@, items@.len() as int),
            None => component_size(sample_sizes@, items@, items@.len() as int) > u64::MAX,
        },
{
    let mut size: u64 = 0;
    let mut k: usize = 0;
    while k < items.len()
        invariant
            0 <= k <= items@.len(),
            forall|j: int| 0 <= j < items@.len() ==> (#[trigger] items@[j]) < sample_sizes@.len(),
            size == component_size(sample_sizes@, items@, k as int),
        decreases items@.len() - k,
    {
        let more = sample_sizes[items[k]];
        if more > u64::MAX - size {
            proof {
                lemma_component_size_grows(sample_sizes@, items@, k + 1, items@.len() as int);
            }
            return None;
        }
        size = size + more;
        k += 1;
    }
    Some(size)
}

proof fn lemma_component_size_grows(sizes: Seq<u64>, items: Seq<usize>, from: int, upto: int)
    requires
        0 <= from <= upto,
    ensures
        component_size(sizes, items, from) <= component_size(sizes, items, upto),
    decreases upto,
{
    if from < upto {
        lemma_component_size_grows(sizes, items, from, upto - 1);
    }
}

/// Splits `components` over groups with the targets `targets`: the
/// components are pushed largest first, components of the same size in their
/// order.
pub fn split_components(sample_sizes: &Vec<u64>, components: Vec<Vec<usize>>, targets: &[Fraction]) -> (r:
    Option<Vec<SplitGroupResult>>)
    requires
        targets@.len() > 0,
        forall|i: int| 0 <= i < targets@.len() ==> (#[trigger] targets@[i]).wf(),
        forall|c: int, k: int|
            0 <= c < components@.len() && 0 <= k < components@[c]@.len() ==> (
            #[trigger] components@[c]@[k]) < sample_sizes@.len(),
    ensures
        is_split_of(
            targets@,
            sample_sizes@,
            components.deep_view(),
            match r {
                Some(result) => Some(groups_of(result@)),
                None => None,
            },
        ),
{
    let ghost comps = components.deep_view();
    let count = components.len();
    let mut component_sizes: Vec<u64> = Vec::new();
    let mut keys: Vec<(u64, u64)> = Vec::new();
    let mut c: usize = 0;
    while c < count
        invariant
            0 <= c <= count,
            count == components@.len(),
            comps == components.deep_view(),
            component_sizes@.len() == c,
            keys@.len() == c,
            forall|d: int, k: int|
                0 <= d < components@.len() && 0 <= k < components@[d]@.len() ==> (
                #[trigger] components@[d]@[k]) < sample_sizes@.len(),
            forall|d: int|
                0 <= d < c ==> (#[trigger] component_sizes@[d]) == component_size(
                    sample_sizes@,
                    comps[d],
                    comps[d].len() as int,
                ) && keys@[d] == size_key(component_sizes@[d]),
        decreases count - c,
    {
        assert(comps[c as int] == components@[c as int]@);
        assert forall|k: int| 0 <= k < components@[c as int]@.len() implies (
        #[trigger] components@[c as int]@[k]) < sample_sizes@.len() by {}
        match size_of_component(sample_sizes, &components[c]) {
            Some(size) => {
                component_sizes.push(size);
                keys.push((u64::MAX - size, 0));
            },
            None => {
                return None;
            },
        }
        c += 1;
    }
    let ghost spec_sizes = sizes_of(sample_sizes@, comps);
    assert(component_sizes@ =~= spec_sizes);
    assert(keys@ =~= size_keys(spec_sizes));
    assert(!(exists|d: int|
        0 <= d < comps.len() && #[trigger] component_size(sample_sizes@, comps[d], comps[d].len() as int)
            > u64::MAX)) by {
        assert forall|d: int| 0 <= d < comps.len() implies #[trigger] component_size(
            sample_sizes@,
            comps[d],
            comps[d].len() as int,
        ) <= u64::MAX by {
            assert(component_sizes@[d] == component_size(sample_sizes@, comps[d], comps[d].len() as int));
        }
    }
    let order = stable_sort_order(&keys);
    let mut builder = SplitBuilder::new(targets);
    assert(builder@ =~= empty_groups(targets@));
    let mut remaining = components;
    let mut k: usize = 0;
    while k < count
        invariant
            0 <= k <= count,
            count == comps.len(),
            count == order@.len(),
            count == component_sizes@.len(),
            component_sizes@ == spec_sizes,
            remaining@.len() == count,
            comps == components.deep_view(),
            is_stable_order(size_keys(spec_sizes), order@),
            spec_sizes == sizes_of(sample_sizes@, comps),
            !(exists|d: int|
                0 <= d < comps.len() && #[trigger] component_size(
                    sample_sizes@,
                    comps[d],
                    comps[d].len() as int,
                ) > u64::MAX),
            builder.wf(),
            builder@.len() == targets@.len(),
            targets@.len() > 0,
            forall|j: int| k <= j < count ==> (#[trigger] remaining@[order@[j] as int])@ == comps[order@[j] as int],
            planned(empty_groups(targets@), comps, spec_sizes, order@, k as int) == Some(builder@),
        decreases count - k,
    {
        let at = order[k];
        assert(order@[k as int] < size_keys(spec_sizes).len());
        let size = component_sizes[at];
        if size > u64::MAX - builder.total_size() {
            proof {
                assert(planned(empty_groups(targets@), comps, spec_sizes, order@, k + 1).is_none());
                lemma_planned_none(empty_groups(targets@), comps, spec_sizes, order@, k + 1, count as int);
            }
            return None;
        }
        let ghost before = builder@;
        let mut items: Vec<usize> = Vec::new();
        core::mem::swap(&mut items, &mut remaining[at]);
        assert(items@ == comps[at as int]);
        builder.push_component(items, size);
        proof {
            let chosen = choose|chosen: int| #[trigger]
                is_choice(before, chosen) && builder@ =~= with_component(before, chosen, comps[at as int], size);
            lemma_choice_unique(before, chosen, chosen_group(before));
            assert(planned(empty_groups(targets@), comps, spec_sizes, order@, k + 1) == Some(builder@));
            assert forall|j: int| k + 1 <= j < count implies (#[trigger] remaining@[order@[j] as int])@
                == comps[order@[j] as int] by {
                let a = order@[k as int];
                let b = order@[j];
                assert(crate::order::key_before(size_keys(spec_sizes)[a as int], size_keys(spec_sizes)[b as int])
                    || a < b);
            }
        }
        k += 1;
    }
    let result = builder.build();
    proof {
        assert(groups_of(result@) =~= builder@);
    }
    Some(result)
}

/// The samples with the indices `0..sample_sizes.len()`, split over groups
/// with the targets `targets`: samples that `links` joins, directly or by
/// way of others, go to the same group.
pub fn plan_split(sample_sizes: &Vec<u64>, links: &Vec<(usize, usize)>, targets: &[Fraction]) -> (r: Option<
    Vec<SplitGroupResult>,
>)
    requires
        targets@.len() > 0,
        forall|i: int| 0 <= i < targets@.len() ==> (#[trigger] targets@[i]).wf(),
        forall|e: int|
            0 <= e < links@.len() ==> (#[trigger] links@[e]).0 < sample_sizes@.len() && links@[e].1
                < sample_sizes@.len(),
    ensures
        is_split_of(
            targets@,
            sample_sizes@,
            components_of(with_self_links(sample_sizes@.len() as int, links@)),
            match r {
                Some(result) => Some(groups_of(result@)),
                None => None,
            },
        ),
{
    let count = sample_sizes.len();
    let mut edges: Vec<(usize, usize)> = Vec::new();
    let mut i: usize = 0;
    while i < count
        invariant
            0 <= i <= count,
            edges@ =~= Seq::new(i as nat, |k: int| (k as usize, k as usize)),
        decreases count - i,
    {
        edges.push((i, i));
        i += 1;
    }
    let mut e: usize = 0;
    while e < links.len()
        invariant
            0 <= e <= links@.len(),
            edges@ =~= Seq::new(count as nat, |k: int| (k as usize, k as usize)) + links@.subrange(0, e as int),
        decreases links@.len() - e,
    {
        edges.push(links[e]);
        e += 1;
    }
    assert(links@.subrange(0, e as int) =~= links@);
    let components = connected_components(&edges);
    proof {
        let all = edges@;
        assert(is_node_bound(all, count as int)) by {
            if count > 0 {
                assert(all[count - 1].0 == count - 1);
            }
            assert forall|k: int| 0 <= k < all.len() implies (#[trigger] all[k]).0 < count && all[k].1
                < count by {
                if k >= count {
                    assert(all[k] == links@[k - count]);
                }
            }
        }
        assert forall|c: int, k: int|
            0 <= c < components@.len() && 0 <= k < components@[c]@.len() implies (
        #[trigger] components@[c]@[k]) < sample_sizes@.len() by {
            assert(components.deep_view()[c][k] == components@[c]@[k]);
        }
    }
    split_components(sample_sizes, components, targets)
}

/// The edges `links`, after an edge from each of the first `count` nodes to
/// itself: every node is part of the graph.
pub open spec fn with_self_links(count: int, links: Seq<(usize, usize)>) -> Seq<(usize, usize)> {
    Seq::new(count as nat, |k: int| (k as usize, k as usize)) + links
}

} // verus!
