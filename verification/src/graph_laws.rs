//! What holds of every graph that is built from a superset.

use vstd::prelude::*;
use crate::address_index::{lemma_lookup_in_range, Entry};
use crate::dataflow::{
    flows, flows_along_path, flows_unchanged, out_edges, passed_on, reach_upto, reaching,
};
use crate::graph::{is_stable_sort_of, keys_of, lemma_stable_sort_unique, Edge, RelationType};
use crate::graph_sample::{
    data_edges, dependency_edges, emitted_edges, flow_list, flow_lists, is_graph_of, lemma_merged, lexical_edges,
    lists_reaching, lists_set, merge_edges, merged, passed_list,
    node_data_edges, node_edges, overlap_edges, pair_edges, register_at, slot,
};
use crate::order::{arranged, is_stable_order, lemma_order_covers};
use crate::registers::UsedRegister;

verus! {

/// The kind of the edge that runs against an edge of kind `kind`.
pub open spec fn reverse_kind(kind: RelationType) -> RelationType {
    match kind {
        RelationType::Next => RelationType::Previous,
        RelationType::Previous => RelationType::Next,
        RelationType::Overlap => RelationType::Overlap,
        RelationType::JumpTo => RelationType::JumpFrom,
        RelationType::JumpFrom => RelationType::JumpTo,
        RelationType::DataDependency => RelationType::DataDependent,
        RelationType::DataDependent => RelationType::DataDependency,
    }
}

/// The edge that runs against `edge`.
pub open spec fn reversed(edge: Edge) -> Edge {
    (edge.1, edge.0, reverse_kind(edge.2))
}

/// Every edge of `edges` has its reverse among them.
pub open spec fn paired(edges: Seq<Edge>) -> bool {
    forall|k: int| 0 <= k < edges.len() ==> edges.contains(reversed(#[trigger] edges[k]))
}

proof fn lemma_paired_concat(a: Seq<Edge>, b: Seq<Edge>)
    requires
        paired(a),
        paired(b),
    ensures
        paired(a + b),
{
    let c = a + b;
    assert forall|k: int| 0 <= k < c.len() implies c.contains(reversed(#[trigger] c[k])) by {
        if k < a.len() {
            assert(c[k] == a[k]);
            let wanted = reversed(a[k]);
            assert(a.contains(wanted));
            let m = choose|m: int| 0 <= m < a.len() && a[m] == wanted;
            assert(c[m] == a[m]);
        } else {
            let inner = k - a.len();
            assert(c[k] == b[inner]);
            let wanted = reversed(b[inner]);
            assert(b.contains(wanted));
            let m = choose|m: int| 0 <= m < b.len() && b[m] == wanted;
            assert(c[m + a.len()] == b[m]);
        }
    }
}

proof fn lemma_pair_edges_paired(first: u32, second: Option<u32>, forward: RelationType)
    ensures
        paired(pair_edges(first, second, forward, reverse_kind(forward))),
{
    let p = pair_edges(first, second, forward, reverse_kind(forward));
    match second {
        Some(other) => {
            assert(p[1] == reversed(p[0]));
            assert(p[0] == reversed(p[1]));
        },
        None => {},
    }
}

proof fn lemma_overlap_paired(superset: Seq<Entry>, i: int, upto: int)
    ensures
        paired(overlap_edges(superset, i, upto)),
    decreases upto,
{
    if upto > 1 {
        lemma_overlap_paired(superset, i, upto - 1);
        lemma_pair_edges_paired(
            i as u32,
            crate::address_index::lookup(superset, superset[i].0 + (upto - 1)),
            RelationType::Overlap,
        );
        lemma_paired_concat(
            overlap_edges(superset, i, upto - 1),
            pair_edges(
                i as u32,
                crate::address_index::lookup(superset, superset[i].0 + (upto - 1)),
                RelationType::Overlap,
                RelationType::Overlap,
            ),
        );
    }
}

proof fn lemma_lexical_paired(superset: Seq<Entry>, n: int)
    ensures
        paired(lexical_edges(superset, n)),
    decreases n,
{
    if n > 0 {
        let i = n - 1;
        lemma_lexical_paired(superset, i);
        lemma_pair_edges_paired(i as u32, crate::dataflow::next_of(superset, i), RelationType::Next);
        lemma_overlap_paired(superset, i, superset[i].1.size as int);
        lemma_pair_edges_paired(i as u32, crate::dataflow::jump_of(superset, i), RelationType::JumpTo);
        let first = if superset[i].1.falls_through {
            pair_edges(
                i as u32,
                crate::dataflow::next_of(superset, i),
                RelationType::Next,
                RelationType::Previous,
            ) + overlap_edges(superset, i, superset[i].1.size as int)
        } else {
            Seq::<Edge>::empty()
        };
        if superset[i].1.falls_through {
            lemma_paired_concat(
                pair_edges(
                    i as u32,
                    crate::dataflow::next_of(superset, i),
                    RelationType::Next,
                    RelationType::Previous,
                ),
                overlap_edges(superset, i, superset[i].1.size as int),
            );
        }
        lemma_paired_concat(
            first,
            pair_edges(
                i as u32,
                crate::dataflow::jump_of(superset, i),
                RelationType::JumpTo,
                RelationType::JumpFrom,
            ),
        );
        lemma_paired_concat(lexical_edges(superset, i), node_edges(superset, i));
    }
}

proof fn lemma_dependency_paired(i: u32, defs: Seq<u32>)
    ensures
        paired(dependency_edges(i, defs)),
    decreases defs.len(),
{
    if defs.len() > 0 {
        lemma_dependency_paired(i, defs.drop_last());
        let two = seq![
            (i, defs.last(), RelationType::DataDependency),
            (defs.last(), i, RelationType::DataDependent),
        ];
        assert(two[1] == reversed(two[0]));
        assert(two[0] == reversed(two[1]));
        lemma_paired_concat(dependency_edges(i, defs.drop_last()), two);
    }
}

proof fn lemma_node_data_paired(superset: Seq<Entry>, lists: Seq<Seq<u32>>, i: int, upto: int)
    ensures
        paired(node_data_edges(superset, lists, i, upto)),
    decreases upto,
{
    if upto > 0 {
        lemma_node_data_paired(superset, lists, i, upto - 1);
        let more = if superset[i].1.uses.has(register_at(upto - 1)) {
            dependency_edges(i as u32, lists[slot(i, upto - 1)])
        } else {
            Seq::<Edge>::empty()
        };
        lemma_dependency_paired(i as u32, lists[slot(i, upto - 1)]);
        lemma_paired_concat(node_data_edges(superset, lists, i, upto - 1), more);
    }
}

proof fn lemma_data_paired(superset: Seq<Entry>, lists: Seq<Seq<u32>>, n: int)
    ensures
        paired(data_edges(superset, lists, n)),
    decreases n,
{
    if n > 0 {
        lemma_data_paired(superset, lists, n - 1);
        lemma_node_data_paired(superset, lists, n - 1, 13);
        lemma_paired_concat(data_edges(superset, lists, n - 1), node_data_edges(superset, lists, n - 1, 13));
    }
}

/// A superset has one graph only.
pub proof fn law_graph_is_determined(superset: Seq<Entry>, first: Seq<Edge>, second: Seq<Edge>)
    requires
        is_graph_of(superset, first),
        is_graph_of(superset, second),
    ensures
        first == second,
{
    lemma_stable_sort_unique(emitted_edges(superset), first, second);
}

/// Every edge of a graph has its reverse in the graph: each `Next` edge a
/// `Previous` edge, each `JumpTo` edge a `JumpFrom` edge, each `Overlap` edge
/// an `Overlap` edge, each `DataDependency` edge a `DataDependent` edge, and
/// the other way round.
pub proof fn law_edge_integrity(superset: Seq<Entry>, edges: Seq<Edge>)
    requires
        is_graph_of(superset, edges),
    ensures
        paired(edges),
{
    let emitted = emitted_edges(superset);
    let lists = flow_lists(superset);
    let order = choose|order: Seq<usize>| #[trigger]
        is_stable_order(keys_of(emitted), order) && edges == arranged(emitted, order);
    lemma_data_paired(superset, lists, superset.len() as int);
    lemma_lexical_paired(superset, superset.len() as int);
    lemma_paired_concat(
        data_edges(superset, lists, superset.len() as int),
        lexical_edges(superset, superset.len() as int),
    );
    assert forall|k: int| 0 <= k < edges.len() implies edges.contains(reversed(#[trigger] edges[k])) by {
        let at = order[k] as int;
        assert(edges[k] == emitted[at]);
        let wanted = reversed(emitted[at]);
        assert(emitted.contains(wanted));
        let m = choose|m: int| 0 <= m < emitted.len() && emitted[m] == wanted;
        lemma_order_covers(keys_of(emitted), order, m);
        let j = choose|j: int| 0 <= j < order.len() && order[j] == m;
        assert(edges[j] == emitted[m]);
    }
}

/// A definition that reaches a position stands before it, defines the
/// register, and state flows from it to the position.
pub proof fn lemma_reach_follows_flow(
    superset: Seq<Entry>,
    s: int,
    register: UsedRegister,
    bound: int,
    d: u32,
)
    requires
        s <= u32::MAX,
        reach_upto(superset, s, register, bound).contains(d),
    ensures
        d < s,
        superset[d as int].1.defines.has(register),
        flows_along_path(superset, d as int, s),
    decreases s, bound,
{
    if bound <= 0 || bound > s {
    } else {
        let c = bound - 1;
        if reach_upto(superset, s, register, c).contains(d) {
            lemma_reach_follows_flow(superset, s, register, c, d);
        } else {
            assert(flows(superset, c, s));
            assert(passed_on(superset, c, register).contains(d));
            if superset[c].1.defines.has(register) {
                assert(d == c);
            } else {
                lemma_reach_follows_flow(superset, c, register, c, d);
                assert(0 <= d < c < s && flows(superset, c, s) && flows_along_path(superset, d as int, c));
            }
        }
    }
}

/// The position that uses a register, of the two that a data edge joins.
pub open spec fn edge_user(e: Edge) -> u32 {
    if e.2 == RelationType::DataDependency {
        e.0
    } else {
        e.1
    }
}

/// The position that defines a register, of the two that a data edge joins.
pub open spec fn edge_definition(e: Edge) -> u32 {
    if e.2 == RelationType::DataDependency {
        e.1
    } else {
        e.0
    }
}

/// `e` joins a position to a definition, of a register that it uses, that
/// reaches it.
pub open spec fn is_data_edge(superset: Seq<Entry>, e: Edge) -> bool {
    &&& e.2 == RelationType::DataDependency || e.2 == RelationType::DataDependent
    &&& exists|r: int|
        0 <= r < 13 && superset[edge_user(e) as int].1.uses.has(#[trigger] register_at(r)) && reaching(
            superset,
            edge_user(e) as int,
            register_at(r),
        ).contains(edge_definition(e))
}

/// Each data edge of a position leads to a definition that reaches it, or
/// back from one.
proof fn lemma_data_edges_reach(superset: Seq<Entry>, lists: Seq<Seq<u32>>, n: int, k: int)
    requires
        superset.len() <= u32::MAX,
        lists_reaching(superset, lists),
        0 <= n <= superset.len(),
        0 <= k < data_edges(superset, lists, n).len(),
    ensures
        is_data_edge(superset, data_edges(superset, lists, n)[k]),
        edge_user(data_edges(superset, lists, n)[k]) < n,
    decreases n,
{
    if n > 0 {
        let before = data_edges(superset, lists, n - 1);
        if k < before.len() {
            lemma_data_edges_reach(superset, lists, n - 1, k);
        } else {
            lemma_node_data_edges_reach(superset, lists, n - 1, 13, k - before.len());
        }
    }
}

proof fn lemma_node_data_edges_reach(superset: Seq<Entry>, lists: Seq<Seq<u32>>, i: int, upto: int, k: int)
    requires
        superset.len() <= u32::MAX,
        lists_reaching(superset, lists),
        0 <= i < superset.len(),
        0 <= upto <= 13,
        0 <= k < node_data_edges(superset, lists, i, upto).len(),
    ensures
        is_data_edge(superset, node_data_edges(superset, lists, i, upto)[k]),
        edge_user(node_data_edges(superset, lists, i, upto)[k]) == i,
    decreases upto,
{
    if upto > 0 {
        let before = node_data_edges(superset, lists, i, upto - 1);
        if k < before.len() {
            lemma_node_data_edges_reach(superset, lists, i, upto - 1, k);
        } else {
            let r = upto - 1;
            let defs = lists[slot(i, r)];
            assert(lists_set(defs, reaching(superset, i, register_at(r))));
            lemma_dependency_edges_hold(i as u32, defs, k - before.len());
            let e = dependency_edges(i as u32, defs)[k - before.len()];
            assert(defs.contains(edge_definition(e)));
            assert(edge_user(e) == i as u32);
            assert(superset[i].1.uses.has(register_at(r)));
            assert(reaching(superset, i, register_at(r)).contains(edge_definition(e)));
        }
    }
}

proof fn lemma_dependency_edges_hold(i: u32, defs: Seq<u32>, k: int)
    requires
        0 <= k < dependency_edges(i, defs).len(),
    ensures
        ({
            let e = dependency_edges(i, defs)[k];
            ||| e.2 == RelationType::DataDependency && e.0 == i && defs.contains(e.1)
            ||| e.2 == RelationType::DataDependent && e.1 == i && defs.contains(e.0)
        }),
    decreases defs.len(),
{
    if defs.len() > 0 {
        let before = dependency_edges(i, defs.drop_last());
        if k < before.len() {
            lemma_dependency_edges_hold(i, defs.drop_last(), k);
            let e = before[k];
            let d = if e.2 == RelationType::DataDependency { e.1 } else { e.0 };
            let shorter = defs.drop_last();
            let m = choose|m: int| 0 <= m < shorter.len() && shorter[m] == d;
            assert(defs[m] == d);
        } else {
            assert(defs[defs.len() - 1] == defs.last());
        }
    }
}

proof fn lemma_overlap_kinds(superset: Seq<Entry>, i: int, upto: int, k: int)
    requires
        0 <= k < overlap_edges(superset, i, upto).len(),
    ensures
        overlap_edges(superset, i, upto)[k].2 == RelationType::Overlap,
    decreases upto,
{
    if upto > 1 {
        let before = overlap_edges(superset, i, upto - 1);
        if k < before.len() {
            lemma_overlap_kinds(superset, i, upto - 1, k);
        }
    }
}

/// No lexical edge is a data edge.
proof fn lemma_lexical_kinds(superset: Seq<Entry>, n: int, k: int)
    requires
        0 <= k < lexical_edges(superset, n).len(),
    ensures
        lexical_edges(superset, n)[k].2 != RelationType::DataDependency,
        lexical_edges(superset, n)[k].2 != RelationType::DataDependent,
    decreases n,
{
    if n > 0 {
        let before = lexical_edges(superset, n - 1);
        if k < before.len() {
            lemma_lexical_kinds(superset, n - 1, k);
        } else {
            let i = n - 1;
            let j = k - before.len();
            let next = pair_edges(
                i as u32,
                crate::dataflow::next_of(superset, i),
                RelationType::Next,
                RelationType::Previous,
            );
            let over = overlap_edges(superset, i, superset[i].1.size as int);
            let first = if superset[i].1.falls_through { next + over } else { Seq::<Edge>::empty() };
            if j < first.len() {
                if j < next.len() {
                } else {
                    lemma_overlap_kinds(superset, i, superset[i].1.size as int, j - next.len());
                }
            }
        }
    }
}

/// The dataflow is acyclic, and each data dependency follows it: where a
/// graph has a `DataDependency` edge from a position to another, the other
/// stands before it, and state flows from the other to the position along
/// edges that each lead to a later position.
pub proof fn law_dependencies_follow_flow(superset: Seq<Entry>, edges: Seq<Edge>, k: int)
    requires
        superset.len() <= u32::MAX,
        is_graph_of(superset, edges),
        0 <= k < edges.len(),
        edges[k].2 == RelationType::DataDependency,
    ensures
        edges[k].1 < edges[k].0 < superset.len(),
        flows_along_path(superset, edges[k].1 as int, edges[k].0 as int),
{
    let emitted = emitted_edges(superset);
    let lists = flow_lists(superset);
    let order = choose|order: Seq<usize>| #[trigger]
        is_stable_order(keys_of(emitted), order) && edges == arranged(emitted, order);
    let at = order[k] as int;
    assert(edges[k] == emitted[at]);
    let n = superset.len() as int;
    let data = data_edges(superset, lists, n);
    lemma_flow_lists_reach(superset);
    if at >= data.len() {
        lemma_lexical_kinds(superset, n, at - data.len());
    } else {
        lemma_data_edges_reach(superset, lists, n, at);
        let e = data[at];
        let r = choose|r: int|
            0 <= r < 13 && superset[edge_user(e) as int].1.uses.has(#[trigger] register_at(r))
                && reaching(superset, edge_user(e) as int, register_at(r)).contains(edge_definition(e));
        lemma_reach_follows_flow(superset, e.0 as int, register_at(r), e.0 as int, e.1);
    }
}

/// State flows only to later positions: no position is reached from itself.
pub proof fn law_flow_is_acyclic(superset: Seq<Entry>, from: int, to: int)
    requires
        flows_along_path(superset, from, to),
    ensures
        from < to,
    decreases to,
{
    if !flows(superset, from, to) {
        let via = choose|via: int|
            0 <= from < via < to && #[trigger] flows(superset, via, to) && flows_along_path(
                superset,
                from,
                via,
            );
    }
}

/// Both ends of `edge` are positions below `n`.
pub open spec fn ends_below(edge: Edge, n: int) -> bool {
    edge.0 < n && edge.1 < n
}

proof fn lemma_pair_in_range(superset: Seq<Entry>, i: int, address: int, forward: RelationType, backward: RelationType, k: int)
    requires
        superset.len() <= u32::MAX,
        0 <= i < superset.len(),
        0 <= k < pair_edges(i as u32, crate::address_index::lookup(superset, address), forward, backward).len(),
    ensures
        ends_below(
            pair_edges(i as u32, crate::address_index::lookup(superset, address), forward, backward)[k],
            superset.len() as int,
        ),
{
    lemma_lookup_in_range(superset, address);
}

proof fn lemma_overlap_in_range(superset: Seq<Entry>, i: int, upto: int, k: int)
    requires
        superset.len() <= u32::MAX,
        0 <= i < superset.len(),
        0 <= k < overlap_edges(superset, i, upto).len(),
    ensures
        ends_below(overlap_edges(superset, i, upto)[k], superset.len() as int),
    decreases upto,
{
    if upto > 1 {
        let before = overlap_edges(superset, i, upto - 1);
        if k < before.len() {
            lemma_overlap_in_range(superset, i, upto - 1, k);
        } else {
            lemma_pair_in_range(
                superset,
                i,
                superset[i].0 + (upto - 1),
                RelationType::Overlap,
                RelationType::Overlap,
                k - before.len(),
            );
        }
    }
}

proof fn lemma_lexical_in_range(superset: Seq<Entry>, n: int, k: int)
    requires
        superset.len() <= u32::MAX,
        0 <= n <= superset.len(),
        0 <= k < lexical_edges(superset, n).len(),
    ensures
        ends_below(lexical_edges(superset, n)[k], superset.len() as int),
    decreases n,
{
    if n > 0 {
        let before = lexical_edges(superset, n - 1);
        if k < before.len() {
            lemma_lexical_in_range(superset, n - 1, k);
        } else {
            let i = n - 1;
            let j = k - before.len();
            let next = pair_edges(
                i as u32,
                crate::dataflow::next_of(superset, i),
                RelationType::Next,
                RelationType::Previous,
            );
            let over = overlap_edges(superset, i, superset[i].1.size as int);
            let first = if superset[i].1.falls_through { next + over } else { Seq::<Edge>::empty() };
            if j < first.len() {
                if j < next.len() {
                    lemma_pair_in_range(
                        superset,
                        i,
                        superset[i].0 + superset[i].1.size,
                        RelationType::Next,
                        RelationType::Previous,
                        j,
                    );
                } else {
                    lemma_overlap_in_range(superset, i, superset[i].1.size as int, j - next.len());
                }
            } else {
                match superset[i].1.jump_target {
                    Some(target) => {
                        lemma_pair_in_range(
                            superset,
                            i,
                            target as int,
                            RelationType::JumpTo,
                            RelationType::JumpFrom,
                            j - first.len(),
                        );
                    },
                    None => {},
                }
            }
        }
    }
}

/// Every edge of a graph joins positions of the superset.
pub proof fn law_edges_in_range(superset: Seq<Entry>, edges: Seq<Edge>)
    requires
        superset.len() <= u32::MAX,
        is_graph_of(superset, edges),
    ensures
        forall|k: int| 0 <= k < edges.len() ==> ends_below(#[trigger] edges[k], superset.len() as int),
{
    let emitted = emitted_edges(superset);
    let lists = flow_lists(superset);
    let order = choose|order: Seq<usize>| #[trigger]
        is_stable_order(keys_of(emitted), order) && edges == arranged(emitted, order);
    let n = superset.len() as int;
    let data = data_edges(superset, lists, n);
    lemma_flow_lists_reach(superset);
    assert forall|k: int| 0 <= k < edges.len() implies ends_below(#[trigger] edges[k], n) by {
        let at = order[k] as int;
        assert(edges[k] == emitted[at]);
        if at >= data.len() {
            lemma_lexical_in_range(superset, n, at - data.len());
        } else {
            lemma_data_edges_reach(superset, lists, n, at);
            let e = data[at];
            let r = choose|r: int|
                0 <= r < 13 && superset[edge_user(e) as int].1.uses.has(#[trigger] register_at(r))
                    && reaching(superset, edge_user(e) as int, register_at(r)).contains(edge_definition(e));
            lemma_reach_follows_flow(
                superset,
                edge_user(e) as int,
                register_at(r),
                edge_user(e) as int,
                edge_definition(e),
            );
        }
    }
}

proof fn lemma_merge_edges_set(
    list: Seq<u32>,
    edges: Seq<u32>,
    s: int,
    passed: Seq<u32>,
    upto: int,
    a: Set<u32>,
    b: Set<u32>,
)
    requires
        0 <= upto <= edges.len(),
        lists_set(list, a),
        forall|d: u32| passed.contains(d) <==> b.contains(d),
    ensures
        lists_set(
            merge_edges(list, edges, s, passed, upto),
            if exists|e: int| 0 <= e < upto && edges[e] == s {
                a.union(b)
            } else {
                a
            },
        ),
    decreases upto,
{
    if upto > 0 {
        lemma_merge_edges_set(list, edges, s, passed, upto - 1, a, b);
        let before = merge_edges(list, edges, s, passed, upto - 1);
        let had = if exists|e: int| 0 <= e < upto - 1 && edges[e] == s { a.union(b) } else { a };
        if edges[upto - 1] == s {
            lemma_merged(before, passed, had, b);
            assert(had.union(b) =~= a.union(b));
        } else {
            if exists|e: int| 0 <= e < upto && edges[e] == s {
                let e = choose|e: int| 0 <= e < upto && edges[e] == s;
                assert(0 <= e < upto - 1);
            }
        }
    }
}

/// The list that a position holds for a register holds the definitions of
/// the register that reach the position, each once.
pub proof fn lemma_flow_list_set(superset: Seq<Entry>, s: int, register: UsedRegister, bound: int)
    requires
        s <= u32::MAX,
    ensures
        lists_set(flow_list(superset, s, register, bound), reach_upto(superset, s, register, bound)),
    decreases s, bound,
{
    if bound <= 0 || bound > s {
    } else {
        let c = bound - 1;
        lemma_flow_list_set(superset, s, register, c);
        let passed = passed_list(superset, c, register);
        let passed_set = passed_on(superset, c, register);
        assert(forall|d: u32| passed.contains(d) <==> passed_set.contains(d)) by {
            if superset[c].1.defines.has(register) {
                assert forall|d: u32| passed.contains(d) <==> passed_set.contains(d) by {
                    if d == c as u32 {
                        assert(passed[0] == d);
                    }
                }
            } else {
                lemma_flow_list_set(superset, c, register, c);
            }
        }
        let edges = out_edges(superset, c);
        lemma_merge_edges_set(
            flow_list(superset, s, register, c),
            edges,
            s,
            passed,
            edges.len() as int,
            reach_upto(superset, s, register, c),
            passed_set,
        );
        assert((exists|e: int| 0 <= e < edges.len() && edges[e] == s) <==> edges.contains(s as u32)) by {
            if edges.contains(s as u32) {
                let e = choose|e: int| 0 <= e < edges.len() && edges[e] == s as u32;
                assert(edges[e] == s);
            }
        }
    }
}

/// The lists that the positions hold are the definitions that reach them.
pub proof fn lemma_flow_lists_reach(superset: Seq<Entry>)
    requires
        superset.len() <= u32::MAX,
    ensures
        lists_reaching(superset, flow_lists(superset)),
{
    assert forall|i: int, r: int| 0 <= i < superset.len() && 0 <= r < 13 implies lists_set(
        #[trigger] flow_lists(superset)[slot(i, r)],
        reaching(superset, i, register_at(r)),
    ) by {
        assert(slot(i, r) / 13 == i && slot(i, r) % 13 == r);
        lemma_flow_list_set(superset, i, register_at(r), i);
    }
}

proof fn lemma_reach_grows(superset: Seq<Entry>, s: int, register: UsedRegister, from: int, upto: int, d: u32)
    requires
        from <= upto <= s,
        reach_upto(superset, s, register, from).contains(d),
    ensures
        reach_upto(superset, s, register, upto).contains(d),
    decreases upto - from,
{
    if from < upto {
        lemma_reach_grows(superset, s, register, from, upto - 1, d);
    }
}

proof fn lemma_reach_is_unchanged_flow(superset: Seq<Entry>, s: int, register: UsedRegister, bound: int, d: u32)
    requires
        s <= u32::MAX,
        reach_upto(superset, s, register, bound).contains(d),
    ensures
        flows_unchanged(superset, d as int, s, register),
    decreases s, bound,
{
    if bound <= 0 || bound > s {
    } else {
        let c = bound - 1;
        if reach_upto(superset, s, register, c).contains(d) {
            lemma_reach_is_unchanged_flow(superset, s, register, c, d);
        } else {
            assert(flows(superset, c, s));
            assert(passed_on(superset, c, register).contains(d));
            if superset[c].1.defines.has(register) {
                assert(d == c);
            } else {
                lemma_reach_is_unchanged_flow(superset, c, register, c, d);
                lemma_reach_follows_flow(superset, c, register, c, d);
                assert(0 <= d < c < s && flows(superset, c, s) && flows_unchanged(
                    superset,
                    d as int,
                    c,
                    register,
                ));
            }
        }
    }
}

proof fn lemma_unchanged_flow_reaches(superset: Seq<Entry>, s: int, register: UsedRegister, d: u32)
    requires
        s <= u32::MAX,
        superset[d as int].1.defines.has(register),
        flows_unchanged(superset, d as int, s, register),
    ensures
        reaching(superset, s, register).contains(d),
    decreases s,
{
    if flows(superset, d as int, s) {
        assert(passed_on(superset, d as int, register).contains(d));
        assert(reach_upto(superset, s, register, d + 1).contains(d));
        lemma_reach_grows(superset, s, register, d + 1, s, d);
    } else {
        let via = choose|via: int|
            0 <= d < via < s && #[trigger] flows(superset, via, s) && !superset[via].1.defines.has(register)
                && flows_unchanged(superset, d as int, via, register);
        lemma_unchanged_flow_reaches(superset, via, register, d);
        assert(passed_on(superset, via, register).contains(d));
        assert(reach_upto(superset, s, register, via + 1).contains(d));
        lemma_reach_grows(superset, s, register, via + 1, s, d);
    }
}

/// A definition reaches a position exactly where it defines the register
/// and state flows from it to the position, step by step to later positions,
/// by way of positions that do not define the register anew.
pub proof fn law_reaching_definitions(superset: Seq<Entry>, s: int, register: UsedRegister, d: u32)
    requires
        0 <= s <= u32::MAX,
    ensures
        reaching(superset, s, register).contains(d) <==> (d < s && superset[d as int].1.defines.has(register)
            && flows_unchanged(superset, d as int, s, register)),
{
    if reaching(superset, s, register).contains(d) {
        lemma_reach_follows_flow(superset, s, register, s, d);
        lemma_reach_is_unchanged_flow(superset, s, register, s, d);
    }
    if d < s && superset[d as int].1.defines.has(register) && flows_unchanged(superset, d as int, s, register) {
        lemma_unchanged_flow_reaches(superset, s, register, d);
    }
}

} // verus!
