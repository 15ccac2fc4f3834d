//! Building the graph of a superset: the lexical relations between
//! candidate instructions and the data dependencies that reaching
//! definitions give.

use vstd::prelude::*;
use crate::address_index::{address_index, lookup, AddressIndex, Entry};
use crate::dataflow::{
    get_instr_out_edges, jump_of, next_of, out_edges, passed_on, reach_upto, reaching, toposort,
};
use crate::feature::{InstructionFeature, Label};
use crate::graph::{is_stable_sort_of, Edge, Graph, RelationType};
use crate::registers::{UsedRegister, REGISTER_COUNT};
use crate::single_vec::SingleVec;
use crate::superset::SupersetSample;

verus! {

/// The place of the definitions of the register with index `register`, for
/// position `position`, in a list that holds thirteen entries for each
/// position.
pub open spec fn slot(position: int, register: int) -> int {
    position * 13 + register
}

/// The register with index `index`.
pub open spec fn register_at(index: int) -> UsedRegister {
    UsedRegister::spec_from_index(index).unwrap()
}

/// `list` holds each item of `set` once, and nothing else.
pub open spec fn lists_set(list: Seq<u32>, set: Set<u32>) -> bool {
    list.no_duplicates() && forall|d: u32| list.contains(d) <==> set.contains(d)
}

/// `list` with each item of `more` that it did not hold yet added at its
/// end, in the order of `more`.
pub open spec fn merged(list: Seq<u32>, more: Seq<u32>) -> Seq<u32>
    decreases more.len(),
{
    if more.len() == 0 {
        list
    } else {
        let so_far = merged(list, more.drop_last());
        if so_far.contains(more.last()) {
            so_far
        } else {
            so_far.push(more.last())
        }
    }
}

/// The two edges between `first` and `second`, if there is a `second`.
pub open spec fn pair_edges(
    first: u32,
    second: Option<u32>,
    forward: RelationType,
    backward: RelationType,
) -> Seq<Edge> {
    match second {
        Some(other) => seq![(first, other, forward), (other, first, backward)],
        None => Seq::empty(),
    }
}

/// The overlap edges of position `i` for the addresses after its own up to
/// `upto` bytes on, `upto` not included.
pub open spec fn overlap_edges(superset: Seq<Entry>, i: int, upto: int) -> Seq<Edge>
    decreases upto,
{
    if upto <= 1 {
        Seq::empty()
    } else {
        overlap_edges(superset, i, upto - 1) + pair_edges(
            i as u32,
            lookup(superset, superset[i].0 + (upto - 1)),
            RelationType::Overlap,
            RelationType::Overlap,
        )
    }
}

/// The lexical edges that position `i` gives rise to: `Next` and `Previous`
/// with the candidate that follows it and `Overlap` with each candidate that
/// begins inside it, both only where control falls through; `JumpTo` and
/// `JumpFrom` with its jump target.
pub open spec fn node_edges(superset: Seq<Entry>, i: int) -> Seq<Edge> {
    (if superset[i].1.falls_through {
        pair_edges(i as u32, next_of(superset, i), RelationType::Next, RelationType::Previous)
            + overlap_edges(superset, i, superset[i].1.size as int)
    } else {
        Seq::empty()
    }) + pair_edges(i as u32, jump_of(superset, i), RelationType::JumpTo, RelationType::JumpFrom)
}

/// The lexical edges of the first `n` positions, position by position.
pub open spec fn lexical_edges(superset: Seq<Entry>, n: int) -> Seq<Edge>
    decreases n,
{
    if n <= 0 {
        Seq::empty()
    } else {
        lexical_edges(superset, n - 1) + node_edges(superset, n - 1)
    }
}

/// The data edges between position `i` and each of the definitions `defs`.
pub open spec fn dependency_edges(i: u32, defs: Seq<u32>) -> Seq<Edge>
    decreases defs.len(),
{
    if defs.len() == 0 {
        Seq::empty()
    } else {
        dependency_edges(i, defs.drop_last()) + seq![
            (i, defs.last(), RelationType::DataDependency),
            (defs.last(), i, RelationType::DataDependent),
        ]
    }
}

/// The data edges of position `i` for the registers with an index below
/// `upto` that it uses, where `lists` holds the definitions that reach it.
pub open spec fn node_data_edges(superset: Seq<Entry>, lists: Seq<Seq<u32>>, i: int, upto: int) -> Seq<
    Edge,
>
    decreases upto,
{
    if upto <= 0 {
        Seq::empty()
    } else {
        node_data_edges(superset, lists, i, upto - 1) + (if superset[i].1.uses.has(
            register_at(upto - 1),
        ) {
            dependency_edges(i as u32, lists[slot(i, upto - 1)])
        } else {
            Seq::empty()
        })
    }
}

/// The data edges of the first `n` positions, position by position.
pub open spec fn data_edges(superset: Seq<Entry>, lists: Seq<Seq<u32>>, n: int) -> Seq<Edge>
    decreases n,
{
    if n <= 0 {
        Seq::empty()
    } else {
        data_edges(superset, lists, n - 1) + node_data_edges(superset, lists, n - 1, 13)
    }
}

/// `list` after the state `passed` of a position was merged into it once for
/// each of the first `upto` successors `edges` of that position that is the
/// position `s`.
pub open spec fn merge_edges(list: Seq<u32>, edges: Seq<u32>, s: int, passed: Seq<u32>, upto: int) -> Seq<u32>
    decreases upto,
{
    if upto <= 0 {
        list
    } else {
        let before = merge_edges(list, edges, s, passed, upto - 1);
        if edges[upto - 1] == s {
            merged(before, passed)
        } else {
            before
        }
    }
}

/// The definitions of `register` that position `c` passes on to its
/// successors, in the order in which it holds them: itself if it defines the
/// register, and else the definitions that reached it.
pub open spec fn passed_list(superset: Seq<Entry>, c: int, register: UsedRegister) -> Seq<u32>
    decreases c, c + 1,
{
    if c < 0 {
        Seq::empty()
    } else if superset[c].1.defines.has(register) {
        seq![c as u32]
    } else {
        flow_list(superset, c, register, c)
    }
}

/// The definitions of `register` that position `s` holds once the positions
/// below `bound` were visited, in the order in which they came: each
/// position merges what it passes on into the lists of its successors.
pub open spec fn flow_list(superset: Seq<Entry>, s: int, register: UsedRegister, bound: int) -> Seq<u32>
    decreases s, bound,
{
    if bound <= 0 || bound > s {
        Seq::empty()
    } else {
        let c = bound - 1;
        merge_edges(
            flow_list(superset, s, register, c),
            out_edges(superset, c),
            s,
            passed_list(superset, c, register),
            out_edges(superset, c).len() as int,
        )
    }
}

/// For each position and register, at the place [`slot`] gives, the
/// definitions of the register that reach the position, in the order in
/// which the position holds them when it is visited.
pub open spec fn flow_lists(superset: Seq<Entry>) -> Seq<Seq<u32>> {
    Seq::new(superset.len() * 13, |x: int| flow_list(superset, x / 13, register_at(x % 13), x / 13))
}

/// `lists` holds, for each position and register, the definitions of the
/// register that reach the position, each once.
pub open spec fn lists_reaching(superset: Seq<Entry>, lists: Seq<Seq<u32>>) -> bool {
    &&& lists.len() == superset.len() * 13
    &&& forall|i: int, r: int|
        0 <= i < superset.len() && 0 <= r < 13 ==> lists_set(
            #[trigger] lists[slot(i, r)],
            reaching(superset, i, register_at(r)),
        )
}

/// The edges of `superset` as they are emitted: the data edges of every
/// position, then the lexical edges of every position.
pub open spec fn emitted_edges(superset: Seq<Entry>) -> Seq<Edge> {
    data_edges(superset, flow_lists(superset), superset.len() as int) + lexical_edges(
        superset,
        superset.len() as int,
    )
}

/// Merging lists merges the sets that they hold.
pub proof fn lemma_merged(list: Seq<u32>, more: Seq<u32>, a: Set<u32>, b: Set<u32>)
    requires
        lists_set(list, a),
        forall|d: u32| more.contains(d) <==> b.contains(d),
    ensures
        lists_set(merged(list, more), a.union(b)),
    decreases more.len(),
{
    if more.len() == 0 {
        assert forall|d: u32| !b.contains(d) by {
            assert(!more.contains(d));
        }
    } else {
        let shorter = more.drop_last();
        let last = more.last();
        let b0 = Set::new(|d: u32| shorter.contains(d));
        assert forall|d: u32| shorter.contains(d) <==> b0.contains(d) by {}
        lemma_merged(list, shorter, a, b0);
        let so_far = merged(list, shorter);
        let full = merged(list, more);
        assert forall|d: u32| more.contains(d) <==> (shorter.contains(d) || d == last) by {
            if shorter.contains(d) {
                let k = choose|k: int| 0 <= k < shorter.len() && shorter[k] == d;
                assert(more[k] == d);
            }
            if d == last {
                assert(more[more.len() - 1] == d);
            }
            if more.contains(d) {
                let k = choose|k: int| 0 <= k < more.len() && more[k] == d;
                if k < more.len() - 1 {
                    assert(shorter[k] == d);
                }
            }
        }
        if !so_far.contains(last) {
            assert forall|d: u32| full.contains(d) <==> (so_far.contains(d) || d == last) by {
                if so_far.contains(d) {
                    let k = choose|k: int| 0 <= k < so_far.len() && so_far[k] == d;
                    assert(full[k] == d);
                }
                if d == last {
                    assert(full[full.len() - 1] == d);
                }
                if full.contains(d) {
                    let k = choose|k: int| 0 <= k < full.len() && full[k] == d;
                    if k < so_far.len() {
                        assert(so_far[k] == d);
                    }
                }
            }
            assert(full.no_duplicates()) by {
                assert forall|i: int, j: int| 0 <= i < full.len() && 0 <= j < full.len() && i != j implies full[i]
                    != full[j] by {
                    if i < so_far.len() && j < so_far.len() {
                        assert(so_far[i] != so_far[j]);
                    } else if i < so_far.len() {
                        assert(so_far[i] == full[i]);
                    } else {
                        assert(so_far[j] == full[j]);
                    }
                }
            }
        }
        assert forall|d: u32| full.contains(d) <==> a.union(b).contains(d) by {
            assert(so_far.contains(d) <==> a.union(b0).contains(d));
            assert(more.contains(d) <==> b.contains(d));
        }
    }
}

/// The data edges that reach back from position `index`: for each register
/// that the instruction uses, an edge to each definition of it in `states`,
/// and the reverse edge.
fn collect_edges(graph: &mut Graph, superset: &Vec<Entry>, index: usize, states: &Vec<SingleVec>)
    requires
        old(graph).wf(),
        index < superset@.len(),
        superset@.len() <= u32::MAX,
        states@.len() == superset@.len() * 13,
    ensures
        final(graph).wf(),
        final(graph).triples() =~= old(graph).triples() + node_data_edges(
            superset@,
            states@.map_values(|s: SingleVec| s@),
            index as int,
            13,
        ),
{
    let (_, instr, _) = superset[index];
    let ghost lists = states@.map_values(|s: SingleVec| s@);
    let ghost base = graph.triples();
    let total = states.len();
    let mut r: usize = 0;
    while r < REGISTER_COUNT
        invariant
            0 <= r <= 13,
            total == states@.len(),
            graph.wf(),
            index < superset@.len(),
            superset@.len() <= u32::MAX,
            instr == superset@[index as int].1,
            states@.len() == superset@.len() * 13,
            lists == states@.map_values(|s: SingleVec| s@),
            graph.triples() =~= base + node_data_edges(superset@, lists, index as int, r as int),
        decreases 13 - r,
    {
        let used_reg = UsedRegister::from_index(r).unwrap();
        if instr.uses.contains(used_reg) {
            let at: usize = index * 13 + r;
            let define_indices = &states[at];
            let ghost defs = define_indices@;
            assert(defs == lists[slot(index as int, r as int)]);
            let ghost before = graph.triples();
            let count = define_indices.len();
            let mut k: usize = 0;
            while k < count
                invariant
                    0 <= k <= count,
                    count == defs.len(),
                    defs == define_indices@,
                    graph.wf(),
                    index <= u32::MAX,
                    graph.triples() =~= before + dependency_edges(index as u32, defs.subrange(0, k as int)),
                decreases count - k,
            {
                let define_index = define_indices.get(k);
                proof {
                    let longer = defs.subrange(0, k + 1);
                    assert(longer.drop_last() =~= defs.subrange(0, k as int));
                    assert(longer.last() == define_index);
                }
                graph.add_edge(index as u32, define_index, RelationType::DataDependency);
                graph.add_edge(define_index, index as u32, RelationType::DataDependent);
                k += 1;
            }
            assert(defs.subrange(0, k as int) =~= defs);
        }
        r += 1;
    }
}

/// The state that position `index` passes on: for each register that the
/// instruction defines, the position itself; for every other register, the
/// definitions that reached the position.
fn apply_state(superset: &Vec<Entry>, index: usize, states: &Vec<SingleVec>) -> (post: Vec<SingleVec>)
    requires
        index < superset@.len(),
        superset@.len() <= u32::MAX,
        states@.len() == superset@.len() * 13,
    ensures
        post@.len() == 13,
        forall|r: int|
            0 <= r < 13 ==> (#[trigger] post@[r])@ == (if superset@[index as int].1.defines.has(
                register_at(r),
            ) {
                seq![index as u32]
            } else {
                states@[slot(index as int, r)]@
            }),
{
    let (_, instr, _) = superset[index];
    let mut post: Vec<SingleVec> = Vec::new();
    let total = states.len();
    let mut r: usize = 0;
    while r < REGISTER_COUNT
        invariant
            0 <= r <= 13,
            total == states@.len(),
            index < superset@.len(),
            superset@.len() <= u32::MAX,
            instr == superset@[index as int].1,
            states@.len() == superset@.len() * 13,
            post@.len() == r,
            forall|q: int|
                0 <= q < r ==> (#[trigger] post@[q])@ == (if instr.defines.has(register_at(q)) {
                    seq![index as u32]
                } else {
                    states@[slot(index as int, q)]@
                }),
        decreases 13 - r,
    {
        let defined_reg = UsedRegister::from_index(r).unwrap();
        if instr.defines.contains(defined_reg) {
            post.push(SingleVec::from_single(index as u32));
        } else {
            post.push(states[index * 13 + r].duplicate());
        }
        r += 1;
    }
    post
}

/// Adds to the state of position `target` each definition of `data_state`
/// that it does not hold yet.
fn aggregate_state(data_state: &Vec<SingleVec>, states: &mut Vec<SingleVec>, target: usize)
    requires
        data_state@.len() == 13,
        target * 13 + 13 <= old(states)@.len(),
    ensures
        final(states)@.len() == old(states)@.len(),
        forall|r: int|
            0 <= r < 13 ==> (#[trigger] final(states)@[slot(target as int, r)])@ == merged(
                old(states)@[slot(target as int, r)]@,
                data_state@[r]@,
            ),
        forall|k: int|
            0 <= k < old(states)@.len() && !(target * 13 <= k < target * 13 + 13) ==> (
            #[trigger] final(states)@[k]) == old(states)@[k],
{
    let total = states.len();
    let mut r: usize = 0;
    while r < REGISTER_COUNT
        invariant
            0 <= r <= 13,
            total == states@.len(),
            data_state@.len() == 13,
            states@.len() == old(states)@.len(),
            target * 13 + 13 <= states@.len(),
            forall|q: int|
                0 <= q < r ==> (#[trigger] states@[slot(target as int, q)])@ == merged(
                    old(states)@[slot(target as int, q)]@,
                    data_state@[q]@,
                ),
            forall|k: int|
                0 <= k < states@.len() && !(target * 13 <= k < target * 13 + r) ==> (
                #[trigger] states@[k]) == old(states)@[k],
        decreases 13 - r,
    {
        let at: usize = target * 13 + r;
        let src = &data_state[r];
        let count = src.len();
        let ghost start = states@[at as int]@;
        let ghost entering = states@;
        let mut k: usize = 0;
        assert(src@.subrange(0, 0) =~= Seq::<u32>::empty());
        while k < count
            invariant
                0 <= k <= count,
                count == src@.len(),
                at < states@.len(),
                states@.len() == entering.len(),
                states@[at as int]@ == merged(start, src@.subrange(0, k as int)),
                forall|j: int| 0 <= j < states@.len() && j != at ==> (#[trigger] states@[j]) == entering[j],
            decreases count - k,
        {
            let item = src.get(k);
            proof {
                let longer = src@.subrange(0, k + 1);
                assert(longer.drop_last() =~= src@.subrange(0, k as int));
                assert(longer.last() == item);
            }
            if !states[at].contains(item) {
                states[at].push(item);
            }
            k += 1;
        }
        assert(src@.subrange(0, k as int) =~= src@);
        proof {
            assert(slot(target as int, r as int) == at);
            assert forall|q: int| 0 <= q < r + 1 implies (#[trigger] states@[slot(target as int, q)])@
                == merged(old(states)@[slot(target as int, q)]@, data_state@[q]@) by {
                if q < r {
                    assert(slot(target as int, q) != at);
                    assert(states@[slot(target as int, q)] == entering[slot(target as int, q)]);
                }
            }
        }
        r += 1;
    }
}

/// The lists that `states` holds.
pub open spec fn lists_of(states: Seq<SingleVec>) -> Seq<Seq<u32>> {
    states.map_values(|s: SingleVec| s@)
}

proof fn lemma_node_data_edges_frame(
    superset: Seq<Entry>,
    a: Seq<Seq<u32>>,
    b: Seq<Seq<u32>>,
    i: int,
    upto: int,
)
    requires
        forall|r: int| 0 <= r < upto ==> #[trigger] a[slot(i, r)] == b[slot(i, r)],
    ensures
        node_data_edges(superset, a, i, upto) == node_data_edges(superset, b, i, upto),
    decreases upto,
{
    if upto > 0 {
        lemma_node_data_edges_frame(superset, a, b, i, upto - 1);
        assert(a[slot(i, upto - 1)] == b[slot(i, upto - 1)]);
    }
}

/// Walks the positions in the order of the dataflow. At each position it
/// emits the data edges for the definitions that reach it, and passes the
/// definitions that leave it on to its successors.
fn walk_data_dep(graph: &mut Graph, superset: &Vec<Entry>, superset_index: &AddressIndex)
    requires
        old(graph).wf(),
        superset@.len() <= u32::MAX,
        superset_index@ == address_index(superset@),
    ensures
        final(graph).wf(),
        final(graph).triples() =~= old(graph).triples() + data_edges(
            superset@,
            flow_lists(superset@),
            superset@.len() as int,
        ),
{
    let topo_order = toposort(superset, superset_index);
    let len = superset.len();
    let ghost sup = superset@;
    let ghost base = graph.triples();
    let ghost lists = flow_lists(sup);
    let mut states: Vec<SingleVec> = Vec::new();
    let mut filled: usize = 0;
    while filled < len
        invariant
            0 <= filled <= len,
            states@.len() == filled * 13,
            forall|k: int| 0 <= k < states@.len() ==> (#[trigger] states@[k])@.len() == 0,
        decreases len - filled,
    {
        let mut r: usize = 0;
        while r < REGISTER_COUNT
            invariant
                0 <= r <= 13,
                states@.len() == filled * 13 + r,
                forall|k: int| 0 <= k < states@.len() ==> (#[trigger] states@[k])@.len() == 0,
            decreases 13 - r,
        {
            states.push(SingleVec::new());
            r += 1;
        }
        filled += 1;
    }
    proof {
        assert forall|s: int, r: int| 0 <= s < len && 0 <= r < 13 implies (#[trigger] states@[slot(s, r)])@
            =~= flow_list(sup, s, register_at(r), 0) by {
            assert(states@[slot(s, r)]@.len() == 0);
        }
    }
    let mut k: usize = 0;
    while k < len
        invariant
            0 <= k <= len,
            len == sup.len(),
            sup == superset@,
            len <= u32::MAX,
            lists == flow_lists(sup),
            superset_index@ == address_index(sup),
            topo_order@ =~= Seq::new(sup.len(), |i: int| i as u32),
            graph.wf(),
            states@.len() == len * 13,
            graph.triples() =~= base + data_edges(sup, lists, k as int),
            forall|s: int, r: int|
                k <= s < len && 0 <= r < 13 ==> (#[trigger] states@[slot(s, r)])@ == flow_list(
                    sup,
                    s,
                    register_at(r),
                    k as int,
                ),
        decreases len - k,
    {
        let index: usize = topo_order[k] as usize;
        assert(index == k);
        let ghost entering = states@;
        collect_edges(graph, superset, index, &states);
        proof {
            assert forall|r: int| 0 <= r < 13 implies #[trigger] lists_of(entering)[slot(k as int, r)]
                == lists[slot(k as int, r)] by {
                assert(entering[slot(k as int, r)]@ == flow_list(sup, k as int, register_at(r), k as int));
                assert(slot(k as int, r) / 13 == k && slot(k as int, r) % 13 == r);
            }
            lemma_node_data_edges_frame(sup, lists_of(entering), lists, k as int, 13);
        }
        let state = apply_state(superset, index, &states);
        proof {
            assert forall|r: int| 0 <= r < 13 implies (#[trigger] state@[r])@ == passed_list(
                sup,
                k as int,
                register_at(r),
            ) by {
                if !sup[k as int].1.defines.has(register_at(r)) {
                    assert(entering[slot(k as int, r)]@ == flow_list(sup, k as int, register_at(r), k as int));
                }
            }
        }
        let successors = get_instr_out_edges(superset, superset_index, index);
        let mut j: usize = 0;
        while j < successors.len()
            invariant
                0 <= j <= successors@.len(),
                k < len,
                len == sup.len(),
                len <= u32::MAX,
                successors@ == out_edges(sup, k as int),
                forall|e: int| 0 <= e < successors@.len() ==> (#[trigger] successors@[e]) < len,
                states@.len() == len * 13,
                state@.len() == 13,
                forall|r: int|
                    0 <= r < 13 ==> (#[trigger] state@[r])@ == passed_list(sup, k as int, register_at(r)),
                forall|s: int, r: int|
                    k < s < len && 0 <= r < 13 ==> (#[trigger] states@[slot(s, r)])@ == merge_edges(
                        flow_list(sup, s, register_at(r), k as int),
                        successors@,
                        s,
                        passed_list(sup, k as int, register_at(r)),
                        j as int,
                    ),
            decreases successors@.len() - j,
        {
            let succ = successors[j];
            let ghost previous = states@;
            aggregate_state(&state, &mut states, succ as usize);
            proof {
                assert forall|s: int, r: int| k < s < len && 0 <= r < 13 implies (
                #[trigger] states@[slot(s, r)])@ == merge_edges(
                    flow_list(sup, s, register_at(r), k as int),
                    successors@,
                    s,
                    passed_list(sup, k as int, register_at(r)),
                    j + 1,
                ) by {
                    assert(previous[slot(s, r)]@ == merge_edges(
                        flow_list(sup, s, register_at(r), k as int),
                        successors@,
                        s,
                        passed_list(sup, k as int, register_at(r)),
                        j as int,
                    ));
                    if succ == s {
                        assert(states@[slot(s, r)]@ == merged(previous[slot(s, r)]@, state@[r]@));
                    } else {
                        assert(states@[slot(s, r)] == previous[slot(s, r)]);
                    }
                }
            }
            j += 1;
        }
        // No later position passes anything on to this one: its lists can go.
        let mut r: usize = 0;
        let ghost merged_states = states@;
        let total = states.len();
        while r < REGISTER_COUNT
            invariant
                0 <= r <= 13,
                k < len,
                index == k,
                total == states@.len(),
                states@.len() == len * 13,
                states@.len() == merged_states.len(),
                forall|q: int|
                    0 <= q < states@.len() && !(k * 13 <= q < k * 13 + 13) ==> (#[trigger] states@[q])
                        == merged_states[q],
            decreases 13 - r,
        {
            states[index * 13 + r].clear();
            r += 1;
        }
        proof {
            assert forall|s: int, r: int| k + 1 <= s < len && 0 <= r < 13 implies (
            #[trigger] states@[slot(s, r)])@ == flow_list(sup, s, register_at(r), k + 1) by {
                assert(states@[slot(s, r)] == merged_states[slot(s, r)]);
                assert(merged_states[slot(s, r)]@ == merge_edges(
                    flow_list(sup, s, register_at(r), k as int),
                    successors@,
                    s,
                    passed_list(sup, k as int, register_at(r)),
                    successors@.len() as int,
                ));
            }
        }
        k += 1;
    }
}

/// Adds the edge from `first` to `second` and the one back, if there is a
/// `second`.
fn add_pair(graph: &mut Graph, first: u32, second: Option<u32>, forward: RelationType, backward: RelationType)
    requires
        old(graph).wf(),
    ensures
        final(graph).wf(),
        final(graph).triples() =~= old(graph).triples() + pair_edges(first, second, forward, backward),
{
    if let Some(other) = second {
        graph.add_edge(first, other, forward);
        graph.add_edge(other, first, backward);
    }
}

/// Adds the lexical edges of every position.
fn add_lexical_edges(graph: &mut Graph, superset: &Vec<Entry>, superset_index: &AddressIndex)
    requires
        old(graph).wf(),
        superset@.len() <= u32::MAX,
        superset_index@ == address_index(superset@),
    ensures
        final(graph).wf(),
        final(graph).triples() =~= old(graph).triples() + lexical_edges(
            superset@,
            superset@.len() as int,
        ),
{
    let ghost base = graph.triples();
    let len = superset.len();
    let mut i: usize = 0;
    while i < len
        invariant
            0 <= i <= len,
            len == superset@.len(),
            len <= u32::MAX,
            superset_index@ == address_index(superset@),
            graph.wf(),
            graph.triples() =~= base + lexical_edges(superset@, i as int),
        decreases len - i,
    {
        let (addr, instr, _) = superset[i];
        let ghost entering = graph.triples();
        if instr.falls_through {
            let next = superset_index.get(addr as u64 + instr.size as u64);
            add_pair(graph, i as u32, next, RelationType::Next, RelationType::Previous);
            let ghost after_next = graph.triples();
            let mut offset: u8 = 1;
            while offset < instr.size
                invariant
                    1 <= offset,
                    offset <= instr.size || (instr.size == 0 && offset == 1),
                    i < len,
                    len == superset@.len(),
                    len <= u32::MAX,
                    superset@[i as int].0 == addr,
                    superset_index@ == address_index(superset@),
                    graph.wf(),
                    graph.triples() =~= after_next + overlap_edges(superset@, i as int, offset as int),
                decreases instr.size - offset,
            {
                let overlap = superset_index.get(addr as u64 + offset as u64);
                add_pair(graph, i as u32, overlap, RelationType::Overlap, RelationType::Overlap);
                offset += 1;
            }
            assert(overlap_edges(superset@, i as int, offset as int) == overlap_edges(
                superset@,
                i as int,
                instr.size as int,
            )) by {
                if instr.size == 0 {
                    assert(overlap_edges(superset@, i as int, 1) =~= Seq::<Edge>::empty());
                    assert(overlap_edges(superset@, i as int, 0) =~= Seq::<Edge>::empty());
                }
            }
        }
        let jump = match instr.jump_target {
            Some(target) => superset_index.get(target as u64),
            None => None,
        };
        add_pair(graph, i as u32, jump, RelationType::JumpTo, RelationType::JumpFrom);
        assert(graph.triples() =~= entering + node_edges(superset@, i as int));
        i += 1;
    }
}

/// The features and labels of a superset, without the addresses.
pub open spec fn without_addresses(superset: Seq<Entry>) -> Seq<(InstructionFeature, Option<Label>)> {
    Seq::new(superset.len(), |i: int| (superset[i].1, superset[i].2))
}

/// `edges` is the graph of `superset`: its edges as they are emitted, sorted
/// by (from, to), edges with the same ends kept in their order.
pub open spec fn is_graph_of(superset: Seq<Entry>, edges: Seq<Edge>) -> bool {
    is_stable_sort_of(emitted_edges(superset), edges)
}

/// The most candidates of a superset that a graph is made of when graphs
/// are made in bulk: beyond it a graph takes more memory than is at hand.
pub const BULK_NODE_LIMIT: usize = 5_000_000;

/// A superset as a graph: the candidates without their addresses, which are
/// implicit in the order, and the relations between them.
#[derive(Debug, PartialEq, Eq)]
pub struct GraphSample {
    pub superset: Vec<(InstructionFeature, Option<Label>)>,
    pub graph: Graph,
    pub source: Option<String>,
}

impl GraphSample {
    pub fn new(superset: SupersetSample) -> (r: GraphSample)
        requires
            superset.superset@.len() < i32::MAX,
        ensures
            r.source == superset.source,
            r.superset@ =~= without_addresses(superset.superset@),
            r.graph.wf(),
            is_graph_of(superset.superset@, r.graph.triples()),
            forall|k: int|
                0 <= k < r.graph.edges@.len() ==> (#[trigger] r.graph.edges@[k]).0 < superset.superset@.len()
                    && r.graph.edges@[k].1 < superset.superset@.len(),
    {
        let mut graph = Graph::new();
        let index = AddressIndex::build(&superset.superset);
        walk_data_dep(&mut graph, &superset.superset, &index);
        add_lexical_edges(&mut graph, &superset.superset, &index);
        let ghost emitted = graph.triples();
        proof {
            assert(emitted =~= emitted_edges(superset.superset@));
        }
        graph.sort();
        proof {
            crate::graph_laws::law_edges_in_range(superset.superset@, graph.triples());
            assert forall|k: int| 0 <= k < graph.edges@.len() implies (#[trigger] graph.edges@[k]).0
                < superset.superset@.len() && graph.edges@[k].1 < superset.superset@.len() by {
                assert(crate::graph_laws::ends_below(graph.triples()[k], superset.superset@.len() as int));
            }
        }
        let mut nodes: Vec<(InstructionFeature, Option<Label>)> = Vec::new();
        let mut i: usize = 0;
        while i < superset.superset.len()
            invariant
                0 <= i <= superset.superset@.len(),
                nodes@ =~= without_addresses(superset.superset@).subrange(0, i as int),
            decreases superset.superset@.len() - i,
        {
            let (_, instr, label) = superset.superset[i];
            nodes.push((instr, label));
            i += 1;
        }
        GraphSample { superset: nodes, graph, source: superset.source }
    }
}

impl SupersetSample {
    /// The graph of the superset.
    pub fn into_graph(self) -> (r: GraphSample)
        requires
            self.superset@.len() < i32::MAX,
        ensures
            r.source == self.source,
            r.superset@ =~= without_addresses(self.superset@),
            r.graph.wf(),
            is_graph_of(self.superset@, r.graph.triples()),
    {
        GraphSample::new(self)
    }
}

impl crate::superset::ExecutableSample {
    /// The graph of the superset of the sample.
    pub fn into_graph(self) -> (r: GraphSample)
        requires
            self.wf(),
            crate::superset::executable_bytes(self.memory@, self.memory@.len() as int) < i32::MAX,
        ensures
            r.source == self.source,
            r.graph.wf(),
            exists|superset: Seq<Entry>|
                #![trigger is_graph_of(superset, r.graph.triples())]
                crate::superset::is_superset_of(
                    self.memory@,
                    crate::superset::truth_starts(self.memory@, self.classes.true_instructions.members()),
                    superset,
                ) && r.superset@ =~= without_addresses(superset) && is_graph_of(
                    superset,
                    r.graph.triples(),
                ),
    {
        let superset = SupersetSample::new(self);
        let ghost entries = superset.superset@;
        let r = GraphSample::new(superset);
        assert(is_graph_of(entries, r.graph.triples()));
        r
    }
}

} // verus!
