//! The successors of a candidate instruction, the order in which the
//! dataflow visits the candidates, and the definitions that reach each of
//! them.
//!
//! The candidate instructions do not form a control-flow graph: overlapping
//! and misdecoded candidates close cycles. The dataflow treats every edge
//! that does not lead to a later position as absent.

use vstd::prelude::*;
use crate::address_index::{address_index, lemma_lookup_in_range, lookup, AddressIndex, Entry};
use crate::registers::UsedRegister;

verus! {

/// The position that control falls through to from position `i`.
pub open spec fn next_of(superset: Seq<Entry>, i: int) -> Option<u32> {
    if superset[i].1.falls_through {
        lookup(superset, superset[i].0 + superset[i].1.size)
    } else {
        None
    }
}

/// The position that the instruction at position `i` jumps to.
pub open spec fn jump_of(superset: Seq<Entry>, i: int) -> Option<u32> {
    match superset[i].1.jump_target {
        Some(target) => lookup(superset, target as int),
        None => None,
    }
}

/// The successors of position `i`: the jump target first, the fall-through
/// neighbour last.
pub open spec fn out_edges(superset: Seq<Entry>, i: int) -> Seq<u32> {
    (match jump_of(superset, i) {
        Some(jump) => seq![jump],
        None => Seq::empty(),
    }) + (match next_of(superset, i) {
        Some(next) => seq![next],
        None => Seq::empty(),
    })
}

/// Whether the dataflow passes state on from position `c` to position `s`:
/// `s` is a successor of `c` and stands after it.
pub open spec fn flows(superset: Seq<Entry>, c: int, s: int) -> bool {
    c < s && out_edges(superset, c).contains(s as u32)
}

/// The definitions of `register` that reach position `s` by way of a
/// predecessor below `bound`: for each such predecessor, itself if it defines
/// the register, and else the definitions that reach it.
pub open spec fn reach_upto(superset: Seq<Entry>, s: int, register: UsedRegister, bound: int) -> Set<u32>
    decreases s, bound,
{
    if bound <= 0 || bound > s {
        Set::empty()
    } else {
        let c = bound - 1;
        let rest = reach_upto(superset, s, register, c);
        if flows(superset, c, s) {
            rest.union(passed_on(superset, c, register))
        } else {
            rest
        }
    }
}

/// The definitions of `register` that position `c` passes on to its
/// successors.
pub open spec fn passed_on(superset: Seq<Entry>, c: int, register: UsedRegister) -> Set<u32>
    decreases c, c + 1,
{
    if c < 0 {
        Set::empty()
    } else if superset[c].1.defines.has(register) {
        set![c as u32]
    } else {
        reach_upto(superset, c, register, c)
    }
}

/// The definitions of `register` that reach position `s`.
pub open spec fn reaching(superset: Seq<Entry>, s: int, register: UsedRegister) -> Set<u32> {
    reach_upto(superset, s, register, s)
}

/// Whether state can flow from position `from` to position `to` in one or
/// more steps, each of them to a later position.
pub open spec fn flows_along_path(superset: Seq<Entry>, from: int, to: int) -> bool
    decreases to,
{
    flows(superset, from, to) || exists|via: int|
        0 <= from < via < to && #[trigger] flows(superset, via, to) && flows_along_path(
            superset,
            from,
            via,
        )
}

/// Whether state can flow from position `from` to position `to` in one or
/// more steps, each of them to a later position, by way of positions that
/// do not define `register`.
pub open spec fn flows_unchanged(superset: Seq<Entry>, from: int, to: int, register: UsedRegister) -> bool
    decreases to,
{
    flows(superset, from, to) || exists|via: int|
        0 <= from < via < to && #[trigger] flows(superset, via, to) && !superset[via].1.defines.has(
            register,
        ) && flows_unchanged(superset, from, via, register)
}

/// The successors of a position are positions of the superset.
pub proof fn lemma_out_edges_in_range(superset: Seq<Entry>, i: int)
    requires
        superset.len() <= u32::MAX,
        0 <= i < superset.len(),
    ensures
        out_edges(superset, i).len() <= 2,
        forall|k: int| 0 <= k < out_edges(superset, i).len() ==> (#[trigger] out_edges(superset, i)[k])
            < superset.len(),
{
    lemma_lookup_in_range(superset, superset[i].0 + superset[i].1.size);
    match superset[i].1.jump_target {
        Some(target) => {
            lemma_lookup_in_range(superset, target as int);
        },
        None => {},
    }
}

/// The successors of position `index`: the jump target first, the
/// fall-through neighbour last.
pub fn get_instr_out_edges(superset: &Vec<Entry>, superset_index: &AddressIndex, index: usize) -> (r:
    Vec<u32>)
    requires
        superset@.len() <= u32::MAX,
        index < superset@.len(),
        superset_index@ == address_index(superset@),
    ensures
        r@ == out_edges(superset@, index as int),
        r@.len() <= 2,
        forall|k: int| 0 <= k < r@.len() ==> (#[trigger] r@[k]) < superset@.len(),
{
    let (addr, instr, _) = superset[index];
    let mut out: Vec<u32> = Vec::new();
    if let Some(target) = instr.jump_target {
        if let Some(jump) = superset_index.get(target as u64) {
            out.push(jump);
        }
    }
    if instr.falls_through {
        if let Some(next) = superset_index.get(addr as u64 + instr.size as u64) {
            out.push(next);
        }
    }
    proof {
        lemma_out_edges_in_range(superset@, index as int);
        assert(out@ =~= out_edges(superset@, index as int));
    }
    out
}

/// A candidate on the traversal's stack, with the successors that it has
/// still to try.
pub struct BacktrackStackItem {
    pub index: u32,
    pub iter: Vec<u32>,
}

/// The order in which the dataflow visits the positions: a depth-first
/// traversal from every position not yet visited, highest first, that leaves
/// out each edge to the same or an earlier position and each edge to a
/// position that was visited; the positions in the reverse of the order in
/// which the traversal finished them.
///
/// Every position above the one that the traversal stands at was visited
/// before, so no edge is followed, and the order is that of the positions.
pub fn toposort(superset: &Vec<Entry>, superset_index: &AddressIndex) -> (r: Vec<u32>)
    requires
        superset@.len() <= u32::MAX,
        superset_index@ == address_index(superset@),
    ensures
        r@ =~= Seq::new(superset@.len(), |i: int| i as u32),
{
    let len = superset.len();
    let mut stack: Vec<BacktrackStackItem> = Vec::new();
    let mut is_in_stack: Vec<bool> = Vec::new();
    let mut was_visited: Vec<bool> = Vec::new();
    let mut result: Vec<u32> = Vec::new();
    let mut fill: usize = 0;
    while fill < len
        invariant
            0 <= fill <= len,
            is_in_stack@.len() == fill,
            was_visited@.len() == fill,
            forall|k: int| 0 <= k < fill ==> !is_in_stack@[k] && !was_visited@[k],
        decreases len - fill,
    {
        is_in_stack.push(false);
        was_visited.push(false);
        fill += 1;
    }
    let mut remaining: usize = len;
    while remaining > 0
        invariant
            0 <= remaining <= len,
            len == superset@.len(),
            len <= u32::MAX,
            superset_index@ == address_index(superset@),
            is_in_stack@.len() == len,
            was_visited@.len() == len,
            stack@.len() == 0,
            forall|k: int| 0 <= k < len ==> (was_visited@[k] <==> k >= remaining),
            result@.len() == len - remaining,
            forall|k: int| 0 <= k < result@.len() ==> result@[k] == len - 1 - k,
        decreases remaining,
    {
        let start_index: usize = remaining - 1;
        remaining = start_index;
        if was_visited[start_index] {
            continue ;
        }
        stack.push(
            BacktrackStackItem {
                index: start_index as u32,
                iter: get_instr_out_edges(superset, superset_index, start_index),
            },
        );
        let ghost done = false;
        loop
            invariant
                start_index < len,
                len == superset@.len(),
                len <= u32::MAX,
                remaining == start_index,
                superset_index@ == address_index(superset@),
                is_in_stack@.len() == len,
                was_visited@.len() == len,
                stack@.len() <= 1,
                stack@.len() == 1 ==> stack@[0].index == start_index && !was_visited@[start_index as int]
                    && result@.len() == len - 1 - start_index,
                stack@.len() == 0 ==> was_visited@[start_index as int] && result@.len() == len
                    - start_index,
                forall|k: int| 0 <= k < len && k != start_index ==> (was_visited@[k] <==> k > start_index),
                forall|k: int| 0 <= k < result@.len() ==> result@[k] == len - 1 - k,
                stack@.len() == 1 ==> forall|e: int|
                    0 <= e < stack@[0].iter@.len() ==> (#[trigger] stack@[0].iter@[e]) < len,
            ensures
                stack@.len() == 0,
            decreases stack@.len(), (if stack@.len() > 0 { stack@[0].iter@.len() } else { 0 }),
        {
            let mut item = match stack.pop() {
                Some(item) => item,
                None => {
                    break ;
                },
            };
            if let Some(next) = item.iter.pop() {
                let index = item.index;
                // The candidate stays on the stack while it has successors to try.
                stack.push(item);
                // An edge to the same or an earlier position is left out: no cycle can close.
                if next <= index {
                    continue ;
                }
                // So is an edge to a position that the traversal has finished.
                if was_visited[next as usize] {
                    continue ;
                }
                // Every position above the start was visited: no edge is left to follow.
                assert(false);
                is_in_stack.set(next as usize, true);
                stack.push(
                    BacktrackStackItem {
                        index: next,
                        iter: get_instr_out_edges(superset, superset_index, next as usize),
                    },
                );
            } else {
                is_in_stack.set(item.index as usize, false);
                if !was_visited[item.index as usize] {
                    was_visited.set(item.index as usize, true);
                    result.push(item.index);
                }
            }
        }
    }
    // The order is the reverse of the order of finishing.
    let mut ordered: Vec<u32> = Vec::new();
    let mut k: usize = len;
    while k > 0
        invariant
            0 <= k <= len,
            result@.len() == len,
            forall|j: int| 0 <= j < len ==> result@[j] == len - 1 - j,
            ordered@.len() == len - k,
            forall|j: int| 0 <= j < ordered@.len() ==> ordered@[j] == j,
        decreases k,
    {
        k -= 1;
        ordered.push(result[k]);
    }
    ordered
}

} // verus!
