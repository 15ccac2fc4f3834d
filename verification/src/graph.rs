//! The instruction graph: typed, directed edges between the positions of a
//! superset.

use vstd::prelude::*;
use crate::order::{arranged, is_stable_order, key_before, lemma_stable_order_unique, stable_sort_order};

verus! {

/// The kind of relation that an edge stands for.
#[derive(Copy, Clone, Debug, PartialEq, Eq, PartialOrd, Ord, Hash, Structural)]
pub enum RelationType {
    Next,
    Previous,
    Overlap,
    JumpTo,
    JumpFrom,
    DataDependency,
    DataDependent,
}

impl RelationType {
    /// The number that stands for the kind in emitted arrays.
    pub open spec fn spec_code(self) -> u8 {
        match self {
            RelationType::Next => 0,
            RelationType::Previous => 1,
            RelationType::Overlap => 2,
            RelationType::JumpTo => 3,
            RelationType::JumpFrom => 4,
            RelationType::DataDependency => 5,
            RelationType::DataDependent => 6,
        }
    }

    pub fn code(self) -> (r: u8)
        ensures
            r == self.spec_code(),
    {
        match self {
            RelationType::Next => 0,
            RelationType::Previous => 1,
            RelationType::Overlap => 2,
            RelationType::JumpTo => 3,
            RelationType::JumpFrom => 4,
            RelationType::DataDependency => 5,
            RelationType::DataDependent => 6,
        }
    }
}

/// An edge with its kind: from, to, kind.
pub type Edge = (u32, u32, RelationType);

/// The edges of a graph, with the kind of each in a second array.
#[derive(Debug, PartialEq, Eq)]
pub struct Graph {
    pub edges: Vec<(u32, u32)>,
    pub edge_types: Vec<RelationType>,
}

/// The sort key of an edge: from, then to.
pub open spec fn edge_key(edge: (u32, u32)) -> (u64, u64) {
    (edge.0 as u64, edge.1 as u64)
}

/// The edges of `triples`, as the sort keys that their ends make.
pub open spec fn keys_of(triples: Seq<Edge>) -> Seq<(u64, u64)> {
    Seq::new(triples.len(), |k: int| (triples[k].0 as u64, triples[k].1 as u64))
}

/// `sorted` holds the edges of `emitted` in ascending order of (from, to),
/// edges with the same ends in the order in which they stand in `emitted`.
pub open spec fn is_stable_sort_of(emitted: Seq<Edge>, sorted: Seq<Edge>) -> bool {
    exists|order: Seq<usize>| #[trigger]
        is_stable_order(keys_of(emitted), order) && sorted == arranged(emitted, order)
}

impl Graph {
    /// Both arrays have one entry for each edge.
    pub open spec fn wf(self) -> bool {
        self.edges@.len() == self.edge_types@.len()
    }

    /// The edges with their kinds.
    pub open spec fn triples(self) -> Seq<Edge> {
        Seq::new(self.edges@.len(), |k: int| (self.edges@[k].0, self.edges@[k].1, self.edge_types@[k]))
    }

    pub fn new() -> (r: Graph)
        ensures
            r.wf(),
            r.edges@.len() == 0,
            r.triples() =~= Seq::<Edge>::empty(),
    {
        Graph { edges: Vec::new(), edge_types: Vec::new() }
    }

    pub fn add_edge(&mut self, from: u32, to: u32, edge_type: RelationType)
        ensures
            final(self).edges@ =~= old(self).edges@.push((from, to)),
            final(self).edge_types@ =~= old(self).edge_types@.push(edge_type),
            old(self).wf() ==> final(self).wf() && final(self).triples() =~= old(self).triples().push(
                (from, to, edge_type),
            ),
    {
        self.edges.push((from, to));
        self.edge_types.push(edge_type);
    }

    /// Sorts the edges by (from, to), ascending. Edges with the same ends
    /// keep their order, and each edge keeps its kind.
    pub fn sort(&mut self)
        requires
            old(self).wf(),
        ensures
            final(self).wf(),
            is_stable_sort_of(old(self).triples(), final(self).triples()),
            forall|i: int, j: int|
                0 <= i < j < final(self).edges@.len() ==> !key_before(
                    edge_key(#[trigger] final(self).edges@[j]),
                    edge_key(#[trigger] final(self).edges@[i]),
                ),
    {
        let n = self.edges.len();
        let ghost before = self.triples();
        let mut keys: Vec<(u64, u64)> = Vec::new();
        let mut i: usize = 0;
        while i < n
            invariant
                0 <= i <= n,
                n == self.edges@.len(),
                self.wf(),
                before == self.triples(),
                keys@ =~= keys_of(before).subrange(0, i as int),
            decreases n - i,
        {
            let (from, to) = self.edges[i];
            keys.push((from as u64, to as u64));
            i += 1;
        }
        assert(keys@ =~= keys_of(before));
        let order = stable_sort_order(&keys);
        let mut edges: Vec<(u32, u32)> = Vec::new();
        let mut edge_types: Vec<RelationType> = Vec::new();
        let mut k: usize = 0;
        while k < n
            invariant
                0 <= k <= n,
                n == self.edges@.len(),
                n == order@.len(),
                self.wf(),
                before == self.triples(),
                is_stable_order(keys_of(before), order@),
                edges@.len() == k,
                edge_types@.len() == k,
                forall|j: int|
                    0 <= j < k ==> (#[trigger] edges@[j]) == self.edges@[order@[j] as int]
                        && edge_types@[j] == self.edge_types@[order@[j] as int],
            decreases n - k,
        {
            let at = order[k];
            assert(order@[k as int] < keys_of(before).len());
            edges.push(self.edges[at]);
            edge_types.push(self.edge_types[at]);
            k += 1;
        }
        self.edges = edges;
        self.edge_types = edge_types;
        proof {
            assert(self.triples() =~= arranged(before, order@));
            assert forall|i: int, j: int| 0 <= i < j < self.edges@.len() implies !key_before(
                edge_key(#[trigger] self.edges@[j]),
                edge_key(#[trigger] self.edges@[i]),
            ) by {
                let a = order@[i];
                let b = order@[j];
                assert(keys_of(before)[a as int] == edge_key(self.edges@[i]));
                assert(keys_of(before)[b as int] == edge_key(self.edges@[j]));
            }
        }
    }
}

/// Sorting determines the outcome: a sequence of edges has one stable sort
/// only.
pub proof fn lemma_stable_sort_unique(emitted: Seq<Edge>, first: Seq<Edge>, second: Seq<Edge>)
    requires
        is_stable_sort_of(emitted, first),
        is_stable_sort_of(emitted, second),
    ensures
        first == second,
{
    let a = choose|order: Seq<usize>| #[trigger]
        is_stable_order(keys_of(emitted), order) && first == arranged(emitted, order);
    let b = choose|order: Seq<usize>| #[trigger]
        is_stable_order(keys_of(emitted), order) && second == arranged(emitted, order);
    lemma_stable_order_unique(keys_of(emitted), a, b);
}

} // verus!
