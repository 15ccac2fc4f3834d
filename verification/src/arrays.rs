//! The arrays that a graph is emitted as: what the model reads.

use vstd::prelude::*;
use crate::feature::{InstructionFeature, Label};
use crate::graph::Edge;
use crate::graph_sample::GraphSample;
use crate::vocab::{index_in, CodeVocab};

verus! {

/// The arrays of a graph, each under the name of its field.
#[derive(Clone, Debug, PartialEq, Eq)]
pub struct GraphArrays {
    /// For each candidate, its length in bytes less one.
    pub instruction_sizes: Vec<u8>,
    /// For each candidate, the index of its operation code in the vocabulary.
    pub instruction_codes: Vec<i32>,
    /// For each candidate, one where it is labelled as code and zero where
    /// it is not; present only where every candidate has a label.
    pub instruction_labels: Option<Vec<u8>>,
    /// For each edge, the number of its kind.
    pub relation_types: Vec<u8>,
    /// For each edge, where it comes from and where it goes to: a matrix of
    /// two columns, row after row.
    pub relations: Vec<i32>,
}

/// The number that stands for a label.
pub open spec fn label_code(label: Label) -> u8 {
    match label {
        Label::Code => 1,
        Label::NotCode => 0,
    }
}

/// Whether every candidate has a label.
pub open spec fn all_labelled(nodes: Seq<(InstructionFeature, Option<Label>)>) -> bool {
    forall|i: int| 0 <= i < nodes.len() ==> (#[trigger] nodes[i]).1 is Some
}

impl GraphArrays {
    /// Whether these are the arrays of the candidates `nodes` and the edges
    /// `edges` under the ranking `codes`.
    pub open spec fn emits(
        self,
        nodes: Seq<(InstructionFeature, Option<Label>)>,
        edges: Seq<Edge>,
        codes: Seq<u16>,
    ) -> bool {
        &&& self.instruction_sizes@ =~= Seq::new(nodes.len(), |i: int| (nodes[i].0.size - 1) as u8)
        &&& self.instruction_codes@ =~= Seq::new(
            nodes.len(),
            |i: int| index_in(codes, nodes[i].0.code) as i32,
        )
        &&& match self.instruction_labels {
            Some(labels) => all_labelled(nodes) && labels@ =~= Seq::new(
                nodes.len(),
                |i: int| label_code(nodes[i].1->0),
            ),
            None => !all_labelled(nodes),
        }
        &&& self.relation_types@ =~= Seq::new(edges.len(), |k: int| edges[k].2.spec_code())
        &&& self.relations@ =~= Seq::new(
            2 * edges.len(),
            |k: int| if k % 2 == 0 { edges[k / 2].0 as i32 } else { edges[k / 2].1 as i32 },
        )
    }
}

impl GraphSample {
    /// Every candidate takes at least one byte, and every position that an
    /// edge names fits the integers that positions are emitted as.
    pub open spec fn emittable(self) -> bool {
        &&& self.graph.wf()
        &&& forall|i: int| 0 <= i < self.superset@.len() ==> (#[trigger] self.superset@[i]).0.size >= 1
        &&& forall|k: int|
            0 <= k < self.graph.edges@.len() ==> (#[trigger] self.graph.edges@[k]).0 <= i32::MAX
                && self.graph.edges@[k].1 <= i32::MAX
    }

    /// Whether the graph can be emitted, see [`GraphSample::emittable`].
    pub fn is_emittable(&self) -> (r: bool)
        ensures
            r == self.emittable(),
    {
        if self.graph.edges.len() != self.graph.edge_types.len() {
            return false;
        }
        let mut i: usize = 0;
        while i < self.superset.len()
            invariant
                0 <= i <= self.superset@.len(),
                forall|j: int| 0 <= j < i ==> (#[trigger] self.superset@[j]).0.size >= 1,
            decreases self.superset@.len() - i,
        {
            if self.superset[i].0.size < 1 {
                return false;
            }
            i += 1;
        }
        let mut k: usize = 0;
        while k < self.graph.edges.len()
            invariant
                0 <= k <= self.graph.edges@.len(),
                forall|j: int|
                    0 <= j < k ==> (#[trigger] self.graph.edges@[j]).0 <= i32::MAX && self.graph.edges@[j].1
                        <= i32::MAX,
            decreases self.graph.edges@.len() - k,
        {
            let (from, to) = self.graph.edges[k];
            if from > i32::MAX as u32 || to > i32::MAX as u32 {
                return false;
            }
            k += 1;
        }
        true
    }

    /// The arrays that the graph is emitted as, with the index of each
    /// operation code taken from `vocab`.
    pub fn to_arrays(&self, vocab: &CodeVocab) -> (r: GraphArrays)
        requires
            self.emittable(),
            vocab.wf(),
        ensures
            r.emits(self.superset@, self.graph.triples(), vocab@),
    {
        let count = self.superset.len();
        let mut instruction_sizes: Vec<u8> = Vec::new();
        let mut instruction_codes: Vec<i32> = Vec::new();
        let mut labels: Vec<u8> = Vec::new();
        let mut labelled = true;
        proof {
            vocab.lemma_len();
        }
        let mut i: usize = 0;
        while i < count
            invariant
                0 <= i <= count,
                count == self.superset@.len(),
                self.emittable(),
                vocab.wf(),
                vocab@.len() <= crate::vocab::MAX_VOCAB_LEN,
                instruction_sizes@ =~= Seq::new(i as nat, |j: int| (self.superset@[j].0.size - 1) as u8),
                instruction_codes@ =~= Seq::new(
                    i as nat,
                    |j: int| index_in(vocab@, self.superset@[j].0.code) as i32,
                ),
                labelled == all_labelled(self.superset@.subrange(0, i as int)),
                labelled ==> labels@ =~= Seq::new(i as nat, |j: int| label_code(self.superset@[j].1->0)),
            decreases count - i,
        {
            let (instr, label) = self.superset[i];
            proof {
                let before = self.superset@.subrange(0, i as int);
                let after = self.superset@.subrange(0, i + 1);
                assert(after[i as int] == self.superset@[i as int]);
                assert forall|j: int| 0 <= j < before.len() implies before[j] == after[j] by {}
                if all_labelled(after) {
                    assert forall|j: int| 0 <= j < before.len() implies (#[trigger] before[j]).1 is Some by {
                        assert(after[j].1 is Some);
                    }
                }
                if all_labelled(before) && label is Some {
                    assert forall|j: int| 0 <= j < after.len() implies (#[trigger] after[j]).1 is Some by {
                        if j < i {
                            assert(before[j].1 is Some);
                        }
                    }
                }
            }
            instruction_sizes.push(instr.size - 1);
            instruction_codes.push(vocab.index_of(instr.code) as i32);
            match label {
                Some(Label::Code) => {
                    labels.push(1);
                },
                Some(Label::NotCode) => {
                    labels.push(0);
                },
                None => {
                    labelled = false;
                },
            }
            i += 1;
        }
        assert(self.superset@.subrange(0, i as int) =~= self.superset@);
        let edges = self.graph.edges.len();
        let mut relation_types: Vec<u8> = Vec::new();
        let mut relations: Vec<i32> = Vec::new();
        let ghost triples = self.graph.triples();
        let mut k: usize = 0;
        while k < edges
            invariant
                0 <= k <= edges,
                edges == self.graph.edges@.len(),
                self.emittable(),
                triples == self.graph.triples(),
                relation_types@ =~= Seq::new(k as nat, |j: int| triples[j].2.spec_code()),
                relations@ =~= Seq::new(
                    2 * k as nat,
                    |j: int| if j % 2 == 0 { triples[j / 2].0 as i32 } else { triples[j / 2].1 as i32 },
                ),
            decreases edges - k,
        {
            let (from, to) = self.graph.edges[k];
            relation_types.push(self.graph.edge_types[k].code());
            relations.push(from as i32);
            relations.push(to as i32);
            k += 1;
        }
        GraphArrays {
            instruction_sizes,
            instruction_codes,
            instruction_labels: if labelled { Some(labels) } else { None },
            relation_types,
            relations,
        }
    }
}

} // verus!
