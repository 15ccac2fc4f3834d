//! Scoring a disassembler: its predicted instruction addresses against
//! ground truth.

use vstd::prelude::*;
use std::collections::BTreeSet;
use crate::address_index::Entry;
use crate::feature::Label;
use crate::superset::SupersetSample;

verus! {

/// The addresses at which a disassembler found an instruction.
#[derive(Clone, Debug, PartialEq, Eq)]
pub struct DisassemblyResult {
    pub predicted_instructions: BTreeSet<u32>,
}

/// The predictions of a disassembler, sorted by what ground truth says of
/// them.
#[derive(Debug, Default)]
pub struct EvaluationResult {
    /// Predicted, and truly an instruction.
    pub true_positives: BTreeSet<u32>,
    /// Predicted, and not truly an instruction.
    pub false_positives: BTreeSet<u32>,
    /// Truly an instruction, and not predicted.
    pub false_negatives: BTreeSet<u32>,
}

/// The counts of an evaluation.
#[derive(Copy, Clone, Debug, PartialEq, Eq, Structural)]
pub struct EvaluationCounts {
    pub true_positives: usize,
    pub false_positives: usize,
    pub false_negatives: usize,
}

/// The addresses of `superset` that are labelled as code.
pub open spec fn code_addresses(superset: Seq<Entry>) -> Set<u32> {
    Set::new(
        |a: u32|
            exists|i: int|
                0 <= i < superset.len() && (#[trigger] superset[i]).0 == a && superset[i].2 == Some(
                    Label::Code,
                ),
    )
}

impl EvaluationResult {
    /// How many predictions fall in each class.
    pub fn counts(&self) -> (r: EvaluationCounts)
        ensures
            r.true_positives == self.true_positives@.len(),
            r.false_positives == self.false_positives@.len(),
            r.false_negatives == self.false_negatives@.len(),
    {
        broadcast use vstd::std_specs::btree::group_btree_axioms;

        EvaluationCounts {
            true_positives: self.true_positives.len(),
            false_positives: self.false_positives.len(),
            false_negatives: self.false_negatives.len(),
        }
    }
}

/// Sorts the predictions of `result` by the labels of `superset`: an address
/// is truly an instruction where the superset labels it as code.
pub fn evaluate_result(superset: &SupersetSample, result: &DisassemblyResult) -> (r: EvaluationResult)
    requires
        forall|i: int| 0 <= i < superset.superset@.len() ==> (#[trigger] superset.superset@[i]).2 is Some,
    ensures
        r.true_positives@ =~= result.predicted_instructions@.intersect(code_addresses(superset.superset@)),
        r.false_positives@ =~= result.predicted_instructions@.difference(code_addresses(superset.superset@)),
        r.false_negatives@ =~= code_addresses(superset.superset@).difference(result.predicted_instructions@),
{
    broadcast use vstd::std_specs::btree::group_btree_axioms;

    let predicted = &result.predicted_instructions;
    let ghost entries = superset.superset@;
    let mut true_result: BTreeSet<u32> = BTreeSet::new();
    let mut i: usize = 0;
    while i < superset.superset.len()
        invariant
            0 <= i <= entries.len(),
            entries == superset.superset@,
            forall|k: int| 0 <= k < entries.len() ==> (#[trigger] entries[k]).2 is Some,
            true_result@ =~= code_addresses(entries.subrange(0, i as int)),
        decreases entries.len() - i,
    {
        let (address, _, label) = superset.superset[i];
        let ghost before = entries.subrange(0, i as int);
        let ghost after = entries.subrange(0, i + 1);
        proof {
            assert forall|a: u32|
                code_addresses(after).contains(a) == (code_addresses(before).contains(a) || (a == address
                    && label == Some(Label::Code))) by {
                if code_addresses(before).contains(a) {
                    let k = choose|k: int|
                        0 <= k < before.len() && (#[trigger] before[k]).0 == a && before[k].2 == Some(
                            Label::Code,
                        );
                    assert(after[k] == before[k]);
                }
                if a == address && label == Some(Label::Code) {
                    assert(after[i as int] == entries[i as int]);
                }
                if code_addresses(after).contains(a) {
                    let k = choose|k: int|
                        0 <= k < after.len() && (#[trigger] after[k]).0 == a && after[k].2 == Some(
                            Label::Code,
                        );
                    if k < i {
                        assert(before[k] == after[k]);
                    }
                }
            }
        }
        match label {
            Some(Label::Code) => {
                true_result.insert(address);
            },
            _ => {},
        }
        i += 1;
    }
    assert(entries.subrange(0, i as int) =~= entries);
    let ghost truth = true_result@;
    let mut evaluation_result = EvaluationResult {
        true_positives: BTreeSet::new(),
        false_positives: BTreeSet::new(),
        false_negatives: BTreeSet::new(),
    };
    let ghost mut seen: Set<u32> = Set::empty();
    for address in walk: predicted.iter()
        invariant
            truth == true_result@,
            walk.seq().unref().to_set() == predicted@,
            forall|a: u32| seen.contains(a) <==> exists|k: int| 0 <= k < walk.index() && *(#[trigger] walk.seq()[k]) == a,
            evaluation_result.true_positives@ =~= seen.intersect(truth),
            evaluation_result.false_positives@ =~= seen.difference(truth),
            evaluation_result.false_negatives@ =~= Set::<u32>::empty(),
            walk.index() == walk.seq().len() ==> seen =~= predicted@,
    {
        let ghost before = seen;
        let ghost at = walk.index();
        if true_result.contains(address) {
            evaluation_result.true_positives.insert(*address);
        } else {
            evaluation_result.false_positives.insert(*address);
        }
        proof {
            seen = before.insert(*address);
        }
        assert forall|a: u32| seen.contains(a) <==> exists|k: int|
            0 <= k < at + 1 && *(#[trigger] walk.seq()[k]) == a by {
            if before.contains(a) {
                let k = choose|k: int| 0 <= k < at && *(#[trigger] walk.seq()[k]) == a;
                assert(0 <= k < at + 1 && *(walk.seq()[k]) == a);
            }
            if a == *address {
                assert(*(walk.seq()[at]) == a);
            }
            if exists|k: int| 0 <= k < at + 1 && *(#[trigger] walk.seq()[k]) == a {
                let k = choose|k: int| 0 <= k < at + 1 && *(#[trigger] walk.seq()[k]) == a;
                if k < at {
                    assert(before.contains(a));
                }
            }
        }
        assert(at + 1 == walk.seq().len() ==> seen =~= predicted@) by {
            if at + 1 == walk.seq().len() {
                assert forall|a: u32| seen.contains(a) <==> predicted@.contains(a) by {
                    if seen.contains(a) {
                        let k = choose|k: int| 0 <= k < at + 1 && *(#[trigger] walk.seq()[k]) == a;
                        assert(walk.seq().unref()[k] == a);
                        assert(walk.seq().unref().to_set().contains(a));
                    }
                    if predicted@.contains(a) {
                        assert(walk.seq().unref().to_set().contains(a));
                        let k = choose|k: int| 0 <= k < walk.seq().unref().len() && walk.seq().unref()[k] == a;
                        assert(*(walk.seq()[k]) == a);
                    }
                }
            }
        }
    }
    assert(seen =~= predicted@);
    let ghost positives = evaluation_result.true_positives@;
    let ghost wrong = evaluation_result.false_positives@;
    let ghost mut walked: Set<u32> = Set::empty();
    for address in walk: true_result.iter()
        invariant
            truth == true_result@,
            walk.seq().unref().to_set() == true_result@,
            evaluation_result.true_positives@ == positives,
            evaluation_result.false_positives@ == wrong,
            forall|a: u32|
                walked.contains(a) <==> exists|k: int| 0 <= k < walk.index() && *(#[trigger] walk.seq()[k]) == a,
            evaluation_result.false_negatives@ =~= walked.difference(predicted@),
            walk.index() == walk.seq().len() ==> walked =~= truth,
    {
        let ghost before = walked;
        let ghost at = walk.index();
        if !predicted.contains(address) {
            evaluation_result.false_negatives.insert(*address);
        }
        proof {
            walked = before.insert(*address);
        }
        assert forall|a: u32| walked.contains(a) <==> exists|k: int|
            0 <= k < at + 1 && *(#[trigger] walk.seq()[k]) == a by {
            if before.contains(a) {
                let k = choose|k: int| 0 <= k < at && *(#[trigger] walk.seq()[k]) == a;
                assert(0 <= k < at + 1 && *(walk.seq()[k]) == a);
            }
            if a == *address {
                assert(*(walk.seq()[at]) == a);
            }
            if exists|k: int| 0 <= k < at + 1 && *(#[trigger] walk.seq()[k]) == a {
                let k = choose|k: int| 0 <= k < at + 1 && *(#[trigger] walk.seq()[k]) == a;
                if k < at {
                    assert(before.contains(a));
                }
            }
        }
        assert(at + 1 == walk.seq().len() ==> walked =~= truth) by {
            if at + 1 == walk.seq().len() {
                assert forall|a: u32| walked.contains(a) <==> truth.contains(a) by {
                    if walked.contains(a) {
                        let k = choose|k: int| 0 <= k < at + 1 && *(#[trigger] walk.seq()[k]) == a;
                        assert(walk.seq().unref()[k] == a);
                        assert(walk.seq().unref().to_set().contains(a));
                    }
                    if truth.contains(a) {
                        assert(walk.seq().unref().to_set().contains(a));
                        let k = choose|k: int| 0 <= k < walk.seq().unref().len() && walk.seq().unref()[k] == a;
                        assert(*(walk.seq()[k]) == a);
                    }
                }
            }
        }
    }
    assert(walked =~= truth);
    evaluation_result
}

} // verus!
