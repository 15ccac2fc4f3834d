//! Opcode vocabularies: the operation codes that occur most often, ranked,
//! and the index that each stands for in emitted arrays.

use vstd::prelude::*;
use std::collections::HashMap;
use crate::decoder::CODE_INVALID;
use crate::order::{is_stable_order, key_before, lemma_order_covers, stable_sort_order};
use crate::superset::SupersetSample;

verus! {

/// The number of operation codes that there can be.
pub const CODE_SPACE: usize = 65536;

/// The most codes that a vocabulary can rank: with the two special entries,
/// every index then fits the 32-bit integers that indices are emitted as.
pub const MAX_VOCAB_LEN: usize = 0x7fff_fffd;

/// The index that stands for bytes that decode to no instruction.
pub const INDEX_INVALID: usize = 0;

/// The index that stands for every operation code that is not ranked.
pub const INDEX_UNKNOWN: usize = 1;

/// The number of indices that stand for no ranked operation code.
pub const SPECIAL_VALUE_COUNT: usize = 2;

/// A count that stops at the largest number that a counter holds.
pub open spec fn capped(n: int) -> u64 {
    if n >= u64::MAX {
        u64::MAX
    } else {
        n as u64
    }
}

/// How often the operation code `code` occurs in `superset`.
pub open spec fn occurrences(superset: Seq<crate::address_index::Entry>, code: u16) -> int
    decreases superset.len(),
{
    if superset.len() == 0 {
        0
    } else {
        occurrences(superset.drop_last(), code) + if superset.last().1.code == code {
            1int
        } else {
            0int
        }
    }
}

/// The number of operation codes below `upto` that `freq` counts at least
/// once.
pub open spec fn counted_codes(freq: Seq<u64>, upto: int) -> int
    decreases upto,
{
    if upto <= 0 {
        0
    } else {
        counted_codes(freq, upto - 1) + if freq[upto - 1] > 0 {
            1int
        } else {
            0int
        }
    }
}

/// The sum of the counts of the operation codes below `upto`.
pub open spec fn summed_counts(freq: Seq<u64>, upto: int) -> int
    decreases upto,
{
    if upto <= 0 {
        0
    } else {
        summed_counts(freq, upto - 1) + freq[upto - 1]
    }
}

/// Counts how often each operation code occurs. A count stops at the largest
/// number that a counter holds.
#[derive(Clone, Debug)]
pub struct CodeVocabBuilder {
    freq: Vec<u64>,
}

impl View for CodeVocabBuilder {
    type V = Seq<u64>;

    /// The count of each operation code, by code.
    closed spec fn view(&self) -> Seq<u64> {
        self.freq@
    }
}

/// Whether the operation code `a` ranks before the operation code `b`: it
/// was counted more often, or as often and has the lower number.
pub open spec fn outranks(freq: Seq<u64>, a: u16, b: u16) -> bool {
    freq[a as int] > freq[b as int] || (freq[a as int] == freq[b as int] && a < b)
}

/// Whether the operation code can be ranked: it is a code of an instruction
/// and was counted.
pub open spec fn rankable(freq: Seq<u64>, code: u16) -> bool {
    code != CODE_INVALID && freq[code as int] > 0
}

/// The number of operation codes below `upto` that can be ranked.
pub open spec fn rankable_codes(freq: Seq<u64>, upto: int) -> int
    decreases upto,
{
    if upto <= 0 {
        0
    } else {
        rankable_codes(freq, upto - 1) + if rankable(freq, (upto - 1) as u16) {
            1int
        } else {
            0int
        }
    }
}

/// `codes` holds the `k` operation codes that rank first under the counts
/// `freq`, or every code that can be ranked if those are fewer, in ranking
/// order.
pub open spec fn is_top_k(freq: Seq<u64>, k: int, codes: Seq<u16>) -> bool {
    &&& codes.len() == (if k <= rankable_codes(freq, 65536) { k } else { rankable_codes(freq, 65536) })
    &&& forall|i: int| 0 <= i < codes.len() ==> rankable(freq, #[trigger] codes[i])
    &&& forall|i: int, j: int|
        0 <= i < j < codes.len() ==> outranks(freq, #[trigger] codes[i], #[trigger] codes[j])
    &&& forall|c: u16, i: int|
        #[trigger] rankable(freq, c) && !codes.contains(c) && 0 <= i < codes.len() ==> outranks(
            freq,
            #[trigger] codes[i],
            c,
        )
}

impl CodeVocabBuilder {
    /// There is a counter for each operation code.
    pub open spec fn wf(self) -> bool {
        self@.len() == 65536
    }

    pub fn new() -> (r: CodeVocabBuilder)
        ensures
            r.wf(),
            forall|c: int| 0 <= c < 65536 ==> r@[c] == 0,
    {
        let mut freq: Vec<u64> = Vec::new();
        let mut i: usize = 0;
        while i < CODE_SPACE
            invariant
                0 <= i <= 65536,
                freq@.len() == i,
                forall|c: int| 0 <= c < i ==> freq@[c] == 0,
            decreases 65536 - i,
        {
            freq.push(0);
            i += 1;
        }
        CodeVocabBuilder { freq }
    }

    /// Counts one occurrence of `code`.
    #[inline]
    pub fn add(&mut self, code: u16)
        requires
            old(self).wf(),
        ensures
            final(self).wf(),
            final(self)@ =~= old(self)@.update(code as int, capped(old(self)@[code as int] + 1)),
    {
        let count = self.freq[code as usize];
        self.freq[code as usize] = count.saturating_add(1);
    }

    /// Counts the operation code of each candidate of `sample`.
    pub fn add_sample(&mut self, sample: &SupersetSample)
        requires
            old(self).wf(),
        ensures
            final(self).wf(),
            forall|code: u16|
                final(self)@[code as int] == capped(
                    old(self)@[code as int] + #[trigger] occurrences(sample.superset@, code),
                ),
    {
        let mut i: usize = 0;
        while i < sample.superset.len()
            invariant
                0 <= i <= sample.superset@.len(),
                self.wf(),
                forall|code: u16|
                    self@[code as int] == capped(
                        old(self)@[code as int] + #[trigger] occurrences(
                            sample.superset@.subrange(0, i as int),
                            code,
                        ),
                    ),
            decreases sample.superset@.len() - i,
        {
            let (_, instr, _) = sample.superset[i];
            proof {
                let longer = sample.superset@.subrange(0, i + 1);
                assert(longer.drop_last() =~= sample.superset@.subrange(0, i as int));
                assert(longer.last() == sample.superset@[i as int]);
                assert forall|code: u16| #[trigger]
                    occurrences(sample.superset@.subrange(0, i as int), code) >= 0 by {
                    lemma_occurrences_nonneg(sample.superset@.subrange(0, i as int), code);
                }
            }
            let ghost entering = self@;
            self.add(instr.code);
            proof {
                assert forall|code: u16|
                    self@[code as int] == capped(
                        old(self)@[code as int] + #[trigger] occurrences(
                            sample.superset@.subrange(0, i + 1),
                            code,
                        ),
                    ) by {
                    assert(entering[code as int] == capped(
                        old(self)@[code as int] + occurrences(sample.superset@.subrange(0, i as int), code),
                    ));
                }
            }
            i += 1;
        }
        assert(sample.superset@.subrange(0, i as int) =~= sample.superset@);
    }

    /// Adds the counts of `other`.
    pub fn merge(&mut self, other: CodeVocabBuilder)
        requires
            old(self).wf(),
            other.wf(),
        ensures
            final(self).wf(),
            forall|c: int| 0 <= c < 65536 ==> #[trigger] final(self)@[c] == capped(old(self)@[c] + other@[c]),
    {
        let mut c: usize = 0;
        while c < CODE_SPACE
            invariant
                0 <= c <= 65536,
                self.wf(),
                other.wf(),
                forall|d: int| 0 <= d < c ==> #[trigger] self@[d] == capped(old(self)@[d] + other@[d]),
                forall|d: int| c <= d < 65536 ==> #[trigger] self@[d] == old(self)@[d],
            decreases 65536 - c,
        {
            let sum = self.freq[c].saturating_add(other.freq[c]);
            self.freq[c] = sum;
            c += 1;
        }
    }

    /// The number of operation codes that were counted.
    pub fn len(&self) -> (r: usize)
        requires
            self.wf(),
        ensures
            r == counted_codes(self@, 65536),
    {
        let mut n: usize = 0;
        let mut c: usize = 0;
        while c < CODE_SPACE
            invariant
                0 <= c <= 65536,
                self.wf(),
                n == counted_codes(self@, c as int),
                n <= c,
            decreases 65536 - c,
        {
            if self.freq[c] > 0 {
                n += 1;
            }
            c += 1;
        }
        n
    }

    /// The number of occurrences that were counted.
    pub fn total_count(&self) -> (r: u64)
        requires
            self.wf(),
        ensures
            r == capped(summed_counts(self@, 65536)),
    {
        let mut total: u64 = 0;
        let mut c: usize = 0;
        while c < CODE_SPACE
            invariant
                0 <= c <= 65536,
                self.wf(),
                summed_counts(self@, c as int) >= 0,
                total == capped(summed_counts(self@, c as int)),
            decreases 65536 - c,
        {
            total = total.saturating_add(self.freq[c]);
            c += 1;
        }
        total
    }

    /// The vocabulary of the `k` operation codes that were counted most
    /// often, the more frequent first and, among codes counted equally often,
    /// the one with the lower number first. The code of bytes that decode to
    /// no instruction is left out.
    pub fn build_top_k(self, k: usize) -> (r: CodeVocab)
        requires
            self.wf(),
        ensures
            r.wf(),
            is_top_k(self@, k as int, r@),
    {
        let ghost freq = self@;
        let mut candidates: Vec<u16> = Vec::new();
        let mut keys: Vec<(u64, u64)> = Vec::new();
        let mut c: usize = 1;
        assert(rankable_codes(freq, 1) == 0) by {
            assert(rankable_codes(freq, 0) == 0);
        }
        while c < CODE_SPACE
            invariant
                1 <= c <= 65536,
                self.wf(),
                freq == self@,
                candidates@.len() == keys@.len(),
                candidates@.len() == rankable_codes(freq, c as int),
                candidates@.len() <= c,
                forall|i: int|
                    0 <= i < candidates@.len() ==> rankable(freq, #[trigger] candidates@[i])
                        && candidates@[i] < c && keys@[i] == ((u64::MAX - freq[candidates@[i] as int]) as u64,
                        candidates@[i] as u64),
                forall|d: u16| d < c && rankable(freq, d) ==> candidates@.contains(d),
                forall|i: int, j: int|
                    0 <= i < j < candidates@.len() ==> (#[trigger] candidates@[i]) < (
                    #[trigger] candidates@[j]),
            decreases 65536 - c,
        {
            let count = self.freq[c];
            if count > 0 {
                let ghost before = candidates@;
                candidates.push(c as u16);
                keys.push((u64::MAX - count, c as u64));
                proof {
                    assert forall|d: u16| d < c + 1 && rankable(freq, d) implies candidates@.contains(
                        d,
                    ) by {
                        if d < c {
                            let i = choose|i: int| 0 <= i < before.len() && before[i] == d;
                            assert(candidates@[i] == d);
                        } else {
                            assert(candidates@[candidates@.len() - 1] == d);
                        }
                    }
                }
            }
            c += 1;
        }
        let order = stable_sort_order(&keys);
        let n = candidates.len();
        let taken = if k <= n { k } else { n };
        let mut codes: Vec<u16> = Vec::new();
        let mut j: usize = 0;
        while j < taken
            invariant
                0 <= j <= taken <= n,
                n == candidates@.len(),
                n == order@.len(),
                is_stable_order(keys@, order@),
                keys@.len() == n,
                codes@.len() == j,
                forall|i: int| 0 <= i < j ==> #[trigger] codes@[i] == candidates@[order@[i] as int],
            decreases taken - j,
        {
            assert(order@[j as int] < keys@.len());
            codes.push(candidates[order[j]]);
            j += 1;
        }
        proof {
            assert forall|i: int, j: int| 0 <= i < j < codes@.len() implies outranks(
                freq,
                #[trigger] codes@[i],
                #[trigger] codes@[j],
            ) by {
                let a = order@[i] as int;
                let b = order@[j] as int;
                assert(key_before(keys@[a], keys@[b]) || (keys@[a] == keys@[b] && a < b));
                assert(rankable(freq, candidates@[a]));
                assert(rankable(freq, candidates@[b]));
            }
            assert forall|c: u16, i: int|
                #[trigger] rankable(freq, c) && !codes@.contains(c) && 0 <= i < codes@.len() implies outranks(
                freq,
                #[trigger] codes@[i],
                c,
            ) by {
                assert(candidates@.contains(c));
                let p = choose|p: int| 0 <= p < candidates@.len() && candidates@[p] == c;
                lemma_order_covers(keys@, order@, p);
                let q = choose|q: int| 0 <= q < order@.len() && order@[q] == p;
                if q < taken {
                    assert(codes@[q] == c);
                }
                let a = order@[i] as int;
                assert(key_before(keys@[a], keys@[p]) || (keys@[a] == keys@[p] && a < p));
                assert(rankable(freq, candidates@[a]));
            }
            assert forall|i: int| 0 <= i < codes@.len() implies rankable(freq, #[trigger] codes@[i]) by {
                assert(rankable(freq, candidates@[order@[i] as int]));
            }
        }
        CodeVocab::new(codes)
    }

    /// The vocabulary of every operation code that was counted.
    pub fn build(self) -> (r: CodeVocab)
        requires
            self.wf(),
        ensures
            r.wf(),
            is_top_k(self@, counted_codes(self@, 65536), r@),
    {
        let len = self.len();
        self.build_top_k(len)
    }
}

/// Adding counts gives the same whatever the order and the grouping: merging
/// builders is commutative and associative.
pub proof fn law_merge_is_associative(a: u64, b: u64, c: u64)
    ensures
        capped(a + b) == capped(b + a),
        capped(capped(a + b) + c) == capped(a + capped(b + c)),
        capped(capped(a + b) + c) == capped(a + b + c),
{
}

proof fn lemma_occurrences_nonneg(superset: Seq<crate::address_index::Entry>, code: u16)
    ensures
        occurrences(superset, code) >= 0,
    decreases superset.len(),
{
    if superset.len() > 0 {
        lemma_occurrences_nonneg(superset.drop_last(), code);
    }
}

/// The index, less the two special entries, that each operation code of
/// `codes` stands at. Where a code stands at several places, the last one
/// counts.
pub open spec fn rank_index(codes: Seq<u16>) -> Map<u16, usize>
    decreases codes.len(),
{
    if codes.len() == 0 {
        Map::empty()
    } else {
        rank_index(codes.drop_last()).insert(codes.last(), (codes.len() + 1) as usize)
    }
}

/// The index that stands for the operation code `code` under the ranking
/// `codes`.
pub open spec fn index_in(codes: Seq<u16>, code: u16) -> usize {
    if code == CODE_INVALID {
        INDEX_INVALID
    } else if rank_index(codes).contains_key(code) {
        rank_index(codes)[code]
    } else {
        INDEX_UNKNOWN
    }
}

/// Why an index stands for no operation code.
#[derive(Copy, Clone, Debug, PartialEq, Eq, Structural)]
pub enum IndexError {
    /// The index stands for every operation code that is not ranked.
    Unknown,
    /// The vocabulary has no such index.
    OutOfRange,
}

/// A ranking of operation codes.
#[derive(Clone, Debug)]
pub struct CodeVocab {
    codes: Vec<u16>,
    code_to_index: HashMap<u16, usize>,
}

impl View for CodeVocab {
    type V = Seq<u16>;

    /// The ranked operation codes, in rank order.
    closed spec fn view(&self) -> Seq<u16> {
        self.codes@
    }
}

impl CodeVocab {
    /// The index of each code is known, and every index fits the integers
    /// that indices are emitted as.
    pub closed spec fn wf(self) -> bool {
        self.codes@.len() <= MAX_VOCAB_LEN && self.code_to_index@ == rank_index(self.codes@)
    }

    /// A vocabulary is no longer than its indices allow.
    pub proof fn lemma_len(self)
        requires
            self.wf(),
        ensures
            self@.len() <= MAX_VOCAB_LEN,
    {
    }

    pub fn new(codes: Vec<u16>) -> (r: CodeVocab)
        requires
            codes@.len() <= MAX_VOCAB_LEN,
        ensures
            r.wf(),
            r@ == codes@,
    {
        broadcast use vstd::std_specs::hash::group_hash_axioms;

        let mut code_to_index: HashMap<u16, usize> = HashMap::new();
        let mut i: usize = 0;
        while i < codes.len()
            invariant
                0 <= i <= codes@.len(),
                codes@.len() <= MAX_VOCAB_LEN,
                code_to_index@ == rank_index(codes@.subrange(0, i as int)),
            decreases codes@.len() - i,
        {
            proof {
                let longer = codes@.subrange(0, i + 1);
                assert(longer.drop_last() =~= codes@.subrange(0, i as int));
                assert(longer.last() == codes@[i as int]);
            }
            code_to_index.insert(codes[i], i + SPECIAL_VALUE_COUNT);
            i += 1;
        }
        assert(codes@.subrange(0, i as int) =~= codes@);
        CodeVocab { codes, code_to_index }
    }

    /// The ranked operation codes, in rank order.
    pub fn codes(&self) -> (r: &Vec<u16>)
        ensures
            r@ == self@,
    {
        &self.codes
    }

    /// The number of ranked operation codes.
    pub fn len(&self) -> (r: usize)
        ensures
            r == self@.len(),
    {
        self.codes.len()
    }

    /// The index that stands for `code`: that of bytes that decode to no
    /// instruction, two more than its rank, or that of the codes that are not
    /// ranked.
    pub fn index_of(&self, code: u16) -> (r: usize)
        requires
            self.wf(),
        ensures
            r == index_in(self@, code),
            r <= self@.len() + 1,
    {
        broadcast use vstd::std_specs::hash::group_hash_axioms;

        proof {
            lemma_rank_index(self@, code);
        }
        if code == CODE_INVALID {
            return INDEX_INVALID;
        }
        match self.code_to_index.get(&code) {
            Some(index) => *index,
            None => INDEX_UNKNOWN,
        }
    }

    /// The operation code that `index` stands for.
    pub fn code_at(&self, index: usize) -> (r: Result<u16, IndexError>)
        ensures
            index == INDEX_INVALID ==> r == Ok::<u16, IndexError>(CODE_INVALID),
            index == INDEX_UNKNOWN ==> r == Err::<u16, IndexError>(IndexError::Unknown),
            2 <= index < self@.len() + 2 ==> r == Ok::<u16, IndexError>(self@[index - 2]),
            index >= self@.len() + 2 ==> r == Err::<u16, IndexError>(IndexError::OutOfRange),
    {
        if index == INDEX_INVALID {
            Ok(CODE_INVALID)
        } else if index == INDEX_UNKNOWN {
            Err(IndexError::Unknown)
        } else if index - SPECIAL_VALUE_COUNT < self.codes.len() {
            Ok(self.codes[index - SPECIAL_VALUE_COUNT])
        } else {
            Err(IndexError::OutOfRange)
        }
    }
}

/// What the index holds for a code is two more than the last place at which
/// the code stands, and it holds something for every code of the ranking.
pub proof fn lemma_rank_index(codes: Seq<u16>, code: u16)
    requires
        codes.len() <= MAX_VOCAB_LEN,
    ensures
        rank_index(codes).contains_key(code) <==> codes.contains(code),
        rank_index(codes).contains_key(code) ==> 2 <= rank_index(codes)[code] < codes.len() + 2
            && codes[rank_index(codes)[code] - 2] == code && forall|j: int|
            rank_index(codes)[code] - 2 < j < codes.len() ==> codes[j] != code,
    decreases codes.len(),
{
    if codes.len() > 0 {
        let shorter = codes.drop_last();
        lemma_rank_index(shorter, code);
        if codes.last() == code {
            assert(codes[codes.len() - 1] == code);
        } else {
            if shorter.contains(code) {
                let k = choose|k: int| 0 <= k < shorter.len() && shorter[k] == code;
                assert(codes[k] == code);
            }
            if codes.contains(code) {
                let k = choose|k: int| 0 <= k < codes.len() && codes[k] == code;
                assert(shorter[k] == code);
            }
            if rank_index(codes).contains_key(code) {
                let at = rank_index(shorter)[code] - 2;
                assert(shorter[at] == codes[at]);
                assert forall|j: int| at < j < codes.len() implies codes[j] != code by {
                    if j < shorter.len() {
                        assert(shorter[j] == codes[j]);
                    }
                }
            }
        }
    }
}

} // verus!
