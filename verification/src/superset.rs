//! Superset disassembly: one candidate instruction decoded at every address
//! of every executable region, labelled by ground truth.

use vstd::prelude::*;
use vstd::slice::slice_subrange;
use std::collections::HashSet;
use crate::classes::AddressClasses;
use crate::decoder::{decode_at, decoded_at, Decoded, CODE_INVALID};
use crate::feature::{InstructionFeature, Label};
use crate::interval::Interval;
use crate::memory::{regions_wf, MemoryImage, MemoryRegion};

verus! {

/// An executable with its ground truth.
#[derive(Clone, Debug, PartialEq, Eq)]
pub struct ExecutableSample {
    pub memory: MemoryImage,
    pub classes: AddressClasses,
    /// Where the executable came from, if that is known.
    pub source: Option<String>,
}

/// The dense sequence of candidate instructions of an executable: address,
/// features and label.
#[derive(Clone, Debug, PartialEq, Eq)]
pub struct SupersetSample {
    pub superset: Vec<(u32, InstructionFeature, Option<Label>)>,
    pub source: Option<String>,
}

/// Where a linear decode of `bytes` goes on after the instruction `d` that it
/// found at `pos`: behind the instruction, which takes at least one byte and
/// does not reach past the end.
pub open spec fn next_position(bytes: Seq<u8>, pos: int, d: Decoded) -> int {
    let step = if d.len >= 1 { d.len as int } else { 1 };
    if pos + step <= bytes.len() {
        pos + step
    } else {
        bytes.len() as int
    }
}

/// The addresses of the instructions that a linear decode of `bytes` finds
/// from position `pos` on, where the first byte stands at address `base`: it
/// stops at the first bytes that decode to no instruction and where the bytes
/// run out.
pub open spec fn run_starts(bytes: Seq<u8>, base: u32, pos: int) -> Set<u32>
    decreases bytes.len() - pos,
{
    if pos < 0 || pos >= bytes.len() {
        Set::empty()
    } else {
        let d = decoded_at(bytes, pos, (base + pos) as u32);
        if d.code == CODE_INVALID {
            Set::empty()
        } else {
            run_starts(bytes, base, next_position(bytes, pos, d)).insert((base + pos) as u32)
        }
    }
}

/// The bytes of `region` from address `lo` up to `hi`, or up to the region's
/// end if that comes first.
pub open spec fn clip(region: MemoryRegion, lo: int, hi: int) -> Seq<u8> {
    let to = if hi <= region.spec_end() { hi } else { region.spec_end() };
    region.data@.subrange(lo - region.addr, to - region.addr)
}

/// The instruction starts that ground truth gives for the stretch `[lo, hi)`:
/// those of a linear decode from `lo`, on the bytes of the executable region
/// that holds `lo`. None where no executable region holds `lo`.
pub open spec fn interval_starts(regions: Seq<MemoryRegion>, lo: int, hi: int) -> Set<u32> {
    Set::new(
        |a: u32|
            exists|r: int|
                0 <= r < regions.len() && (#[trigger] regions[r]).protection.execute
                    && regions[r].holds(lo) && run_starts(clip(regions[r], lo, hi), lo as u32, 0).contains(
                    a,
                ),
    )
}

/// The instruction starts that ground truth gives: those of every stretch of
/// true instructions.
pub open spec fn truth_starts(regions: Seq<MemoryRegion>, members: Seq<Interval>) -> Set<u32> {
    Set::new(
        |a: u32|
            exists|k: int|
                0 <= k < members.len() && interval_starts(
                    regions,
                    (#[trigger] members[k]).lo(),
                    members[k].hi(),
                ).contains(a),
    )
}

/// The number of bytes in the executable regions among the first `n`.
pub open spec fn executable_bytes(regions: Seq<MemoryRegion>, n: int) -> int
    decreases n,
{
    if n <= 0 {
        0
    } else {
        executable_bytes(regions, n - 1) + if regions[n - 1].protection.execute {
            regions[n - 1].data@.len() as int
        } else {
            0
        }
    }
}

/// The entry of the superset for the byte at `offset` of the executable
/// region `r` is the candidate instruction decoded there, labelled `Code`
/// exactly where ground truth has an instruction start.
pub open spec fn entry_matches(
    regions: Seq<MemoryRegion>,
    starts: Set<u32>,
    superset: Seq<(u32, InstructionFeature, Option<Label>)>,
    r: int,
    offset: int,
) -> bool {
    let entry = superset[executable_bytes(regions, r) + offset];
    let address = (regions[r].addr + offset) as u32;
    &&& entry.0 == address
    &&& 1 <= entry.1.size <= 15
    &&& entry.1.describes(decoded_at(regions[r].data@, offset, address))
    &&& entry.2 == Some(if starts.contains(address) { Label::Code } else { Label::NotCode })
}

/// The superset of `regions` under the instruction starts `starts`.
pub open spec fn is_superset_of(
    regions: Seq<MemoryRegion>,
    starts: Set<u32>,
    superset: Seq<(u32, InstructionFeature, Option<Label>)>,
) -> bool {
    &&& superset.len() == executable_bytes(regions, regions.len() as int)
    &&& forall|r: int, offset: int|
        0 <= r < regions.len() && regions[r].protection.execute && 0 <= offset
            < regions[r].data@.len() ==> #[trigger] entry_matches(regions, starts, superset, r, offset)
}

proof fn lemma_executable_bytes_monotone(regions: Seq<MemoryRegion>, i: int, j: int)
    requires
        0 <= i <= j,
    ensures
        0 <= executable_bytes(regions, i) <= executable_bytes(regions, j),
    decreases j,
{
    if j > 0 {
        if i < j {
            lemma_executable_bytes_monotone(regions, i, j - 1);
        } else {
            lemma_executable_bytes_monotone(regions, i - 1, j - 1);
        }
    }
}

/// Only one region holds an address.
proof fn lemma_one_region_holds(regions: Seq<MemoryRegion>, a: int, r: int, s: int)
    requires
        regions_wf(regions),
        0 <= r < regions.len(),
        0 <= s < regions.len(),
        regions[r].holds(a),
        regions[s].holds(a),
    ensures
        r == s,
{
    if r < s {
        assert(regions[r].spec_end() <= regions[s].addr);
    }
    if s < r {
        assert(regions[s].spec_end() <= regions[r].addr);
    }
}

impl ExecutableSample {
    pub open spec fn wf(self) -> bool {
        self.memory.wf() && self.classes.wf()
    }

    pub fn new(memory: MemoryImage, classes: AddressClasses) -> (r: ExecutableSample)
        ensures
            r.memory == memory,
            r.classes == classes,
            r.source.is_none(),
    {
        ExecutableSample { memory, classes, source: None }
    }

    /// The number of bytes that ground truth covers, and the number of bytes
    /// in memory.
    pub fn coverage(&self) -> (r: (u64, u64))
        requires
            self.wf(),
        ensures
            r.0 == crate::interval_set::total_len(self.classes.true_instructions.members())
                + crate::interval_set::total_len(self.classes.true_data.members()),
            r.1 == crate::memory::bytes_before(self.memory@, self.memory@.len() as int),
    {
        (self.classes.coverage(), self.memory.size())
    }

    /// The number of bytes in memory.
    pub fn size(&self) -> (r: u64)
        requires
            self.wf(),
        ensures
            r == crate::memory::bytes_before(self.memory@, self.memory@.len() as int),
    {
        self.memory.size()
    }

    pub fn into_superset(self) -> (r: SupersetSample)
        requires
            self.wf(),
        ensures
            r.source == self.source,
            is_superset_of(
                self.memory@,
                truth_starts(self.memory@, self.classes.true_instructions.members()),
                r.superset@,
            ),
    {
        SupersetSample::new(self)
    }
}

impl SupersetSample {
    /// The instruction starts of one stretch of true instructions, added to
    /// `starts`.
    fn collect_interval_starts(memory: &MemoryImage, interval: Interval, starts: &mut HashSet<u32>)
        requires
            memory.wf(),
            interval.wf(),
        ensures
            final(starts)@ =~= old(starts)@.union(interval_starts(memory@, interval.lo(), interval.hi())),
    {
        broadcast use vstd::std_specs::hash::group_hash_axioms;

        let lo = interval.start();
        let hi = interval.end();
        let ghost regions = memory@;
        let found = memory.executable_region_at(lo);
        match found {
            None => {
                assert(interval_starts(regions, lo as int, hi as int) =~= Set::<u32>::empty());
            },
            Some(r) => {
                let region = &memory.regions()[r];
                proof {
                    assert(regions[r as int].wf());
                }
                let end = region.end();
                let to = if hi <= end { hi } else { end };
                let from_index: usize = (lo - region.addr) as usize;
                let to_index: usize = (to - region.addr) as usize;
                let bytes = slice_subrange(region.data.as_slice(), from_index, to_index);
                assert(bytes@ == clip(regions[r as int], lo as int, hi as int));
                let ghost whole = run_starts(bytes@, lo, 0);
                let ghost before = starts@;
                let mut pos: usize = 0;
                while pos < bytes.len()
                    invariant
                        0 <= pos <= bytes@.len(),
                        lo + bytes@.len() <= u32::MAX,
                        whole == run_starts(bytes@, lo, 0),
                        starts@.union(run_starts(bytes@, lo, pos as int)) =~= before.union(whole),
                    ensures
                        starts@ =~= before.union(whole),
                    decreases bytes@.len() - pos,
                {
                    let ip: u32 = lo + pos as u32;
                    let d = decode_at(bytes, pos, ip);
                    if d.code == CODE_INVALID {
                        break ;
                    }
                    starts.insert(ip);
                    pos = pos + d.len;
                }
                proof {
                    assert forall|a: u32|
                        interval_starts(regions, lo as int, hi as int).contains(a) == whole.contains(
                            a,
                        ) by {
                        if interval_starts(regions, lo as int, hi as int).contains(a) {
                            let s = choose|s: int|
                                0 <= s < regions.len() && (#[trigger] regions[s]).protection.execute
                                    && regions[s].holds(lo as int) && run_starts(
                                    clip(regions[s], lo as int, hi as int),
                                    lo,
                                    0,
                                ).contains(a);
                            lemma_one_region_holds(regions, lo as int, r as int, s);
                        }
                        if whole.contains(a) {
                            assert(regions[r as int].protection.execute);
                        }
                    }
                }
            },
        }
    }

    /// Decodes a candidate instruction at every address of every executable
    /// region, in region order and ascending address within a region, and
    /// labels it `Code` where ground truth has an instruction start.
    pub fn new(sample: ExecutableSample) -> (r: SupersetSample)
        requires
            sample.wf(),
        ensures
            r.source == sample.source,
            is_superset_of(
                sample.memory@,
                truth_starts(sample.memory@, sample.classes.true_instructions.members()),
                r.superset@,
            ),
    {
        broadcast use vstd::std_specs::hash::group_hash_axioms;

        let ghost regions = sample.memory@;
        let ghost members = sample.classes.true_instructions.members();
        let mut starts: HashSet<u32> = HashSet::new();
        let mut walk = sample.classes.true_instructions.iter();
        loop
            invariant
                walk.wf(),
                walk.set() == sample.classes.true_instructions,
                sample.wf(),
                regions == sample.memory@,
                members == sample.classes.true_instructions.members(),
                starts@ =~= truth_starts(regions, members.subrange(0, walk.position())),
            ensures
                starts@ =~= truth_starts(regions, members),
            decreases members.len() - walk.position(),
        {
            let ghost k = walk.position();
            match walk.next() {
                None => {
                    assert(members.subrange(0, k) =~= members);
                    break ;
                },
                Some(interval) => {
                    let ghost before = starts@;
                    Self::collect_interval_starts(&sample.memory, interval, &mut starts);
                    proof {
                        let s0 = members.subrange(0, k);
                        let s1 = members.subrange(0, k + 1);
                        let added = interval_starts(regions, interval.lo(), interval.hi());
                        assert forall|a: u32|
                            truth_starts(regions, s1).contains(a) == (truth_starts(
                                regions,
                                s0,
                            ).contains(a) || added.contains(a)) by {
                            if truth_starts(regions, s0).contains(a) {
                                let j = choose|j: int|
                                    0 <= j < s0.len() && interval_starts(
                                        regions,
                                        (#[trigger] s0[j]).lo(),
                                        s0[j].hi(),
                                    ).contains(a);
                                assert(s1[j] == s0[j]);
                            }
                            if added.contains(a) {
                                assert(s1[k] == interval);
                            }
                            if truth_starts(regions, s1).contains(a) {
                                let j = choose|j: int|
                                    0 <= j < s1.len() && interval_starts(
                                        regions,
                                        (#[trigger] s1[j]).lo(),
                                        s1[j].hi(),
                                    ).contains(a);
                                if j < k {
                                    assert(s0[j] == s1[j]);
                                }
                            }
                        }
                    }
                },
            }
        }
        let ghost truth = starts@;
        let mut superset: Vec<(u32, InstructionFeature, Option<Label>)> = Vec::new();
        let count = sample.memory.regions().len();
        let mut r: usize = 0;
        while r < count
            invariant
                0 <= r <= count,
                count == regions.len(),
                regions == sample.memory@,
                regions_wf(regions),
                truth == starts@,
                superset@.len() == executable_bytes(regions, r as int),
                forall|i: int, offset: int|
                    0 <= i < r && regions[i].protection.execute && 0 <= offset < regions[i].data@.len()
                        ==> #[trigger] entry_matches(regions, truth, superset@, i, offset),
            decreases count - r,
        {
            let region = &sample.memory.regions()[r];
            proof {
                assert(regions[r as int].wf());
            }
            if region.protection.execute {
                let len = region.data.len();
                let ghost base = executable_bytes(regions, r as int);
                let mut offset: usize = 0;
                while offset < len
                    invariant
                        0 <= offset <= len,
                        0 <= r < count,
                        count == regions.len(),
                        len == region.data@.len(),
                        *region == regions[r as int],
                        region.wf(),
                        region.protection.execute,
                        truth == starts@,
                        base == executable_bytes(regions, r as int),
                        superset@.len() == base + offset,
                        forall|i: int, o: int|
                            0 <= i < r && regions[i].protection.execute && 0 <= o < regions[i].data@.len()
                                ==> #[trigger] entry_matches(regions, truth, superset@, i, o),
                        forall|o: int|
                            0 <= o < offset ==> #[trigger] entry_matches(regions, truth, superset@, r as int, o),
                    decreases len - offset,
                {
                    let address: u32 = region.addr + offset as u32;
                    let d = decode_at(region.data.as_slice(), offset, address);
                    let feature = InstructionFeature::from_decoded(&d);
                    let label = if starts.contains(&address) { Label::Code } else { Label::NotCode };
                    let ghost previous = superset@;
                    superset.push((address, feature, Some(label)));
                    proof {
                        assert forall|i: int, o: int|
                            0 <= i < r && regions[i].protection.execute && 0 <= o < regions[i].data@.len()
                            implies #[trigger] entry_matches(regions, truth, superset@, i, o) by {
                            assert(entry_matches(regions, truth, previous, i, o));
                            lemma_executable_bytes_monotone(regions, i + 1, r as int);
                            lemma_executable_bytes_monotone(regions, 0, i);
                        }
                        assert forall|o: int| 0 <= o < offset + 1 implies #[trigger] entry_matches(
                            regions,
                            truth,
                            superset@,
                            r as int,
                            o,
                        ) by {
                            lemma_executable_bytes_monotone(regions, 0, r as int);
                            if o < offset {
                                assert(entry_matches(regions, truth, previous, r as int, o));
                            }
                        }
                    }
                    offset += 1;
                }
            }
            r += 1;
        }
        SupersetSample { superset, source: sample.source }
    }
}

} // verus!
