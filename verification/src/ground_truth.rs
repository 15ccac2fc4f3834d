//! Ground truth from what symbol tables and debug information hold, as
//! plain numbers: which stretches of addresses are instructions, and which
//! are data.

use vstd::prelude::*;
use crate::classes::AddressClasses;
use crate::decoder::{decode_at, decoded_at};
use crate::interval::Interval;
use crate::interval_set::IntervalSet;
use crate::memory::{MemoryImage, MemoryRegion};
use crate::order::{is_stable_order, key_before, lemma_order_covers, stable_sort_order};

verus! {

/// A set of stretches of addresses, as debug information gives them for a
/// function or for the data of a unit.
#[derive(Clone, Debug, PartialEq, Eq)]
pub struct AddressRange {
    pub range_set: IntervalSet,
}

impl AddressRange {
    pub fn new() -> (r: AddressRange)
        ensures
            r.range_set.wf(),
            r.range_set@ =~= Set::<int>::empty(),
    {
        AddressRange { range_set: IntervalSet::new() }
    }

    pub fn from_simple_range(start: u32, end: u32) -> (r: AddressRange)
        requires
            start <= end,
        ensures
            r.range_set.wf(),
            r.range_set@ =~= Set::new(|p: int| start <= p < end),
    {
        let mut res = Self::new();
        res.add_range(start, end);
        res
    }

    /// Adds the stretches of `other`.
    pub fn merge(&mut self, other: &AddressRange)
        requires
            old(self).range_set.wf(),
            other.range_set.wf(),
        ensures
            final(self).range_set.wf(),
            final(self).range_set@ =~= old(self).range_set@.union(other.range_set@),
    {
        let members = other.range_set.iter().collect();
        proof {
            assert(members@ =~= other.range_set.members());
            assert forall|p: int|
                crate::interval_set::union_points(members@).contains(p) == other.range_set@.contains(p) by {
                broadcast use Interval::lemma_spanning;

                let m = other.range_set.markers();
                if crate::interval_set::union_points(members@).contains(p) {
                    let k = choose|k: int| 0 <= k < members@.len() && (#[trigger] members@[k]).covers(p);
                    assert(crate::markers::member_covers(m, k, p));
                }
                if other.range_set@.contains(p) {
                    let k = choose|k: int| 0 <= k < m.len() / 2 && #[trigger] crate::markers::member_covers(m, k, p);
                    assert(members@[k].covers(p));
                }
            }
        }
        self.range_set.extend(&members);
    }

    pub fn add_range(&mut self, start: u32, end: u32)
        requires
            old(self).range_set.wf(),
            start <= end,
        ensures
            final(self).range_set.wf(),
            final(self).range_set@ =~= old(self).range_set@.union(Set::new(|p: int| start <= p < end)),
    {
        let interval = Interval::from_start_and_end(start, end);
        assert(interval.points() =~= Set::new(|p: int| start <= p < end));
        self.range_set.push(interval);
    }
}

/// A symbol names nothing that the file defines.
pub const SHN_UNDEF: u16 = 0;

/// The kind of a symbol is not given.
pub const STT_NOTYPE: u8 = 0;

/// The symbol is a data object.
pub const STT_OBJECT: u8 = 1;

/// The symbol is a function.
pub const STT_FUNC: u8 = 2;

/// The symbol stands for a section.
pub const STT_SECTION: u8 = 3;

/// The symbol names a source file.
pub const STT_FILE: u8 = 4;

/// The symbol is a common data object.
pub const STT_COMMON: u8 = 5;

/// The symbol is thread-local data.
pub const STT_TLS: u8 = 6;

/// A symbol of an ELF file.
#[derive(Copy, Clone, Debug, PartialEq, Eq, Structural)]
pub struct ElfSymbol {
    /// The index of the section that the symbol belongs to.
    pub section_index: u16,
    pub value: u32,
    pub size: u32,
    /// The kind of the symbol, by its number.
    pub kind: u8,
}

/// What a symbol says of the addresses that it names.
#[derive(Copy, Clone, Debug, PartialEq, Eq, Structural)]
pub enum SymbolClass {
    /// Nothing: the symbol is undefined, or of a kind that names no code and
    /// no data.
    Skipped,
    Data,
    Instructions,
    /// The kind of the symbol is not known.
    Unknown,
}

/// Why the symbols of a file give no classes.
#[derive(Copy, Clone, Debug, PartialEq, Eq, Structural)]
pub enum SymbolError {
    /// The symbol at this place of the table is of a kind that is not known.
    UnknownSymbolType(usize),
    /// The symbol at this place of the table reaches past the highest
    /// address.
    OutOfRange(usize),
}

impl ElfSymbol {
    /// What the symbol says of the addresses that it names.
    pub open spec fn spec_class(self) -> SymbolClass {
        if self.section_index == SHN_UNDEF {
            SymbolClass::Skipped
        } else if self.kind == STT_NOTYPE || self.kind == STT_FILE || self.kind == STT_SECTION || self.kind
            == STT_TLS {
            SymbolClass::Skipped
        } else if self.kind == STT_OBJECT || self.kind == STT_COMMON {
            SymbolClass::Data
        } else if self.kind == STT_FUNC {
            SymbolClass::Instructions
        } else {
            SymbolClass::Unknown
        }
    }

    /// Whether the symbol cannot be taken: its kind is not known, or it
    /// names addresses and reaches past the highest of them.
    pub open spec fn is_bad(self) -> bool {
        self.spec_class() == SymbolClass::Unknown || ((self.spec_class() == SymbolClass::Data
            || self.spec_class() == SymbolClass::Instructions) && self.value + self.size > u32::MAX)
    }

    pub fn class(&self) -> (r: SymbolClass)
        ensures
            r == self.spec_class(),
    {
        if self.section_index == SHN_UNDEF {
            SymbolClass::Skipped
        } else if self.kind == STT_NOTYPE || self.kind == STT_FILE || self.kind == STT_SECTION || self.kind
            == STT_TLS {
            SymbolClass::Skipped
        } else if self.kind == STT_OBJECT || self.kind == STT_COMMON {
            SymbolClass::Data
        } else if self.kind == STT_FUNC {
            SymbolClass::Instructions
        } else {
            SymbolClass::Unknown
        }
    }
}

/// The addresses that the symbols of class `class` among the first `upto`
/// name.
pub open spec fn symbol_points(symbols: Seq<ElfSymbol>, class: SymbolClass, upto: int) -> Set<int> {
    Set::new(
        |p: int|
            exists|k: int|
                0 <= k < upto && (#[trigger] symbols[k]).spec_class() == class && symbols[k].value <= p
                    < symbols[k].value + symbols[k].size,
    )
}

/// The classes that the symbols of an ELF file give: the addresses of its
/// data objects are data, those of its functions are instructions.
pub fn classes_from_elf_symbols(symbols: &Vec<ElfSymbol>) -> (r: Result<AddressClasses, SymbolError>)
    ensures
        match r {
            Ok(classes) => classes.wf() && (forall|k: int|
                0 <= k < symbols@.len() ==> !(#[trigger] symbols@[k]).is_bad()) && classes.true_data@
                =~= symbol_points(symbols@, SymbolClass::Data, symbols@.len() as int)
                && classes.true_instructions@ =~= symbol_points(
                symbols@,
                SymbolClass::Instructions,
                symbols@.len() as int,
            ),
            Err(e) => exists|at: int|
                0 <= at < symbols@.len() && (#[trigger] symbols@[at]).is_bad() && (forall|k: int|
                    0 <= k < at ==> !(#[trigger] symbols@[k]).is_bad()) && e == (if symbols@[at].spec_class()
                    == SymbolClass::Unknown {
                    SymbolError::UnknownSymbolType(at as usize)
                } else {
                    SymbolError::OutOfRange(at as usize)
                }),
        },
{
    let mut classes = AddressClasses::new();
    let mut i: usize = 0;
    assert(symbol_points(symbols@, SymbolClass::Data, 0) =~= Set::<int>::empty());
    assert(symbol_points(symbols@, SymbolClass::Instructions, 0) =~= Set::<int>::empty());
    while i < symbols.len()
        invariant
            0 <= i <= symbols@.len(),
            classes.wf(),
            forall|k: int| 0 <= k < i ==> !(#[trigger] symbols@[k]).is_bad(),
            classes.true_data@ =~= symbol_points(symbols@, SymbolClass::Data, i as int),
            classes.true_instructions@ =~= symbol_points(symbols@, SymbolClass::Instructions, i as int),
        decreases symbols@.len() - i,
    {
        let symbol = symbols[i];
        let class = symbol.class();
        match class {
            SymbolClass::Skipped => {},
            SymbolClass::Unknown => {
                assert(symbols@[i as int].is_bad());
                return Err(SymbolError::UnknownSymbolType(i));
            },
            SymbolClass::Data | SymbolClass::Instructions => {
                if symbol.size > u32::MAX - symbol.value {
                    assert(symbols@[i as int].is_bad());
                    return Err(SymbolError::OutOfRange(i));
                }
                let interval = Interval::from_start_and_len(symbol.value, symbol.size);
                match class {
                    SymbolClass::Data => {
                        classes.true_data.push(interval);
                    },
                    _ => {
                        classes.true_instructions.push(interval);
                    },
                }
            },
        }
        proof {
            assert forall|c: SymbolClass, p: int|
                (c == SymbolClass::Data || c == SymbolClass::Instructions) implies #[trigger] symbol_points(
                symbols@,
                c,
                i + 1,
            ).contains(p) == (symbol_points(symbols@, c, i as int).contains(p) || (class == c
                && symbol.value <= p < symbol.value + symbol.size)) by {
                if symbol_points(symbols@, c, i as int).contains(p) {
                    let k = choose|k: int|
                        0 <= k < i && (#[trigger] symbols@[k]).spec_class() == c && symbols@[k].value <= p
                            < symbols@[k].value + symbols@[k].size;
                    assert(0 <= k < i + 1);
                }
                if class == c && symbol.value <= p < symbol.value + symbol.size {
                    assert(symbols@[i as int].spec_class() == c);
                }
            }
            assert forall|p: int|
                symbol_points(symbols@, SymbolClass::Data, i + 1).contains(p) == classes.true_data@.contains(
                    p,
                ) by {}
            assert forall|p: int|
                symbol_points(symbols@, SymbolClass::Instructions, i + 1).contains(p)
                    == classes.true_instructions@.contains(p) by {}
        }
        i += 1;
    }
    Ok(classes)
}

/// The addresses of the stretches, each given by its start and its length,
/// among the first `upto`.
pub open spec fn range_points(ranges: Seq<(u32, u32)>, upto: int) -> Set<int> {
    Set::new(
        |p: int| exists|k: int| 0 <= k < upto && (#[trigger] ranges[k]).0 <= p < ranges[k].0 + ranges[k].1,
    )
}

/// Adds stretches, each given by its start and its length, to `set`. It
/// stops at the first that reaches past the highest address and hands its
/// place back.
pub fn push_ranges(set: &mut IntervalSet, ranges: &Vec<(u32, u32)>) -> (r: Option<usize>)
    requires
        old(set).wf(),
    ensures
        final(set).wf(),
        match r {
            None => final(set)@ =~= old(set)@.union(range_points(ranges@, ranges@.len() as int)) && forall|
                k: int,
            | 0 <= k < ranges@.len() ==> (#[trigger] ranges@[k]).0 + ranges@[k].1 <= u32::MAX,
            Some(at) => at < ranges@.len() && ranges@[at as int].0 + ranges@[at as int].1 > u32::MAX
                && final(set)@ =~= old(set)@.union(range_points(ranges@, at as int)) && forall|k: int|
                0 <= k < at ==> (#[trigger] ranges@[k]).0 + ranges@[k].1 <= u32::MAX,
        },
{
    let mut i: usize = 0;
    assert(range_points(ranges@, 0) =~= Set::<int>::empty());
    while i < ranges.len()
        invariant
            0 <= i <= ranges@.len(),
            set.wf(),
            set@ =~= old(set)@.union(range_points(ranges@, i as int)),
            forall|k: int| 0 <= k < i ==> (#[trigger] ranges@[k]).0 + ranges@[k].1 <= u32::MAX,
        decreases ranges@.len() - i,
    {
        let (start, len) = ranges[i];
        if len > u32::MAX - start {
            return Some(i);
        }
        let ghost before = set@;
        set.push(Interval::from_start_and_len(start, len));
        proof {
            assert forall|p: int|
                range_points(ranges@, i + 1).contains(p) == (range_points(ranges@, i as int).contains(p) || (
                start <= p < start + len)) by {
                if range_points(ranges@, i as int).contains(p) {
                    let k = choose|k: int|
                        0 <= k < i && (#[trigger] ranges@[k]).0 <= p < ranges@[k].0 + ranges@[k].1;
                    assert(0 <= k < i + 1);
                }
                if start <= p < start + len {
                    assert(ranges@[i as int].0 <= p < ranges@[i as int].0 + ranges@[i as int].1);
                }
            }
            assert forall|p: int| set@.contains(p) == old(set)@.union(range_points(ranges@, i + 1)).contains(p) by {
                assert(set@.contains(p) == (before.contains(p) || (start <= p < start + len)));
            }
        }
        i += 1;
    }
    None
}

/// Why functions and thunks give no classes.
#[derive(Copy, Clone, Debug, PartialEq, Eq, Structural)]
pub enum FunctionError {
    /// The function at this place ends before it begins.
    FunctionEndsEarly(usize),
    /// The thunk at this place lies in no executable region.
    ThunkNotInCode(usize),
}

/// The bytes of `region` from address `from` on.
pub open spec fn bytes_from(region: MemoryRegion, from: int) -> Seq<u8> {
    region.data@.subrange(from - region.addr, region.data@.len() as int)
}

/// Whether `p` lies in the instruction that the thunk at `address` is taken
/// for: the one that the decoder finds there, at the start of the bytes of
/// the executable region that holds the address.
pub open spec fn thunk_covers(regions: Seq<MemoryRegion>, address: u32, p: int) -> bool {
    exists|r: int|
        0 <= r < regions.len() && (#[trigger] regions[r]).protection.execute && regions[r].holds(
            address as int,
        ) && address <= p < address + decoded_at(bytes_from(regions[r], address as int), 0, address).len
}

/// The classes that a list of functions, each from its start to its end, and
/// a list of thunks give: both are instructions; a thunk is taken for one
/// instruction.
pub fn classes_from_functions(memory: &MemoryImage, functions: &Vec<(u32, u32)>, thunks: &Vec<u32>) -> (r:
    Result<AddressClasses, FunctionError>)
    requires
        memory.wf(),
    ensures
        match r {
            Ok(classes) => classes.wf() && classes.true_data@ =~= Set::<int>::empty() && forall|p: int|
                classes.true_instructions@.contains(p) == ((exists|k: int|
                    0 <= k < functions@.len() && (#[trigger] functions@[k]).0 <= p < functions@[k].1) || (
                exists|k: int| 0 <= k < thunks@.len() && thunk_covers(memory@, #[trigger] thunks@[k], p))),
            Err(FunctionError::FunctionEndsEarly(at)) => at < functions@.len() && functions@[at as int].0
                > functions@[at as int].1 && forall|k: int|
                0 <= k < at ==> (#[trigger] functions@[k]).0 <= functions@[k].1,
            Err(FunctionError::ThunkNotInCode(at)) => at < thunks@.len() && (forall|k: int|
                0 <= k < functions@.len() ==> (#[trigger] functions@[k]).0 <= functions@[k].1) && forall|
                r: int,
            |
                0 <= r < memory@.len() ==> !((#[trigger] memory@[r]).holds(thunks@[at as int] as int)
                    && memory@[r].protection.execute),
        },
{
    let mut classes = AddressClasses::new();
    let ghost regions = memory@;
    let mut i: usize = 0;
    while i < functions.len()
        invariant
            0 <= i <= functions@.len(),
            classes.wf(),
            classes.true_data@ =~= Set::<int>::empty(),
            forall|k: int| 0 <= k < i ==> (#[trigger] functions@[k]).0 <= functions@[k].1,
            forall|p: int|
                classes.true_instructions@.contains(p) == (exists|k: int|
                    0 <= k < i && (#[trigger] functions@[k]).0 <= p < functions@[k].1),
        decreases functions@.len() - i,
    {
        let (start, end) = functions[i];
        if start > end {
            return Err(FunctionError::FunctionEndsEarly(i));
        }
        let ghost before = classes.true_instructions@;
        classes.true_instructions.push(Interval::from_start_and_end(start, end));
        proof {
            assert forall|p: int|
                classes.true_instructions@.contains(p) == (exists|k: int|
                    0 <= k < i + 1 && (#[trigger] functions@[k]).0 <= p < functions@[k].1) by {
                assert(classes.true_instructions@.contains(p) == (before.contains(p) || start <= p < end));
                if before.contains(p) {
                    let k = choose|k: int| 0 <= k < i && (#[trigger] functions@[k]).0 <= p < functions@[k].1;
                    assert(0 <= k < i + 1);
                }
                if start <= p < end {
                    assert(functions@[i as int].0 <= p < functions@[i as int].1);
                }
            }
        }
        i += 1;
    }
    let mut t: usize = 0;
    while t < thunks.len()
        invariant
            0 <= t <= thunks@.len(),
            classes.wf(),
            memory.wf(),
            regions == memory@,
            classes.true_data@ =~= Set::<int>::empty(),
            forall|k: int| 0 <= k < functions@.len() ==> (#[trigger] functions@[k]).0 <= functions@[k].1,
            forall|p: int|
                classes.true_instructions@.contains(p) == ((exists|k: int|
                    0 <= k < functions@.len() && (#[trigger] functions@[k]).0 <= p < functions@[k].1) || (
                exists|k: int| 0 <= k < t && thunk_covers(regions, #[trigger] thunks@[k], p))),
        decreases thunks@.len() - t,
    {
        let thunk = thunks[t];
        let found = match memory.executable_region_at(thunk) {
            Some(found) => found,
            None => {
                return Err(FunctionError::ThunkNotInCode(t));
            },
        };
        let region = &memory.regions()[found];
        proof {
            assert(regions[found as int].wf());
        }
        let from: usize = (thunk - region.addr) as usize;
        let bytes = vstd::slice::slice_subrange(region.data.as_slice(), from, region.data.len());
        // Of a thunk only the start is known: it is taken for the one instruction found there.
        let instr = decode_at(bytes, 0, thunk);
        let ghost before = classes.true_instructions@;
        let len = instr.len as u32;
        classes.true_instructions.push(Interval::from_start_and_len(thunk, len));
        proof {
            assert(bytes@ == bytes_from(regions[found as int], thunk as int));
            assert forall|p: int| thunk_covers(regions, thunk, p) == (thunk <= p < thunk + len) by {
                if thunk_covers(regions, thunk, p) {
                    let r = choose|r: int|
                        0 <= r < regions.len() && (#[trigger] regions[r]).protection.execute
                            && regions[r].holds(thunk as int) && thunk <= p < thunk + decoded_at(
                            bytes_from(regions[r], thunk as int),
                            0,
                            thunk,
                        ).len;
                    if r < found {
                        assert(regions[r].spec_end() <= regions[found as int].addr);
                    }
                    if found < r {
                        assert(regions[found as int].spec_end() <= regions[r].addr);
                    }
                }
                if thunk <= p < thunk + len {
                    assert(regions[found as int].protection.execute);
                }
            }
            assert forall|p: int|
                classes.true_instructions@.contains(p) == ((exists|k: int|
                    0 <= k < functions@.len() && (#[trigger] functions@[k]).0 <= p < functions@[k].1) || (
                exists|k: int| 0 <= k < t + 1 && thunk_covers(regions, #[trigger] thunks@[k], p))) by {
                assert(classes.true_instructions@.contains(p) == (before.contains(p) || thunk <= p < thunk
                    + len));
                if exists|k: int| 0 <= k < t && thunk_covers(regions, #[trigger] thunks@[k], p) {
                    let k = choose|k: int| 0 <= k < t && thunk_covers(regions, #[trigger] thunks@[k], p);
                    assert(0 <= k < t + 1);
                }
                if thunk <= p < thunk + len {
                    assert(thunk_covers(regions, thunks@[t as int], p));
                }
                if exists|k: int| 0 <= k < t + 1 && thunk_covers(regions, #[trigger] thunks@[k], p) {
                    let k = choose|k: int| 0 <= k < t + 1 && thunk_covers(regions, #[trigger] thunks@[k], p);
                    if k < t {
                    }
                }
            }
        }
        t += 1;
    }
    Ok(classes)
}

/// Why the ranges of debug information give no classes.
#[derive(Copy, Clone, Debug, PartialEq, Eq, Structural)]
pub enum RangeError {
    /// The stretch of instructions at this place reaches past the highest
    /// address.
    OutOfRange(usize),
    /// The classes cannot be moved to the base address: an address would be
    /// above the highest.
    Relocation,
}

/// Whether `start` is the first start of a stretch at or after `address`.
pub open spec fn is_next_start(ranges: Seq<(u32, u32)>, address: u32, start: u32) -> bool {
    &&& start >= address
    &&& exists|k: int| 0 <= k < ranges.len() && (#[trigger] ranges[k]).0 == start
    &&& forall|k: int| 0 <= k < ranges.len() && (#[trigger] ranges[k]).0 >= address ==> start <= ranges[k].0
}

/// Whether `p` is data: it lies between one of the first `upto` data
/// locations and the first start of a stretch of instructions at or after
/// that location.
pub open spec fn data_covers(ranges: Seq<(u32, u32)>, data: Seq<u32>, upto: int, p: int) -> bool {
    exists|k: int, start: u32|
        0 <= k < upto && #[trigger] is_next_start(ranges, data[k], start) && data[k] <= p < start
}

/// The classes that debug information gives: each stretch of instructions,
/// given by its start and its length, is instructions; data reaches from
/// each data location to the next stretch of instructions; all of it moved
/// up by the base address.
pub fn classes_from_ranges(base_addr: u32, instruction_ranges: &Vec<(u32, u32)>, data_locations: &Vec<u32>) -> (r:
    Result<AddressClasses, RangeError>)
    ensures
        match r {
            Ok(classes) => classes.wf() && (forall|p: int|
                classes.true_data@.contains(p) == data_covers(
                    instruction_ranges@,
                    data_locations@,
                    data_locations@.len() as int,
                    p - base_addr,
                )) && forall|p: int|
                classes.true_instructions@.contains(p) == range_points(
                    instruction_ranges@,
                    instruction_ranges@.len() as int,
                ).contains(p - base_addr),
            Err(RangeError::OutOfRange(at)) => at < instruction_ranges@.len() && instruction_ranges@[at as int].0
                + instruction_ranges@[at as int].1 > u32::MAX && forall|k: int|
                0 <= k < at ==> (#[trigger] instruction_ranges@[k]).0 + instruction_ranges@[k].1 <= u32::MAX,
            Err(RangeError::Relocation) => forall|k: int|
                0 <= k < instruction_ranges@.len() ==> (#[trigger] instruction_ranges@[k]).0
                    + instruction_ranges@[k].1 <= u32::MAX,
        },
{
    let ghost ranges = instruction_ranges@;
    let count = instruction_ranges.len();
    let mut keys: Vec<(u64, u64)> = Vec::new();
    let mut i: usize = 0;
    while i < count
        invariant
            0 <= i <= count,
            count == ranges.len(),
            ranges == instruction_ranges@,
            keys@.len() == i,
            forall|k: int| 0 <= k < i ==> (#[trigger] keys@[k]) == (ranges[k].0 as u64, 0u64),
        decreases count - i,
    {
        keys.push((instruction_ranges[i].0 as u64, 0));
        i += 1;
    }
    let order = stable_sort_order(&keys);
    let mut starts: Vec<u32> = Vec::new();
    let mut i: usize = 0;
    while i < count
        invariant
            0 <= i <= count,
            count == ranges.len(),
            count == order@.len(),
            ranges == instruction_ranges@,
            is_stable_order(keys@, order@),
            keys@.len() == count,
            starts@.len() == i,
            forall|k: int| 0 <= k < i ==> (#[trigger] starts@[k]) == ranges[order@[k] as int].0,
        decreases count - i,
    {
        assert(order@[i as int] < keys@.len());
        starts.push(instruction_ranges[order[i]].0);
        i += 1;
    }
    proof {
        assert forall|a: int, b: int| 0 <= a < b < count implies (#[trigger] starts@[a]) <= (#[trigger] starts@[b]) by {
            let x = order@[a] as int;
            let y = order@[b] as int;
            assert(key_before(keys@[x], keys@[y]) || keys@[x] == keys@[y]);
        }
        assert forall|k: int| 0 <= k < count implies starts@.contains((#[trigger] ranges[k]).0) by {
            lemma_order_covers(keys@, order@, k);
            let j = choose|j: int| 0 <= j < order@.len() && order@[j] == k;
            assert(starts@[j] == ranges[k].0);
        }
        assert forall|j: int| 0 <= j < count implies starts_of(ranges).contains(#[trigger] starts@[j]) by {
            assert(starts_of(ranges)[order@[j] as int] == starts@[j]);
        }
    }
    let mut classes = AddressClasses::new();
    let mut d: usize = 0;
    while d < data_locations.len()
        invariant
            0 <= d <= data_locations@.len(),
            count == ranges.len(),
            starts@.len() == count,
            classes.wf(),
            classes.true_instructions@ =~= Set::<int>::empty(),
            forall|a: int, b: int| 0 <= a < b < count ==> (#[trigger] starts@[a]) <= (#[trigger] starts@[b]),
            forall|k: int| 0 <= k < count ==> starts@.contains((#[trigger] ranges[k]).0),
            forall|j: int| 0 <= j < count ==> starts_of(ranges).contains(#[trigger] starts@[j]),
            forall|p: int| classes.true_data@.contains(p) == data_covers(ranges, data_locations@, d as int, p),
        decreases data_locations@.len() - d,
    {
        let addr = data_locations[d];
        // Find the first stretch of instructions at or after the location.
        let mut lo: usize = 0;
        let mut hi: usize = count;
        while lo < hi
            invariant
                0 <= lo <= hi <= count,
                starts@.len() == count,
                forall|a: int, b: int| 0 <= a < b < count ==> (#[trigger] starts@[a]) <= (#[trigger] starts@[b]),
                forall|j: int| 0 <= j < lo ==> (#[trigger] starts@[j]) < addr,
                forall|j: int| hi <= j < count ==> (#[trigger] starts@[j]) >= addr,
            decreases hi - lo,
        {
            let mid = lo + (hi - lo) / 2;
            if starts[mid] < addr {
                assert forall|j: int| 0 <= j < mid + 1 implies (#[trigger] starts@[j]) < addr by {
                    if j < mid {
                        assert(starts@[j] <= starts@[mid as int]);
                    }
                }
                lo = mid + 1;
            } else {
                assert forall|j: int| mid <= j < count implies (#[trigger] starts@[j]) >= addr by {
                    if j > mid {
                        assert(starts@[mid as int] <= starts@[j]);
                    }
                }
                hi = mid;
            }
        }
        let ghost before = classes.true_data@;
        if lo < count {
            let next_instr = starts[lo];
            proof {
                assert(is_next_start(ranges, addr, next_instr)) by {
                    assert(starts_of(ranges).contains(starts@[lo as int]));
                    let k = choose|k: int| 0 <= k < count && starts_of(ranges)[k] == starts@[lo as int];
                    assert(ranges[k].0 == next_instr);
                    assert forall|k: int| 0 <= k < ranges.len() && (#[trigger] ranges[k]).0 >= addr implies next_instr
                        <= ranges[k].0 by {
                        assert(starts@.contains(ranges[k].0));
                        let j = choose|j: int| 0 <= j < count && starts@[j] == ranges[k].0;
                        if j < lo {
                            assert(starts@[j] < addr);
                        } else if j > lo {
                            assert(starts@[lo as int] <= starts@[j]);
                        }
                    }
                }
            }
            classes.true_data.push(Interval::from_start_and_end(addr, next_instr));
            proof {
                assert forall|p: int|
                    classes.true_data@.contains(p) == data_covers(ranges, data_locations@, d + 1, p) by {
                    assert(classes.true_data@.contains(p) == (before.contains(p) || addr <= p < next_instr));
                    if before.contains(p) {
                        let (k, s) = choose|k: int, s: u32|
                            0 <= k < d && #[trigger] is_next_start(ranges, data_locations@[k], s)
                                && data_locations@[k] <= p < s;
                        assert(0 <= k < d + 1 && is_next_start(ranges, data_locations@[k], s));
                    }
                    if addr <= p < next_instr {
                        assert(is_next_start(ranges, data_locations@[d as int], next_instr));
                    }
                    if data_covers(ranges, data_locations@, d + 1, p) {
                        let (k, s) = choose|k: int, s: u32|
                            0 <= k < d + 1 && #[trigger] is_next_start(ranges, data_locations@[k], s)
                                && data_locations@[k] <= p < s;
                        if k == d {
                            lemma_next_start_unique(ranges, addr, s, next_instr);
                        } else {
                            assert(is_next_start(ranges, data_locations@[k], s) && 0 <= k < d);
                        }
                    }
                }
            }
        } else {
            proof {
                assert forall|p: int|
                    classes.true_data@.contains(p) == data_covers(ranges, data_locations@, d + 1, p) by {
                    if before.contains(p) {
                        let (k, s) = choose|k: int, s: u32|
                            0 <= k < d && #[trigger] is_next_start(ranges, data_locations@[k], s)
                                && data_locations@[k] <= p < s;
                        assert(0 <= k < d + 1 && is_next_start(ranges, data_locations@[k], s));
                    }
                    if data_covers(ranges, data_locations@, d + 1, p) {
                        let (k, s) = choose|k: int, s: u32|
                            0 <= k < d + 1 && #[trigger] is_next_start(ranges, data_locations@[k], s)
                                && data_locations@[k] <= p < s;
                        if k == d {
                            let m = choose|m: int| 0 <= m < ranges.len() && (#[trigger] ranges[m]).0 == s;
                            assert(starts@.contains(ranges[m].0));
                            let j = choose|j: int| 0 <= j < count && starts@[j] == ranges[m].0;
                            assert(starts@[j] < addr);
                        } else {
                            assert(is_next_start(ranges, data_locations@[k], s) && 0 <= k < d);
                        }
                    }
                }
            }
        }
        d += 1;
    }
    let ghost data = classes.true_data@;
    if let Some(at) = push_ranges(&mut classes.true_instructions, instruction_ranges) {
        return Err(RangeError::OutOfRange(at));
    }
    let ghost instructions = classes.true_instructions@;
    let fits_data = match classes.true_data.last_end() {
        Some(end) => end <= u32::MAX - base_addr,
        None => true,
    };
    let fits_instructions = match classes.true_instructions.last_end() {
        Some(end) => end <= u32::MAX - base_addr,
        None => true,
    };
    if !(fits_data && fits_instructions) {
        return Err(RangeError::Relocation);
    }
    classes.relocate(base_addr);
    proof {
        assert forall|p: int|
            classes.true_data@.contains(p) == data_covers(
                ranges,
                data_locations@,
                data_locations@.len() as int,
                p - base_addr,
            ) by {
            assert(classes.true_data@.contains(p) == data.contains(p - base_addr));
        }
        assert forall|p: int|
            classes.true_instructions@.contains(p) == range_points(ranges, ranges.len() as int).contains(
                p - base_addr,
            ) by {
            assert(classes.true_instructions@.contains(p) == instructions.contains(p - base_addr));
        }
    }
    Ok(classes)
}

/// The starts of the stretches.
pub open spec fn starts_of(ranges: Seq<(u32, u32)>) -> Seq<u32> {
    Seq::new(ranges.len(), |k: int| ranges[k].0)
}

/// An address has one next start only.
pub proof fn lemma_next_start_unique(ranges: Seq<(u32, u32)>, address: u32, a: u32, b: u32)
    requires
        is_next_start(ranges, address, a),
        is_next_start(ranges, address, b),
    ensures
        a == b,
{
    let k = choose|k: int| 0 <= k < ranges.len() && (#[trigger] ranges[k]).0 == a;
    let m = choose|m: int| 0 <= m < ranges.len() && (#[trigger] ranges[m]).0 == b;
    assert(b <= ranges[k].0);
    assert(a <= ranges[m].0);
}

} // verus!
