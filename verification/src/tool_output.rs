//! Reading what the disassembly tools print: one number on each line that
//! counts.

use vstd::prelude::*;
use vstd::slice::slice_subrange;
use std::collections::BTreeSet;
use crate::address_index::Entry;
use crate::numbers::{number_value, parse_u32, trim, trimmed};
use crate::superset::SupersetSample;
use crate::lines::{lines_of, split_lines};

verus! {

/// How the lines of a tool's output are read.
#[derive(Copy, Clone, Debug, PartialEq, Eq, Structural)]
pub enum OutputKind {
    /// Addresses in base sixteen, each after `0x`; other lines do not count.
    HexAddresses,
    /// Positions in base ten; blank lines do not count.
    Positions,
}

/// Why the output of a tool could not be read.
#[derive(Copy, Clone, Debug, PartialEq, Eq, Structural)]
pub enum ToolOutputError {
    /// The line with this number, counted from zero, holds no number that
    /// fits 32 bits.
    BadNumber(usize),
    /// The line with this number, counted from zero, names a position that
    /// the superset does not have.
    NoSuchPosition(usize),
}

/// What a line of output says: nothing (`None`), a number, or something that
/// should be a number and is none (`Some(None)`).
pub open spec fn line_number(line: Seq<u8>, kind: OutputKind) -> Option<Option<u32>> {
    let text = trimmed(line);
    match kind {
        OutputKind::HexAddresses => if text.len() >= 2 && text[0] == 48 && text[1] == 120 {
            Some(number_value(text.subrange(2, text.len() as int), 16))
        } else {
            None
        },
        OutputKind::Positions => if text.len() == 0 {
            None
        } else {
            Some(number_value(text, 10))
        },
    }
}

/// The numbers that the first `upto` lines hold, in order.
pub open spec fn numbers_of(lines: Seq<Seq<u8>>, kind: OutputKind, upto: int) -> Seq<u32>
    decreases upto,
{
    if upto <= 0 {
        Seq::empty()
    } else {
        match line_number(lines[upto - 1], kind) {
            Some(Some(number)) => numbers_of(lines, kind, upto - 1).push(number),
            _ => numbers_of(lines, kind, upto - 1),
        }
    }
}

/// Whether line `at` is the first that should hold a number and holds none.
pub open spec fn is_first_bad_line(lines: Seq<Seq<u8>>, kind: OutputKind, at: int) -> bool {
    &&& 0 <= at < lines.len()
    &&& line_number(lines[at], kind) == Some(None::<u32>)
    &&& forall|j: int| 0 <= j < at ==> line_number(#[trigger] lines[j], kind) != Some(None::<u32>)
}

/// What one line says.
fn read_line(line: &[u8], kind: OutputKind) -> (r: Option<Option<u32>>)
    ensures
        r == line_number(line@, kind),
{
    let (start, end) = trim(line);
    let text = slice_subrange(line, start, end);
    match kind {
        OutputKind::HexAddresses => {
            if text.len() >= 2 && text[0] == 48 && text[1] == 120 {
                Some(parse_u32(slice_subrange(text, 2, text.len()), true))
            } else {
                None
            }
        },
        OutputKind::Positions => {
            if text.len() == 0 {
                None
            } else {
                Some(parse_u32(text, false))
            }
        },
    }
}

/// The numbers that the lines of `output` hold, in order; or the number of
/// the first line that should hold a number and holds none.
pub fn read_numbers(output: &[u8], kind: OutputKind) -> (r: Result<Vec<u32>, ToolOutputError>)
    ensures
        match r {
            Ok(numbers) => numbers@ == numbers_of(
                split_lines(output@),
                kind,
                split_lines(output@).len() as int,
            ) && forall|j: int|
                0 <= j < split_lines(output@).len() ==> line_number(
                    #[trigger] split_lines(output@)[j],
                    kind,
                ) != Some(None::<u32>),
            Err(ToolOutputError::BadNumber(at)) => is_first_bad_line(split_lines(output@), kind, at as int),
            Err(ToolOutputError::NoSuchPosition(_)) => false,
        },
{
    let lines = lines_of(output);
    let ghost spec_lines = split_lines(output@);
    let mut numbers: Vec<u32> = Vec::new();
    let mut i: usize = 0;
    while i < lines.len()
        invariant
            0 <= i <= lines@.len(),
            lines@.len() == spec_lines.len(),
            spec_lines == split_lines(output@),
            forall|j: int| 0 <= j < lines@.len() ==> (#[trigger] lines@[j])@ == spec_lines[j],
            numbers@ == numbers_of(spec_lines, kind, i as int),
            forall|j: int| 0 <= j < i ==> line_number(#[trigger] spec_lines[j], kind) != Some(None::<u32>),
        decreases lines@.len() - i,
    {
        match read_line(lines[i].as_slice(), kind) {
            None => {},
            Some(None) => {
                assert(is_first_bad_line(spec_lines, kind, i as int));
                return Err(ToolOutputError::BadNumber(i));
            },
            Some(Some(number)) => {
                numbers.push(number);
            },
        }
        i += 1;
    }
    Ok(numbers)
}

/// The addresses that a tool names, one in base sixteen after `0x` on each
/// line that counts.
pub fn parse_addresses(output: &[u8]) -> (r: Result<BTreeSet<u32>, ToolOutputError>)
    ensures
        match r {
            Ok(addresses) => addresses@ =~= numbers_of(
                split_lines(output@),
                OutputKind::HexAddresses,
                split_lines(output@).len() as int,
            ).to_set(),
            Err(ToolOutputError::BadNumber(at)) => is_first_bad_line(
                split_lines(output@),
                OutputKind::HexAddresses,
                at as int,
            ),
            Err(ToolOutputError::NoSuchPosition(_)) => false,
        },
{
    broadcast use vstd::std_specs::btree::group_btree_axioms;

    let numbers = match read_numbers(output, OutputKind::HexAddresses) {
        Ok(numbers) => numbers,
        Err(e) => {
            return Err(e);
        },
    };
    let mut addresses: BTreeSet<u32> = BTreeSet::new();
    let mut i: usize = 0;
    while i < numbers.len()
        invariant
            0 <= i <= numbers@.len(),
            addresses@ =~= numbers@.subrange(0, i as int).to_set(),
        decreases numbers@.len() - i,
    {
        proof {
            lemma_to_set_push(numbers@, i as int);
        }
        addresses.insert(numbers[i]);
        i += 1;
    }
    assert(numbers@.subrange(0, i as int) =~= numbers@);
    Ok(addresses)
}

proof fn lemma_to_set_push<T>(items: Seq<T>, i: int)
    requires
        0 <= i < items.len(),
    ensures
        items.subrange(0, i + 1).to_set() =~= items.subrange(0, i).to_set().insert(items[i]),
{
    let before = items.subrange(0, i);
    let after = items.subrange(0, i + 1);
    assert forall|x: T| after.to_set().contains(x) <==> (before.to_set().contains(x) || x == items[i]) by {
        if before.to_set().contains(x) {
            let k = choose|k: int| 0 <= k < before.len() && before[k] == x;
            assert(after[k] == x);
        }
        if x == items[i] {
            assert(after[i] == x);
        }
        if after.to_set().contains(x) {
            let k = choose|k: int| 0 <= k < after.len() && after[k] == x;
            if k < i {
                assert(before[k] == x);
            }
        }
    }
}

/// The addresses of the entries of `superset` at `positions`, as far as
/// `upto`.
pub open spec fn addresses_at(superset: Seq<Entry>, positions: Seq<u32>, upto: int) -> Set<u32> {
    Set::new(|a: u32| exists|k: int| 0 <= k < upto && superset[(#[trigger] positions[k]) as int].0 == a)
}

/// The addresses of the candidates whose positions a tool names, one in base
/// ten on each line that is not blank.
pub fn parse_positions(output: &[u8], superset: &SupersetSample) -> (r: Result<
    BTreeSet<u32>,
    ToolOutputError,
>)
    ensures
        match r {
            Ok(addresses) => {
                let positions = numbers_of(
                    split_lines(output@),
                    OutputKind::Positions,
                    split_lines(output@).len() as int,
                );
                &&& forall|k: int| 0 <= k < positions.len() ==> (#[trigger] positions[k]) < superset.superset@.len()
                &&& addresses@ =~= addresses_at(superset.superset@, positions, positions.len() as int)
            },
            Err(ToolOutputError::BadNumber(at)) => is_first_bad_line(
                split_lines(output@),
                OutputKind::Positions,
                at as int,
            ),
            Err(ToolOutputError::NoSuchPosition(k)) => {
                let positions = numbers_of(
                    split_lines(output@),
                    OutputKind::Positions,
                    split_lines(output@).len() as int,
                );
                &&& forall|j: int|
                    0 <= j < split_lines(output@).len() ==> line_number(
                        #[trigger] split_lines(output@)[j],
                        OutputKind::Positions,
                    ) != Some(None::<u32>)
                &&& k < positions.len()
                &&& positions[k as int] >= superset.superset@.len()
                &&& forall|j: int| 0 <= j < k ==> (#[trigger] positions[j]) < superset.superset@.len()
            },
        },
{
    broadcast use vstd::std_specs::btree::group_btree_axioms;

    let positions = match read_numbers(output, OutputKind::Positions) {
        Ok(numbers) => numbers,
        Err(e) => {
            return Err(e);
        },
    };
    let ghost entries = superset.superset@;
    let mut addresses: BTreeSet<u32> = BTreeSet::new();
    let mut i: usize = 0;
    while i < positions.len()
        invariant
            0 <= i <= positions@.len(),
            entries == superset.superset@,
            positions@ == numbers_of(
                split_lines(output@),
                OutputKind::Positions,
                split_lines(output@).len() as int,
            ),
            forall|j: int|
                0 <= j < split_lines(output@).len() ==> line_number(
                    #[trigger] split_lines(output@)[j],
                    OutputKind::Positions,
                ) != Some(None::<u32>),
            forall|k: int| 0 <= k < i ==> (#[trigger] positions@[k]) < entries.len(),
            addresses@ =~= addresses_at(entries, positions@, i as int),
        decreases positions@.len() - i,
    {
        let position = positions[i] as usize;
        if position >= superset.superset.len() {
            return Err(ToolOutputError::NoSuchPosition(i));
        }
        let address = superset.superset[position].0;
        proof {
            assert forall|a: u32|
                addresses_at(entries, positions@, i + 1).contains(a) <==> (addresses_at(
                    entries,
                    positions@,
                    i as int,
                ).contains(a) || a == address) by {
                if addresses_at(entries, positions@, i as int).contains(a) {
                    let k = choose|k: int| 0 <= k < i && entries[(#[trigger] positions@[k]) as int].0 == a;
                    assert(0 <= k < i + 1);
                }
                if a == address {
                    assert(entries[positions@[i as int] as int].0 == a);
                }
            }
        }
        addresses.insert(address);
        i += 1;
    }
    Ok(addresses)
}

} // verus!
