//! Reading the listing that IDA writes: which addresses it took for
//! instructions.
//!
//! A line of the listing that counts holds a segment name, a colon and an
//! address in capital hexadecimal digits; then, after a space, the bytes at
//! that address, two digits each, and what the bytes are.

use vstd::prelude::*;
use vstd::slice::slice_subrange;
use std::collections::BTreeSet;
use crate::numbers::{number_value, parse_u32};
use crate::lines::{lines_of, split_lines};

verus! {

/// A class of bytes.
#[derive(Copy, Clone, Debug, PartialEq, Eq, Structural)]
pub enum ByteClass {
    /// A letter, a digit or an underscore.
    Word,
    /// A digit, or a capital letter from `A` to `F`.
    Hex,
    /// A space or a plus sign.
    Gap,
    /// Anything but a space.
    NoSpace,
}

/// Whether the byte belongs to the class.
pub open spec fn in_class(class: ByteClass, b: u8) -> bool {
    match class {
        ByteClass::Word => (48 <= b <= 57) || (65 <= b <= 90) || (97 <= b <= 122) || b == 95,
        ByteClass::Hex => (48 <= b <= 57) || (65 <= b <= 70),
        ByteClass::Gap => b == 32 || b == 43,
        ByteClass::NoSpace => b != 32,
    }
}

/// Where the run of bytes of a class that begins at `from` ends.
pub open spec fn run_end(line: Seq<u8>, from: int, class: ByteClass) -> int
    decreases line.len() - from,
{
    if from < 0 || from >= line.len() || !in_class(class, line[from]) {
        from
    } else {
        run_end(line, from + 1, class)
    }
}

/// Where the address of the first match in `line` from `from` on begins:
/// after the first run of word bytes that a colon and a hexadecimal digit
/// follow.
pub open spec fn address_start(line: Seq<u8>, from: int) -> Option<int>
    decreases line.len() - from,
{
    if from < 0 || from >= line.len() {
        None
    } else if !in_class(ByteClass::Word, line[from]) {
        address_start(line, from + 1)
    } else {
        let end = run_end(line, from + 1, ByteClass::Word);
        if end + 1 < line.len() && line[end] == 58 && in_class(ByteClass::Hex, line[end + 1]) {
            Some(end + 1)
        } else {
            proof {
                lemma_run_end_bounds(line, from + 1, ByteClass::Word);
            }
            address_start(line, end)
        }
    }
}

/// Where the bytes of the listing end that begin at `from`: each is two
/// hexadecimal digits, and spaces or plus signs follow it.
pub open spec fn bytes_end(line: Seq<u8>, from: int) -> int
    decreases line.len() - from,
{
    if 0 <= from && from + 2 < line.len() && in_class(ByteClass::Hex, line[from]) && in_class(
        ByteClass::Hex,
        line[from + 1],
    ) && in_class(ByteClass::Gap, line[from + 2]) {
        proof {
            lemma_run_end_bounds(line, from + 3, ByteClass::Gap);
        }
        bytes_end(line, run_end(line, from + 3, ByteClass::Gap))
    } else {
        from
    }
}

/// What a line of the listing holds: where its address begins and ends, and
/// where its content begins, if it has content.
pub open spec fn listing_line(line: Seq<u8>) -> Option<(int, int, Option<int>)> {
    match address_start(line, 0) {
        None => None,
        Some(start) => {
            let end = run_end(line, start, ByteClass::Hex);
            if end < line.len() && line[end] == 32 && bytes_end(line, end + 1) > end + 1 {
                Some((start, end, Some(bytes_end(line, end + 1))))
            } else {
                Some((start, end, None))
            }
        },
    }
}

/// Whether a word of the content says that data stands at the address.
pub open spec fn is_data_word(word: Seq<u8>) -> bool {
    word == seq![100u8, 98u8] || word == seq![100u8, 119u8] || word == seq![100u8, 100u8] || word
        == seq![100u8, 113u8] || word == seq![97u8, 108u8, 105u8, 103u8, 110u8]
}

/// The words with which a string of 16-bit characters is listed.
pub open spec fn utf16_prefix() -> Seq<u8> {
    seq![116u8, 101u8, 120u8, 116u8, 32u8, 34u8, 85u8, 84u8, 70u8, 45u8, 49u8, 54u8, 76u8, 69u8, 34u8]
}

/// Whether the content of a line says that data stands at the address: one
/// of its first two words, as spaces part them, is `db`, `dw`, `dd`, `dq` or
/// `align`, or it begins with `text "UTF-16LE"`.
pub open spec fn looks_like_data(content: Seq<u8>) -> bool {
    let first_end = run_end(content, 0, ByteClass::NoSpace);
    let second_end = run_end(content, first_end + 1, ByteClass::NoSpace);
    ||| is_data_word(content.subrange(0, first_end))
    ||| first_end < content.len() && is_data_word(content.subrange(first_end + 1, second_end))
    ||| content.len() >= 15 && content.subrange(0, 15) == utf16_prefix()
}

/// Why a listing could not be read.
#[derive(Copy, Clone, Debug, PartialEq, Eq, Structural)]
pub enum ListingError {
    /// The address on the line with this number, counted from zero, does not
    /// fit 32 bits.
    AddressTooLarge(usize),
}

/// What is known after a part of the listing was read.
pub struct ListingState {
    /// The address of the last line that had content.
    pub previous: u32,
    /// The addresses that were taken for instructions.
    pub instructions: Set<u32>,
}

/// What is known after the first `upto` lines; `None` where one of them holds
/// an address that does not fit.
pub open spec fn listing_state(lines: Seq<Seq<u8>>, upto: int) -> Option<ListingState>
    decreases upto,
{
    if upto <= 0 {
        Some(ListingState { previous: 0, instructions: Set::empty() })
    } else {
        match listing_state(lines, upto - 1) {
            None => None,
            Some(state) => {
                let line = lines[upto - 1];
                match listing_line(line) {
                    None => Some(state),
                    Some((start, end, content)) => match number_value(line.subrange(start, end), 16) {
                        None => None,
                        Some(address) => if state.previous == address {
                            Some(state)
                        } else {
                            match content {
                                None => Some(state),
                                Some(at) => Some(
                                    ListingState {
                                        previous: address,
                                        instructions: if looks_like_data(
                                            line.subrange(at, line.len() as int),
                                        ) {
                                            state.instructions
                                        } else {
                                            state.instructions.insert(address)
                                        },
                                    },
                                ),
                            }
                        },
                    },
                }
            },
        }
    }
}

/// Whether the byte belongs to the class.
fn class_has(class: ByteClass, b: u8) -> (r: bool)
    ensures
        r == in_class(class, b),
{
    match class {
        ByteClass::Word => (48 <= b && b <= 57) || (65 <= b && b <= 90) || (97 <= b && b <= 122) || b
            == 95,
        ByteClass::Hex => (48 <= b && b <= 57) || (65 <= b && b <= 70),
        ByteClass::Gap => b == 32 || b == 43,
        ByteClass::NoSpace => b != 32,
    }
}

/// Where the run of bytes of a class that begins at `from` ends.
fn scan(line: &[u8], from: usize, class: ByteClass) -> (r: usize)
    ensures
        r == run_end(line@, from as int, class),
        from <= r,
        r <= line@.len() || r == from,
{
    let mut at: usize = from;
    while at < line.len() && class_has(class, line[at])
        invariant
            from <= at,
            at <= line@.len() || at == from,
            run_end(line@, from as int, class) == run_end(line@, at as int, class),
        decreases line@.len() - at,
    {
        at += 1;
    }
    at
}

/// What a line of the listing holds, see [`listing_line`].
pub fn parse_listing_line(line: &[u8]) -> (r: Option<(usize, usize, Option<usize>)>)
    ensures
        match r {
            Some((start, end, content)) => listing_line(line@) == Some(
                (
                    start as int,
                    end as int,
                    match content {
                        Some(at) => Some(at as int),
                        None => None,
                    },
                ),
            ) && start < end <= line@.len() && (content matches Some(at) ==> end < at <= line@.len()),
            None => listing_line(line@).is_none(),
        },
{
    let len = line.len();
    let mut from: usize = 0;
    let mut found: Option<usize> = None;
    while from < len
        invariant_except_break
            found.is_none(),
            address_start(line@, 0) == address_start(line@, from as int),
        invariant
            0 <= from <= len,
            len == line@.len(),
        ensures
            match found {
                Some(start) => address_start(line@, 0) == Some(start as int) && 0 < start < len
                    && in_class(ByteClass::Hex, line@[start as int]),
                None => address_start(line@, 0).is_none(),
            },
        decreases len - from,
    {
        if !class_has(ByteClass::Word, line[from]) {
            from += 1;
        } else {
            let end = scan(line, from + 1, ByteClass::Word);
            if end < len && len - end > 1 && line[end] == 58 && class_has(ByteClass::Hex, line[end + 1]) {
                found = Some(end + 1);
                break ;
            }
            from = end;
        }
    }
    let start = match found {
        Some(start) => start,
        None => {
            return None;
        },
    };
    let end = scan(line, start, ByteClass::Hex);
    assert(end > start) by {
        assert(run_end(line@, start as int, ByteClass::Hex) == run_end(line@, start + 1, ByteClass::Hex));
        lemma_run_end_bounds(line@, start + 1, ByteClass::Hex);
    }
    if !(end < len && line[end] == 32) {
        return Some((start, end, None));
    }
    let mut at: usize = end + 1;
    while len - at > 2 && class_has(ByteClass::Hex, line[at]) && class_has(ByteClass::Hex, line[at + 1])
        && class_has(ByteClass::Gap, line[at + 2])
        invariant
            end < at <= len,
            len == line@.len(),
            len >= 1,
            bytes_end(line@, end + 1) == bytes_end(line@, at as int),
            at == end + 1 || bytes_end(line@, end + 1) > end + 1,
        decreases len - at,
    {
        let next = scan(line, at + 3, ByteClass::Gap);
        proof {
            lemma_bytes_end_grows(line@, next as int);
        }
        at = next;
    }
    proof {
        lemma_bytes_end_grows(line@, at as int);
    }
    if at > end + 1 {
        Some((start, end, Some(at)))
    } else {
        Some((start, end, None))
    }
}

proof fn lemma_bytes_end_grows(line: Seq<u8>, from: int)
    requires
        0 <= from <= line.len(),
    ensures
        from <= bytes_end(line, from) <= line.len(),
    decreases line.len() - from,
{
    if from + 2 < line.len() && in_class(ByteClass::Hex, line[from]) && in_class(
        ByteClass::Hex,
        line[from + 1],
    ) && in_class(ByteClass::Gap, line[from + 2]) {
        lemma_run_end_bounds(line, from + 3, ByteClass::Gap);
        lemma_bytes_end_grows(line, run_end(line, from + 3, ByteClass::Gap));
    }
}

/// A run ends at or after its beginning, and inside the line.
pub proof fn lemma_run_end_bounds(line: Seq<u8>, from: int, class: ByteClass)
    requires
        0 <= from <= line.len(),
    ensures
        from <= run_end(line, from, class) <= line.len(),
    decreases line.len() - from,
{
    if from < line.len() && in_class(class, line[from]) {
        lemma_run_end_bounds(line, from + 1, class);
    }
}

/// Whether the word is one that says that data stands at the address.
fn check_data_word(word: &[u8]) -> (r: bool)
    ensures
        r == is_data_word(word@),
{
    let two = word.len() == 2 && word[0] == 100 && (word[1] == 98 || word[1] == 119 || word[1] == 100
        || word[1] == 113);
    let align = word.len() == 5 && word[0] == 97 && word[1] == 108 && word[2] == 105 && word[3] == 103
        && word[4] == 110;
    proof {
        if two {
            assert(word@ =~= seq![100u8, word@[1]]);
        }
        if align {
            assert(word@ =~= seq![97u8, 108u8, 105u8, 103u8, 110u8]);
        }
        if is_data_word(word@) {
            assert(word@.len() == 2 || word@.len() == 5);
            if word@.len() == 2 {
                assert(word@[0] == 100);
            } else {
                assert(word@[0] == 97 && word@[1] == 108 && word@[2] == 105 && word@[3] == 103 && word@[4]
                    == 110);
            }
        }
    }
    two || align
}

/// Whether the content of a line says that data stands at the address, see
/// [`looks_like_data`].
pub fn check_looks_like_data(content: &[u8]) -> (r: bool)
    ensures
        r == looks_like_data(content@),
{
    let len = content.len();
    let first_end = scan(content, 0, ByteClass::NoSpace);
    proof {
        lemma_run_end_bounds(content@, 0, ByteClass::NoSpace);
    }
    if check_data_word(slice_subrange(content, 0, first_end)) {
        return true;
    }
    if first_end < len {
        let second_end = scan(content, first_end + 1, ByteClass::NoSpace);
        proof {
            lemma_run_end_bounds(content@, first_end + 1, ByteClass::NoSpace);
        }
        if check_data_word(slice_subrange(content, first_end + 1, second_end)) {
            return true;
        }
    }
    if len < 15 {
        return false;
    }
    let head = slice_subrange(content, 0, 15);
    let r = head[0] == 116 && head[1] == 101 && head[2] == 120 && head[3] == 116 && head[4] == 32
        && head[5] == 34 && head[6] == 85 && head[7] == 84 && head[8] == 70 && head[9] == 45 && head[10]
        == 49 && head[11] == 54 && head[12] == 76 && head[13] == 69 && head[14] == 34;
    proof {
        if r {
            assert(head@ =~= utf16_prefix());
        }
    }
    r
}

/// The addresses that the listing takes for instructions: those of the
/// lines whose content does not look like data. A line with the address of
/// the line before it that had content does not count.
pub fn parse_lst(lst: &[u8]) -> (r: Result<BTreeSet<u32>, ListingError>)
    ensures
        match r {
            Ok(addresses) => listing_state(split_lines(lst@), split_lines(lst@).len() as int) matches Some(
                state,
            ) && addresses@ =~= state.instructions,
            Err(ListingError::AddressTooLarge(at)) => at < split_lines(lst@).len() && listing_state(
                split_lines(lst@),
                at as int,
            ) is Some && listing_state(split_lines(lst@), at + 1).is_none(),
        },
{
    broadcast use vstd::std_specs::btree::group_btree_axioms;

    let lines = lines_of(lst);
    let ghost spec_lines = split_lines(lst@);
    let mut result: BTreeSet<u32> = BTreeSet::new();
    let mut prev_processed_addr: u32 = 0;
    let mut i: usize = 0;
    while i < lines.len()
        invariant
            0 <= i <= lines@.len(),
            lines@.len() == spec_lines.len(),
            spec_lines == split_lines(lst@),
            forall|j: int| 0 <= j < lines@.len() ==> (#[trigger] lines@[j])@ == spec_lines[j],
            listing_state(spec_lines, i as int) matches Some(state) && state.previous
                == prev_processed_addr && result@ =~= state.instructions,
        decreases lines@.len() - i,
    {
        let line = lines[i].as_slice();
        if let Some((start, end, content)) = parse_listing_line(line) {
            let addr = match parse_u32(slice_subrange(line, start, end), true) {
                Some(addr) => addr,
                None => {
                    return Err(ListingError::AddressTooLarge(i));
                },
            };
            if prev_processed_addr != addr {
                if let Some(at) = content {
                    let looks_like_data = check_looks_like_data(slice_subrange(line, at, line.len()));
                    prev_processed_addr = addr;
                    if !looks_like_data {
                        result.insert(addr);
                    }
                }
            }
        }
        i += 1;
    }
    Ok(result)
}

} // verus!
