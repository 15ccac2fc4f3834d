//! The vocabulary file: the lines `INVALID` and `UNKNOWN`, then the name of
//! each ranked operation code on a line of its own, in rank order.

use vstd::prelude::*;
use crate::lines::{is_line, lemma_line_end, lemma_line_end_in_range, lines_of, split_lines, strip_cr, NEWLINE, line_end};
use crate::opcode_names::{code_named, names_wf, OpcodeNames};
use crate::vocab::{CodeVocab, MAX_VOCAB_LEN};

verus! {

/// The first line of a vocabulary file.
pub open spec fn line_invalid() -> Seq<u8> {
    seq![73u8, 78u8, 86u8, 65u8, 76u8, 73u8, 68u8]
}

/// The second line of a vocabulary file.
pub open spec fn line_unknown() -> Seq<u8> {
    seq![85u8, 78u8, 75u8, 78u8, 79u8, 87u8, 78u8]
}

/// The text that holds each of `lines` on a line of its own.
pub open spec fn text_of(lines: Seq<Seq<u8>>) -> Seq<u8>
    decreases lines.len(),
{
    if lines.len() == 0 {
        Seq::empty()
    } else {
        text_of(lines.drop_last()) + lines.last() + seq![NEWLINE]
    }
}

/// The names of the operation codes `codes`, if each has one.
pub open spec fn names_of(names: Seq<Option<Seq<u8>>>, codes: Seq<u16>) -> Option<Seq<Seq<u8>>> {
    if forall|i: int| 0 <= i < codes.len() ==> (#[trigger] names[codes[i] as int]) is Some {
        Some(Seq::new(codes.len(), |i: int| names[codes[i] as int]->0))
    } else {
        None
    }
}

/// The text of the vocabulary file for the ranking `codes`, if each code
/// has a name.
pub open spec fn serialized(names: Seq<Option<Seq<u8>>>, codes: Seq<u16>) -> Option<Seq<u8>> {
    match names_of(names, codes) {
        Some(lines) => Some(text_of(seq![line_invalid(), line_unknown()] + lines)),
        None => None,
    }
}

/// Why a vocabulary could not be written or read.
#[derive(Copy, Clone, Debug, PartialEq, Eq, Structural)]
pub enum VocabTextError {
    /// The operation code at this rank has no name.
    UnnamedCode(usize),
    /// The text does not begin with the lines `INVALID` and `UNKNOWN`.
    MissingHeader,
    /// The line with this number, counted from zero, names no operation code.
    UnknownName(usize),
    /// The text names more operation codes than a vocabulary can rank.
    TooManyCodes,
}

/// The ranking that the lines of a vocabulary file give, or why they give
/// none.
pub open spec fn parsed_lines(names: Seq<Option<Seq<u8>>>, lines: Seq<Seq<u8>>) -> Result<
    Seq<u16>,
    VocabTextError,
> {
    if !(lines.len() >= 2 && lines[0] == line_invalid() && lines[1] == line_unknown()) {
        Err(VocabTextError::MissingHeader)
    } else if exists|i: int| 2 <= i < lines.len() && (#[trigger] code_named(names, lines[i])).is_none() {
        Err(VocabTextError::UnknownName(first_unknown(names, lines, 2) as usize))
    } else if lines.len() - 2 > MAX_VOCAB_LEN {
        Err(VocabTextError::TooManyCodes)
    } else {
        Ok(Seq::new((lines.len() - 2) as nat, |i: int| code_named(names, lines[i + 2])->0))
    }
}

/// The number of the first line from `from` on that names no operation code.
pub open spec fn first_unknown(names: Seq<Option<Seq<u8>>>, lines: Seq<Seq<u8>>, from: int) -> int
    decreases lines.len() - from,
{
    if from >= lines.len() {
        from
    } else if code_named(names, lines[from]).is_none() {
        from
    } else {
        first_unknown(names, lines, from + 1)
    }
}

/// The ranking that the text of a vocabulary file gives, or why it gives none.
pub open spec fn parsed(names: Seq<Option<Seq<u8>>>, text: Seq<u8>) -> Result<Seq<u16>, VocabTextError> {
    parsed_lines(names, split_lines(text))
}

/// Splitting a text that holds a line after lines of its own gives those
/// lines and then that line.
proof fn lemma_split_appended(text: Seq<u8>, line: Seq<u8>)
    requires
        text.len() == 0 || text.last() == NEWLINE,
        is_line(line),
    ensures
        split_lines(text + line + seq![NEWLINE]) =~= split_lines(text).push(line),
    decreases text.len(),
{
    let whole = text + line + seq![NEWLINE];
    if text.len() == 0 {
        assert(whole =~= line + seq![NEWLINE] + Seq::<u8>::empty());
        lemma_line_end(line, Seq::empty());
        assert(whole.subrange(0, line.len() as int) =~= line);
        assert(whole.subrange(line.len() as int + 1, whole.len() as int) =~= Seq::<u8>::empty());
        if line.len() > 0 {
            assert(line.last() == line[line.len() - 1]);
        }
        assert(strip_cr(line) == line);
        let tail = whole.subrange(line.len() as int + 1, whole.len() as int);
        assert(split_lines(tail) =~= Seq::<Seq<u8>>::empty());
        assert(split_lines(whole) =~= seq![line] + split_lines(tail));
        assert(split_lines(text) =~= Seq::<Seq<u8>>::empty());
    } else {
        lemma_line_end_in_range(text);
        let end = line_end(text);
        assert(end < text.len()) by {
            if end >= text.len() {
                assert(text[text.len() - 1] != NEWLINE);
            }
        }
        let first = text.subrange(0, end);
        let rest = text.subrange(end + 1, text.len() as int);
        assert(text =~= first + seq![NEWLINE] + rest);
        assert(whole =~= first + seq![NEWLINE] + (rest + line + seq![NEWLINE]));
        lemma_line_end(first, rest + line + seq![NEWLINE]);
        assert(whole.subrange(0, end) =~= first);
        assert(whole.subrange(end + 1, whole.len() as int) =~= rest + line + seq![NEWLINE]);
        assert(rest.len() == 0 || rest.last() == NEWLINE) by {
            if rest.len() > 0 {
                assert(rest.last() == text.last());
            }
        }
        lemma_split_appended(rest, line);
        let longer = rest + line + seq![NEWLINE];
        assert(split_lines(whole) =~= seq![strip_cr(first)] + split_lines(longer));
        assert(split_lines(text) =~= seq![strip_cr(first)] + split_lines(rest));
    }
}

/// Splitting the text that holds lines on lines of their own gives the lines
/// back.
pub proof fn lemma_split_text_of(lines: Seq<Seq<u8>>)
    requires
        forall|i: int| 0 <= i < lines.len() ==> is_line(#[trigger] lines[i]),
    ensures
        split_lines(text_of(lines)) =~= lines,
        text_of(lines).len() == 0 || text_of(lines).last() == NEWLINE,
    decreases lines.len(),
{
    if lines.len() > 0 {
        let shorter = lines.drop_last();
        assert forall|i: int| 0 <= i < shorter.len() implies is_line(#[trigger] shorter[i]) by {
            assert(shorter[i] == lines[i]);
        }
        lemma_split_text_of(shorter);
        lemma_split_appended(text_of(shorter), lines.last());
        assert(shorter.push(lines.last()) =~= lines);
    }
}

/// A name of a well-formed table names the operation code that bears it,
/// and no other.
pub proof fn lemma_code_named(names: Seq<Option<Seq<u8>>>, code: u16)
    requires
        names_wf(names),
        names[code as int] is Some,
    ensures
        code_named(names, names[code as int]->0) == Some(code),
{
    let name = names[code as int]->0;
    assert(names[code as int] == Some(name));
    let chosen = choose|c: int| 0 <= c < names.len() && c < 65536 && #[trigger] names[c] == Some(name);
    if chosen < code {
        assert(names[chosen] != names[code as int]);
    }
    if chosen > code {
        assert(names[code as int] != names[chosen]);
    }
}

proof fn lemma_first_unknown(names: Seq<Option<Seq<u8>>>, lines: Seq<Seq<u8>>, from: int)
    requires
        0 <= from <= lines.len(),
    ensures
        from <= first_unknown(names, lines, from) <= lines.len(),
        forall|i: int| from <= i < first_unknown(names, lines, from) ==> (#[trigger] code_named(
            names,
            lines[i],
        )) is Some,
        first_unknown(names, lines, from) < lines.len() ==> code_named(
            names,
            lines[first_unknown(names, lines, from)],
        ).is_none(),
    decreases lines.len() - from,
{
    if from < lines.len() && code_named(names, lines[from]) is Some {
        lemma_first_unknown(names, lines, from + 1);
    }
}

/// Reading what was written gives the ranking back: a vocabulary file that
/// holds the names of a ranking parses to that ranking.
pub proof fn law_vocab_round_trip(names: OpcodeNames, vocab: CodeVocab)
    requires
        names.wf(),
        vocab.wf(),
        serialized(names@, vocab@) is Some,
    ensures
        parsed(names@, serialized(names@, vocab@)->0) == Ok::<Seq<u16>, VocabTextError>(vocab@),
{
    let table = names@;
    let codes = vocab@;
    vocab.lemma_len();
    let named = names_of(table, codes)->0;
    let lines = seq![line_invalid(), line_unknown()] + named;
    assert forall|i: int| 0 <= i < lines.len() implies is_line(#[trigger] lines[i]) by {
        if i >= 2 {
            assert(lines[i] == named[i - 2]);
            assert(table[codes[i - 2] as int] is Some);
        }
    }
    lemma_split_text_of(lines);
    assert(split_lines(text_of(lines)) == lines);
    assert forall|i: int| 2 <= i < lines.len() implies (#[trigger] code_named(table, lines[i])) == Some(
        codes[i - 2],
    ) by {
        assert(lines[i] == named[i - 2]);
        assert(table[codes[i - 2] as int] is Some);
        lemma_code_named(table, codes[i - 2]);
    }
    assert(lines[0] == line_invalid());
    assert(lines[1] == line_unknown());
    let result = parsed_lines(table, lines);
    assert(result is Ok);
    assert(result->Ok_0 =~= codes) by {
        assert forall|i: int| 0 <= i < codes.len() implies result->Ok_0[i] == codes[i] by {
            assert(code_named(table, lines[i + 2]) == Some(codes[i]));
        }
    }
}

impl CodeVocab {
    /// The text of the vocabulary file. It cannot be written where a ranked
    /// operation code has no name.
    pub fn serialize_to(&self, names: &OpcodeNames) -> (r: Result<Vec<u8>, VocabTextError>)
        requires
            self.wf(),
            names.wf(),
        ensures
            match r {
                Ok(text) => serialized(names@, self@) == Some(text@),
                Err(e) => serialized(names@, self@).is_none() && exists|i: int|
                    0 <= i < self@.len() && e == VocabTextError::UnnamedCode(i as usize)
                        && names@[(#[trigger] self@[i]) as int].is_none() && forall|j: int|
                        0 <= j < i ==> (#[trigger] names@[self@[j] as int]) is Some,
            },
    {
        let mut text: Vec<u8> = Vec::new();
        text.push(73);
        text.push(78);
        text.push(86);
        text.push(65);
        text.push(76);
        text.push(73);
        text.push(68);
        text.push(NEWLINE);
        text.push(85);
        text.push(78);
        text.push(75);
        text.push(78);
        text.push(79);
        text.push(87);
        text.push(78);
        text.push(NEWLINE);
        let ghost head = seq![line_invalid(), line_unknown()];
        proof {
            let one = seq![line_invalid()];
            assert(one.drop_last() =~= Seq::<Seq<u8>>::empty());
            assert(text_of(one.drop_last()) =~= Seq::<u8>::empty());
            assert(text_of(one) =~= line_invalid() + seq![NEWLINE]);
            assert(head.drop_last() =~= one);
            assert(text@ =~= text_of(head));
        }
        let ghost mut written: Seq<Seq<u8>> = Seq::empty();
        let count = self.len();
        let mut i: usize = 0;
        while i < count
            invariant
                0 <= i <= count,
                count == self@.len(),
                self.wf(),
                names.wf(),
                written.len() == i,
                forall|j: int| 0 <= j < i ==> (#[trigger] names@[self@[j] as int]) == Some(written[j]),
                text@ =~= text_of(head + written),
            decreases count - i,
        {
            let code = self.codes()[i];
            let name = match names.name(code) {
                Some(name) => name,
                None => {
                    assert(names@[self@[i as int] as int].is_none());
                    return Err(VocabTextError::UnnamedCode(i));
                },
            };
            let ghost before = text@;
            let mut k: usize = 0;
            while k < name.len()
                invariant
                    0 <= k <= name@.len(),
                    text@ =~= before + name@.subrange(0, k as int),
                decreases name@.len() - k,
            {
                text.push(name[k]);
                k += 1;
            }
            text.push(NEWLINE);
            proof {
                assert(name@.subrange(0, k as int) =~= name@);
                let longer = written.push(name@);
                assert((head + longer).drop_last() =~= head + written);
                assert((head + longer).last() == name@);
                written = longer;
            }
            i += 1;
        }
        proof {
            let lines = names_of(names@, self@);
            assert(lines is Some);
            assert(lines->0 =~= written);
        }
        Ok(text)
    }

    /// The vocabulary that a vocabulary file holds. The text is refused
    /// where it does not begin with the lines `INVALID` and `UNKNOWN`, where
    /// a later line names no operation code, and where it names more codes
    /// than a vocabulary can rank.
    pub fn deserialize_from(text: &[u8], names: &OpcodeNames) -> (r: Result<CodeVocab, VocabTextError>)
        requires
            names.wf(),
        ensures
            match r {
                Ok(vocab) => vocab.wf() && parsed(names@, text@) == Ok::<Seq<u16>, VocabTextError>(vocab@),
                Err(e) => parsed(names@, text@) == Err::<Seq<u16>, VocabTextError>(e),
            },
    {
        let lines = lines_of(text);
        let ghost spec_lines = split_lines(text@);
        let header_ok = lines.len() >= 2 && Self::is_invalid_line(lines[0].as_slice())
            && Self::is_unknown_line(lines[1].as_slice());
        if !header_ok {
            return Err(VocabTextError::MissingHeader);
        }
        let mut codes: Vec<u16> = Vec::new();
        let mut i: usize = 2;
        while i < lines.len()
            invariant
                2 <= i <= lines@.len(),
                names.wf(),
                lines@.len() == spec_lines.len(),
                spec_lines == split_lines(text@),
                spec_lines[0] == line_invalid(),
                spec_lines[1] == line_unknown(),
                forall|j: int| 0 <= j < lines@.len() ==> (#[trigger] lines@[j])@ == spec_lines[j],
                codes@.len() == i - 2,
                forall|j: int|
                    2 <= j < i ==> (#[trigger] code_named(names@, spec_lines[j])) == Some(codes@[j - 2]),
            decreases lines@.len() - i,
        {
            match names.find(lines[i].as_slice()) {
                Some(code) => {
                    codes.push(code);
                },
                None => {
                    proof {
                        assert(code_named(names@, spec_lines[i as int]).is_none());
                        lemma_first_unknown(names@, spec_lines, 2);
                        let first = first_unknown(names@, spec_lines, 2);
                        if first < i {
                            assert(code_named(names@, spec_lines[first]) is Some);
                        }
                        if first > i {
                            assert(code_named(names@, spec_lines[i as int]) is Some);
                        }
                    }
                    return Err(VocabTextError::UnknownName(i));
                },
            }
            i += 1;
        }
        if codes.len() > MAX_VOCAB_LEN {
            return Err(VocabTextError::TooManyCodes);
        }
        proof {
            let result = parsed_lines(names@, spec_lines);
            assert(result is Ok);
            assert(result->Ok_0 =~= codes@);
        }
        Ok(CodeVocab::new(codes))
    }

    fn is_invalid_line(line: &[u8]) -> (r: bool)
        ensures
            r == (line@ == line_invalid()),
    {
        let r = line.len() == 7 && line[0] == 73 && line[1] == 78 && line[2] == 86 && line[3] == 65
            && line[4] == 76 && line[5] == 73 && line[6] == 68;
        proof {
            if r {
                assert(line@ =~= line_invalid());
            }
        }
        r
    }

    fn is_unknown_line(line: &[u8]) -> (r: bool)
        ensures
            r == (line@ == line_unknown()),
    {
        let r = line.len() == 7 && line[0] == 85 && line[1] == 78 && line[2] == 75 && line[3] == 78
            && line[4] == 79 && line[5] == 87 && line[6] == 78;
        proof {
            if r {
                assert(line@ =~= line_unknown());
            }
        }
        r
    }
}

} // verus!
