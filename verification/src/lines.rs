//! Lines of text, on bytes: a line ends at a newline byte, or at a carriage
//! return that stands before one.

use vstd::prelude::*;

verus! {

/// The byte that ends a line.
pub const NEWLINE: u8 = 10;

/// The byte that may stand before the one that ends a line.
pub const CARRIAGE_RETURN: u8 = 13;

/// Whether the bytes can stand as a line of their own: none of them ends a
/// line, and none is a carriage return.
pub open spec fn is_line(bytes: Seq<u8>) -> bool {
    forall|i: int| 0 <= i < bytes.len() ==> bytes[i] != NEWLINE && bytes[i] != CARRIAGE_RETURN
}

/// Where the first line of `text` ends: at the first byte that ends a line,
/// or at the end of the text.
pub open spec fn line_end(text: Seq<u8>) -> int
    decreases text.len(),
{
    if text.len() == 0 {
        0
    } else if text[0] == NEWLINE {
        0
    } else {
        1 + line_end(text.subrange(1, text.len() as int))
    }
}

/// A line without the carriage return at its end, if it has one.
pub open spec fn strip_cr(line: Seq<u8>) -> Seq<u8> {
    if line.len() > 0 && line.last() == CARRIAGE_RETURN {
        line.drop_last()
    } else {
        line
    }
}

/// The lines of `text`. A line ends at a newline byte, or at a carriage return
/// that stands before one; the last line may end with the text.
pub open spec fn split_lines(text: Seq<u8>) -> Seq<Seq<u8>>
    decreases text.len(),
{
    if text.len() == 0 {
        Seq::empty()
    } else {
        let end = line_end(text);
        if end >= text.len() {
            seq![text]
        } else if end < 0 {
            Seq::empty()
        } else {
            seq![strip_cr(text.subrange(0, end))] + split_lines(text.subrange(end + 1, text.len() as int))
        }
    }
}

/// The first line of a text ends where the first newline byte stands.
pub proof fn lemma_line_end(line: Seq<u8>, rest: Seq<u8>)
    requires
        forall|i: int| 0 <= i < line.len() ==> line[i] != NEWLINE,
    ensures
        line_end(line + seq![NEWLINE] + rest) == line.len(),
    decreases line.len(),
{
    let text = line + seq![NEWLINE] + rest;
    if line.len() == 0 {
        assert(text[0] == NEWLINE);
    } else {
        assert(text[0] == line[0]);
        let shorter = line.subrange(1, line.len() as int);
        assert(text.subrange(1, text.len() as int) =~= shorter + seq![NEWLINE] + rest);
        lemma_line_end(shorter, rest);
    }
}

/// The first line ends inside the text, at a newline byte or at the end, and
/// holds no newline byte.
pub proof fn lemma_line_end_in_range(text: Seq<u8>)
    ensures
        0 <= line_end(text) <= text.len(),
        line_end(text) < text.len() ==> text[line_end(text)] == NEWLINE,
        forall|i: int| 0 <= i < line_end(text) ==> text[i] != NEWLINE,
    decreases text.len(),
{
    if text.len() > 0 && text[0] != NEWLINE {
        let rest = text.subrange(1, text.len() as int);
        lemma_line_end_in_range(rest);
        assert forall|i: int| 0 <= i < line_end(text) implies text[i] != NEWLINE by {
            if i > 0 {
                assert(rest[i - 1] == text[i]);
            }
        }
        if line_end(text) < text.len() {
            assert(rest[line_end(rest)] == text[line_end(text)]);
        }
    }
}

proof fn lemma_line_end_none(text: Seq<u8>)
    requires
        forall|i: int| 0 <= i < text.len() ==> text[i] != NEWLINE,
    ensures
        line_end(text) == text.len(),
    decreases text.len(),
{
    if text.len() > 0 {
        let rest = text.subrange(1, text.len() as int);
        assert forall|i: int| 0 <= i < rest.len() implies rest[i] != NEWLINE by {
            assert(rest[i] == text[i + 1]);
        }
        lemma_line_end_none(rest);
    }
}

/// The lines of `text`.
pub fn lines_of(text: &[u8]) -> (r: Vec<Vec<u8>>)
    ensures
        r@.len() == split_lines(text@).len(),
        forall|i: int| 0 <= i < r@.len() ==> (#[trigger] r@[i])@ == split_lines(text@)[i],
{
    let len = text.len();
    let mut lines: Vec<Vec<u8>> = Vec::new();
    let mut pos: usize = 0;
    assert(text@.subrange(0, len as int) =~= text@);
    while pos < len
        invariant
            0 <= pos <= len,
            len == text@.len(),
            split_lines(text@).len() == lines@.len() + split_lines(text@.subrange(pos as int, len as int)).len(),
            forall|i: int| 0 <= i < lines@.len() ==> (#[trigger] lines@[i])@ == split_lines(text@)[i],
            forall|i: int|
                0 <= i < split_lines(text@.subrange(pos as int, len as int)).len() ==> split_lines(
                    text@,
                )[lines@.len() + i] == #[trigger] split_lines(text@.subrange(pos as int, len as int))[i],
        decreases len - pos,
    {
        let ghost rest = text@.subrange(pos as int, len as int);
        let mut end: usize = pos;
        while end < len && text[end] != NEWLINE
            invariant
                pos <= end <= len,
                len == text@.len(),
                forall|i: int| pos <= i < end ==> text@[i] != NEWLINE,
            decreases len - end,
        {
            end += 1;
        }
        let mut stop: usize = end;
        if end < len && end > pos && text[end - 1] == CARRIAGE_RETURN {
            stop = end - 1;
        }
        let mut line: Vec<u8> = Vec::new();
        let mut i: usize = pos;
        while i < stop
            invariant
                pos <= i <= stop <= len,
                len == text@.len(),
                line@ =~= text@.subrange(pos as int, i as int),
            decreases stop - i,
        {
            line.push(text[i]);
            i += 1;
        }
        proof {
            let raw = text@.subrange(pos as int, end as int);
            assert(rest.subrange(0, end - pos) =~= raw);
            if end < len {
                let after = text@.subrange(end + 1, len as int);
                assert(rest =~= raw + seq![NEWLINE] + after);
                lemma_line_end(raw, after);
                assert(rest.subrange(end - pos + 1, rest.len() as int) =~= after);
                assert(line@ == strip_cr(raw)) by {
                    if raw.len() > 0 {
                        assert(raw.last() == text@[end - 1]);
                        assert(raw.drop_last() =~= text@.subrange(pos as int, end - 1));
                    }
                }
                assert(split_lines(rest) =~= seq![strip_cr(raw)] + split_lines(after));
            } else {
                lemma_line_end_none(rest);
                assert(raw =~= rest);
                assert(split_lines(rest) =~= seq![rest]);
                assert(text@.subrange(len as int, len as int) =~= Seq::<u8>::empty());
                assert(split_lines(text@.subrange(len as int, len as int)) =~= Seq::<Seq<u8>>::empty());
            }
        }
        let ghost collected: int = lines@.len() as int;
        lines.push(line);
        let next: usize = if end < len { end + 1 } else { len };
        proof {
            let remaining = split_lines(text@.subrange(next as int, len as int));
            assert(split_lines(rest)[0] == line@);
            assert(split_lines(text@)[collected + 0] == split_lines(rest)[0]);
            assert(split_lines(rest).len() == 1 + remaining.len());
            assert forall|i: int| 0 <= i < remaining.len() implies split_lines(text@)[collected + 1 + i]
                == #[trigger] remaining[i] by {
                assert(split_lines(rest)[i + 1] == remaining[i]);
                assert(split_lines(text@)[collected + (i + 1)] == split_lines(rest)[i + 1]);
            }
            assert forall|i: int| 0 <= i < lines@.len() implies (#[trigger] lines@[i])@ == split_lines(
                text@,
            )[i] by {
                if i == collected {
                }
            }
        }
        pos = next;
    }
    lines
}

} // verus!
