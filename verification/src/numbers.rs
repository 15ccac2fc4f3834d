//! Reading numbers and trimming blanks, on bytes.

use vstd::prelude::*;

verus! {

/// The value of a digit in base `radix`, which is ten or sixteen; letters
/// count in either case.
pub open spec fn digit_value(b: u8, radix: int) -> Option<int> {
    if 48 <= b <= 57 {
        Some(b - 48)
    } else if radix == 16 && 97 <= b <= 102 {
        Some(b - 97 + 10)
    } else if radix == 16 && 65 <= b <= 70 {
        Some(b - 65 + 10)
    } else {
        None
    }
}

/// The number that the digits spell in base `radix`; `None` where there is
/// no digit or something that is none.
pub open spec fn digits_value(digits: Seq<u8>, radix: int) -> Option<int>
    decreases digits.len(),
{
    if digits.len() == 0 {
        None
    } else if digits.len() == 1 {
        digit_value(digits[0], radix)
    } else {
        match (digits_value(digits.drop_last(), radix), digit_value(digits.last(), radix)) {
            (Some(high), Some(low)) => Some(high * radix + low),
            _ => None,
        }
    }
}

/// The number that a text spells as a 32-bit unsigned number in base
/// `radix`: digits, after a plus sign or none, that spell a number that fits.
pub open spec fn number_value(text: Seq<u8>, radix: int) -> Option<u32> {
    let digits = if text.len() > 0 && text[0] == 43 {
        text.subrange(1, text.len() as int)
    } else {
        text
    };
    match digits_value(digits, radix) {
        Some(value) => if value <= u32::MAX {
            Some(value as u32)
        } else {
            None
        },
        None => None,
    }
}

proof fn lemma_digits_nonneg(digits: Seq<u8>, radix: int)
    requires
        radix == 10 || radix == 16,
    ensures
        digits_value(digits, radix) matches Some(value) ==> value >= 0,
    decreases digits.len(),
{
    if digits.len() > 1 {
        lemma_digits_nonneg(digits.drop_last(), radix);
        if digits_value(digits.drop_last(), radix) is Some && digit_value(digits.last(), radix) is Some {
            let high = digits_value(digits.drop_last(), radix)->0;
            assert(high * radix >= 0) by (nonlinear_arith)
                requires
                    high >= 0,
                    radix >= 0,
            ;
        }
    }
}

/// A number that is too large stays too large when digits follow.
proof fn lemma_digits_grow(digits: Seq<u8>, upto: int, radix: int)
    requires
        radix == 10 || radix == 16,
        1 <= upto <= digits.len(),
        digits_value(digits.subrange(0, upto), radix) matches Some(value) && value > u32::MAX,
    ensures
        digits_value(digits, radix) matches Some(value) ==> value > u32::MAX,
    decreases digits.len() - upto,
{
    if upto < digits.len() {
        let longer = digits.subrange(0, upto + 1);
        assert(longer.drop_last() =~= digits.subrange(0, upto));
        if digits_value(longer, radix) is Some {
            let high = digits_value(digits.subrange(0, upto), radix)->0;
            assert(high * radix >= high) by (nonlinear_arith)
                requires
                    high >= 0,
                    radix >= 1,
            ;
            lemma_digits_grow(digits, upto + 1, radix);
        } else {
            lemma_digits_none(digits, upto + 1, radix);
        }
    } else {
        assert(digits.subrange(0, upto) =~= digits);
    }
}

/// Once something is no digit, the whole spells no number.
proof fn lemma_digits_none(digits: Seq<u8>, upto: int, radix: int)
    requires
        1 <= upto <= digits.len(),
        digits_value(digits.subrange(0, upto), radix).is_none(),
    ensures
        digits_value(digits, radix).is_none(),
    decreases digits.len() - upto,
{
    if upto < digits.len() {
        let longer = digits.subrange(0, upto + 1);
        assert(longer.drop_last() =~= digits.subrange(0, upto));
        lemma_digits_none(digits, upto + 1, radix);
    } else {
        assert(digits.subrange(0, upto) =~= digits);
    }
}

/// The number that `text` spells in base sixteen (`hex`) or ten.
pub fn parse_u32(text: &[u8], hex: bool) -> (r: Option<u32>)
    ensures
        r == number_value(text@, if hex { 16 } else { 10 }),
{
    let ghost radix: int = if hex { 16 } else { 10 };
    let base: u64 = if hex { 16 } else { 10 };
    let start: usize = if text.len() > 0 && text[0] == 43 { 1 } else { 0 };
    let ghost digits = text@.subrange(start as int, text@.len() as int);
    if start == 0 {
        assert(digits =~= text@);
    }
    if start >= text.len() {
        return None;
    }
    let mut value: u64 = 0;
    let mut i: usize = start;
    while i < text.len()
        invariant
            start <= i <= text@.len(),
            start < text@.len(),
            radix == (if hex { 16int } else { 10int }),
            base == radix,
            digits == text@.subrange(start as int, text@.len() as int),
            digits == (if text@.len() > 0 && text@[0] == 43 {
                text@.subrange(1, text@.len() as int)
            } else {
                text@
            }),
            value <= u32::MAX,
            i == start ==> value == 0,
            i > start ==> digits_value(digits.subrange(0, i - start), radix) == Some(value as int),
        decreases text@.len() - i,
    {
        let b = text[i];
        let digit: Option<u64> = if 48 <= b && b <= 57 {
            Some((b - 48) as u64)
        } else if hex && 97 <= b && b <= 102 {
            Some((b - 97 + 10) as u64)
        } else if hex && 65 <= b && b <= 70 {
            Some((b - 65 + 10) as u64)
        } else {
            None
        };
        let ghost longer = digits.subrange(0, i + 1 - start);
        proof {
            assert(longer.last() == b);
            assert(longer.drop_last() =~= digits.subrange(0, i - start));
            assert(digit matches Some(d) ==> digit_value(b, radix) == Some(d as int));
            assert(digit.is_none() ==> digit_value(b, radix).is_none());
        }
        match digit {
            None => {
                proof {
                    assert(digits_value(longer, radix).is_none());
                    lemma_digits_none(digits, i + 1 - start, radix);
                }
                return None;
            },
            Some(d) => {
                let next = value * base + d;
                proof {
                    assert(digits_value(longer, radix) == Some(next as int));
                }
                if next > u32::MAX as u64 {
                    proof {
                        lemma_digits_grow(digits, i + 1 - start, radix);
                    }
                    return None;
                }
                value = next;
            },
        }
        i += 1;
    }
    assert(digits.subrange(0, i - start) =~= digits);
    Some(value as u32)
}

/// Whether the byte is a blank: a space, a tab, or one of the bytes that end
/// or feed a line.
pub open spec fn is_blank(b: u8) -> bool {
    b == 32 || (9 <= b <= 13)
}

/// Where the text begins once the blanks at its start are left out.
pub open spec fn trim_start(text: Seq<u8>) -> int
    decreases text.len(),
{
    if text.len() > 0 && is_blank(text[0]) {
        1 + trim_start(text.subrange(1, text.len() as int))
    } else {
        0
    }
}

/// Where the text ends once the blanks at its end are left out.
pub open spec fn trim_end(text: Seq<u8>) -> int
    decreases text.len(),
{
    if text.len() > 0 && is_blank(text.last()) {
        trim_end(text.drop_last())
    } else {
        text.len() as int
    }
}

/// The text without the blanks at its start and at its end.
pub open spec fn trimmed(text: Seq<u8>) -> Seq<u8> {
    let start = trim_start(text);
    let end = trim_end(text);
    if start <= end {
        text.subrange(start, end)
    } else {
        Seq::empty()
    }
}

proof fn lemma_trim_start(text: Seq<u8>, upto: int)
    requires
        0 <= upto <= text.len(),
        forall|i: int| 0 <= i < upto ==> is_blank(text[i]),
        upto == text.len() || !is_blank(text[upto]),
    ensures
        trim_start(text) == upto,
    decreases upto,
{
    if upto > 0 {
        let rest = text.subrange(1, text.len() as int);
        assert forall|i: int| 0 <= i < upto - 1 implies is_blank(rest[i]) by {
            assert(rest[i] == text[i + 1]);
        }
        if upto < text.len() {
            assert(rest[upto - 1] == text[upto]);
        }
        lemma_trim_start(rest, upto - 1);
    }
}

proof fn lemma_trim_end(text: Seq<u8>, from: int)
    requires
        0 <= from <= text.len(),
        forall|i: int| from <= i < text.len() ==> is_blank(text[i]),
        from == 0 || !is_blank(text[from - 1]),
    ensures
        trim_end(text) == from,
    decreases text.len() - from,
{
    if from < text.len() {
        let rest = text.drop_last();
        lemma_trim_end(rest, from);
    }
}

/// The bounds of the text without the blanks at its start and at its end.
pub fn trim(text: &[u8]) -> (r: (usize, usize))
    ensures
        r.0 <= r.1 <= text@.len(),
        text@.subrange(r.0 as int, r.1 as int) == trimmed(text@),
{
    let mut start: usize = 0;
    while start < text.len() && (text[start] == 32 || (9 <= text[start] && text[start] <= 13))
        invariant
            0 <= start <= text@.len(),
            forall|i: int| 0 <= i < start ==> is_blank(text@[i]),
        decreases text@.len() - start,
    {
        start += 1;
    }
    let mut end: usize = text.len();
    while end > start && (text[end - 1] == 32 || (9 <= text[end - 1] && text[end - 1] <= 13))
        invariant
            start <= end <= text@.len(),
            forall|i: int| end <= i < text@.len() ==> is_blank(text@[i]),
        decreases end,
    {
        end -= 1;
    }
    proof {
        lemma_trim_start(text@, start as int);
        if end > start {
            lemma_trim_end(text@, end as int);
        } else {
            // Nothing but blanks: whatever the end, nothing is left.
            lemma_all_blank(text@);
            assert(text@.subrange(start as int, end as int) =~= Seq::<u8>::empty());
            if trim_start(text@) <= trim_end(text@) {
                assert(text@.subrange(trim_start(text@), trim_end(text@)) =~= Seq::<u8>::empty());
            }
        }
    }
    (start, end)
}

proof fn lemma_all_blank(text: Seq<u8>)
    requires
        forall|i: int| 0 <= i < text.len() ==> is_blank(text[i]),
    ensures
        trim_end(text) == 0,
        trim_start(text) == text.len(),
    decreases text.len(),
{
    lemma_trim_start(text, text.len() as int);
    if text.len() > 0 {
        lemma_all_blank(text.drop_last());
    }
}

} // verus!
