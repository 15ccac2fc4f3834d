use std::collections::BTreeSet;
use datatool::feature::InstructionFeature;
use datatool::lst::{check_looks_like_data, parse_listing_line, parse_lst, ListingError};
use datatool::numbers::{parse_u32, trim};
use datatool::registers::RegisterSet;
use datatool::superset::SupersetSample;
use datatool::tool_output::{parse_addresses, parse_positions, read_numbers, OutputKind, ToolOutputError};

fn set(items: &[u32]) -> BTreeSet<u32> {
    items.iter().copied().collect()
}

#[test]
fn numbers_are_read_as_the_standard_library_reads_them() {
    for text in ["0", "7", "+7", "ff", "FF", "fF0", "00000000001", "ffffffff", "100000000", "4294967295",
        "4294967296", "", "+", "-1", "1 ", " 1", "0x10", "1_0", "g", "+-1", "++1", "99999999999999999999999"]
    {
        assert_eq!(parse_u32(text.as_bytes(), true), u32::from_str_radix(text, 16).ok(), "{:?}", text);
        assert_eq!(parse_u32(text.as_bytes(), false), text.parse::<u32>().ok(), "{:?}", text);
    }
    assert_eq!(parse_u32(b"ffffffff", true), Some(u32::MAX));
    assert_eq!(parse_u32(b"4294967295", false), Some(u32::MAX));
    assert_eq!(parse_u32(b"12", true), Some(0x12));
    assert_eq!(parse_u32(b"12", false), Some(12));
}

#[test]
fn blanks_are_trimmed_at_both_ends() {
    for text in ["", " ", "a", " a", "a ", "\t a b \r\n", "  \n ", "a\u{b}", "\u{c}a"] {
        let (start, end) = trim(text.as_bytes());
        assert_eq!(&text[start..end], text.trim(), "{:?}", text);
    }
}

#[test]
fn addresses_of_a_tool() {
    let output = b"loading\n0x401000\n  0x401005  \n\n0X10\n0x\t\n0xFFFFFFFF\n0x401000\n";
    assert_eq!(parse_addresses(b"loading\n0x401000\n  0x401005  \n\n0X10\n"), Ok(set(&[0x401000, 0x401005])));
    assert_eq!(parse_addresses(b""), Ok(set(&[])));
    assert_eq!(parse_addresses(b"0x10\n 0x+20\r\n0x00000030"), Ok(set(&[0x10, 0x20, 0x30])));
    assert_eq!(parse_addresses(output), Err(ToolOutputError::BadNumber(5)));
    assert_eq!(parse_addresses(b"0x1\n0x100000000\n0xzz"), Err(ToolOutputError::BadNumber(1)));
    assert_eq!(parse_addresses(b"0x1 2"), Err(ToolOutputError::BadNumber(0)));
    assert_eq!(read_numbers(b"0x2\n0x1\n0x2\n", OutputKind::HexAddresses), Ok(vec![2, 1, 2]));
}

#[test]
fn positions_of_a_tool() {
    let feature = InstructionFeature {
        size: 1,
        code: 1,
        jump_target: None,
        falls_through: true,
        uses: RegisterSet::empty(),
        defines: RegisterSet::empty(),
    };
    let superset = SupersetSample {
        superset: vec![(0x1000, feature, None), (0x1001, feature, None), (0x2000, feature, None)],
        source: None,
    };
    assert_eq!(parse_positions(b"2\n\n 0 \n2\n", &superset), Ok(set(&[0x1000, 0x2000])));
    assert_eq!(parse_positions(b"", &superset), Ok(set(&[])));
    assert_eq!(parse_positions(b"1\n3\n", &superset), Err(ToolOutputError::NoSuchPosition(1)));
    assert_eq!(parse_positions(b"1\n0x1\n7", &superset), Err(ToolOutputError::BadNumber(1)));
    assert_eq!(parse_positions(b"1\n\n-1", &superset), Err(ToolOutputError::BadNumber(2)));
    assert_eq!(read_numbers(b"1\n\n 10\n", OutputKind::Positions), Ok(vec![1, 10]));
}

fn parts(line: &str) -> Option<(&str, Option<&str>)> {
    parse_listing_line(line.as_bytes()).map(|(start, end, content)| (&line[start..end], content.map(|at| &line[at..])))
}

#[test]
fn lines_of_a_listing() {
    assert_eq!(parts(".text:00401000 55                      push    ebp"), Some(("00401000", Some("push    ebp"))));
    assert_eq!(parts(".text:00401001 8B EC   mov     ebp, esp"), Some(("00401001", Some("mov     ebp, esp"))));
    assert_eq!(parts(".data:00402004 00+     db 0"), Some(("00402004", Some("db 0"))));
    assert_eq!(parts(".data:00402004 00 + 01 "), Some(("00402004", Some(""))));
    assert_eq!(parts(".text:00401003                 ; comment"), Some(("00401003", None)));
    assert_eq!(parts(".text:00401003 loc_401003:"), Some(("00401003", None)));
    assert_eq!(parts(".text:00401003"), Some(("00401003", None)));
    assert_eq!(parts(".text:00401003 5"), Some(("00401003", None)));
    assert_eq!(parts(".text:00401003 55"), Some(("00401003", None)));
    assert_eq!(parts(".text:00401003 55 "), Some(("00401003", Some(""))));
    assert_eq!(parts(".text:00401003 555 x"), Some(("00401003", None)));
    assert_eq!(parts(".text:00401003 55 AB x"), Some(("00401003", Some("x"))));
    assert_eq!(parts(".text:00401003 55 ABC x"), Some(("00401003", Some("ABC x"))));
    assert_eq!(parts(".text:0040100a 90 nop"), Some(("0040100", None)));
    assert_eq!(parts("; just a comment"), None);
    assert_eq!(parts(""), None);
    assert_eq!(parts(":00401000 90 nop"), None);
    assert_eq!(parts("text: 00401000 90 nop"), None);
    assert_eq!(parts("a:B"), Some(("B", None)));
    assert_eq!(parts("foo:bar .text:00401011 90 nop"), Some(("00401011", Some("nop"))));
    assert_eq!(parts("x y_1:1F 90 a"), Some(("1F", Some("a"))));
    assert_eq!(parts("seg:12:34 56 x"), Some(("12", None)));
}

#[test]
fn data_is_told_by_the_first_two_words() {
    for (content, data) in [
        ("db 0", true),
        ("dw 1", true),
        ("dd 4030201h", true),
        ("dq 0", true),
        ("align 10h", true),
        ("word_402010 dw 1", true),
        ("x  dw 1", false),
        ("a b dw", false),
        ("db", true),
        (" db", true),
        ("  db", false),
        ("dbx", false),
        ("DB 0", false),
        ("push    ebp", false),
        ("", false),
        ("text \"UTF-16LE\", 'He',0", true),
        ("text \"UTF-16LE\"", true),
        ("text \"UTF-16BE\", 'He',0", false),
        ("text \"UTF-16LE", false),
    ] {
        assert_eq!(check_looks_like_data(content.as_bytes()), data, "{:?}", content);
    }
}

#[test]
fn instructions_of_a_listing() {
    let listing = "\
; listing
.text:00401000 55                      push    ebp
.text:00401001 8B EC                   mov     ebp, esp
.text:00401001                         ; a note on the same address
.text:00401001 8B EC                   mov     ebp, esp
.text:00401003 loc_401003:
.text:00401003 C3                      retn
.text:00401004 CC CC CC CC             align 8
.data:00402000 01 02 03 04             dword_402000 dd 4030201h
.data:00402004 48 00 65 00             text \"UTF-16LE\", 'He',0
.data:00402008 01 00                   x  dw 1
.text:00401000 55                      push    ebp
.text:00401004 CC                      int 3
.text:00401004 90                      nop
";
    // The line of the alignment marks its address as data; a later line at that address counts again.
    assert_eq!(parse_lst(listing.as_bytes()), Ok(set(&[0x401000, 0x401001, 0x401003, 0x401004, 0x402008])));
    assert_eq!(parse_lst(b""), Ok(set(&[])));
    // The address that was seen last is nothing at first: a first line at nothing does not count.
    assert_eq!(parse_lst(b".text:00000000 90 nop\n.text:00000001 90 nop\n.text:00000000 90 nop"), Ok(set(&[1, 0])));
    assert_eq!(
        parse_lst(b".text:00401000 90 nop\n\n.text:100000000 90 nop\n"),
        Err(ListingError::AddressTooLarge(2))
    );
    assert_eq!(parse_lst(b".text:FFFFFFFF 90 nop\r\n"), Ok(set(&[u32::MAX])));
}
