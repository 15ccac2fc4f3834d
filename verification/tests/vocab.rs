use datatool::classes::AddressClasses;
use datatool::feature::{InstructionFeature, Label};
use datatool::memory::{MemoryImage, Protection};
use datatool::opcode_names::OpcodeNames;
use datatool::registers::RegisterSet;
use datatool::superset::{ExecutableSample, SupersetSample};
use datatool::vocab::{CodeVocab, CodeVocabBuilder, IndexError};
use datatool::lines::lines_of;
use datatool::vocab_text::VocabTextError;

const A: u16 = 100;
const B: u16 = 20;
const C: u16 = 30;
const INVALID: u16 = 0;

fn counted(counts: &[(u16, usize)]) -> CodeVocabBuilder {
    let mut builder = CodeVocabBuilder::new();
    for &(code, count) in counts {
        for _ in 0..count {
            builder.add(code);
        }
    }
    builder
}

fn codes_of(vocab: &CodeVocab) -> Vec<u16> {
    (0..vocab.len()).map(|rank| vocab.code_at(rank + 2).unwrap()).collect()
}

#[test]
fn top_k_ranks_by_count_then_by_code() {
    let builder = counted(&[(A, 10), (B, 5), (C, 5), (INVALID, 99)]);
    assert_eq!(builder.len(), 4);
    assert_eq!(builder.total_count(), 119);
    let vocab = builder.clone().build_top_k(2);
    assert_eq!(codes_of(&vocab), vec![A, B]);
    assert_eq!(vocab.index_of(A), 2);
    assert_eq!(vocab.index_of(B), 3);
    assert_eq!(vocab.index_of(C), 1);
    assert_eq!(vocab.index_of(INVALID), 0);
    assert_eq!(vocab.index_of(999), 1);
    assert_eq!(codes_of(&builder.clone().build_top_k(0)), Vec::<u16>::new());
    assert_eq!(codes_of(&builder.clone().build_top_k(10)), vec![A, B, C]);
    // Every code that was counted, the invalid one too, sets the size of the full vocabulary.
    assert_eq!(codes_of(&builder.build()), vec![A, B, C]);
}

#[test]
fn reverse_lookup() {
    let vocab = CodeVocab::new(vec![A, B]);
    assert_eq!(vocab.code_at(0), Ok(INVALID));
    assert_eq!(vocab.code_at(1), Err(IndexError::Unknown));
    assert_eq!(vocab.code_at(2), Ok(A));
    assert_eq!(vocab.code_at(3), Ok(B));
    assert_eq!(vocab.code_at(4), Err(IndexError::OutOfRange));
    // Where a code stands twice, its last place counts.
    let twice = CodeVocab::new(vec![A, B, A]);
    assert_eq!(twice.index_of(A), 4);
    assert_eq!(twice.len(), 3);
}

#[test]
fn merge_adds_counts() {
    let mut left = counted(&[(A, 2), (B, 1)]);
    let right = counted(&[(B, 4), (C, 3)]);
    left.merge(right.clone());
    assert_eq!(left.total_count(), 10);
    assert_eq!(codes_of(&left.clone().build()), vec![B, C, A]);
    let mut other_way = right;
    other_way.merge(counted(&[(A, 2), (B, 1)]));
    assert_eq!(codes_of(&other_way.build()), vec![B, C, A]);
    let mut grouped = counted(&[(A, 1)]);
    let mut inner = counted(&[(A, 1), (B, 1)]);
    inner.merge(counted(&[(B, 3), (C, 3)]));
    grouped.merge(inner);
    assert_eq!(codes_of(&grouped.build()), codes_of(&left.build()));
}

#[test]
fn add_sample_counts_each_candidate() {
    let mut memory = MemoryImage::new();
    memory
        .add_region(
            0x1000,
            Protection { read: true, write: false, execute: true },
            vec![0x90, 0x90, 0xC3],
            String::new(),
        )
        .unwrap();
    let superset = ExecutableSample::new(memory, AddressClasses::new()).into_superset();
    let nop = superset.superset[0].1.code;
    let ret = superset.superset[2].1.code;
    let mut builder = CodeVocabBuilder::new();
    builder.add_sample(&superset);
    builder.add_sample(&superset);
    assert_eq!(builder.total_count(), 6);
    assert_eq!(builder.len(), 2);
    let vocab = builder.build();
    assert_eq!(codes_of(&vocab), vec![nop, ret]);
    let names = OpcodeNames::from_decoder().unwrap();
    let text = vocab.serialize_to(&names).unwrap();
    assert_eq!(String::from_utf8(text.clone()).unwrap(), "INVALID\nUNKNOWN\nNopd\nRetnd\n");
    let back = CodeVocab::deserialize_from(&text, &names).unwrap();
    assert_eq!(codes_of(&back), vec![nop, ret]);
    assert_eq!(back.index_of(ret), 3);
}

#[test]
fn vocabulary_text_round_trip_over_every_name() {
    let names = OpcodeNames::from_decoder().unwrap();
    let all: Vec<u16> = (1..=u16::MAX).filter(|&code| names.name(code).is_some()).collect();
    assert!(all.len() > 4000);
    assert_eq!(names.name(0).map(|n| n.as_slice()), Some(&b"INVALID"[..]));
    assert_eq!(names.find(b"INVALID"), Some(0));
    assert_eq!(names.find(b"Nopd").and_then(|code| names.name(code)).map(|n| n.as_slice()), Some(&b"Nopd"[..]));
    assert_eq!(names.find(b"nopd"), None);
    let vocab = CodeVocab::new(all.clone());
    let text = vocab.serialize_to(&names).unwrap();
    let back = CodeVocab::deserialize_from(&text, &names).unwrap();
    assert_eq!(codes_of(&back), all);
}

#[test]
fn vocabulary_text_errors() {
    let names = OpcodeNames::from_decoder().unwrap();
    assert_eq!(
        CodeVocab::new(vec![1, 65000]).serialize_to(&names).err(),
        Some(VocabTextError::UnnamedCode(1))
    );
    assert_eq!(codes_of(&CodeVocab::deserialize_from(b"INVALID\nUNKNOWN\n", &names).unwrap()), vec![]);
    assert_eq!(codes_of(&CodeVocab::deserialize_from(b"INVALID\nUNKNOWN", &names).unwrap()), vec![]);
    for text in [&b""[..], b"INVALID\n", b"UNKNOWN\nINVALID\n", b"INVALID \nUNKNOWN\n", b"\nINVALID\nUNKNOWN\n"] {
        assert_eq!(CodeVocab::deserialize_from(text, &names).err(), Some(VocabTextError::MissingHeader));
    }
    assert_eq!(
        CodeVocab::deserialize_from(b"INVALID\nUNKNOWN\nNopd\nNoSuchCode\nRetnd\n", &names).err(),
        Some(VocabTextError::UnknownName(3))
    );
    assert_eq!(
        CodeVocab::deserialize_from(b"INVALID\nUNKNOWN\nNopd\n\nRetnd\n", &names).err(),
        Some(VocabTextError::UnknownName(3))
    );
    let windows = CodeVocab::deserialize_from(b"INVALID\r\nUNKNOWN\r\nNopd\r\nRetnd", &names).unwrap();
    assert_eq!(windows.len(), 2);
}

#[test]
fn lines_are_split_as_a_reader_does() {
    let as_strings = |text: &[u8]| -> Vec<String> {
        lines_of(text).into_iter().map(|l| String::from_utf8(l).unwrap()).collect()
    };
    for text in ["", "a", "a\n", "a\nb", "a\n\nb\n", "\n", "\r\n", "a\r\nb\r", "a\r\r\nb", "\n\n"] {
        let expected: Vec<String> = text.lines().map(|l| l.to_string()).collect();
        assert_eq!(as_strings(text.as_bytes()), expected, "{:?}", text);
    }
}

#[test]
fn features_are_plain_values() {
    let feature = InstructionFeature {
        size: 1,
        code: 5,
        jump_target: None,
        falls_through: true,
        uses: RegisterSet::empty(),
        defines: RegisterSet::empty(),
    };
    let superset = SupersetSample { superset: vec![(0, feature, Some(Label::Code))], source: None };
    let mut builder = CodeVocabBuilder::new();
    builder.add_sample(&superset);
    assert_eq!(codes_of(&builder.build_top_k(1)), vec![5]);
}
