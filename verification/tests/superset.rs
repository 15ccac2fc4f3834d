use datatool::classes::AddressClasses;
use datatool::feature::{InstructionFeature, Label};
use datatool::graph::RelationType;
use datatool::graph_sample::GraphSample;
use datatool::interval::Interval;
use datatool::memory::{MemoryImage, Protection};
use datatool::registers::{RegisterSet, UsedRegister};
use datatool::superset::{ExecutableSample, SupersetSample};

const RX: Protection = Protection { read: true, write: false, execute: true };
const RW: Protection = Protection { read: true, write: true, execute: false };

fn small_sample() -> ExecutableSample {
    let mut memory = MemoryImage::new();
    memory.add_region(0x1000, RX, vec![0x90, 0x90, 0xC3, 0x00], "text".to_string()).unwrap();
    let mut classes = AddressClasses::new();
    classes.true_instructions.push(Interval::from_start_and_end(0x1000, 0x1003));
    ExecutableSample::new(memory, classes)
}

fn registers(list: &[UsedRegister]) -> RegisterSet {
    let mut set = RegisterSet::empty();
    for &register in list {
        set = set.union(RegisterSet::from_register(register));
    }
    set
}

fn members(set: RegisterSet) -> Vec<UsedRegister> {
    let mut walk = set.iter_used_registers();
    let mut out = Vec::new();
    while let Some(register) = walk.next() {
        out.push(register);
    }
    out
}

#[test]
fn superset_of_a_small_region() {
    let superset = small_sample().into_superset();
    assert_eq!(superset.superset.len(), 4);
    let addresses: Vec<u32> = superset.superset.iter().map(|e| e.0).collect();
    assert_eq!(addresses, vec![0x1000, 0x1001, 0x1002, 0x1003]);
    let labels: Vec<Option<Label>> = superset.superset.iter().map(|e| e.2).collect();
    assert_eq!(labels, vec![
        Some(Label::Code),
        Some(Label::Code),
        Some(Label::Code),
        Some(Label::NotCode),
    ]);
    assert!(superset.superset[0].1.falls_through);
    assert!(superset.superset[1].1.falls_through);
    assert!(!superset.superset[2].1.falls_through);
    assert_eq!(superset.superset[0].1.size, 1);
    assert_eq!(superset.superset[2].1.size, 1);
    assert_eq!(superset.superset[0].1.code, superset.superset[1].1.code);
    assert_ne!(superset.superset[0].1.code, superset.superset[2].1.code);
    assert_ne!(superset.superset[0].1.code, 0);
    // One byte is no instruction: the last candidate is invalid.
    assert_eq!(superset.superset[3].1.code, 0);
    assert_eq!(superset.superset[3].1.size, 1);
    assert_eq!(superset.superset[0].1.jump_target, None);
    assert!(superset.source.is_none());
}

#[test]
fn superset_covers_executable_regions_only() {
    let mut memory = MemoryImage::new();
    memory.add_region(0x3000, RW, vec![0x90; 5], String::new()).unwrap();
    memory.add_region(0x1000, RX, vec![0x90; 3], String::new()).unwrap();
    memory.add_region(0x2000, RX, vec![0xC3; 2], String::new()).unwrap();
    let sample = ExecutableSample::new(memory, AddressClasses::new());
    assert_eq!(sample.size(), 10);
    assert_eq!(sample.coverage(), (0, 10));
    let superset = SupersetSample::new(sample);
    let addresses: Vec<u32> = superset.superset.iter().map(|e| e.0).collect();
    assert_eq!(addresses, vec![0x1000, 0x1001, 0x1002, 0x2000, 0x2001]);
    assert!(superset.superset.iter().all(|e| e.2 == Some(Label::NotCode)));
}

#[test]
fn truth_stops_at_the_end_of_the_interval_and_at_invalid_bytes() {
    let mut memory = MemoryImage::new();
    // mov eax, 1 ; ret ; mov eax, 1
    memory
        .add_region(0x1000, RX, vec![0xB8, 1, 0, 0, 0, 0xC3, 0xB8, 1, 0, 0, 0], String::new())
        .unwrap();
    let mut classes = AddressClasses::new();
    // The interval ends inside the second mov: that instruction is no start.
    classes.true_instructions.push(Interval::from_start_and_end(0x1000, 0x1008));
    // No executable region holds this one.
    classes.true_instructions.push(Interval::from_start_and_end(0x5000, 0x5008));
    let superset = ExecutableSample::new(memory, classes).into_superset();
    let code: Vec<u32> =
        superset.superset.iter().filter(|e| e.2 == Some(Label::Code)).map(|e| e.0).collect();
    assert_eq!(code, vec![0x1000, 0x1005]);
    assert_eq!(superset.superset[0].1.size, 5);
    assert_eq!(superset.superset[5].1.size, 1);
}

#[test]
fn features_carry_register_use_and_jumps() {
    let mut memory = MemoryImage::new();
    // mov ebx, eax ; add eax, ebx ; jmp 0x1000 ; jz 0x1004 ; mov al, 1
    memory
        .add_region(
            0x1000,
            RX,
            vec![0x89, 0xC3, 0x01, 0xD8, 0xEB, 0xFA, 0x74, 0xFC, 0xB0, 0x01],
            String::new(),
        )
        .unwrap();
    let superset = ExecutableSample::new(memory, AddressClasses::new()).into_superset();
    let mov = superset.superset[0].1;
    assert_eq!(mov.size, 2);
    assert_eq!(members(mov.uses), vec![UsedRegister::Eax]);
    assert_eq!(members(mov.defines), vec![UsedRegister::Ebx]);
    assert!(mov.falls_through);
    let add = superset.superset[2].1;
    assert_eq!(members(add.uses), vec![UsedRegister::Eax, UsedRegister::Ebx]);
    assert_eq!(members(add.defines), vec![
        UsedRegister::Eax,
        UsedRegister::Cf,
        UsedRegister::Pf,
        UsedRegister::Af,
        UsedRegister::Zf,
        UsedRegister::Sf,
    ]);
    let jmp = superset.superset[4].1;
    assert_eq!(jmp.jump_target, Some(0x1000));
    assert!(!jmp.falls_through);
    let jz = superset.superset[6].1;
    assert_eq!(jz.jump_target, Some(0x1004));
    assert!(jz.falls_through);
    assert_eq!(members(jz.uses), vec![UsedRegister::Zf]);
    // A write to a part of a register counts as a write to the register.
    let mov_al = superset.superset[8].1;
    assert_eq!(members(mov_al.defines), vec![UsedRegister::Eax]);
    assert_eq!(members(mov_al.uses), vec![]);
}

fn edges_of(graph: &GraphSample, kind: RelationType) -> Vec<(u32, u32)> {
    graph
        .graph
        .edges
        .iter()
        .zip(graph.graph.edge_types.iter())
        .filter(|(_, t)| **t == kind)
        .map(|(e, _)| *e)
        .collect()
}

#[test]
fn lexical_edges_of_a_small_region() {
    let graph = small_sample().into_graph();
    assert_eq!(graph.superset.len(), 4);
    assert_eq!(edges_of(&graph, RelationType::Next), vec![(0, 1), (1, 2)]);
    assert_eq!(edges_of(&graph, RelationType::Previous), vec![(1, 0), (2, 1)]);
    assert_eq!(edges_of(&graph, RelationType::Overlap), vec![]);
    assert_eq!(edges_of(&graph, RelationType::JumpTo), vec![]);
    assert_eq!(edges_of(&graph, RelationType::JumpFrom), vec![]);
    assert_eq!(graph.graph.edges.len(), graph.graph.edge_types.len());
    let mut sorted = graph.graph.edges.clone();
    sorted.sort();
    assert_eq!(graph.graph.edges, sorted);
}

fn feature(size: u8, uses: &[UsedRegister], defines: &[UsedRegister]) -> InstructionFeature {
    InstructionFeature {
        size,
        code: 7,
        jump_target: None,
        falls_through: true,
        uses: registers(uses),
        defines: registers(defines),
    }
}

#[test]
fn reaching_definitions_give_data_edges() {
    let superset = SupersetSample {
        superset: vec![
            (0, feature(2, &[], &[UsedRegister::Eax]), None),
            (2, feature(2, &[UsedRegister::Eax], &[UsedRegister::Ebx]), None),
            (4, feature(2, &[UsedRegister::Eax, UsedRegister::Ebx], &[UsedRegister::Eax]), None),
        ],
        source: Some("made by hand".to_string()),
    };
    let graph = superset.into_graph();
    assert_eq!(edges_of(&graph, RelationType::DataDependency), vec![(1, 0), (2, 0), (2, 1)]);
    assert_eq!(edges_of(&graph, RelationType::DataDependent), vec![(0, 1), (0, 2), (1, 2)]);
    assert_eq!(edges_of(&graph, RelationType::Next), vec![(0, 1), (1, 2)]);
    assert_eq!(edges_of(&graph, RelationType::Previous), vec![(1, 0), (2, 1)]);
    // Every byte inside a two-byte instruction would overlap, but nothing begins there.
    assert_eq!(edges_of(&graph, RelationType::Overlap), vec![]);
    assert_eq!(graph.source, Some("made by hand".to_string()));
    // Data edges are emitted first and the sort keeps the order of edges with the same ends.
    assert_eq!(graph.graph.edges, vec![
        (0, 1), (0, 1), (0, 2), (1, 0), (1, 0), (1, 2), (1, 2), (2, 0), (2, 1), (2, 1),
    ]);
    assert_eq!(graph.graph.edge_types[..2], [RelationType::DataDependent, RelationType::Next]);
}

#[test]
fn a_definition_is_killed_by_a_later_one_and_merged_over_branches() {
    let mut jump = feature(1, &[], &[]);
    jump.jump_target = Some(3);
    let mut stop = feature(1, &[], &[UsedRegister::Eax]);
    stop.falls_through = false;
    let superset = SupersetSample {
        superset: vec![
            (0, feature(1, &[], &[UsedRegister::Eax, UsedRegister::Ecx]), None),
            (1, jump, None),
            (2, stop, None),
            (3, feature(1, &[UsedRegister::Eax, UsedRegister::Ecx], &[UsedRegister::Eax]), None),
            (4, feature(1, &[UsedRegister::Eax], &[]), None),
        ],
        source: None,
    };
    let graph = superset.into_graph();
    // Position 3 is reached from 1 by the jump only: the definition at 2 does not reach it.
    assert_eq!(edges_of(&graph, RelationType::DataDependency), vec![(3, 0), (3, 0), (4, 3)]);
    assert_eq!(edges_of(&graph, RelationType::JumpTo), vec![(1, 3)]);
    assert_eq!(edges_of(&graph, RelationType::JumpFrom), vec![(3, 1)]);
    assert_eq!(edges_of(&graph, RelationType::Next), vec![(0, 1), (1, 2), (3, 4)]);
}

#[test]
fn overlap_and_backward_jumps() {
    let mut back = feature(3, &[UsedRegister::Eax], &[UsedRegister::Eax]);
    back.jump_target = Some(10);
    let superset = SupersetSample {
        superset: vec![
            (10, back, None),
            (11, feature(1, &[], &[]), None),
            (12, feature(1, &[UsedRegister::Eax], &[]), None),
            (13, feature(0, &[UsedRegister::Eax], &[]), None),
        ],
        source: None,
    };
    let graph = superset.into_graph();
    assert_eq!(edges_of(&graph, RelationType::Overlap), vec![(0, 1), (0, 2), (1, 0), (2, 0)]);
    // The jump of position 0 leads to itself: no state flows along it.
    assert_eq!(edges_of(&graph, RelationType::JumpTo), vec![(0, 0)]);
    assert_eq!(edges_of(&graph, RelationType::JumpFrom), vec![(0, 0)]);
    assert_eq!(edges_of(&graph, RelationType::Next), vec![(0, 3), (1, 2), (2, 3), (3, 3)]);
    assert_eq!(edges_of(&graph, RelationType::DataDependency), vec![(3, 0)]);
    for (edge, kind) in graph.graph.edges.iter().zip(graph.graph.edge_types.iter()) {
        let back = match kind {
            RelationType::Next => RelationType::Previous,
            RelationType::Previous => RelationType::Next,
            RelationType::Overlap => RelationType::Overlap,
            RelationType::JumpTo => RelationType::JumpFrom,
            RelationType::JumpFrom => RelationType::JumpTo,
            RelationType::DataDependency => RelationType::DataDependent,
            RelationType::DataDependent => RelationType::DataDependency,
        };
        assert!(edges_of(&graph, back).contains(&(edge.1, edge.0)));
    }
}

#[test]
fn register_sets() {
    assert_eq!(members(RegisterSet::empty()), vec![]);
    assert_eq!(members(registers(&[UsedRegister::Sf, UsedRegister::Eax, UsedRegister::Edi])), vec![UsedRegister::Eax, UsedRegister::Edi, UsedRegister::Sf]);
    assert_eq!(registers(&[UsedRegister::Eax, UsedRegister::Edi, UsedRegister::Sf]).bits(), 1 | 1 << 7 | 1 << 12);
    assert!(registers(&[UsedRegister::Eax, UsedRegister::Sf]).contains(UsedRegister::Sf));
    assert!(!registers(&[UsedRegister::Eax, UsedRegister::Sf]).contains(UsedRegister::Zf));
    assert_eq!(members(RegisterSet::from_rflags(0x3f)), vec![UsedRegister::Cf, UsedRegister::Pf, UsedRegister::Af, UsedRegister::Zf, UsedRegister::Sf]);
    assert_eq!(members(RegisterSet::from_rflags(0x10)), vec![UsedRegister::Cf]);
    assert_eq!(members(RegisterSet::from_rflags(0x01 | 0x40)), vec![]);
    assert_eq!(members(RegisterSet::from_decoder_register(37)), vec![UsedRegister::Eax]);
    assert_eq!(members(RegisterSet::from_decoder_register(44)), vec![UsedRegister::Edi]);
    assert_eq!(members(RegisterSet::from_decoder_register(45)), vec![]);
    assert_eq!(members(RegisterSet::from_decoder_register(36)), vec![]);
    assert_eq!(RegisterSet::from_bits(0x1fff).map(|s| members(s).len()), Some(13));
    assert_eq!(RegisterSet::from_bits(0x2000), None);
    for index in 0..13usize {
        assert_eq!(UsedRegister::from_index(index).map(|r| r.index()), Some(index as u16));
    }
    assert_eq!(UsedRegister::from_index(13), None);
}

/// Bytes that look like nothing in particular, the same at every run.
fn scrambled(len: usize, seed: u64) -> Vec<u8> {
    let mut state = seed;
    (0..len)
        .map(|_| {
            state = state.wrapping_mul(6364136223846793005).wrapping_add(1442695040888963407);
            (state >> 33) as u8
        })
        .collect()
}

#[test]
fn a_graph_of_scrambled_bytes_keeps_its_promises() {
    let mut memory = MemoryImage::new();
    memory.add_region(0x40_0000, RX, scrambled(3000, 1), String::new()).unwrap();
    memory.add_region(0x40_1000, RW, scrambled(100, 2), String::new()).unwrap();
    memory.add_region(0xffff_f000, RX, scrambled(0xfff, 3), String::new()).unwrap();
    let mut classes = AddressClasses::new();
    classes.true_instructions.push(Interval::from_start_and_end(0x40_0010, 0x40_0400));
    classes.true_instructions.push(Interval::from_start_and_end(0x40_0b00, 0x40_2000));
    let superset = ExecutableSample::new(memory, classes).into_superset();
    assert_eq!(superset.superset.len(), 3000 + 0xfff);
    for (i, entry) in superset.superset.iter().enumerate() {
        assert!((1..=15).contains(&entry.1.size));
        assert!(entry.2.is_some());
        let base = if i < 3000 { 0x40_0000 } else { 0xffff_f000 - 3000 };
        assert_eq!(entry.0 as usize, base + i);
        if entry.2 == Some(Label::Code) {
            assert!(entry.1.code != 0);
            assert!((0x40_0010..0x40_0400).contains(&entry.0) || (0x40_0b00..0x40_0bb8).contains(&entry.0));
        }
    }
    assert_eq!(superset.superset[0x10].2, Some(Label::Code));
    assert_eq!(superset.superset[0xb00].2, Some(Label::Code));
    let count = superset.superset.len() as u32;
    let entries = superset.superset.clone();
    let graph = superset.into_graph();
    assert!(graph.is_emittable());
    let mut sorted = graph.graph.edges.clone();
    sorted.sort();
    assert_eq!(graph.graph.edges, sorted);
    let find = |address: u64| entries.iter().position(|e| e.0 as u64 == address).map(|p| p as u32);
    let mut expected_next = Vec::new();
    for (i, entry) in entries.iter().enumerate() {
        if entry.1.falls_through {
            if let Some(next) = find(entry.0 as u64 + entry.1.size as u64) {
                expected_next.push((i as u32, next));
            }
        }
    }
    assert_eq!(edges_of(&graph, RelationType::Next), expected_next);
    let mut kinds = std::collections::HashMap::new();
    for (edge, kind) in graph.graph.edges.iter().zip(graph.graph.edge_types.iter()) {
        assert!(edge.0 < count && edge.1 < count);
        *kinds.entry((*edge, *kind)).or_insert(0usize) += 1;
        if *kind == RelationType::DataDependency {
            assert!(edge.1 < edge.0);
            let user = entries[edge.0 as usize].1;
            let definition = entries[edge.1 as usize].1;
            assert!(user.uses.bits() & definition.defines.bits() != 0);
        }
    }
    for ((edge, kind), n) in kinds.iter() {
        let back = match kind {
            RelationType::Next => RelationType::Previous,
            RelationType::Previous => RelationType::Next,
            RelationType::Overlap => RelationType::Overlap,
            RelationType::JumpTo => RelationType::JumpFrom,
            RelationType::JumpFrom => RelationType::JumpTo,
            RelationType::DataDependency => RelationType::DataDependent,
            RelationType::DataDependent => RelationType::DataDependency,
        };
        assert_eq!(kinds.get(&((edge.1, edge.0), back)), Some(n));
    }
}

#[test]
fn a_larger_region_goes_through() {
    let mut memory = MemoryImage::new();
    memory.add_region(0x1000, RX, scrambled(50_000, 7), String::new()).unwrap();
    let mut classes = AddressClasses::new();
    for start in (0x1000u32..0x1000 + 50_000).step_by(64) {
        classes.true_instructions.push(Interval::from_start_and_len(start, 40));
    }
    assert_eq!(classes.coverage(), 40 * 782);
    let superset = ExecutableSample::new(memory, classes).into_superset();
    assert_eq!(superset.superset.len(), 50_000);
    let graph = superset.into_graph();
    assert_eq!(graph.superset.len(), 50_000);
    assert_eq!(graph.graph.edges.len(), graph.graph.edge_types.len());
    assert!(graph.graph.edges.len() > 100_000);
    assert!(graph.graph.edges.windows(2).all(|pair| pair[0] <= pair[1]));
    let arrays = graph.to_arrays(&datatool::vocab::CodeVocab::new(vec![]));
    assert_eq!(arrays.relations.len(), 2 * arrays.relation_types.len());
    assert!(arrays.instruction_codes.iter().all(|&index| index == 0 || index == 1));
    assert!(arrays.instruction_sizes.iter().all(|&size| size < 15));
}
