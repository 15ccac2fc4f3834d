use std::collections::BTreeSet;
use datatool::arrays::GraphArrays;
use datatool::evaluate::{evaluate_result, DisassemblyResult, EvaluationCounts};
use datatool::feature::{InstructionFeature, Label};
use datatool::graph::{Graph, RelationType};
use datatool::graph_sample::GraphSample;
use datatool::registers::RegisterSet;
use datatool::single_vec::{ReprMut, SingleVec};
use datatool::sources::{
    ByteWeightPlatform, ByteweightSourceInfo, DebianConfig, DebianConfigOpt, DebianSourceInfo, FetchConfig,
    SourceInfo, SpecificSourceInfo,
};
use datatool::superset::SupersetSample;
use datatool::tools::{
    DeepDiConfig, DisasmTool, DisasmToolConfig, DisasmToolName, DisasmToolWithConfig, IdaConfig,
    IdentifyX86Config,
};
use datatool::vocab::CodeVocab;

fn feature(size: u8, code: u16) -> InstructionFeature {
    InstructionFeature {
        size,
        code,
        jump_target: None,
        falls_through: true,
        uses: RegisterSet::empty(),
        defines: RegisterSet::empty(),
    }
}

fn set(items: &[u32]) -> BTreeSet<u32> {
    items.iter().copied().collect()
}

#[test]
fn predictions_are_sorted_by_truth() {
    let superset = SupersetSample {
        superset: vec![
            (10, feature(1, 1), Some(Label::Code)),
            (11, feature(1, 1), Some(Label::NotCode)),
            (12, feature(1, 1), Some(Label::Code)),
            (13, feature(1, 1), Some(Label::Code)),
        ],
        source: None,
    };
    let result = DisassemblyResult { predicted_instructions: set(&[10, 11, 13, 99]) };
    let evaluation = evaluate_result(&superset, &result);
    assert_eq!(evaluation.true_positives, set(&[10, 13]));
    assert_eq!(evaluation.false_positives, set(&[11, 99]));
    assert_eq!(evaluation.false_negatives, set(&[12]));
    assert_eq!(evaluation.counts(), EvaluationCounts {
        true_positives: 2,
        false_positives: 2,
        false_negatives: 1,
    });
    let nothing = evaluate_result(&superset, &DisassemblyResult { predicted_instructions: set(&[]) });
    assert_eq!(nothing.counts(), EvaluationCounts {
        true_positives: 0,
        false_positives: 0,
        false_negatives: 3,
    });
}

#[test]
fn graph_sort_is_stable_and_keeps_kinds() {
    let mut graph = Graph::new();
    graph.add_edge(2, 1, RelationType::Next);
    graph.add_edge(0, 5, RelationType::JumpTo);
    graph.add_edge(2, 1, RelationType::Overlap);
    graph.add_edge(0, 4, RelationType::Previous);
    graph.add_edge(2, 0, RelationType::DataDependency);
    graph.add_edge(2, 1, RelationType::JumpFrom);
    graph.sort();
    assert_eq!(graph.edges, vec![(0, 4), (0, 5), (2, 0), (2, 1), (2, 1), (2, 1)]);
    assert_eq!(graph.edge_types, vec![
        RelationType::Previous,
        RelationType::JumpTo,
        RelationType::DataDependency,
        RelationType::Next,
        RelationType::Overlap,
        RelationType::JumpFrom,
    ]);
    let codes: Vec<u8> = graph.edge_types.iter().map(|t| t.code()).collect();
    assert_eq!(codes, vec![1, 3, 5, 0, 2, 4]);
    assert_eq!(RelationType::DataDependent.code(), 6);
}

#[test]
fn arrays_of_a_graph() {
    let mut graph = Graph::new();
    graph.add_edge(0, 1, RelationType::Next);
    graph.add_edge(1, 0, RelationType::Previous);
    let sample = GraphSample {
        superset: vec![
            (feature(1, 40), Some(Label::Code)),
            (feature(15, 0), Some(Label::NotCode)),
            (feature(3, 77), Some(Label::Code)),
        ],
        graph,
        source: None,
    };
    assert!(sample.is_emittable());
    let arrays = sample.to_arrays(&CodeVocab::new(vec![9, 40]));
    assert_eq!(arrays, GraphArrays {
        instruction_sizes: vec![0, 14, 2],
        instruction_codes: vec![3, 0, 1],
        instruction_labels: Some(vec![1, 0, 1]),
        relation_types: vec![0, 1],
        relations: vec![0, 1, 1, 0],
    });
    let mut unlabelled = sample;
    unlabelled.superset[1].1 = None;
    assert_eq!(unlabelled.to_arrays(&CodeVocab::new(vec![])).instruction_labels, None);
    unlabelled.superset[0].0.size = 0;
    assert!(!unlabelled.is_emittable());
}

#[test]
fn single_vec_holds_items_in_order() {
    let mut items = SingleVec::new();
    assert_eq!(items.len(), 0);
    assert!(!items.contains(4));
    items.push(4);
    assert_eq!((items.len(), items.get(0)), (1, 4));
    items.push(9);
    items.push(4);
    assert_eq!(items.len(), 3);
    assert!(items.contains(9));
    assert!(!items.contains(5));
    let mut walk = items.iter();
    assert_eq!([walk.next(), walk.next(), walk.next(), walk.next()], [Some(4), Some(9), Some(4), None]);
    assert_eq!(items.duplicate(), items);
    items.clear();
    assert_eq!(items.len(), 0);
    assert_eq!(SingleVec::from_single(3).iter().next(), Some(3));
    assert_eq!(SingleVec::from_vec(vec![1, 2]).get(1), 2);
    assert_eq!(ReprMut::from_vec(Box::new(vec![1, 2])), ReprMut::Vec(Box::new(vec![1, 2])));
    assert_eq!(SingleVec::default().len(), 0);
}

fn tool_config() -> DisasmToolConfig {
    DisasmToolConfig {
        ida: IdaConfig { ida_path: "/opt/ida/idat".to_string(), show_output: true },
        deepdi: DeepDiConfig { drm_key: "key".to_string(), image_name: "deepdi".to_string() },
        identify_x86: IdentifyX86Config {
            model_path: "model.pt".to_string(),
            code_vocab_path: "code.vocab".to_string(),
            image_name: "identify".to_string(),
        },
    }
}

#[test]
fn a_tool_takes_its_own_settings() {
    let config = tool_config();
    assert_eq!(DisasmToolName::Ida.with_config(&config), DisasmToolWithConfig::Ida(config.ida.clone()));
    assert_eq!(
        DisasmToolName::Deepdi.with_config(&config),
        DisasmToolWithConfig::Deepdi(config.deepdi.clone())
    );
    assert_eq!(
        DisasmToolName::IdentifyX86.with_config(&config),
        DisasmToolWithConfig::IdentifyX86(config.identify_x86.clone())
    );
    for name in DisasmToolName::all() {
        assert_eq!(name.with_config(&config).name(), name);
    }
    assert_eq!(DisasmTool::Deepdi.name(), DisasmToolName::Deepdi);
    assert_eq!(DisasmTool::Ida.name(), DisasmToolName::Ida);
}

fn debian(packages: &[&str]) -> SpecificSourceInfo {
    SpecificSourceInfo::Debian(DebianSourceInfo {
        mirror: "http://deb.debian.org/debian".to_string(),
        debug_mirror: None,
        distribution: "buster".to_string(),
        debug_distribution: "buster-debug".to_string(),
        arch: "i386".to_string(),
        packages: packages.iter().map(|p| p.to_string()).collect(),
    })
}

fn source(subdirectory: &str, specific: SpecificSourceInfo) -> SourceInfo {
    SourceInfo { subdirectory: subdirectory.to_string(), specific }
}

#[test]
fn sources_are_fetched_again_when_they_changed() {
    let byteweight =
        SpecificSourceInfo::Byteweight(ByteweightSourceInfo { experiments_path: "bw".to_string() });
    let config = FetchConfig {
        sources: vec![
            source("a", debian(&["bash", "zsh"])),
            source("b", debian(&["bash"])),
            source("c", byteweight.clone()),
            source("d", byteweight.clone()),
        ],
    };
    assert_eq!(config.duplicate_subdirectory(), None);
    let stamps = vec![Some(debian(&["bash", "zsh"])), Some(debian(&["bash", "zsh"])), None, Some(byteweight)];
    assert_eq!(config.outdated(&stamps), vec![1, 2]);
    assert!(config.sources[0].is_outdated(&Some(debian(&["zsh", "bash"]))));
    assert!(!config.sources[0].is_outdated(&stamps[0]));
    assert!(config.sources[2].is_outdated(&stamps[0]));
    let mut twice = config;
    twice.sources.push(source("b", debian(&[])));
    twice.sources.push(source("a", debian(&[])));
    assert_eq!(twice.duplicate_subdirectory(), Some(4));
}

#[test]
fn debian_settings() {
    let options = DebianConfigOpt {
        mirror: "m".to_string(),
        debug_mirror: "d".to_string(),
        no_debug_mirror: false,
        distribution: "bullseye".to_string(),
        arch: "i386".to_string(),
    };
    let with = DebianConfig::from_options(options.clone());
    assert_eq!(with.debug_mirror, Some("d".to_string()));
    assert_eq!((with.mirror.as_str(), with.distribution.as_str(), with.arch.as_str()), ("m", "bullseye", "i386"));
    let without = DebianConfig::from_options(DebianConfigOpt { no_debug_mirror: true, ..options });
    assert_eq!(without.debug_mirror, None);
    let default = DebianConfig::default();
    assert_eq!(default.mirror, "http://deb.debian.org/debian");
    assert_eq!(default.debug_mirror.as_deref(), Some("http://debug.mirrors.debian.org/debian-debug"));
    assert_eq!((default.distribution.as_str(), default.arch.as_str()), ("buster", "i386"));
    assert_eq!(ByteWeightPlatform::PeX86.name(), "pe-x86");
    assert_eq!(ByteWeightPlatform::ElfX86.name(), "elf-x86");
    assert_eq!(ByteWeightPlatform::all(), vec![ByteWeightPlatform::PeX86, ByteWeightPlatform::ElfX86]);
}
