//! Building blocks for labelled x86-32 disassembly datasets: interval sets of
//! ground-truth addresses, superset disassembly, the instruction graph with its
//! lexical and data-dependency relations, opcode vocabularies, and the
//! similarity-based train/test split.

pub mod address_index;
pub mod arrays;
pub mod classes;
pub mod components;
pub mod dataflow;
pub mod decoder;
pub mod elf;
pub mod evaluate;
pub mod feature;
pub mod fx_map;
pub mod graph;
pub mod ground_truth;
pub mod graph_laws;
pub mod graph_sample;
pub mod interval;
pub mod interval_set;
pub mod lines;
pub mod lst;
pub mod markers;
pub mod memory;
pub mod ngram;
pub mod numbers;
pub mod opcode_names;
pub mod order;
pub mod registers;
pub mod single_vec;
pub mod sources;
pub mod split;
pub mod superset;
pub mod tool_output;
pub mod tools;
pub mod vocab;
pub mod vocab_text;
