//! The verified core of a fuzzing front end: what `cargo fuzz` decides and computes.

pub mod asked;
pub mod callgraph_shim;
pub mod command;
pub mod coverage;
pub mod coverage_state;
pub mod documents;
pub mod dot;
pub mod edge_placement;
pub mod flags;
pub mod flat;
pub mod graph;
pub mod homes;
pub mod ids;
pub mod json;
pub mod layout;
pub mod linkage;
pub mod links;
pub mod llvm_cov;
pub mod loads;
pub mod manifest;
pub mod mutfuzz;
pub mod noted;
pub mod options;
pub mod ordered;
pub mod partition;
pub mod partition_files;
pub mod paths;
pub mod pieces;
pub mod placement;
pub mod places;
pub mod project;
pub mod ranking;
pub mod read_back;
pub mod replay;
pub mod results;
pub mod sums;
pub mod symbol_cache;
pub mod symbols;
pub mod tally;
pub mod tasks;
pub mod text;
pub mod trace;
pub mod tree;
pub mod versions;
pub mod wording;
pub mod written;
