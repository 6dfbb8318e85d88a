//! What the command line asks for.

use vstd::prelude::*;

verus! {

/// The graph partitioning algorithms.
#[derive(Clone, Copy, Debug, PartialEq, Eq, Structural)]
pub enum Partitioner {
    Ldg,
    Fennel,
    Hrdf,
    Random,
}

/// The sanitizers that a target can be built with.
#[derive(Clone, Copy, Debug, PartialEq, Eq, Structural)]
pub enum Sanitizer {
    Address,
    Leak,
    Memory,
    Thread,
    /// No sanitizer.
    Off,
}

/// The name of a sanitizer, as the compiler takes it.
pub open spec fn sanitizer_text(sanitizer: Sanitizer) -> Seq<char> {
    match sanitizer {
        Sanitizer::Address => "address"@,
        Sanitizer::Leak => "leak"@,
        Sanitizer::Memory => "memory"@,
        Sanitizer::Thread => "thread"@,
        Sanitizer::Off => "none"@,
    }
}

impl Sanitizer {
    pub fn name(self) -> (r: &'static str)
        ensures
            r@ == sanitizer_text(self),
    {
        match self {
            Sanitizer::Address => "address",
            Sanitizer::Leak => "leak",
            Sanitizer::Memory => "memory",
            Sanitizer::Thread => "thread",
            Sanitizer::Off => "none",
        }
    }
}

/// Whether a target is compiled or only checked.
#[derive(Clone, Copy, Debug, PartialEq, Eq, Structural)]
pub enum BuildMode {
    Build,
    Check,
}

/// How a target is built.
pub struct BuildOptions {
    /// Build without optimizations.
    pub dev: bool,
    /// Build with optimizations and without debug assertions.
    pub release: bool,
    pub debug_assertions: bool,
    pub verbose: bool,
    pub no_default_features: bool,
    pub all_features: bool,
    pub features: Option<String>,
    pub sanitizer: Sanitizer,
    pub build_std: bool,
    pub careful_mode: bool,
    /// The platform to build for.
    pub triple: String,
    pub unstable_flags: Vec<String>,
    pub target_dir: Option<String>,
    /// Build for a report of coverage.
    pub coverage: bool,
    pub strip_dead_code: Option<Option<bool>>,
    pub disable_branch_folding: Option<Option<bool>>,
    pub no_cfg_fuzzing: bool,
    pub no_trace_compares: bool,
    pub trace_div: bool,
    pub trace_gep: bool,
    pub no_include_main_msvc: bool,
    pub codegen_units: Option<u32>,
}

/// What `cargo fuzz callgraph` was asked for.
pub struct Callgraph {
    pub build: BuildOptions,
    /// The fuzz target.
    pub target: String,
    /// Where to look for seeds, if not in the corpus of the target.
    pub corpus: Vec<String>,
    pub fuzz_dir: Option<String>,
    /// Where the tools of LLVM are.
    pub llvm_path: Option<String>,
    /// How many seeds to replay at a time.
    pub jobs: u16,
    /// How many partitions to make at most.
    pub partitions: u16,
    pub partitioner: Partitioner,
    /// What else to pass to the target.
    pub args: Vec<String>,
}

/// What `cargo fuzz mutfuzz` was asked for, but for the share of the time that mutants get.
pub struct MutFuzz {
    pub build: BuildOptions,
    /// The fuzz target.
    pub target: String,
    pub corpus: Vec<String>,
    pub fuzz_dir: Option<String>,
    /// How many seconds to fuzz in all.
    pub budget: u64,
    /// How many seconds to fuzz each mutant.
    pub time_per_mutant: u64,
    /// How many jumps to change in a mutant.
    pub order: usize,
    /// Whether no mutant is tried again as long as there are others.
    pub avoid_repeats: bool,
    /// Patterns for the functions to change.
    pub only_mutate: Option<String>,
    /// Patterns for the functions not to change.
    pub avoid_mutating: Option<String>,
    pub seed: Option<u64>,
    /// How many processes fuzz when no mutant is fuzzed.
    pub jobs: u16,
    /// What else to pass to the target.
    pub args: Vec<String>,
}

} // verus!
