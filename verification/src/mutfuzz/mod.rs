//! Fuzzing with mutants of the fuzz target: binaries in which conditional jumps were changed.

pub mod chances;
pub mod disassemble;
pub mod found;
pub mod mutate;
pub mod orchestrator;
