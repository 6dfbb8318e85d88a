# cargo_fuzz_core

The logic of `cargo fuzz`, a cargo subcommand for fuzzing with libFuzzer, as a library whose
contracts are proved by Verus.

- `src/` is the library. It says which commands to run on a fuzz project (`command`, `project`,
  `replay`, `manifest`), turns what the replay of a corpus recorded into a call graph (`trace`,
  `symbols`, `symbol_cache`, `llvm_cov`, `documents`, `dot`), cuts the call graph into partitions
  and tasks (`coverage`, `linkage`, `placement`, `edge_placement`, `partition`, `tasks`,
  `partition_files`), and makes mutants of a fuzz target (`mutfuzz`). That the documents which it
  writes are read as what was written is shown in `read_back`, `symbol_cache` and
  `coverage_state`.
- `app/` is the program around it: the command line, files, processes, and the scores that are
  computed in floating point.
- `tests/` runs the library on concrete values.

What the library takes on trust from the crates that it calls stands in doc comments at the
functions that make the calls: `graph` (petgraph), `tree` (serde_json, toml), `symbols`
(rustc-demangle), `mutfuzz::disassemble` (object, iced-x86), `mutfuzz::mutate` (rand),
`placement` and `text` (std).
