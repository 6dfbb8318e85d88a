use cargo_fuzz_core::coverage::{CoverageState, FunctionCoverage};
use cargo_fuzz_core::coverage_state::{
    build_coverage_state, load_coverage_state, write_coverage_state, CoverageStates,
};
use cargo_fuzz_core::documents::{call_graph_nodes, write_callgraph_json, write_seed_hits_json};
use cargo_fuzz_core::dot::{dot_escape, name_set, select_function_edges, write_dot_callgraph};
use cargo_fuzz_core::llvm_cov::{
    normalize_coverage_function_name, parse_llvm_cov_export, ExportError,
};
use cargo_fuzz_core::ordered::SortedMap;
use cargo_fuzz_core::symbol_cache::{load_symbol_cache, write_symbol_cache};
use cargo_fuzz_core::symbols::{
    function_name_at, missing_pcs, names_of, outermost_function, unique_pcs, SymbolTable,
};
use cargo_fuzz_core::tasks::FunctionEdges;
use cargo_fuzz_core::trace::{
    aggregate_function_edges, edges_of_document, function_edges_fit, merge_seed_traces, parse_edge_file,
    seed_artifact_stem, seed_jobs, seed_summaries_fit, seed_traces_fit, summarize_seed_traces,
    EdgeFileError, SeedTrace, SeedTraceSummary,
};
use cargo_fuzz_core::tree::{parse_json, Tree};

#[test]
fn the_last_named_frame_is_the_outermost() {
    let frames = |names: &[Option<&str>]| -> Vec<Option<String>> {
        names.iter().map(|name| name.map(str::to_string)).collect()
    };
    assert_eq!(outermost_function(&frames(&[Some("a"), Some("b"), None])), Some("b"));
    assert_eq!(outermost_function(&frames(&[Some("a"), None, Some("c")])), Some("c"));
    assert_eq!(outermost_function(&frames(&[None])), None);
    assert_eq!(outermost_function(&[]), None);
}

#[test]
fn parses_function_coverage_from_llvm_cov_export() {
    let json = br#"{
          "data": [{
            "functions": [
              {
                "name": "_RNvCs9jzkiEjFDR0_18run_with_callgraph6stage1",
                "count": 7,
                "filenames": ["src/lib.rs"],
                "regions": [
                  [1, 1, 1, 10, 7, 0, 0, 0],
                  [2, 1, 2, 10, 0, 0, 0, 0]
                ]
              }
            ]
          }]
        }"#;

    let parsed = parse_llvm_cov_export(json).ok().unwrap();
    let stage1 = parsed.get(&"run_with_callgraph::stage1".to_string()).unwrap();
    assert_eq!(stage1.count, 7);
    assert_eq!(stage1.region_total, 2);
    assert_eq!(stage1.region_covered, 1);
    assert_eq!(stage1.line_total, 2);
    assert_eq!(stage1.line_covered, 1);
    assert_eq!(stage1.file.as_deref(), Some("src/lib.rs"));
}

#[test]
fn normalizes_full_demangled_path_without_hashes() {
    assert_eq!(
        normalize_coverage_function_name("_RNvCs9jzkiEjFDR0_18run_with_callgraph6stage2"),
        "run_with_callgraph::stage2"
    );
    assert_eq!(normalize_coverage_function_name("plain_name"), "plain_name");
}

#[test]
fn two_entries_for_a_function_are_merged() {
    let json = br#"{"data": [
        {"functions": [
            {"name": "f", "count": 3, "regions": [[1, 0, 3, 0, 1], [3, 0, 4, 0, 0], [9, 0]]},
            {"name": "", "count": 9},
            {"count": 9}
        ]},
        {"other": 1},
        {"functions": [
            {"name": "f", "count": 2, "filenames": ["b.rs", "c.rs"],
             "regions": [[0, 0, 5, 0, 1], [7, 0, 2, 0, 1], "odd"]}
        ]}
    ]}"#;
    let parsed = parse_llvm_cov_export(json).ok().unwrap();
    assert_eq!(parsed.len(), 1);
    let f = parsed.get(&"f".to_string()).unwrap();
    assert_eq!((f.count, f.region_total, f.region_covered), (3, 2, 2));
    assert_eq!((f.line_total, f.line_covered), (4, 3));
    assert_eq!(f.file.as_deref(), Some("b.rs"));
    assert!(f.region_covered <= f.region_total && f.line_covered <= f.line_total);
}

#[test]
fn an_export_that_is_no_json_is_refused() {
    let r = parse_llvm_cov_export(b"{");
    assert!(matches!(r, Err(ExportError::NotJson)));
    assert_eq!(ExportError::NotJson.message(), "failed to parse llvm-cov JSON");
    assert!(parse_llvm_cov_export(b"[]").ok().unwrap().is_empty());
}

#[test]
fn seeds_are_named_after_their_files() {
    assert_eq!(seed_artifact_stem(7, "corpus/a b.txt"), "seed-00007-a_b_txt");
    assert_eq!(seed_artifact_stem(123456, "x-_9"), "seed-123456-x-_9");
    assert_eq!(seed_artifact_stem(0, "corpus/.."), "seed-00000-seed");
    assert_eq!(seed_artifact_stem(0, "é"), "seed-00000-_");
    let jobs = seed_jobs(vec!["c/a".to_string(), "c/a".to_string()]);
    assert_eq!(jobs[0].seed_path, "c/a");
    assert_eq!(jobs[0].artifact_stem, "seed-00000-a");
    assert_ne!(jobs[0].artifact_stem, jobs[1].artifact_stem);
}

fn trace(edges: &[(u32, u32, u64)], pcs: &[(u32, u64)]) -> SeedTrace {
    let mut t = SeedTrace {
        seed_path: "c/s".to_string(),
        artifact_stem: "seed-00000-s".to_string(),
        edges: SortedMap::new(),
        pc_table: SortedMap::new(),
    };
    for (a, b, n) in edges {
        t.edges.insert((*a, *b), *n);
    }
    for (g, pc) in pcs {
        t.pc_table.insert(*g, *pc);
    }
    t
}

#[test]
fn edge_files_are_read() {
    let json = br#"{"edges": [
        {"prev": 1, "cur": 2, "count": 3},
        {"prev": 1, "cur": 2, "count": 4},
        {"prev": 4294967296, "cur": 2, "count": 4},
        {"prev": 1, "count": 4}
    ], "pcs": [
        {"guard_id": 1, "pc": 100},
        {"guard_id": 1, "pc": 200},
        {"guard_id": 2, "pc": 300}
    ]}"#;
    let (edges, pcs) = parse_edge_file(json).ok().unwrap();
    assert_eq!(edges.len(), 1);
    assert_eq!(edges.get(&(1, 2)), Some(&7));
    assert_eq!(pcs.len(), 2);
    assert_eq!(pcs.get(&1), Some(&100));
    assert!(matches!(parse_edge_file(b"{"), Err(EdgeFileError::NotJson)));
    let document = cargo_fuzz_core::tree::parse_json(json).unwrap();
    assert_eq!(edges_of_document(&document).unwrap().0.get(&(1, 2)), Some(&7));
    let many = br#"{"edges": [
        {"prev": 1, "cur": 2, "count": 18446744073709551615},
        {"prev": 1, "cur": 2, "count": 1}
    ]}"#;
    assert!(matches!(parse_edge_file(many), Err(EdgeFileError::TooManyHits)));
}

#[test]
fn traces_of_seeds_are_added_up() {
    let traces = vec![
        trace(&[(1, 2, 3), (2, 1, 1)], &[(1, 100)]),
        trace(&[(1, 2, 4)], &[(1, 999), (2, 200)]),
    ];
    assert!(seed_traces_fit(&traces));
    let (edges, pcs) = merge_seed_traces(&traces);
    assert_eq!(edges.get(&(1, 2)), Some(&7));
    assert_eq!(edges.get(&(2, 1)), Some(&1));
    assert_eq!(pcs.get(&1), Some(&100));
    assert_eq!(pcs.get(&2), Some(&200));
    let much = vec![trace(&[(1, 2, u64::MAX)], &[]), trace(&[(1, 2, 1)], &[])];
    assert!(!seed_traces_fit(&much));
}

fn names() -> SymbolTable {
    let mut table: SymbolTable = SortedMap::new();
    table.insert(100, "f".to_string());
    table.insert(200, "g".to_string());
    table.insert(300, "f".to_string());
    table
}

#[test]
fn transitions_become_calls() {
    let t = trace(
        &[(1, 2, 3), (3, 2, 4), (1, 3, 9), (2, 7, 1), (7, 2, 2)],
        &[(1, 100), (2, 200), (3, 300)],
    );
    assert!(function_edges_fit(&t.edges, &t.pc_table, &names()));
    let calls = aggregate_function_edges(&t.edges, &t.pc_table, &names());
    let pair = |a: &str, b: &str| (a.to_string(), b.to_string());
    assert_eq!(calls.len(), 3);
    assert_eq!(calls.get(&pair("f", "g")), Some(&7));
    assert_eq!(calls.get(&pair("g", "guard_7")), Some(&1));
    assert_eq!(calls.get(&pair("guard_7", "g")), Some(&2));
    assert!((0..calls.len()).all(|i| calls.key_at(i).0 != calls.key_at(i).1));

    let traces = vec![t];
    assert!(seed_summaries_fit(&traces, &names()));
    let summaries = summarize_seed_traces(&traces, &names());
    assert_eq!(summaries[0].seed_path, "c/s");
    assert_eq!(
        summaries[0].edge_hits,
        vec![(pair("f", "g"), 7), (pair("g", "guard_7"), 1), (pair("guard_7", "g"), 2)]
    );
    assert_eq!(summaries[0].function_hits.get(&"g".to_string()), Some(&10));
    assert_eq!(summaries[0].function_hits.get(&"f".to_string()), Some(&7));
    assert_eq!(summaries[0].function_hits.get(&"guard_7".to_string()), Some(&3));
}

#[test]
fn sums_that_are_too_large_are_noticed() {
    let t = trace(&[(1, 2, u64::MAX), (3, 2, 1)], &[(1, 100), (2, 200), (3, 300)]);
    assert!(!function_edges_fit(&t.edges, &t.pc_table, &names()));
    let t = trace(&[(1, 2, u64::MAX), (2, 1, 1)], &[(1, 100), (2, 200)]);
    assert!(function_edges_fit(&t.edges, &t.pc_table, &names()));
    assert!(!seed_summaries_fit(&[t], &names()));
}

#[test]
fn addresses_get_names() {
    assert_eq!(
        function_name_at(16, Some("_RNvCs9jzkiEjFDR0_18run_with_callgraph6stage1"), Some("x")),
        "run_with_callgraph::stage1"
    );
    assert_eq!(function_name_at(16, None, Some("plain")), "plain");
    assert_eq!(function_name_at(16, None, Some("")), "unknown_0x10");
    assert_eq!(function_name_at(16, None, Some("__covrec_1")), "unknown_0x10");
    assert_eq!(function_name_at(255, None, None), "unknown_0xff");
}

#[test]
fn every_address_is_named_in_the_end() {
    let t = trace(&[], &[(1, 300), (2, 100), (3, 300), (4, 400)]);
    let pcs = unique_pcs(&t.pc_table);
    assert_eq!(pcs, vec![100, 300, 400]);
    let mut table = names();
    let missing = missing_pcs(&pcs, &table);
    assert_eq!(missing, vec![400]);
    for pc in missing {
        table.insert(pc, function_name_at(pc, None, None));
    }
    let kept = names_of(&table, &pcs);
    assert_eq!(kept.len(), 3);
    assert_eq!(kept.get(&400).map(String::as_str), Some("unknown_0x190"));
    assert_eq!(kept.get(&200), None);
}

#[test]
fn a_cache_of_names_is_read_back() {
    let text = write_symbol_cache(10, 20, &names());
    assert_eq!(
        text,
        "{\n  \"version\":2,\n  \"binary_size\":10,\n  \"binary_mtime_ns\":20,\n  \"symbols\": [\n\
         \x20   {\"pc\":100,\"name\":\"f\"},\n    {\"pc\":200,\"name\":\"g\"},\n\
         \x20   {\"pc\":300,\"name\":\"f\"}\n  ]\n}\n"
    );
    let same = load_symbol_cache(text.as_bytes(), 10, 20).unwrap();
    assert_eq!(same.len(), 3);
    assert_eq!(same.get(&200).map(String::as_str), Some("g"));
    assert!(load_symbol_cache(text.as_bytes(), 11, 20).unwrap().is_empty());
    assert!(load_symbol_cache(text.as_bytes(), 10, 21).unwrap().is_empty());
    let old = text.replace("\"version\":2", "\"version\":1");
    assert!(load_symbol_cache(old.as_bytes(), 10, 20).unwrap().is_empty());
    assert!(load_symbol_cache(b"{", 10, 20).is_none());
}

fn covered(line_covered: u64) -> FunctionCoverage {
    FunctionCoverage {
        count: 1,
        region_total: 4,
        region_covered: 2,
        line_total: 9,
        line_covered,
        file: Some("src/\"a\".rs".to_string()),
    }
}

#[test]
fn runs_without_a_gain_are_counted() {
    let mut coverage: SortedMap<String, FunctionCoverage> = SortedMap::new();
    coverage.insert("gains".to_string(), covered(3));
    coverage.insert("stays".to_string(), covered(3));
    coverage.insert("full".to_string(), covered(3));
    coverage.insert("new".to_string(), covered(0));
    let mut before: CoverageStates = SortedMap::new();
    let state = |line_covered: u64, no_gain_cycles: u64| CoverageState {
        line_covered,
        no_gain_cycles,
    };
    before.insert("gains".to_string(), state(2, 5));
    before.insert("stays".to_string(), state(3, 5));
    before.insert("full".to_string(), state(4, u64::MAX));
    before.insert("gone".to_string(), state(4, 1));
    let after = build_coverage_state(&coverage, &before);
    let of = |name: &str| {
        let s = after.get(&name.to_string()).unwrap();
        (s.line_covered, s.no_gain_cycles)
    };
    assert_eq!(after.len(), 4);
    assert_eq!(of("gains"), (3, 0));
    assert_eq!(of("stays"), (3, 6));
    assert_eq!(of("full"), (3, u64::MAX));
    assert_eq!(of("new"), (0, 1));

    let text = write_coverage_state(&after);
    assert!(text.starts_with(
        "{\n  \"functions\": [\n    {\"name\":\"full\",\"line_covered\":3,\"no_gain_cycles\":"
    ));
    let again = load_coverage_state(text.as_bytes()).unwrap();
    assert_eq!(again.len(), 4);
    assert_eq!(again.get(&"stays".to_string()).map(|s| s.no_gain_cycles), Some(6));
    assert!(load_coverage_state(b"{").is_none());
    let partial = load_coverage_state(br#"{"functions": [{"name": "f"}, {"line_covered": 1}]}"#);
    let partial = partial.unwrap();
    assert_eq!(partial.len(), 1);
    assert_eq!(partial.get(&"f".to_string()).map(|s| s.line_covered), Some(0));
}

fn calls(list: &[(&str, &str, u64)]) -> FunctionEdges {
    let mut out: FunctionEdges = SortedMap::new();
    for (a, b, n) in list {
        out.insert((a.to_string(), b.to_string()), *n);
    }
    out
}

#[test]
fn a_call_graph_is_written() {
    let edges = calls(&[("f", "g", 3), ("a\"b", "f", 1)]);
    assert_eq!(call_graph_nodes(&edges).len(), 3);
    let mut coverage: SortedMap<String, FunctionCoverage> = SortedMap::new();
    coverage.insert("f".to_string(), covered(3));
    let mut ratios: SortedMap<String, String> = SortedMap::new();
    for name in ["f", "g", "a\"b"] {
        let ratio = if name == "f" { "0.500000" } else { "0.000000" };
        ratios.insert(name.to_string(), ratio.to_string());
    }
    let text = write_callgraph_json(&edges, &coverage, &ratios);
    let read = parse_json(text.as_bytes()).unwrap();
    let nodes = read.items_at("nodes").unwrap();
    assert_eq!(nodes.len(), 3);
    assert_eq!(nodes[0].text_at("name"), Some("a\"b"));
    assert!(matches!(nodes[0].get("file"), Some(Tree::Null)));
    assert!(matches!(nodes[1].get("coverage_ratio"), Some(Tree::Other)));
    assert_eq!(nodes[1].number_at("region_covered"), Some(2));
    assert_eq!(nodes[1].text_at("file"), Some("src/\"a\".rs"));
    let read_edges = read.items_at("edges").unwrap();
    assert_eq!(read_edges[1].text_at("callee"), Some("g"));
    assert_eq!(read_edges[1].number_at("count"), Some(3));
    assert_eq!(
        text,
        "{\n  \"nodes\": [\n\
         \x20   {\"name\":\"a\\\"b\",\"count\":0,\"region_total\":0,\"region_covered\":0,\"coverage_ratio\":0.000000,\"file\":null},\n\
         \x20   {\"name\":\"f\",\"count\":1,\"region_total\":4,\"region_covered\":2,\"coverage_ratio\":0.500000,\"file\":\"src/\\\"a\\\".rs\"},\n\
         \x20   {\"name\":\"g\",\"count\":0,\"region_total\":0,\"region_covered\":0,\"coverage_ratio\":0.000000,\"file\":null}\n\
         \x20 ],\n  \"edges\": [\n\
         \x20   {\"caller\":\"a\\\"b\",\"callee\":\"f\",\"count\":1},\n\
         \x20   {\"caller\":\"f\",\"callee\":\"g\",\"count\":3}\n  ]\n}\n"
    );
}

#[test]
fn a_call_graph_is_drawn() {
    assert_eq!(dot_escape("a\"b\\"), "a\\\"b\\");
    let edges = calls(&[("f", "g", 3), ("a\"b", "f", 8)]);
    let mut widths: SortedMap<u64, String> = SortedMap::new();
    widths.insert(3, "1.5".to_string());
    widths.insert(8, "3".to_string());
    assert_eq!(
        write_dot_callgraph(&edges, &widths),
        "digraph callgraph {\n    rankdir=LR;\n\
         \x20   node [shape=box, style=filled, fillcolor=lightyellow];\n\n\
         \x20   \"a\\\"b\" [label=\"a\\\"b\"];\n    \"f\" [label=\"f\"];\n    \"g\" [label=\"g\"];\n\n\
         \x20   \"a\\\"b\" -> \"f\" [label=\"8\", penwidth=3];\n\
         \x20   \"f\" -> \"g\" [label=\"3\", penwidth=1.5];\n}\n"
    );
    let some = vec!["f".to_string(), "g".to_string(), "f".to_string()];
    let selected = select_function_edges(&edges, &some);
    assert_eq!(selected.len(), 1);
    assert_eq!(name_set(&some).len(), 2);
}

#[test]
fn hits_of_seeds_are_written() {
    let mut hits: SortedMap<String, u64> = SortedMap::new();
    hits.insert("g".to_string(), 2);
    hits.insert("f".to_string(), 2);
    let seeds = vec![
        SeedTraceSummary {
            seed_path: "c/s".to_string(),
            artifact_stem: "seed-00000-s".to_string(),
            function_hits: hits,
            edge_hits: vec![(("g".to_string(), "f".to_string()), 2)],
        },
        SeedTraceSummary {
            seed_path: "c/t".to_string(),
            artifact_stem: "seed-00001-t".to_string(),
            function_hits: SortedMap::new(),
            edge_hits: vec![(("a".to_string(), "g".to_string()), 1)],
        },
    ];
    let text = write_seed_hits_json(&seeds);
    let read = parse_json(text.as_bytes()).unwrap();
    let functions = read.items_at("functions").unwrap();
    assert_eq!(functions[0].text_at("name"), Some("a"));
    assert_eq!(functions[0].number_at("id"), Some(2));
    let read_seeds = read.items_at("seeds").unwrap();
    assert_eq!(read_seeds[0].text_at("artifact"), Some("seed-00000-s"));
    assert_eq!(read_seeds[0].items_at("function_ids").unwrap()[1].as_u64(), Some(1));
    assert_eq!(read_seeds[1].items_at("edges").unwrap()[0].number_at("caller_id"), Some(2));
    assert_eq!(
        text,
        "{\n  \"functions\": [\n    {\"id\":2,\"name\":\"a\"},\n    {\"id\":0,\"name\":\"f\"},\n\
         \x20   {\"id\":1,\"name\":\"g\"}\n  ],\n  \"seeds\": [\n\
         \x20   {\"seed\":\"c/s\",\"artifact\":\"seed-00000-s\",\"function_ids\":[\n      0,\n      1\n\
         \x20   ],\"edges\":[\n      {\"caller_id\":1,\"callee_id\":0,\"count\":2}\n    ]},\n\
         \x20   {\"seed\":\"c/t\",\"artifact\":\"seed-00001-t\",\"function_ids\":[\n    ],\"edges\":[\n\
         \x20     {\"caller_id\":2,\"callee_id\":1,\"count\":1}\n    ]}\n  ]\n}\n"
    );
}
