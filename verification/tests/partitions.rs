use cargo_fuzz_core::coverage::{
    display_source_path, function_seed_hits, is_partitionable_source, is_shared_source,
    owned_functions, shared_functions, CoverageState, FunctionCoverage,
};
use cargo_fuzz_core::edge_placement::{EdgePlacement, EdgeScore};
use cargo_fuzz_core::graph::PartitionNode;
use cargo_fuzz_core::linkage::{
    build_partition_graph, node_metrics, partition_graph_fits, placed_functions, set_node_weights,
};
use cargo_fuzz_core::options::Partitioner;
use cargo_fuzz_core::ordered::{NameSet, SortedMap};
use cargo_fuzz_core::partition::{
    assign_seeds_to_partitions, compact_partition_plan, partition_graph, partitioning_fits,
    seed_terms, Partitioning, SeedTerm,
};
use cargo_fuzz_core::partition_files::{
    choose_partition_count, empty_plan, function_source, partition_outputs, task_outputs,
    write_partitions_json,
};
use cargo_fuzz_core::placement::{
    partition_for_hash, partitioner_name, random_partition, PartitionPlan, Standing,
    VertexPlacement, VertexScore,
};
use cargo_fuzz_core::tasks::{
    call_lists, entry_roots, expand_partition_tasks, shortest_predecessor_path, sorted_names,
    FunctionEdges,
};
use cargo_fuzz_core::trace::SeedTraceSummary;
use cargo_fuzz_core::tree::parse_json;
use petgraph::graph::{NodeIndex, UnGraph};
use std::hash::{Hash, Hasher};

type Coverage = SortedMap<String, FunctionCoverage>;

fn calls(list: &[(&str, &str, u64)]) -> FunctionEdges {
    let mut out: FunctionEdges = SortedMap::new();
    for (a, b, n) in list {
        out.insert((a.to_string(), b.to_string()), *n);
    }
    out
}

fn in_file(file: &str) -> FunctionCoverage {
    FunctionCoverage {
        count: 1,
        region_total: 1,
        region_covered: 1,
        line_total: 1,
        line_covered: 1,
        file: Some(file.to_string()),
    }
}

fn seed(path: &str, functions: &[&str]) -> SeedTraceSummary {
    let mut hits: SortedMap<String, u64> = SortedMap::new();
    for name in functions {
        hits.insert(name.to_string(), 1);
    }
    SeedTraceSummary {
        seed_path: path.to_string(),
        artifact_stem: path.rsplit('/').next().unwrap_or("").to_string(),
        function_hits: hits,
        edge_hits: Vec::new(),
    }
}

fn name_list(names: &NameSet) -> Vec<String> {
    (0..names.len()).map(|i| names.key_at(i).clone()).collect()
}

fn standing(score: f64, best: f64) -> Standing {
    if score > best {
        Standing::Higher
    } else if (score - best).abs() < f64::EPSILON {
        Standing::Near
    } else {
        Standing::Lower
    }
}

fn vertex_score(q: &VertexScore, partitioner: Partitioner) -> f64 {
    let affinity = q.ties.iter().map(|(_, w)| *w as f64).sum::<f64>();
    match partitioner {
        Partitioner::Ldg => affinity * (1.0 - q.load as f64 / q.capacity as f64).max(0.0),
        _ => {
            let alpha = q.total_edge_weight as f64 * (q.partition_count as f64).powf(0.5)
                / (q.total_weight as f64).powf(1.5);
            let heavier = (q.load + q.node_weight) as f64;
            affinity - alpha * (heavier.powf(1.5) - (q.load as f64).powf(1.5))
        }
    }
}

fn place_vertices(mut placement: VertexPlacement, partitioner: Partitioner) -> PartitionPlan {
    let mut best = f64::NEG_INFINITY;
    while let Some(q) = placement.question() {
        if q.partition == 0 {
            best = f64::NEG_INFINITY;
        }
        let score = vertex_score(&q, partitioner);
        if placement.answer(standing(score, best)) {
            best = score;
        }
    }
    placement.finish()
}

fn edge_score(q: &EdgeScore) -> f64 {
    let share = |present: bool, weight: u64| {
        if present {
            1.0 + weight as f64 / q.ends_weight as f64
        } else {
            0.0
        }
    };
    let locality =
        share(q.source_present, q.source_weight) + share(q.target_present, q.target_weight);
    let (max, min) = (q.max_load as f64, q.min_load as f64);
    let balance = if (max - min).abs() < f64::EPSILON {
        1.0
    } else {
        (max - q.load as f64) / (max - min + 1e-9)
    };
    locality + 2.0 * balance
}

fn place_edges(mut placement: EdgePlacement) -> PartitionPlan {
    let mut best = f64::NEG_INFINITY;
    while let Some(q) = placement.question() {
        if q.partition == 0 {
            best = f64::NEG_INFINITY;
        }
        let score = edge_score(&q);
        if placement.answer(standing(score, best)) {
            best = score;
        }
    }
    placement.finish()
}

fn cut(
    graph: &UnGraph<PartitionNode, u64>,
    count: usize,
    partitioner: Partitioner,
) -> PartitionPlan {
    assert!(partitioning_fits(graph, partitioner));
    match partition_graph(graph, count, partitioner) {
        Partitioning::Done(plan) => plan,
        Partitioning::Vertices(placement) => place_vertices(placement, partitioner),
        Partitioning::Edges(placement) => place_edges(placement),
    }
}

#[test]
fn builds_partition_graph_from_owned_nodes_only() {
    let func_edges = calls(&[("stage1", "stage2", 3), ("stage2", "memchr_naive", 2)]);

    let mut coverage: Coverage = SortedMap::new();
    for name in ["stage1", "stage2"] {
        coverage.insert(
            name.to_string(),
            FunctionCoverage {
                count: 3,
                region_total: 4,
                region_covered: 4,
                line_total: 4,
                line_covered: 4,
                file: Some(String::from("/tmp/work/src/lib.rs")),
            },
        );
    }
    coverage.insert(
        String::from("memchr_naive"),
        FunctionCoverage {
            count: 2,
            region_total: 1,
            region_covered: 1,
            line_total: 1,
            line_covered: 1,
            file: Some(String::from(
                "/rustc/toolchain/library/core/src/slice/memchr.rs",
            )),
        },
    );

    assert!(partition_graph_fits(&func_edges, &[], &coverage, "/tmp/work"));
    let graph = build_partition_graph(&func_edges, &[], &coverage, "/tmp/work");
    assert_eq!(graph.node_count(), 2);

    let plan = cut(&graph, 2, Partitioner::Ldg);
    assert_eq!(plan.partitions.len(), 2);
}

#[test]
fn compacts_empty_partitions_before_seed_assignment() {
    let plan = compact_partition_plan(PartitionPlan {
        algorithm: "ldg",
        partitions: vec![
            vec![String::from("branch_z")],
            Vec::new(),
            vec![String::from("branch_other")],
        ],
        loads: vec![5, 0, 7],
        seed_assignments: vec![Vec::new(), Vec::new(), Vec::new()],
        partition_edges: vec![Vec::new(), Vec::new(), Vec::new()],
    });

    assert_eq!(
        plan.partitions,
        vec![
            vec![String::from("branch_z")],
            vec![String::from("branch_other")],
        ]
    );
    assert_eq!(plan.loads, vec![5, 7]);
    assert_eq!(plan.seed_assignments.len(), 2);
    assert_eq!(plan.partition_edges.len(), 2);
}

#[test]
fn one_partition_is_left_when_all_are_empty() {
    let plan = compact_partition_plan(empty_plan(Partitioner::Hrdf, 3));
    assert_eq!(plan.algorithm, "hrdf");
    assert_eq!(plan.partitions, vec![Vec::<String>::new()]);
    assert_eq!(plan.loads, vec![0]);
    assert_eq!(plan.seed_assignments.len(), 1);
    assert_eq!(plan.partition_edges.len(), 1);
    assert_eq!(empty_plan(Partitioner::Ldg, 0).partitions.len(), 1);
}

#[test]
fn hrdf_replicates_boundary_nodes_instead_of_creating_islands() {
    let mut graph = UnGraph::<PartitionNode, u64>::new_undirected();
    let left = graph.add_node(PartitionNode {
        name: String::from("left"),
        weight: 10,
    });
    let hub = graph.add_node(PartitionNode {
        name: String::from("hub"),
        weight: 10,
    });
    let right = graph.add_node(PartitionNode {
        name: String::from("right"),
        weight: 10,
    });
    graph.add_edge(left, hub, 5);
    graph.add_edge(hub, right, 5);

    let plan = cut(&graph, 2, Partitioner::Hrdf);
    assert_eq!(plan.partitions.len(), 2);
    assert_eq!(plan.partition_edges.len(), 2);
    assert!(plan
        .partitions
        .iter()
        .all(|partition| partition.contains(&String::from("hub"))));
    assert!(
        plan.partition_edges.iter().all(|edges| !edges.is_empty()),
        "expected both HDRF partitions to own at least one edge: {:?}",
        plan.partition_edges
    );
}

#[test]
fn expands_partition_tasks_with_shared_path_context() {
    let func_edges = calls(&[
        ("__fuzz_target_impl", "stage1", 3),
        ("stage1", "stage2", 3),
        ("stage2", "memchr_naive", 2),
        ("memchr_naive", "branch_z", 2),
        ("stage2", "branch_other", 1),
        ("branch_z", "helper_len", 2),
        ("branch_z", "helper_first", 2),
        ("branch_other", "helper_len", 1),
    ]);

    let mut coverage: Coverage = SortedMap::new();
    for name in [
        "stage1",
        "stage2",
        "branch_z",
        "branch_other",
        "helper_len",
        "helper_first",
    ] {
        coverage.insert(String::from(name), in_file("/tmp/work/src/lib.rs"));
    }
    for name in [
        "__fuzz_target_impl",
        "fuzz_helper",
        "fuzz_helper::{closure#0}",
    ] {
        coverage.insert(
            String::from(name),
            in_file("/tmp/work/fuzz/fuzz_targets/demo.rs"),
        );
    }
    coverage.insert(
        String::from("memchr_naive"),
        in_file("/rustc/toolchain/library/core/src/slice/memchr.rs"),
    );
    let seed_summaries = vec![
        seed(
            "/tmp/work/seed-0",
            &["stage1", "stage2", "branch_other", "helper_len"],
        ),
        seed(
            "/tmp/work/seed-1",
            &["stage1", "stage2", "branch_z", "helper_len", "helper_first"],
        ),
        seed(
            "/tmp/work/seed-2",
            &["stage1", "stage2", "branch_z", "helper_len", "helper_first"],
        ),
    ];
    assert_eq!(seed_summaries[0].artifact_stem, "seed-0");
    assert_eq!(seed_summaries[1].artifact_stem, "seed-1");
    assert_eq!(seed_summaries[2].artifact_stem, "seed-2");
    let shared = shared_functions(&seed_summaries, &coverage, "/tmp/work");

    let partitions = vec![
        vec![String::from("branch_z"), String::from("helper_first")],
        vec![String::from("branch_other")],
    ];

    let mut expected = vec![
        String::from("__fuzz_target_impl"),
        String::from("fuzz_helper"),
        String::from("fuzz_helper::{closure#0}"),
        String::from("stage1"),
        String::from("stage2"),
        String::from("helper_len"),
    ];
    expected.sort();
    assert_eq!(name_list(&shared), expected);

    let expanded =
        expand_partition_tasks(&partitions, &func_edges, &coverage, "/tmp/work", &shared);
    assert_eq!(
        expanded[0],
        vec![
            String::from("__fuzz_target_impl"),
            String::from("branch_z"),
            String::from("helper_first"),
            String::from("helper_len"),
            String::from("stage1"),
            String::from("stage2"),
        ]
    );
    assert_eq!(
        expanded[1],
        vec![
            String::from("__fuzz_target_impl"),
            String::from("branch_other"),
            String::from("helper_len"),
            String::from("stage1"),
            String::from("stage2"),
        ]
    );
    assert!(!expanded[0].iter().any(|name| name == "fuzz_helper"));
    assert!(!expanded[1]
        .iter()
        .any(|name| name == "fuzz_helper::{closure#0}"));
}

#[test]
fn a_task_keeps_out_of_other_partitions() {
    let edges = calls(&[("root", "a", 1), ("a", "b", 1), ("b", "c", 1)]);
    let mut coverage: Coverage = SortedMap::new();
    for name in ["root", "a", "b", "c"] {
        coverage.insert(name.to_string(), in_file("src/lib.rs"));
    }
    let partitions = vec![vec!["a".to_string()], vec!["b".to_string()]];
    let shared: NameSet = SortedMap::new();
    let tasks = expand_partition_tasks(&partitions, &edges, &coverage, "/w", &shared);
    assert_eq!(tasks, vec![vec!["a".to_string()], vec!["b".to_string()]]);
}

#[test]
fn sources_are_told_apart() {
    assert!(is_partitionable_source(Some("/w/src/a.rs"), "/w"));
    assert!(!is_partitionable_source(Some("/work/src/a.rs"), "/w"));
    assert!(is_partitionable_source(Some("src/a.rs"), "/w"));
    assert!(!is_partitionable_source(None, "/w"));
    assert_eq!(display_source_path("/w/src/a.rs", "/w"), "src/a.rs");
    assert_eq!(display_source_path("/x/a.rs", "/w"), "/x/a.rs");
    assert_eq!(display_source_path("./src/a.rs", "/w"), "./src/a.rs");
    assert!(is_shared_source(Some("/w/src/main.rs"), "/w"));
    assert!(is_shared_source(Some("/w/fuzz/x.rs"), "/w"));
    assert!(is_shared_source(Some("fuzz_targets/x.rs"), "/w"));
    assert!(!is_shared_source(Some("/w/src/lib.rs"), "/w"));
    assert!(!is_shared_source(None, "/w"));
}

#[test]
fn what_most_seeds_reach_is_shared() {
    let mut coverage: Coverage = SortedMap::new();
    for name in ["four", "three", "none"] {
        coverage.insert(name.to_string(), in_file("src/lib.rs"));
    }
    coverage.insert("outside".to_string(), in_file("/other/lib.rs"));
    let seeds = vec![
        seed("0", &["four", "three", "outside"]),
        seed("1", &["four", "three", "outside"]),
        seed("2", &["four", "three", "outside"]),
        seed("3", &["four", "outside"]),
        seed("4", &["outside"]),
    ];
    assert_eq!(name_list(&shared_functions(&seeds, &coverage, "/w")), vec!["four"]);
    assert_eq!(name_list(&owned_functions(&coverage, "/w")), vec!["four", "none", "three"]);
    let hits = function_seed_hits(&seeds);
    assert_eq!(hits.get(&"four".to_string()), Some(&4));
    assert_eq!(hits.get(&"outside".to_string()), Some(&5));
    assert_eq!(hits.get(&"none".to_string()), None);
    assert!(shared_functions(&[], &coverage, "/w").is_empty());
}

#[test]
fn paths_to_entries_are_the_shortest() {
    let edges = calls(&[
        ("root", "a", 1),
        ("a", "b", 1),
        ("b", "t", 1),
        ("a", "t", 1),
        ("x", "t", 1),
    ]);
    assert_eq!(name_list(&entry_roots(&edges)), vec!["root", "x"]);
    let (callers, callees) = call_lists(&edges);
    assert_eq!(callees.get(&"a".to_string()).unwrap().len(), 2);
    let mut roots: NameSet = SortedMap::new();
    roots.insert("root".to_string(), ());
    let mut blocked: NameSet = SortedMap::new();
    assert_eq!(
        shortest_predecessor_path("t", &callers, &roots, &blocked),
        vec!["root", "a", "t"]
    );
    assert_eq!(shortest_predecessor_path("root", &callers, &roots, &blocked), vec!["root"]);
    blocked.insert("a".to_string(), ());
    assert_eq!(shortest_predecessor_path("t", &callers, &roots, &blocked), vec!["t"]);
    assert_eq!(sorted_names(&blocked), vec!["a"]);
    let circle = calls(&[("main", "a", 1), ("a", "main", 1), ("a", "x::main", 1), ("x::main", "a", 1)]);
    assert_eq!(name_list(&entry_roots(&circle)), vec!["main", "x::main"]);
}

fn weight(graph: &UnGraph<PartitionNode, u64>, a: usize, b: usize) -> Option<u64> {
    graph
        .find_edge(NodeIndex::new(a), NodeIndex::new(b))
        .and_then(|e| graph.edge_weight(e).copied())
}

#[test]
fn links_add_up_calls_and_common_seeds() {
    let edges = calls(&[("a", "b", 3), ("b", "a", 4), ("b", "c", 5), ("c", "out", 9)]);
    let mut coverage: Coverage = SortedMap::new();
    for name in ["a", "b", "c", "alone"] {
        coverage.insert(name.to_string(), in_file("src/lib.rs"));
    }
    coverage.insert("out".to_string(), in_file("/other/lib.rs"));
    let seeds = vec![
        seed("0", &["a", "b", "c", "out"]),
        seed("1", &["a", "c"]),
        seed("2", &[]),
        seed("3", &[]),
        seed("4", &[]),
    ];
    assert_eq!(
        name_list(&placed_functions(&edges, &seeds, &coverage, "/w")),
        vec!["a", "b", "c"]
    );
    assert!(partition_graph_fits(&edges, &seeds, &coverage, "/w"));
    let graph = build_partition_graph(&edges, &seeds, &coverage, "/w");
    assert_eq!(graph.node_count(), 3);
    assert_eq!(graph.edge_count(), 3);
    assert_eq!(graph[NodeIndex::new(1)].name, "b");
    assert_eq!(graph[NodeIndex::new(1)].weight, 1);
    assert_eq!(weight(&graph, 0, 1), Some(8));
    assert_eq!(weight(&graph, 1, 2), Some(6));
    assert_eq!(weight(&graph, 0, 2), Some(2));
    let much = calls(&[("a", "b", u64::MAX), ("b", "a", 1)]);
    assert!(!partition_graph_fits(&much, &[], &coverage, "/w"));
}

#[test]
fn metrics_and_weights_go_with_the_nodes() {
    let edges = calls(&[("a", "b", 3), ("c", "b", 4)]);
    let mut coverage: Coverage = SortedMap::new();
    for (name, total, covered) in [("a", 9, 4), ("b", 2, 3), ("c", 5, 5)] {
        let mut c = in_file("src/lib.rs");
        c.line_total = total;
        c.line_covered = covered;
        coverage.insert(name.to_string(), c);
    }
    let state = |line_covered: u64, no_gain_cycles: u64| CoverageState {
        line_covered,
        no_gain_cycles,
    };
    let mut before: SortedMap<String, CoverageState> = SortedMap::new();
    before.insert("a".to_string(), state(1, 0));
    before.insert("c".to_string(), state(99, 0));
    let mut now: SortedMap<String, CoverageState> = SortedMap::new();
    now.insert("c".to_string(), state(5, 7));
    let mut graph = build_partition_graph(&edges, &[], &coverage, "/w");
    let metrics = node_metrics(&graph, &edges, &coverage, &before, &now);
    let numbers: Vec<(u64, u64, u64)> =
        metrics.iter().map(|m| (m.residual, m.recent_gain, m.no_gain_cycles)).collect();
    assert_eq!(numbers, vec![(5, 3, 0), (0, 3, 0), (0, 0, 7)]);
    assert_eq!(metrics[1].callers, vec![0, 2]);
    assert!(metrics[0].callers.is_empty());
    set_node_weights(&mut graph, &[10, 20, 30]);
    assert_eq!(graph[NodeIndex::new(2)].weight, 30);
    assert_eq!(graph[NodeIndex::new(2)].name, "c");
    assert_eq!(graph.edge_count(), 2);
}

fn chain(weights: &[(&str, u64)], links: &[(u32, u32, u64)]) -> UnGraph<PartitionNode, u64> {
    let mut graph = UnGraph::<PartitionNode, u64>::new_undirected();
    for (name, weight) in weights {
        graph.add_node(PartitionNode { name: name.to_string(), weight: *weight });
    }
    for (a, b, w) in links {
        graph.add_edge(NodeIndex::new(*a as usize), NodeIndex::new(*b as usize), *w);
    }
    graph
}

#[test]
fn nodes_go_where_their_links_lead() {
    let graph = chain(
        &[("a", 10), ("b", 10), ("c", 10), ("d", 10)],
        &[(0, 1, 100), (2, 3, 100), (1, 2, 1)],
    );
    for partitioner in [Partitioner::Ldg, Partitioner::Fennel] {
        let plan = cut(&graph, 2, partitioner);
        assert_eq!(plan.algorithm, partitioner_name(partitioner));
        assert_eq!(plan.partitions, vec![vec!["a", "b"], vec!["c", "d"]]);
        assert_eq!(plan.loads, vec![20, 20]);
        assert!(plan.partition_edges.iter().all(Vec::is_empty));
    }
}

#[test]
fn a_question_tells_what_a_score_depends_on() {
    let graph = chain(&[("a", 5), ("b", 10), ("c", 3)], &[(0, 1, 7), (1, 2, 4)]);
    let mut placement = VertexPlacement::new(&graph, 2, Partitioner::Ldg);
    let q = placement.question().unwrap();
    assert_eq!((q.partition, q.load, q.node_weight, q.capacity), (0, 0, 10, 9));
    assert_eq!((q.total_weight, q.total_edge_weight, q.partition_count), (18, 11, 2));
    assert!(q.ties.is_empty());
    assert!(placement.answer(Standing::Higher));
    assert!(!placement.answer(Standing::Near));
    let q = placement.question().unwrap();
    assert_eq!((q.partition, q.load, q.node_weight), (0, 10, 5));
    assert_eq!(q.ties, vec![(1, 7)]);
    assert!(placement.answer(Standing::Higher));
    assert!(placement.answer(Standing::Near));
    let q = placement.question().unwrap();
    assert_eq!((q.partition, q.load, q.node_weight), (0, 10, 3));
    assert_eq!(q.ties, vec![(1, 4)]);
    placement.answer(Standing::Higher);
    let q = placement.question().unwrap();
    assert_eq!((q.partition, q.load), (1, 5));
    assert!(!placement.answer(Standing::Lower));
    assert!(placement.question().is_none());
    let plan = placement.finish();
    assert_eq!(plan.partitions, vec![vec!["b", "c"], vec!["a"]]);
    assert_eq!(plan.loads, vec![13, 5]);
    assert_eq!(plan.loads.iter().sum::<u64>(), 18);
}

#[test]
fn links_are_placed_heaviest_first() {
    let graph = chain(
        &[("a", 5), ("b", 10), ("c", 3), ("alone", 2)],
        &[(0, 1, 4), (2, 1, 7)],
    );
    let mut placement = EdgePlacement::new(&graph, 2);
    let q = placement.question().unwrap();
    assert_eq!((q.partition, q.source_weight, q.target_weight, q.ends_weight), (0, 3, 10, 13));
    assert!(!q.source_present && !q.target_present);
    placement.answer(Standing::Higher);
    placement.answer(Standing::Lower);
    let q = placement.question().unwrap();
    assert_eq!((q.load, q.max_load, q.min_load), (13, 13, 0));
    assert!(!q.source_present && q.target_present);
    placement.answer(Standing::Higher);
    placement.answer(Standing::Higher);
    assert!(placement.question().is_none());
    let plan = placement.finish();
    assert_eq!(plan.algorithm, "hrdf");
    assert_eq!(plan.partitions, vec![vec!["alone", "b", "c"], vec!["a", "b"]]);
    assert_eq!(plan.loads, vec![15, 15]);
    let pair = |a: &str, b: &str| (a.to_string(), b.to_string());
    assert_eq!(plan.partition_edges, vec![vec![pair("b", "c")], vec![pair("a", "b")]]);
}

#[test]
fn random_places_come_from_the_hash() {
    for name in ["a", "b", "some::function"] {
        let mut hasher = std::collections::hash_map::DefaultHasher::new();
        name.hash(&mut hasher);
        let hash = hasher.finish();
        assert_eq!(partition_for_hash(hash, 5), (hash as usize) % 5);
        assert_eq!(random_partition(name, 5), (hash as usize) % 5);
    }
    let graph = chain(&[("a", 1), ("b", 1), ("c", 1)], &[]);
    let plan = cut(&graph, 2, Partitioner::Random);
    assert_eq!(plan.algorithm, "random");
    for name in ["a", "b", "c"] {
        assert!(plan.partitions[random_partition(name, 2)].contains(&name.to_string()));
    }
    assert_eq!(plan.partitions.iter().map(Vec::len).sum::<usize>(), 3);
}

#[test]
fn weights_that_are_too_large_are_noticed() {
    let graph = chain(&[("a", u64::MAX), ("b", 1)], &[]);
    assert!(!partitioning_fits(&graph, Partitioner::Ldg));
    assert!(!partitioning_fits(&graph, Partitioner::Hrdf));
    let graph = chain(&[("a", 1), ("b", 1)], &[(0, 1, u64::MAX), (0, 1, 1)]);
    assert!(!partitioning_fits(&graph, Partitioner::Fennel));
    assert!(partitioning_fits(&graph, Partitioner::Hrdf));
}

#[test]
fn the_number_of_partitions_is_chosen() {
    assert_eq!(choose_partition_count(8, 3), 3);
    assert_eq!(choose_partition_count(2, 3), 2);
    assert_eq!(choose_partition_count(8, 0), 1);
    assert_eq!(choose_partition_count(0, 3), 0);
}

fn plan_of(partitions: &[&[&str]]) -> PartitionPlan {
    PartitionPlan {
        algorithm: "ldg",
        partitions: partitions
            .iter()
            .map(|p| p.iter().map(|n| n.to_string()).collect())
            .collect(),
        loads: vec![1; partitions.len()],
        seed_assignments: vec![Vec::new(); partitions.len()],
        partition_edges: vec![Vec::new(); partitions.len()],
    }
}

#[test]
fn seeds_speak_for_partitions_that_they_reach() {
    let seeds = vec![seed("0", &["a", "b", "x"]), seed("1", &["a"])];
    let hits = function_seed_hits(&seeds);
    let plan = plan_of(&[&["a"], &["b", "c"]]);
    assert_eq!(
        seed_terms(&plan, &seeds[0], &hits),
        vec![vec![SeedTerm::Function { seeds: 2 }], vec![SeedTerm::Function { seeds: 1 }]]
    );
    let mut links = plan_of(&[&["a", "b"], &["b", "c"]]);
    links.partition_edges[0].push(("a".to_string(), "b".to_string()));
    let mut calling = seed("2", &["a", "b"]);
    calling.edge_hits.push((("b".to_string(), "a".to_string()), 7));
    calling.edge_hits.push((("b".to_string(), "c".to_string()), 9));
    assert_eq!(
        seed_terms(&links, &calling, &hits),
        vec![
            vec![SeedTerm::Link { count: 7, caller_seeds: 1, callee_seeds: 2 }],
            Vec::new()
        ]
    );
}

#[test]
fn seeds_go_to_the_best_partition() {
    let seeds = vec![seed("0", &[]), seed("1", &[]), seed("2", &[]), seed("3", &[])];
    let mut plan = plan_of(&[&["a"], &["b"], &["c"]]);
    let scores: Vec<Vec<u64>> = vec![vec![1, 5, 5], vec![1, 5, 5], vec![9, 5, 5], vec![0, 0, 0]];
    assign_seeds_to_partitions(&mut plan, &seeds, &scores);
    assert_eq!(plan.seed_assignments, vec![vec!["2"], vec!["1"], vec!["0", "3"]]);
    assert_eq!(plan.seed_assignments.iter().map(Vec::len).sum::<usize>(), 4);
}

#[test]
fn partitions_are_written() {
    let mut plan = plan_of(&[&["f"], &["g"]]);
    plan.loads = vec![3, 4];
    plan.seed_assignments[0] = vec!["c/\"s".to_string()];
    plan.partition_edges[1] = vec![("f".to_string(), "g".to_string())];
    let tasks = vec![vec!["f".to_string(), "m".to_string()], vec!["g".to_string()]];
    let mut shared: NameSet = SortedMap::new();
    shared.insert("m".to_string(), ());
    shared.insert("z".to_string(), ());
    let mut coverage: Coverage = SortedMap::new();
    coverage.insert("f".to_string(), in_file("/w/src/f.rs"));
    assert_eq!(function_source(&coverage, "/w", &"f".to_string()), "src/f.rs");
    assert_eq!(function_source(&coverage, "/w", &"g".to_string()), "<unknown>");
    let text = write_partitions_json(&plan, &tasks, &shared, &coverage, "/w");
    let read = parse_json(text.as_bytes()).unwrap();
    assert_eq!(read.text_at("partitioner"), Some("ldg"));
    assert_eq!(read.items_at("functions").unwrap()[0].text_at("source"), Some("src/f.rs"));
    assert_eq!(read.items_at("shared_function_ids").unwrap()[1].as_u64(), Some(3));
    let parts = read.items_at("partitions").unwrap();
    assert_eq!(parts[1].number_at("load"), Some(4));
    assert_eq!(parts[0].items_at("task_function_ids").unwrap().len(), 2);
    assert_eq!(parts[0].items_at("seeds").unwrap()[0].as_str(), Some("c/\"s"));
    assert_eq!(
        parts[1].items_at("partition_edges").unwrap()[0].text_at("caller"),
        Some("f")
    );
    assert_eq!(
        text,
        "{\n  \"partitioner\":\"ldg\",\n  \"functions\": [\n\
         \x20   {\"id\":0,\"name\":\"f\",\"source\":\"src/f.rs\"},\n\
         \x20   {\"id\":2,\"name\":\"g\",\"source\":\"<unknown>\"},\n\
         \x20   {\"id\":1,\"name\":\"m\",\"source\":\"<unknown>\"},\n\
         \x20   {\"id\":3,\"name\":\"z\",\"source\":\"<unknown>\"}\n\
         \x20 ],\n  \"shared_function_ids\": [\n    1,\n    3\n  ],\n  \"partitions\": [\n\
         \x20   {\"id\":1,\"load\":3,\"partition_functions\":[\n\
         \x20     {\"name\":\"f\",\"source\":\"src/f.rs\"}\n\
         \x20   ],\"task_function_ids\":[\n      0,\n      1\n    ],\"partition_edges\":[\n\
         \x20   ],\"seeds\":[\n      \"c/\\\"s\"\n    ]},\n\
         \x20   {\"id\":2,\"load\":4,\"partition_functions\":[\n\
         \x20     {\"name\":\"g\",\"source\":\"<unknown>\"}\n\
         \x20   ],\"task_function_ids\":[\n      2\n    ],\"partition_edges\":[\n\
         \x20     {\"caller\":\"f\",\"callee\":\"g\"}\n\
         \x20   ],\"seeds\":[\n    ]}\n  ]\n}\n"
    );
    let edges = calls(&[("f", "m", 1), ("m", "g", 2)]);
    let outputs = task_outputs(&plan, &tasks, &edges, &coverage, "/w");
    assert_eq!(outputs.len(), 1);
    assert_eq!(outputs[0].number, 1);
    assert_eq!(outputs[0].task, "src/f.rs:f\n<unknown>:m\n");
    assert_eq!(outputs[0].seeds, "c/\"s\n");
    assert_eq!(outputs[0].edges.len(), 1);
}

#[test]
fn seeds_tasks_and_documents_go_together() {
    let edges = calls(&[("root", "f", 1), ("f", "m", 1), ("m", "g", 2)]);
    let mut coverage: Coverage = SortedMap::new();
    for name in ["f", "g", "m"] {
        coverage.insert(name.to_string(), in_file("/w/src/lib.rs"));
    }
    let mut shared: NameSet = SortedMap::new();
    shared.insert("m".to_string(), ());
    let seeds = vec![seed("c/s", &["g"]), seed("c/t", &["g"])];
    let mut plan = plan_of(&[&["f"], &["g"]]);
    let scores: Vec<Vec<u64>> = vec![vec![0, 1], vec![0, 1]];
    let outputs =
        partition_outputs(&mut plan, &seeds, &scores, &edges, &coverage, &shared, "/w");
    assert_eq!(plan.seed_assignments, vec![Vec::new(), vec!["c/s", "c/t"]]);
    assert_eq!(outputs.tasks, vec![vec!["f", "m"], vec!["g", "m"]]);
    assert_eq!(outputs.written.len(), 1);
    assert_eq!(outputs.written[0].number, 2);
    assert_eq!(outputs.written[0].task, "src/lib.rs:g\nsrc/lib.rs:m\n");
    assert_eq!(outputs.written[0].seeds, "c/s\nc/t\n");
    assert_eq!(
        outputs.document,
        write_partitions_json(&plan, &outputs.tasks, &shared, &coverage, "/w")
    );
}
