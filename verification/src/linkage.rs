//! How the functions that are to be placed are linked with each other.

use crate::coverage::{
    is_owned, is_partitionable_source, is_shared, no_coverage, shared_functions, CoverageState,
    FunctionCoverage,
};
use crate::graph::{
    add_edge, add_node, connects, edge_count, edge_weight_mut, empty_graph, find_edge, graph_edges,
    graph_nodes, node_at, node_at_mut, node_count, PartitionNode,
};
use crate::ordered::{ascending, has_key, keys, lemma_has_key_take, Key, NameSet, SortedMap};
use crate::tasks::{ascending_names, endpoints, is_endpoint, EdgeModel, FunctionEdges};
use crate::text::{lemma_text_lt_irreflexive, lemma_text_lt_transitive, text_lt};
use crate::trace::SeedTraceSummary;
use petgraph::graph::UnGraph;
use vstd::prelude::*;

verus! {

/// A function is placed if it takes part in a call, belongs to the project, and is not shared.
pub open spec fn is_placed(
    edges: EdgeModel,
    seeds: Seq<SeedTraceSummary>,
    coverage: Map<Seq<char>, FunctionCoverage>,
    root: Seq<char>,
    name: Seq<char>,
) -> bool {
    is_endpoint(edges, name) && is_owned(coverage, root, name) && !is_shared(
        seeds,
        coverage,
        root,
        name,
    )
}

/// The functions that are placed, in ascending order.
pub fn placed_functions(
    func_edges: &FunctionEdges,
    seed_summaries: &[SeedTraceSummary],
    coverage_by_function: &SortedMap<String, FunctionCoverage>,
    workspace_root: &str,
) -> (r: NameSet)
    ensures
        r.ok(),
        forall|name: Seq<char>|
            #![trigger r@.contains_key(name)]
            r@.contains_key(name) <==> is_placed(
                func_edges@,
                seed_summaries@,
                coverage_by_function@,
                workspace_root@,
                name,
            ),
{
    let shared = shared_functions(seed_summaries, coverage_by_function, workspace_root);
    let (names, _called) = endpoints(func_edges);
    let mut out: NameSet = SortedMap::new();
    let n = names.len();
    let ghost all = names.seq();
    let mut i: usize = 0;
    while i < n
        invariant
            n == all.len(),
            all == names.seq(),
            i <= n,
            out.ok(),
            forall|k: Seq<char>|
                #![trigger shared@.contains_key(k)]
                shared@.contains_key(k) <==> is_shared(
                    seed_summaries@,
                    coverage_by_function@,
                    workspace_root@,
                    k,
                ),
            forall|k: Seq<char>|
                #![trigger out@.contains_key(k)]
                out@.contains_key(k) <==> has_key(all.take(i as int), k) && is_owned(
                    coverage_by_function@,
                    workspace_root@,
                    k,
                ) && !is_shared(seed_summaries@, coverage_by_function@, workspace_root@, k),
        decreases n - i,
    {
        let name = names.key_at(i);
        let ghost out0 = out@;
        if let Some(cov) = coverage_by_function.get(name) {
            if is_partitionable_source(cov.source(), workspace_root) && !shared.contains(name) {
                out.insert(name.clone(), ());
            }
        }
        proof {
            assert forall|k: Seq<char>|
                #![trigger out@.contains_key(k)]
                out@.contains_key(k) <==> has_key(all.take(i + 1), k) && is_owned(
                    coverage_by_function@,
                    workspace_root@,
                    k,
                ) && !is_shared(seed_summaries@, coverage_by_function@, workspace_root@, k) by {
                lemma_has_key_take(all, i as int, k);
                assert(out0.contains_key(k) <==> has_key(all.take(i as int), k) && is_owned(
                    coverage_by_function@,
                    workspace_root@,
                    k,
                ) && !is_shared(seed_summaries@, coverage_by_function@, workspace_root@, k));
            }
        }
        i = i + 1;
    }
    proof {
        assert(all.take(n as int) =~= all);
        assert forall|k: Seq<char>|
            #![trigger out@.contains_key(k)]
            out@.contains_key(k) <==> is_placed(
                func_edges@,
                seed_summaries@,
                coverage_by_function@,
                workspace_root@,
                k,
            ) by {
            assert(names@.contains_key(k) <==> is_endpoint(func_edges@, k));
        }
    }
    out
}

/// How often the two functions were seen calling each other, in either direction, if at all.
pub open spec fn calls_between(
    calls: Seq<((Seq<char>, Seq<char>), u64)>,
    a: Seq<char>,
    b: Seq<char>,
) -> Option<nat>
    decreases calls.len(),
{
    if calls.len() == 0 {
        None
    } else {
        let before = calls_between(calls.drop_last(), a, b);
        if calls.last().0 == (a, b) || calls.last().0 == (b, a) {
            Some(or_zero(before) + calls.last().1 as nat)
        } else {
            before
        }
    }
}

pub open spec fn or_zero(n: Option<nat>) -> nat {
    match n {
        Some(n) => n,
        None => 0,
    }
}

/// How many seeds reach both functions.
pub open spec fn joint_hits(seeds: Seq<SeedTraceSummary>, a: Seq<char>, b: Seq<char>) -> nat
    decreases seeds.len(),
{
    if seeds.len() == 0 {
        0
    } else {
        joint_hits(seeds.drop_last(), a, b) + (if seeds.last().function_hits@.contains_key(a)
            && seeds.last().function_hits@.contains_key(b) {
            1nat
        } else {
            0nat
        })
    }
}

/// The weight of the link between two functions, where there is one: the calls between them, and
/// the seeds that reach both.
pub open spec fn link_weight(
    calls: Seq<((Seq<char>, Seq<char>), u64)>,
    seeds: Seq<SeedTraceSummary>,
    a: Seq<char>,
    b: Seq<char>,
) -> Option<nat> {
    let direct = calls_between(calls, a, b);
    let joint = if a == b {
        0
    } else {
        joint_hits(seeds, a, b)
    };
    combined(direct, joint)
}

/// A link exists if there are calls or joint seeds; its weight counts both.
pub open spec fn combined(direct: Option<nat>, joint: nat) -> Option<nat> {
    if direct is None && joint == 0 {
        None
    } else {
        Some(or_zero(direct) + joint)
    }
}

/// The pairs of linked functions, by their places in `names`.
pub open spec fn links(
    calls: Seq<((Seq<char>, Seq<char>), u64)>,
    seeds: Seq<SeedTraceSummary>,
    names: Seq<Seq<char>>,
) -> Set<(int, int)> {
    Set::new(
        |p: (int, int)|
            0 <= p.0 <= p.1 < names.len() && link_weight(calls, seeds, names[p.0], names[p.1])
                is Some,
    )
}

/// Whether a graph with 32-bit node and edge numbers and 64-bit weights can hold the functions and
/// their links.
pub open spec fn graph_fits(
    calls: Seq<((Seq<char>, Seq<char>), u64)>,
    seeds: Seq<SeedTraceSummary>,
    names: Seq<Seq<char>>,
) -> bool {
    &&& names.len() <= u32::MAX
    &&& links(calls, seeds, names).len() <= u32::MAX
    &&& forall|x: int, y: int|
        #![trigger names[x], names[y]]
        0 <= x < names.len() && 0 <= y < names.len() ==> or_zero(
            link_weight(calls, seeds, names[x], names[y]),
        ) <= u64::MAX
}

/// The weight of the edge between two nodes, if there is one.
pub open spec fn edge_between(edges: Seq<(int, int, u64)>, x: int, y: int) -> Option<nat> {
    if exists|i: int| 0 <= i < edges.len() && #[trigger] connects(edges[i], x, y) {
        Some(
            edges[choose|i: int| 0 <= i < edges.len() && #[trigger] connects(edges[i], x, y)].2 as nat,
        )
    } else {
        None
    }
}

/// No two edges lie between the same nodes.
pub open spec fn simple_edges(edges: Seq<(int, int, u64)>) -> bool {
    forall|i: int, j: int|
        0 <= i < j < edges.len() ==> !connects(#[trigger] edges[i], (#[trigger] edges[j]).0, edges[j].1)
}

proof fn lemma_edge_between(edges: Seq<(int, int, u64)>, i: int, x: int, y: int)
    requires
        simple_edges(edges),
        0 <= i < edges.len(),
        connects(edges[i], x, y),
    ensures
        edge_between(edges, x, y) == Some(edges[i].2 as nat),
{
    let j = choose|j: int| 0 <= j < edges.len() && #[trigger] connects(edges[j], x, y);
    if i < j {
        assert(!connects(edges[i], edges[j].0, edges[j].1));
    } else if j < i {
        assert(!connects(edges[j], edges[i].0, edges[i].1));
    }
}

/// Whether {x, y} and {a, b} are the same pair.
spec fn same_pair(x: int, y: int, a: int, b: int) -> bool {
    (x == a && y == b) || (x == b && y == a)
}

/// What holds of the edges of the graph while it grows: the weights are those of `weight`, and
/// each edge runs between nodes of the graph.
spec fn edges_match(
    edges: Seq<(int, int, u64)>,
    n: int,
    weight: spec_fn(int, int) -> Option<nat>,
) -> bool {
    &&& simple_edges(edges)
    &&& forall|i: int|
        0 <= i < edges.len() ==> 0 <= (#[trigger] edges[i]).0 < n && 0 <= edges[i].1 < n
    &&& forall|x: int, y: int|
        0 <= x < n && 0 <= y < n ==> #[trigger] edge_between(edges, x, y) == weight(x, y)
}

proof fn lemma_pairs_finite(n: int, k: int)
    requires
        0 <= k,
    ensures
        Set::new(|p: (int, int)| 0 <= p.0 < k && 0 <= p.1 < n).finite(),
    decreases k,
{
    let all = Set::new(|p: (int, int)| 0 <= p.0 < k && 0 <= p.1 < n);
    if k == 0 {
        assert(all =~= Set::empty());
    } else {
        lemma_pairs_finite(n, k - 1);
        let before = Set::new(|p: (int, int)| 0 <= p.0 < k - 1 && 0 <= p.1 < n);
        let hi = if n < 0 {
            0
        } else {
            n
        };
        vstd::set_lib::lemma_int_range(0, hi);
        let row = vstd::set_lib::set_int_range(0, hi).map(|j: int| (k - 1, j));
        vstd::set_lib::set_int_range(0, hi).lemma_map_finite(|j: int| (k - 1, j));
        assert forall|p: (int, int)| all.contains(p) implies (before + row).contains(p) by {
            if p.0 == k - 1 {
                assert(vstd::set_lib::set_int_range(0, hi).contains(p.1));
            }
        }
        vstd::set_lib::lemma_set_subset_finite(before + row, all);
    }
}

spec fn ordered_pair(e: (int, int, u64)) -> (int, int) {
    if e.0 <= e.1 {
        (e.0, e.1)
    } else {
        (e.1, e.0)
    }
}

/// How many edges there are, counted by the pairs that they link.
proof fn lemma_count_edges(edges: Seq<(int, int, u64)>, all: Set<(int, int)>)
    requires
        simple_edges(edges),
        all.finite(),
        forall|i: int| 0 <= i < edges.len() ==> all.contains(ordered_pair(#[trigger] edges[i])),
    ensures
        edges.len() <= all.len(),
        forall|p: (int, int)|
            #![trigger all.contains(p)]
            all.contains(p) && edge_between(edges, p.0, p.1) is None ==> edges.len() < all.len(),
        (forall|p: (int, int)|
            #![trigger all.contains(p)]
            all.contains(p) ==> edge_between(edges, p.0, p.1) is Some && p.0 <= p.1) ==> edges.len()
            == all.len(),
{
    let pairs = Seq::new(edges.len(), |i: int| ordered_pair(edges[i]));
    assert(pairs.no_duplicates()) by {
        assert forall|i: int, j: int| 0 <= i < j < pairs.len() implies pairs[i] != pairs[j] by {
            assert(!connects(edges[i], edges[j].0, edges[j].1));
        }
    }
    pairs.unique_seq_to_set();
    assert forall|p: (int, int)| pairs.to_set().contains(p) implies all.contains(p) by {
        let i = pairs.index_of(p);
        assert(all.contains(ordered_pair(edges[i])));
    }
    vstd::set_lib::lemma_len_subset(pairs.to_set(), all);
    assert forall|p: (int, int)|
        #![trigger all.contains(p)]
        all.contains(p) && edge_between(edges, p.0, p.1) is None implies edges.len()
        < all.len() by {
        if pairs.to_set().contains(p) {
            let i = pairs.index_of(p);
            assert(connects(edges[i], p.0, p.1));
        }
        let more = pairs.to_set().insert(p);
        vstd::set_lib::lemma_len_subset(more, all);
    }
    if forall|p: (int, int)|
        #![trigger all.contains(p)]
        all.contains(p) ==> edge_between(edges, p.0, p.1) is Some && p.0 <= p.1 {
        assert forall|p: (int, int)| all.contains(p) implies pairs.to_set().contains(p) by {
            let i = choose|i: int| 0 <= i < edges.len() && #[trigger] connects(edges[i], p.0, p.1);
            assert(pairs[i] == p);
        }
        assert(pairs.to_set() =~= all);
    }
}

/// Adds `w` to the weight of the link between two nodes, unless the graph cannot hold it.
fn add_link(g: &mut UnGraph<PartitionNode, u64>, a: usize, b: usize, w: u64) -> (r: bool)
    requires
        a < graph_nodes(*old(g)).len(),
        b < graph_nodes(*old(g)).len(),
        simple_edges(graph_edges(*old(g))),
    ensures
        graph_nodes(*final(g)) == graph_nodes(*old(g)),
        r ==> simple_edges(graph_edges(*final(g))),
        r ==> forall|x: int, y: int| #[trigger]
            edge_between(graph_edges(*final(g)), x, y) == (if same_pair(x, y, a as int, b as int) {
                Some(or_zero(edge_between(graph_edges(*old(g)), a as int, b as int)) + w as nat)
            } else {
                edge_between(graph_edges(*old(g)), x, y)
            }),
        r ==> graph_edges(*final(g)).len() >= graph_edges(*old(g)).len(),
        r ==> forall|i: int|
            0 <= i < graph_edges(*final(g)).len() ==> if i < graph_edges(*old(g)).len() {
                (#[trigger] graph_edges(*final(g))[i]).0 == graph_edges(*old(g))[i].0
                    && graph_edges(*final(g))[i].1 == graph_edges(*old(g))[i].1
            } else {
                graph_edges(*final(g))[i].0 == a && graph_edges(*final(g))[i].1 == b
                    && edge_between(graph_edges(*old(g)), a as int, b as int) is None
            },
        !r ==> or_zero(edge_between(graph_edges(*old(g)), a as int, b as int)) + w > u64::MAX || (
        edge_between(graph_edges(*old(g)), a as int, b as int) is None && graph_edges(
            *old(g),
        ).len() >= u32::MAX),
{
    let ghost before = graph_edges(*g);
    let ghost (p, q) = (a as int, b as int);
    match find_edge(g, a, b) {
        Some(e) => {
            proof {
                lemma_edge_between(before, e as int, p, q);
            }
            let weight = edge_weight_mut(g, e);
            match (*weight).checked_add(w) {
                Some(sum) => {
                    *weight = sum;
                },
                None => {
                    return false;
                },
            }
            proof {
                let after = graph_edges(*g);
                assert(after[e as int].2 == before[e as int].2 + w);
                assert forall|i: int| 0 <= i < after.len() implies (#[trigger] after[i]).0
                    == before[i].0 && after[i].1 == before[i].1 by {}
                assert(simple_edges(after)) by {
                    assert forall|i: int, j: int| 0 <= i < j < after.len() implies !connects(
                        #[trigger] after[i],
                        (#[trigger] after[j]).0,
                        after[j].1,
                    ) by {
                        assert(!connects(before[i], before[j].0, before[j].1));
                    }
                }
                assert forall|x: int, y: int| #[trigger]
                    edge_between(after, x, y) == (if same_pair(x, y, p, q) {
                        Some(or_zero(edge_between(before, p, q)) + w as nat)
                    } else {
                        edge_between(before, x, y)
                    }) by {
                    if exists|i: int| 0 <= i < before.len() && #[trigger] connects(
                        before[i],
                        x,
                        y,
                    ) {
                        let i = choose|i: int|
                            0 <= i < before.len() && #[trigger] connects(before[i], x, y);
                        assert(connects(after[i], x, y));
                        lemma_edge_between(before, i, x, y);
                        lemma_edge_between(after, i, x, y);
                        if same_pair(x, y, p, q) {
                            if i != e {
                                assert(connects(before[i], before[e as int].0, before[e as int].1));
                                if i < e {
                                    assert(!connects(
                                        before[i],
                                        before[e as int].0,
                                        before[e as int].1,
                                    ));
                                } else {
                                    assert(!connects(
                                        before[e as int],
                                        before[i].0,
                                        before[i].1,
                                    ));
                                }
                            }
                        }
                    } else {
                        assert forall|i: int| 0 <= i < after.len() implies !#[trigger] connects(
                            after[i],
                            x,
                            y,
                        ) by {
                            assert(!connects(before[i], x, y));
                        }
                        assert(!connects(before[e as int], x, y));
                    }
                }
            }
            true
        },
        None => {
            assert(edge_between(before, p, q) is None);
            if edge_count(g) >= u32::MAX as usize {
                return false;
            }
            let _e = add_edge(g, a, b, w);
            proof {
                let after = graph_edges(*g);
                assert(simple_edges(after)) by {
                    assert forall|i: int, j: int| 0 <= i < j < after.len() implies !connects(
                        #[trigger] after[i],
                        (#[trigger] after[j]).0,
                        after[j].1,
                    ) by {
                        if j < before.len() {
                            assert(!connects(before[i], before[j].0, before[j].1));
                        } else {
                            assert(!connects(before[i], p, q));
                        }
                    }
                }
                assert forall|x: int, y: int| #[trigger]
                    edge_between(after, x, y) == (if same_pair(x, y, p, q) {
                        Some(or_zero(edge_between(before, p, q)) + w as nat)
                    } else {
                        edge_between(before, x, y)
                    }) by {
                    if same_pair(x, y, p, q) {
                        assert(connects(after[before.len() as int], x, y));
                        lemma_edge_between(after, before.len() as int, x, y);
                    } else if exists|i: int| 0 <= i < before.len() && #[trigger] connects(
                        before[i],
                        x,
                        y,
                    ) {
                        let i = choose|i: int|
                            0 <= i < before.len() && #[trigger] connects(before[i], x, y);
                        assert(connects(after[i], x, y));
                        lemma_edge_between(before, i, x, y);
                        lemma_edge_between(after, i, x, y);
                    } else {
                        assert forall|i: int| 0 <= i < after.len() implies !#[trigger] connects(
                            after[i],
                            x,
                            y,
                        ) by {
                            if i < before.len() {
                                assert(!connects(before[i], x, y));
                            }
                        }
                    }
                }
            }
            true
        },
    }
}

proof fn lemma_calls_between_take(
    calls: Seq<((Seq<char>, Seq<char>), u64)>,
    i: int,
    a: Seq<char>,
    b: Seq<char>,
)
    requires
        0 <= i <= calls.len(),
    ensures
        or_zero(calls_between(calls.take(i), a, b)) <= or_zero(calls_between(calls, a, b)),
        calls_between(calls.take(i), a, b) is Some ==> calls_between(calls, a, b) is Some,
    decreases calls.len() - i,
{
    if i < calls.len() {
        lemma_calls_between_take(calls, i + 1, a, b);
        assert(calls.take(i + 1).drop_last() =~= calls.take(i));
    } else {
        assert(calls.take(i) =~= calls);
    }
}

proof fn lemma_joint_hits_take(seeds: Seq<SeedTraceSummary>, i: int, a: Seq<char>, b: Seq<char>)
    requires
        0 <= i <= seeds.len(),
    ensures
        joint_hits(seeds.take(i), a, b) <= joint_hits(seeds, a, b),
    decreases seeds.len() - i,
{
    if i < seeds.len() {
        lemma_joint_hits_take(seeds, i + 1, a, b);
        assert(seeds.take(i + 1).drop_last() =~= seeds.take(i));
    } else {
        assert(seeds.take(i) =~= seeds);
    }
}

proof fn lemma_calls_between_symmetric(
    calls: Seq<((Seq<char>, Seq<char>), u64)>,
    a: Seq<char>,
    b: Seq<char>,
)
    ensures
        calls_between(calls, a, b) == calls_between(calls, b, a),
    decreases calls.len(),
{
    if calls.len() > 0 {
        lemma_calls_between_symmetric(calls.drop_last(), a, b);
    }
}

proof fn lemma_joint_hits_symmetric(seeds: Seq<SeedTraceSummary>, a: Seq<char>, b: Seq<char>)
    ensures
        joint_hits(seeds, a, b) == joint_hits(seeds, b, a),
    decreases seeds.len(),
{
    if seeds.len() > 0 {
        lemma_joint_hits_symmetric(seeds.drop_last(), a, b);
    }
}

/// In an ascending list every name has one place.
pub proof fn lemma_places(names: Seq<Seq<char>>, x: int, y: int)
    requires
        ascending_names(names),
        0 <= x < names.len(),
        0 <= y < names.len(),
    ensures
        names[x] == names[y] <==> x == y,
        text_lt(names[x], names[y]) ==> x < y,
{
    if x < y {
        lemma_text_lt_irreflexive(names[x]);
    } else if y < x {
        lemma_text_lt_irreflexive(names[x]);
        if text_lt(names[x], names[y]) {
            lemma_text_lt_transitive(names[x], names[y], names[x]);
        }
    } else {
        lemma_text_lt_irreflexive(names[x]);
    }
}

/// A graph that is no further than the links allow, and cannot take a link that there is, shows
/// that the links do not fit.
proof fn lemma_too_many(
    calls: Seq<((Seq<char>, Seq<char>), u64)>,
    seeds: Seq<SeedTraceSummary>,
    names: Seq<Seq<char>>,
    edges: Seq<(int, int, u64)>,
    weight: spec_fn(int, int) -> Option<nat>,
    a: int,
    b: int,
)
    requires
        edges_match(edges, names.len() as int, weight),
        forall|x: int, y: int|
            0 <= x < names.len() && 0 <= y < names.len() && #[trigger] weight(x, y) is Some
                ==> link_weight(calls, seeds, names[x], names[y]) is Some,
        0 <= a < names.len(),
        0 <= b < names.len(),
        link_weight(calls, seeds, names[a], names[b]) is Some,
        edge_between(edges, a, b) is None,
        edges.len() >= u32::MAX,
    ensures
        !graph_fits(calls, seeds, names),
{
    let all = links(calls, seeds, names);
    lemma_links_finite(calls, seeds, names);
    assert forall|i: int| 0 <= i < edges.len() implies all.contains(
        ordered_pair(#[trigger] edges[i]),
    ) by {
        let p = ordered_pair(edges[i]);
        assert(connects(edges[i], p.0, p.1));
        lemma_edge_between(edges, i, p.0, p.1);
        assert(weight(p.0, p.1) is Some);
    }
    lemma_count_edges(edges, all);
    let p = if a <= b {
        (a, b)
    } else {
        (b, a)
    };
    lemma_calls_between_symmetric(calls, names[a], names[b]);
    lemma_joint_hits_symmetric(seeds, names[a], names[b]);
    assert(all.contains(p));
    assert(edge_between(edges, p.0, p.1) is None) by {
        if exists|i: int| 0 <= i < edges.len() && #[trigger] connects(edges[i], p.0, p.1) {
            let i = choose|i: int| 0 <= i < edges.len() && #[trigger] connects(edges[i], p.0, p.1);
            assert(connects(edges[i], a, b));
        }
    }
}

proof fn lemma_links_finite(
    calls: Seq<((Seq<char>, Seq<char>), u64)>,
    seeds: Seq<SeedTraceSummary>,
    names: Seq<Seq<char>>,
)
    ensures
        links(calls, seeds, names).finite(),
{
    let n = names.len() as int;
    lemma_pairs_finite(n, n);
    vstd::set_lib::lemma_set_subset_finite(
        Set::new(|p: (int, int)| 0 <= p.0 < n && 0 <= p.1 < n),
        links(calls, seeds, names),
    );
}

/// An edge that stands for calls runs from the caller to the callee.
pub open spec fn follows_calls(
    calls: Seq<((Seq<char>, Seq<char>), u64)>,
    names: Seq<Seq<char>>,
    edge: (int, int, u64),
) -> bool {
    if calls_between(calls, names[edge.0], names[edge.1]) is Some {
        has_key(calls, (names[edge.0], names[edge.1]))
    } else {
        edge.0 < edge.1
    }
}

/// Links the functions that call each other. Fails if the links do not fit.
fn link_calls(
    g: &mut UnGraph<PartitionNode, u64>,
    func_edges: &FunctionEdges,
    functions: &NameSet,
    Ghost(seeds): Ghost<Seq<SeedTraceSummary>>,
) -> (r: bool)
    requires
        graph_nodes(*old(g)).len() == functions.seq().len(),
        graph_edges(*old(g)).len() == 0,
        functions.ok(),
    ensures
        graph_nodes(*final(g)) == graph_nodes(*old(g)),
        r ==> edges_match(
            graph_edges(*final(g)),
            functions.seq().len() as int,
            |x: int, y: int|
                calls_between(
                    func_edges.seq(),
                    keys(functions.seq())[x],
                    keys(functions.seq())[y],
                ),
        ),
        r ==> forall|i: int|
            0 <= i < graph_edges(*final(g)).len() ==> has_key(
                func_edges.seq(),
                (
                    keys(functions.seq())[(#[trigger] graph_edges(*final(g))[i]).0],
                    keys(functions.seq())[graph_edges(*final(g))[i].1],
                ),
            ),
        !r ==> !graph_fits(func_edges.seq(), seeds, keys(functions.seq())),
{
    let ghost calls = func_edges.seq();
    let ghost names = keys(functions.seq());
    let ghost size = names.len() as int;
    proof {
        assert(ascending_names(names)) by {
            assert forall|i: int, j: int| 0 <= i < j < names.len() implies text_lt(
                #[trigger] names[i],
                #[trigger] names[j],
            ) by {
                assert(<String as Key>::lt(
                    functions.seq()[i].0,
                    functions.seq()[j].0,
                ));
            }
        }
    }
    let n = func_edges.len();
    let mut i: usize = 0;
    while i < n
        invariant
            n == calls.len(),
            calls == func_edges.seq(),
            functions.ok(),
            names == keys(functions.seq()),
            size == names.len(),
            ascending_names(names),
            i <= n,
            graph_nodes(*g) == graph_nodes(*old(g)),
            graph_nodes(*g).len() == size,
            edges_match(
                graph_edges(*g),
                size,
                |x: int, y: int| calls_between(calls.take(i as int), names[x], names[y]),
            ),
            forall|k: int|
                0 <= k < graph_edges(*g).len() ==> has_key(
                    calls,
                    (names[(#[trigger] graph_edges(*g)[k]).0], names[graph_edges(*g)[k].1]),
                ),
        decreases n - i,
    {
        let edge = func_edges.key_at(i);
        let count = *func_edges.value_at(i);
        let ghost before = graph_edges(*g);
        let ghost weight0 = |x: int, y: int|
            calls_between(calls.take(i as int), names[x], names[y]);
        let ghost weight1 = |x: int, y: int| calls_between(calls.take(i + 1), names[x], names[y]);
        let ghost key = calls[i as int].0;
        assert(calls.take(i + 1).drop_last() =~= calls.take(i as int));
        assert(calls.take(i + 1).last() == calls[i as int]);
        assert(has_key(calls, key));
        let caller = functions.index_of(&edge.0);
        let callee = functions.index_of(&edge.1);
        if let (Some(a), Some(b)) = (caller, callee) {
            assert(names[a as int] == key.0 && names[b as int] == key.1);
            let added = add_link(g, a, b, count);
            if !added {
                proof {
                    let w = weight0(a as int, b as int);
                    lemma_calls_between_take(calls, i + 1, key.0, key.1);
                    assert(edge_between(before, a as int, b as int) == w);
                    assert(weight1(a as int, b as int) == Some(or_zero(w) + count as nat));
                    if or_zero(w) + count > u64::MAX {
                        assert(or_zero(link_weight(calls, seeds, names[a as int], names[b as int]))
                            > u64::MAX);
                    } else {
                        assert forall|x: int, y: int|
                            0 <= x < names.len() && 0 <= y < names.len() && #[trigger] weight0(
                                x,
                                y,
                            ) is Some implies link_weight(
                            calls,
                            seeds,
                            names[x],
                            names[y],
                        ) is Some by {
                            lemma_calls_between_take(calls, i as int, names[x], names[y]);
                        }
                        lemma_too_many(
                            calls,
                            seeds,
                            names,
                            before,
                            weight0,
                            a as int,
                            b as int,
                        );
                    }
                }
                return false;
            }
            proof {
                let after = graph_edges(*g);
                assert forall|x: int, y: int| 0 <= x < size && 0 <= y < size implies #[trigger] edge_between(
                after, x, y) == weight1(x, y) by {
                    lemma_places(names, x, a as int);
                    lemma_places(names, y, b as int);
                    lemma_places(names, x, b as int);
                    lemma_places(names, y, a as int);
                    assert(edge_between(before, x, y) == weight0(x, y));
                    assert(edge_between(before, a as int, b as int) == weight0(
                        a as int,
                        b as int,
                    ));
                    lemma_calls_between_symmetric(calls.take(i as int), names[x], names[y]);
                }
            }
        } else {
            proof {
                assert forall|x: int, y: int| 0 <= x < size && 0 <= y < size implies #[trigger] edge_between(
                before, x, y) == weight1(x, y) by {
                    assert(edge_between(before, x, y) == weight0(x, y));
                    assert(functions.seq()[x].0 == names[x]);
                    assert(functions.seq()[y].0 == names[y]);
                    assert(functions@.contains_key(names[x]));
                    assert(functions@.contains_key(names[y]));
                }
            }
        }
        i = i + 1;
    }
    assert(calls.take(n as int) =~= calls);
    true
}

/// The nodes of the functions that a seed reaches, in ascending order.
fn hit_nodes(summary: &SeedTraceSummary, functions: &NameSet) -> (r: Vec<usize>)
    ensures
        forall|i: int| 0 <= i < r@.len() ==> (#[trigger] r@[i]) < functions.seq().len(),
        forall|i: int, j: int| 0 <= i < j < r@.len() ==> (#[trigger] r@[i]) < (#[trigger] r@[j]),
        forall|x: int|
            0 <= x < functions.seq().len() ==> (summary.function_hits@.contains_key(
                #[trigger] keys(functions.seq())[x],
            ) <==> r@.contains(x as usize)),
{
    let names = &summary.function_hits;
    let ghost all = names.seq();
    let ghost places = keys(functions.seq());
    let n = names.len();
    let size = functions.len();
    proof {
        lemma_keys_ascend(functions);
    }
    let mut out: Vec<usize> = Vec::new();
    let mut i: usize = 0;
    while i < n
        invariant
            n == all.len(),
            all == names.seq(),
            ascending::<String, u64>(all),
            places == keys(functions.seq()),
            size == functions.seq().len(),
            ascending_names(places),
            i <= n,
            forall|k: int| 0 <= k < out@.len() ==> (#[trigger] out@[k]) < size,
            forall|k: int|
                0 <= k < out@.len() ==> has_key(all.take(i as int), places[#[trigger] out@[k] as int]),
            forall|k: int, l: int|
                0 <= k < l < out@.len() ==> (#[trigger] out@[k]) < (#[trigger] out@[l]),
            forall|x: int|
                0 <= x < places.len() && has_key(all.take(i as int), #[trigger] places[x])
                    ==> out@.contains(x as usize),
        decreases n - i,
    {
        let name = names.key_at(i);
        let ghost out0 = out@;
        let ghost taken = all.take(i as int);
        if let Some(p) = functions.index_of(name) {
            assert(places[p as int] == name@);
            proof {
                assert forall|k: int| 0 <= k < out@.len() implies (#[trigger] out@[k]) < p by {
                    let x = out@[k] as int;
                    let l = choose|l: int|
                        0 <= l < taken.len() && (#[trigger] taken[l]).0 == places[x];
                    assert(all[l].0 == places[x]);
                    assert(<String as Key>::lt(all[l].0, all[i as int].0));
                    lemma_places(places, x, p as int);
                }
            }
            out.push(p);
            assert(out@[out0.len() as int] == p);
        }
        proof {
            let more = all.take(i + 1);
            assert forall|k: int| 0 <= k < out@.len() implies has_key(
                more,
                places[#[trigger] out@[k] as int],
            ) by {
                lemma_has_key_take(all, i as int, places[out@[k] as int]);
                if k < out0.len() {
                    assert(out0[k] == out@[k]);
                }
            }
            assert forall|x: int|
                0 <= x < places.len() && has_key(more, #[trigger] places[x]) implies out@.contains(
                x as usize,
            ) by {
                lemma_has_key_take(all, i as int, places[x]);
                if has_key(taken, places[x]) {
                    let k = out0.index_of(x as usize);
                    assert(out@[k] == x);
                } else {
                    assert(functions.seq()[x].0 == name@);
                    assert(functions@.contains_key(name@));
                    lemma_places(places, x, out@[out0.len() as int] as int);
                }
            }
        }
        i = i + 1;
    }
    proof {
        assert(all.take(n as int) =~= all);
        assert forall|x: int|
            0 <= x < functions.seq().len() implies (summary.function_hits@.contains_key(
            #[trigger] places[x],
        ) <==> out@.contains(x as usize)) by {
            if out@.contains(x as usize) {
                let k = out@.index_of(x as usize);
                assert(has_key(all, places[out@[k] as int]));
            }
        }
    }
    out
}

/// The keys of a set of names go up strictly.
pub proof fn lemma_keys_ascend(names: &NameSet)
    requires
        names.ok(),
    ensures
        ascending_names(keys(names.seq())),
{
    let k = keys(names.seq());
    assert forall|i: int, j: int| 0 <= i < j < k.len() implies text_lt(
        #[trigger] k[i],
        #[trigger] k[j],
    ) by {
        assert(<String as Key>::lt(names.seq()[i].0, names.seq()[j].0));
    }
}

/// Whether the pair {x, y} is one of the pairs of `hits` up to the place (left, right).
spec fn pair_seen(hits: Seq<usize>, left: int, right: int, x: int, y: int) -> bool {
    exists|a: int, b: int|
        0 <= a < b < hits.len() && (a < left || (a == left && b < right)) && same_pair(
            x,
            y,
            #[trigger] hits[a] as int,
            #[trigger] hits[b] as int,
        )
}

/// The link between two functions, as far as the seeds have been taken into account: the first
/// ones, and of one more the pairs that have been seen.
spec fn partial_link(
    calls: Seq<((Seq<char>, Seq<char>), u64)>,
    seeds: Seq<SeedTraceSummary>,
    names: Seq<Seq<char>>,
    hits: Seq<usize>,
    left: int,
    right: int,
    x: int,
    y: int,
) -> Option<nat> {
    let joint = if x == y {
        0
    } else {
        joint_hits(seeds, names[x], names[y]) + (if pair_seen(hits, left, right, x, y) {
            1nat
        } else {
            0nat
        })
    };
    combined(calls_between(calls, names[x], names[y]), joint)
}

proof fn lemma_pair_seen_step(hits: Seq<usize>, left: int, right: int, x: int, y: int)
    requires
        forall|i: int, j: int| 0 <= i < j < hits.len() ==> (#[trigger] hits[i]) < (
        #[trigger] hits[j]),
        0 <= left < right < hits.len(),
    ensures
        pair_seen(hits, left, right + 1, x, y) <==> pair_seen(hits, left, right, x, y) || same_pair(
            x,
            y,
            hits[left] as int,
            hits[right] as int,
        ),
        !pair_seen(hits, left, right, hits[left] as int, hits[right] as int),
{
    if pair_seen(hits, left, right + 1, x, y) {
        let (a, b) = choose|a: int, b: int|
            0 <= a < b < hits.len() && (a < left || (a == left && b < right + 1)) && same_pair(
                x,
                y,
                #[trigger] hits[a] as int,
                #[trigger] hits[b] as int,
            );
        assert(a == left && b == right || (a < left || (a == left && b < right)));
    }
    if pair_seen(hits, left, right, x, y) {
        let (a, b) = choose|a: int, b: int|
            0 <= a < b < hits.len() && (a < left || (a == left && b < right)) && same_pair(
                x,
                y,
                #[trigger] hits[a] as int,
                #[trigger] hits[b] as int,
            );
        assert(pair_seen(hits, left, right + 1, x, y));
    }
    if same_pair(x, y, hits[left] as int, hits[right] as int) {
        assert(pair_seen(hits, left, right + 1, x, y));
    }
    if pair_seen(hits, left, right, hits[left] as int, hits[right] as int) {
        let (a, b) = choose|a: int, b: int|
            0 <= a < b < hits.len() && (a < left || (a == left && b < right)) && same_pair(
                hits[left] as int,
                hits[right] as int,
                #[trigger] hits[a] as int,
                #[trigger] hits[b] as int,
            );
        assert(hits[a] < hits[b]);
        assert(hits[left] < hits[right]);
        assert(hits[a] == hits[left] && hits[b] == hits[right]);
        assert(a == left && b == right);
    }
}

proof fn lemma_pair_seen_row(hits: Seq<usize>, left: int, x: int, y: int)
    requires
        0 <= left < hits.len(),
    ensures
        pair_seen(hits, left, hits.len() as int, x, y) <==> pair_seen(hits, left + 1, left + 2, x, y),
{
    if pair_seen(hits, left, hits.len() as int, x, y) {
        let (a, b) = choose|a: int, b: int|
            0 <= a < b < hits.len() && (a < left || (a == left && b < hits.len())) && same_pair(
                x,
                y,
                #[trigger] hits[a] as int,
                #[trigger] hits[b] as int,
            );
        assert(a < left + 1);
    }
    if pair_seen(hits, left + 1, left + 2, x, y) {
        let (a, b) = choose|a: int, b: int|
            0 <= a < b < hits.len() && (a < left + 1 || (a == left + 1 && b < left + 2))
                && same_pair(x, y, #[trigger] hits[a] as int, #[trigger] hits[b] as int);
        assert(a < left || (a == left && b < hits.len()));
    }
}

proof fn lemma_pair_seen_all(hits: Seq<usize>, right: int, x: int, y: int)
    requires
        forall|i: int, j: int| 0 <= i < j < hits.len() ==> (#[trigger] hits[i]) < (
        #[trigger] hits[j]),
        0 <= x <= usize::MAX,
        0 <= y <= usize::MAX,
        x != y,
    ensures
        pair_seen(hits, hits.len() as int, right, x, y) <==> hits.contains(x as usize)
            && hits.contains(y as usize),
{
    if hits.contains(x as usize) && hits.contains(y as usize) {
        let a = hits.index_of(x as usize);
        let b = hits.index_of(y as usize);
        if a < b {
            assert(same_pair(x, y, hits[a] as int, hits[b] as int));
        } else {
            assert(same_pair(x, y, hits[b] as int, hits[a] as int));
        }
    }
    if pair_seen(hits, hits.len() as int, right, x, y) {
        let (a, b) = choose|a: int, b: int|
            0 <= a < b < hits.len() && (a < hits.len() || (a == hits.len() && b < right))
                && same_pair(x, y, #[trigger] hits[a] as int, #[trigger] hits[b] as int);
        assert(hits[a] == x || hits[a] == y);
        assert(hits[b] == x || hits[b] == y);
    }
}

proof fn lemma_partial_link_bound(
    calls: Seq<((Seq<char>, Seq<char>), u64)>,
    seeds: Seq<SeedTraceSummary>,
    s: int,
    names: Seq<Seq<char>>,
    hits: Seq<usize>,
    left: int,
    right: int,
    x: int,
    y: int,
)
    requires
        ascending_names(names),
        0 <= s < seeds.len(),
        0 <= x < names.len() <= usize::MAX,
        0 <= y < names.len(),
        forall|i: int, j: int| 0 <= i < j < hits.len() ==> (#[trigger] hits[i]) < (
        #[trigger] hits[j]),
        forall|k: int|
            0 <= k < names.len() ==> (seeds[s].function_hits@.contains_key(#[trigger] names[k])
                <==> hits.contains(k as usize)),
        0 <= left <= hits.len(),
    ensures
        or_zero(partial_link(calls, seeds.take(s), names, hits, left, right, x, y)) <= or_zero(
            link_weight(calls, seeds, names[x], names[y]),
        ),
        partial_link(calls, seeds.take(s), names, hits, left, right, x, y) is Some ==> link_weight(
            calls,
            seeds,
            names[x],
            names[y],
        ) is Some,
{
    lemma_places(names, x, y);
    let next = seeds.take(s + 1);
    assert(next.drop_last() =~= seeds.take(s));
    lemma_joint_hits_take(seeds, s + 1, names[x], names[y]);
    if x != y && pair_seen(hits, left, right, x, y) {
        let (a, b) = choose|a: int, b: int|
            0 <= a < b < hits.len() && (a < left || (a == left && b < right)) && same_pair(
                x,
                y,
                #[trigger] hits[a] as int,
                #[trigger] hits[b] as int,
            );
        assert(hits[a] == x || hits[a] == y);
        assert(hits[b] == x || hits[b] == y);
        assert(hits.contains(x as usize) && hits.contains(y as usize));
    }
}

/// Links the functions that a seed reaches together. Fails if the links do not fit.
fn link_seed(
    g: &mut UnGraph<PartitionNode, u64>,
    hits: &Vec<usize>,
    Ghost(calls): Ghost<Seq<((Seq<char>, Seq<char>), u64)>>,
    Ghost(seeds): Ghost<Seq<SeedTraceSummary>>,
    Ghost(s): Ghost<int>,
    Ghost(names): Ghost<Seq<Seq<char>>>,
) -> (r: bool)
    requires
        ascending_names(names),
        graph_nodes(*old(g)).len() == names.len() <= usize::MAX,
        0 <= s < seeds.len(),
        forall|i: int| 0 <= i < hits@.len() ==> (#[trigger] hits@[i]) < names.len(),
        forall|i: int, j: int| 0 <= i < j < hits@.len() ==> (#[trigger] hits@[i]) < (
        #[trigger] hits@[j]),
        forall|k: int|
            0 <= k < names.len() ==> (seeds[s].function_hits@.contains_key(#[trigger] names[k])
                <==> hits@.contains(k as usize)),
        edges_match(
            graph_edges(*old(g)),
            names.len() as int,
            |x: int, y: int| link_weight(calls, seeds.take(s), names[x], names[y]),
        ),
        forall|i: int|
            0 <= i < graph_edges(*old(g)).len() ==> follows_calls(
                calls,
                names,
                #[trigger] graph_edges(*old(g))[i],
            ),
    ensures
        graph_nodes(*final(g)) == graph_nodes(*old(g)),
        r ==> edges_match(
            graph_edges(*final(g)),
            names.len() as int,
            |x: int, y: int| link_weight(calls, seeds.take(s + 1), names[x], names[y]),
        ),
        r ==> forall|i: int|
            0 <= i < graph_edges(*final(g)).len() ==> follows_calls(
                calls,
                names,
                #[trigger] graph_edges(*final(g))[i],
            ),
        !r ==> !graph_fits(calls, seeds, names),
{
    let ghost size = names.len() as int;
    let ghost part = seeds.take(s);
    proof {
        assert forall|x: int, y: int| 0 <= x < size && 0 <= y < size implies #[trigger] edge_between(
        graph_edges(*g), x, y) == partial_link(calls, part, names, hits@, 0, 1, x, y) by {
            lemma_places(names, x, y);
            assert(!pair_seen(hits@, 0, 1, x, y));
        }
    }
    let n = hits.len();
    let mut left: usize = 0;
    while left < n
        invariant
            n == hits@.len(),
            left <= n,
            size == names.len(),
            part == seeds.take(s),
            ascending_names(names),
            graph_nodes(*g) == graph_nodes(*old(g)),
            graph_nodes(*g).len() == names.len() <= usize::MAX,
            0 <= s < seeds.len(),
            forall|i: int| 0 <= i < hits@.len() ==> (#[trigger] hits@[i]) < names.len(),
            forall|i: int, j: int| 0 <= i < j < hits@.len() ==> (#[trigger] hits@[i]) < (
            #[trigger] hits@[j]),
            forall|k: int|
                0 <= k < names.len() ==> (seeds[s].function_hits@.contains_key(
                    #[trigger] names[k],
                ) <==> hits@.contains(k as usize)),
            edges_match(
                graph_edges(*g),
                size,
                |x: int, y: int|
                    partial_link(calls, part, names, hits@, left as int, left + 1, x, y),
            ),
            forall|i: int|
                0 <= i < graph_edges(*g).len() ==> follows_calls(
                    calls,
                    names,
                    #[trigger] graph_edges(*g)[i],
                ),
        decreases n - left,
    {
        let mut right: usize = left + 1;
        while right < n
            invariant
                n == hits@.len(),
                left < right <= n,
                size == names.len(),
                part == seeds.take(s),
                ascending_names(names),
                graph_nodes(*g) == graph_nodes(*old(g)),
                graph_nodes(*g).len() == names.len() <= usize::MAX,
                0 <= s < seeds.len(),
                forall|i: int| 0 <= i < hits@.len() ==> (#[trigger] hits@[i]) < names.len(),
                forall|i: int, j: int| 0 <= i < j < hits@.len() ==> (#[trigger] hits@[i]) < (
                #[trigger] hits@[j]),
                forall|k: int|
                    0 <= k < names.len() ==> (seeds[s].function_hits@.contains_key(
                        #[trigger] names[k],
                    ) <==> hits@.contains(k as usize)),
                edges_match(
                    graph_edges(*g),
                    size,
                    |x: int, y: int|
                        partial_link(
                            calls,
                            part,
                            names,
                            hits@,
                            left as int,
                            right as int,
                            x,
                            y,
                        ),
                ),
                forall|i: int|
                    0 <= i < graph_edges(*g).len() ==> follows_calls(
                        calls,
                        names,
                        #[trigger] graph_edges(*g)[i],
                    ),
            decreases n - right,
        {
            let ghost before = graph_edges(*g);
            let ghost weight0 = |x: int, y: int|
                partial_link(calls, part, names, hits@, left as int, right as int, x, y);
            let ghost weight1 = |x: int, y: int|
                partial_link(calls, part, names, hits@, left as int, right + 1, x, y);
            let a = hits[left];
            let b = hits[right];
            let ghost (p, q) = (a as int, b as int);
            proof {
                assert(a < b);
                lemma_pair_seen_step(hits@, left as int, right as int, p, q);
                assert(edge_between(before, p, q) == weight0(p, q));
                assert(weight1(p, q) == Some(or_zero(weight0(p, q)) + 1));
            }
            let added = add_link(g, a, b, 1);
            if !added {
                proof {
                    lemma_partial_link_bound(
                        calls,
                        seeds,
                        s,
                        names,
                        hits@,
                        left as int,
                        right + 1,
                        p,
                        q,
                    );
                    if or_zero(weight0(p, q)) + 1 > u64::MAX {
                        assert(or_zero(link_weight(calls, seeds, names[p], names[q])) > u64::MAX);
                    } else {
                        assert forall|x: int, y: int|
                            0 <= x < names.len() && 0 <= y < names.len() && #[trigger] weight0(
                                x,
                                y,
                            ) is Some implies link_weight(
                            calls,
                            seeds,
                            names[x],
                            names[y],
                        ) is Some by {
                            lemma_partial_link_bound(
                                calls,
                                seeds,
                                s,
                                names,
                                hits@,
                                left as int,
                                right as int,
                                x,
                                y,
                            );
                        }
                        lemma_too_many(calls, seeds, names, before, weight0, p, q);
                    }
                }
                return false;
            }
            proof {
                let after = graph_edges(*g);
                assert forall|x: int, y: int| 0 <= x < size && 0 <= y < size implies #[trigger] edge_between(
                after, x, y) == weight1(x, y) by {
                    lemma_pair_seen_step(hits@, left as int, right as int, x, y);
                    assert(edge_between(before, x, y) == weight0(x, y));
                    if same_pair(x, y, p, q) {
                        lemma_calls_between_symmetric(calls, names[x], names[y]);
                        lemma_joint_hits_symmetric(part, names[x], names[y]);
                        lemma_pair_seen_symmetric(hits@, left as int, right as int, x, y);
                        lemma_pair_seen_symmetric(hits@, left as int, right + 1, x, y);
                    }
                }
                assert forall|i: int| 0 <= i < after.len() implies follows_calls(
                    calls,
                    names,
                    #[trigger] after[i],
                ) by {
                    if i < before.len() {
                        assert(follows_calls(calls, names, before[i]));
                    } else {
                        assert(after[i].0 == p && after[i].1 == q);
                        assert(edge_between(before, p, q) is None);
                        assert(weight0(p, q) is None);
                    }
                }
            }
            right = right + 1;
        }
        proof {
            assert forall|x: int, y: int| 0 <= x < size && 0 <= y < size implies #[trigger] edge_between(
            graph_edges(*g), x, y) == partial_link(
                calls,
                part,
                names,
                hits@,
                left + 1,
                left + 2,
                x,
                y,
            ) by {
                lemma_pair_seen_row(hits@, left as int, x, y);
            }
        }
        left = left + 1;
    }
    proof {
        let next = seeds.take(s + 1);
        assert(next.drop_last() =~= part);
        assert(next.last() == seeds[s]);
        assert forall|x: int, y: int| 0 <= x < size && 0 <= y < size implies #[trigger] edge_between(
        graph_edges(*g), x, y) == link_weight(calls, next, names[x], names[y]) by {
            lemma_places(names, x, y);
            if x != y {
                lemma_pair_seen_all(hits@, left + 1, x, y);
            }
        }
    }
    true
}

proof fn lemma_pair_seen_symmetric(hits: Seq<usize>, left: int, right: int, x: int, y: int)
    ensures
        pair_seen(hits, left, right, x, y) <==> pair_seen(hits, left, right, y, x),
{
    if pair_seen(hits, left, right, x, y) {
        let (a, b) = choose|a: int, b: int|
            0 <= a < b < hits.len() && (a < left || (a == left && b < right)) && same_pair(
                x,
                y,
                #[trigger] hits[a] as int,
                #[trigger] hits[b] as int,
            );
        assert(same_pair(y, x, hits[a] as int, hits[b] as int));
    }
    if pair_seen(hits, left, right, y, x) {
        let (a, b) = choose|a: int, b: int|
            0 <= a < b < hits.len() && (a < left || (a == left && b < right)) && same_pair(
                y,
                x,
                #[trigger] hits[a] as int,
                #[trigger] hits[b] as int,
            );
        assert(same_pair(x, y, hits[a] as int, hits[b] as int));
    }
}

/// The function names of a graph, with the weight that every function has at first.
pub open spec fn unit_nodes(names: Seq<Seq<char>>) -> Seq<(Seq<char>, u64)> {
    Seq::new(names.len(), |i: int| (names[i], 1u64))
}

/// What a graph of linked functions holds: a node for each function, in order, and an edge for each
/// link, with its weight. An edge between functions of which one calls the other runs from the
/// caller; any other from the lesser name.
pub open spec fn is_linked_graph(
    calls: Seq<((Seq<char>, Seq<char>), u64)>,
    seeds: Seq<SeedTraceSummary>,
    names: Seq<Seq<char>>,
    nodes: Seq<(Seq<char>, u64)>,
    edges: Seq<(int, int, u64)>,
) -> bool {
    &&& nodes == unit_nodes(names)
    &&& simple_edges(edges)
    &&& forall|i: int|
        0 <= i < edges.len() ==> 0 <= (#[trigger] edges[i]).0 < names.len() && 0 <= edges[i].1
            < names.len() && follows_calls(calls, names, edges[i])
    &&& forall|x: int, y: int|
        0 <= x < names.len() && 0 <= y < names.len() ==> #[trigger] edge_between(edges, x, y)
            == link_weight(calls, seeds, names[x], names[y])
}

/// The graph of the functions to be placed, if it fits.
fn linked_graph(
    func_edges: &FunctionEdges,
    seed_summaries: &[SeedTraceSummary],
    functions: &NameSet,
) -> (r: Option<UnGraph<PartitionNode, u64>>)
    requires
        functions.ok(),
    ensures
        r is Some <==> graph_fits(func_edges.seq(), seed_summaries@, keys(functions.seq())),
        r is Some ==> is_linked_graph(
            func_edges.seq(),
            seed_summaries@,
            keys(functions.seq()),
            graph_nodes(r->0),
            graph_edges(r->0),
        ),
{
    let ghost calls = func_edges.seq();
    let ghost names = keys(functions.seq());
    let ghost seeds = seed_summaries@;
    proof {
        lemma_keys_ascend(functions);
    }
    let size = functions.len();
    if size as u64 > u32::MAX as u64 {
        return None;
    }
    let mut g = empty_graph();
    let mut i: usize = 0;
    while i < size
        invariant
            size == functions.seq().len() <= u32::MAX,
            names == keys(functions.seq()),
            i <= size,
            graph_edges(g).len() == 0,
            graph_nodes(g) == unit_nodes(names.take(i as int)),
        decreases size - i,
    {
        let name = functions.key_at(i);
        add_node(&mut g, PartitionNode { name: name.clone(), weight: 1 });
        assert(unit_nodes(names.take(i + 1)) =~= unit_nodes(names.take(i as int)).push(
            (name@, 1u64),
        ));
        i = i + 1;
    }
    assert(names.take(size as int) =~= names);
    let linked = link_calls(&mut g, func_edges, functions, Ghost(seeds));
    if !linked {
        return None;
    }
    proof {
        assert(seeds.take(0) =~= Seq::empty());
        assert forall|x: int, y: int|
            0 <= x < names.len() && 0 <= y < names.len() implies #[trigger] edge_between(
            graph_edges(g),
            x,
            y,
        ) == link_weight(calls, seeds.take(0), names[x], names[y]) by {}
        assert forall|k: int| 0 <= k < graph_edges(g).len() implies follows_calls(
            calls,
            names,
            #[trigger] graph_edges(g)[k],
        ) by {
            let e = graph_edges(g)[k];
            lemma_edge_between(graph_edges(g), k, e.0, e.1);
        }
    }
    let n = seed_summaries.len();
    let mut s: usize = 0;
    while s < n
        invariant
            n == seeds.len(),
            seeds == seed_summaries@,
            s <= n,
            calls == func_edges.seq(),
            names == keys(functions.seq()),
            ascending_names(names),
            functions.ok(),
            names.len() <= u32::MAX,
            graph_nodes(g) == unit_nodes(names),
            edges_match(
                graph_edges(g),
                names.len() as int,
                |x: int, y: int| link_weight(calls, seeds.take(s as int), names[x], names[y]),
            ),
            forall|k: int|
                0 <= k < graph_edges(g).len() ==> follows_calls(
                    calls,
                    names,
                    #[trigger] graph_edges(g)[k],
                ),
        decreases n - s,
    {
        let hits = hit_nodes(&seed_summaries[s], functions);
        let linked = link_seed(
            &mut g,
            &hits,
            Ghost(calls),
            Ghost(seeds),
            Ghost(s as int),
            Ghost(names),
        );
        if !linked {
            return None;
        }
        s = s + 1;
    }
    proof {
        assert(seeds.take(n as int) =~= seeds);
        let edges = graph_edges(g);
        assert forall|x: int, y: int|
            #![trigger names[x], names[y]]
            0 <= x < names.len() && 0 <= y < names.len() implies or_zero(
            link_weight(calls, seeds, names[x], names[y]),
        ) <= u64::MAX by {
            assert(edge_between(edges, x, y) == link_weight(calls, seeds, names[x], names[y]));
        }
        lemma_links_are_edges(calls, seeds, names, edges);
    }
    let m = edge_count(&g);
    if m as u64 > u32::MAX as u64 {
        return None;
    }
    Some(g)
}

/// The links of a graph are as many as its edges.
proof fn lemma_links_are_edges(
    calls: Seq<((Seq<char>, Seq<char>), u64)>,
    seeds: Seq<SeedTraceSummary>,
    names: Seq<Seq<char>>,
    edges: Seq<(int, int, u64)>,
)
    requires
        edges_match(
            edges,
            names.len() as int,
            |x: int, y: int| link_weight(calls, seeds, names[x], names[y]),
        ),
    ensures
        links(calls, seeds, names).len() == edges.len(),
{
    let all = links(calls, seeds, names);
    let found = edges.map_values(|e: (int, int, u64)| ordered_pair(e));
    assert forall|p: (int, int)| all.contains(p) implies found.contains(p) by {
        assert(edge_between(edges, p.0, p.1) is Some);
        let i = choose|i: int| 0 <= i < edges.len() && #[trigger] connects(edges[i], p.0, p.1);
        assert(found[i] == p);
    }
    assert forall|p: (int, int)| found.contains(p) implies all.contains(p) by {
        let i = found.index_of(p);
        let e = edges[i];
        assert(connects(edges[i], e.0, e.1));
        lemma_edge_between(edges, i, e.0, e.1);
        lemma_edge_between(edges, i, e.1, e.0);
    }
    assert(found.no_duplicates()) by {
        assert forall|i: int, j: int|
            0 <= i < j < found.len() implies #[trigger] found[i] != #[trigger] found[j] by {
            assert(!connects(edges[i], edges[j].0, edges[j].1));
        }
    }
    found.unique_seq_to_set();
    assert(found.to_set() =~= all);
}

/// Whether the functions to be placed and their links fit in a graph.
pub open spec fn placement_fits(
    calls: Seq<((Seq<char>, Seq<char>), u64)>,
    edges: EdgeModel,
    seeds: Seq<SeedTraceSummary>,
    coverage: Map<Seq<char>, FunctionCoverage>,
    root: Seq<char>,
) -> bool {
    forall|names: Seq<Seq<char>>|
        is_placed_list(edges, seeds, coverage, root, names) ==> #[trigger] graph_fits(
            calls,
            seeds,
            names,
        )
}

/// Whether `names` lists the functions to be placed, in ascending order.
pub open spec fn is_placed_list(
    edges: EdgeModel,
    seeds: Seq<SeedTraceSummary>,
    coverage: Map<Seq<char>, FunctionCoverage>,
    root: Seq<char>,
    names: Seq<Seq<char>>,
) -> bool {
    &&& ascending_names(names)
    &&& forall|name: Seq<char>| #[trigger]
        names.contains(name) <==> is_placed(edges, seeds, coverage, root, name)
}

/// Two ascending lists of the same names are the same list.
pub proof fn lemma_ascending_unique(a: Seq<Seq<char>>, b: Seq<Seq<char>>)
    requires
        ascending_names(a),
        ascending_names(b),
        forall|name: Seq<char>| #[trigger] a.contains(name) <==> b.contains(name),
    ensures
        a == b,
    decreases a.len(),
{
    if a.len() == 0 {
        if b.len() > 0 {
            assert(b.contains(b[0]));
            assert(a.contains(b[0]));
        }
        assert(a =~= b);
    } else {
        assert(a.contains(a[0]));
        assert(b.len() > 0);
        let (x, y) = (a.last(), b.last());
        assert(a.contains(x));
        assert(b.contains(x));
        assert(b.contains(y));
        assert(a.contains(y));
        let i = b.index_of(x);
        let j = a.index_of(y);
        if x != y {
            assert(text_lt(b[i], b[b.len() - 1]));
            assert(text_lt(a[j], a[a.len() - 1]));
            lemma_text_lt_transitive(x, y, x);
            lemma_text_lt_irreflexive(x);
        }
        let (a1, b1) = (a.drop_last(), b.drop_last());
        assert forall|name: Seq<char>| #[trigger] a1.contains(name) <==> b1.contains(name) by {
            if a1.contains(name) {
                let k = a1.index_of(name);
                assert(a[k] == name);
                assert(a.contains(name));
                let l = b.index_of(name);
                assert(text_lt(a[k], a[a.len() - 1]));
                lemma_text_lt_irreflexive(x);
                assert(b1[l] == name);
            }
            if b1.contains(name) {
                let k = b1.index_of(name);
                assert(b[k] == name);
                assert(b.contains(name));
                assert(a.contains(name));
                let l = a.index_of(name);
                assert(text_lt(b[k], b[b.len() - 1]));
                lemma_text_lt_irreflexive(x);
                assert(a1[l] == name);
            }
        }
        lemma_ascending_unique(a1, b1);
        assert(a =~= a1.push(x));
        assert(b =~= b1.push(x));
    }
}

/// The set of placed functions, in order, is the list of placed functions.
proof fn lemma_placed_list(
    func_edges: &FunctionEdges,
    seeds: Seq<SeedTraceSummary>,
    coverage: Map<Seq<char>, FunctionCoverage>,
    root: Seq<char>,
    functions: &NameSet,
)
    requires
        functions.ok(),
        forall|name: Seq<char>|
            #![trigger functions@.contains_key(name)]
            functions@.contains_key(name) <==> is_placed(func_edges@, seeds, coverage, root, name),
    ensures
        is_placed_list(func_edges@, seeds, coverage, root, keys(functions.seq())),
{
    lemma_keys_ascend(functions);
    let names = keys(functions.seq());
    assert forall|name: Seq<char>| #[trigger] names.contains(name) <==> is_placed(
        func_edges@,
        seeds,
        coverage,
        root,
        name,
    ) by {
        assert(functions@.contains_key(name) <==> has_key(functions.seq(), name));
        if names.contains(name) {
            let i = names.index_of(name);
            assert(functions.seq()[i].0 == name);
        }
        if has_key(functions.seq(), name) {
            let i = choose|i: int|
                0 <= i < functions.seq().len() && (#[trigger] functions.seq()[i]).0 == name;
            assert(names[i] == name);
        }
    }
}

/// Builds the graph of the functions to be placed. Each function weighs 1.
pub fn build_partition_graph(
    func_edges: &FunctionEdges,
    seed_summaries: &[SeedTraceSummary],
    coverage_by_function: &SortedMap<String, FunctionCoverage>,
    workspace_root: &str,
) -> (r: UnGraph<PartitionNode, u64>)
    requires
        placement_fits(
            func_edges.seq(),
            func_edges@,
            seed_summaries@,
            coverage_by_function@,
            workspace_root@,
        ),
    ensures
        exists|names: Seq<Seq<char>>|
            is_placed_list(
                func_edges@,
                seed_summaries@,
                coverage_by_function@,
                workspace_root@,
                names,
            ) && #[trigger] is_linked_graph(
                func_edges.seq(),
                seed_summaries@,
                names,
                graph_nodes(r),
                graph_edges(r),
            ),
{
    let functions = placed_functions(
        func_edges,
        seed_summaries,
        coverage_by_function,
        workspace_root,
    );
    proof {
        lemma_placed_list(
            func_edges,
            seed_summaries@,
            coverage_by_function@,
            workspace_root@,
            &functions,
        );
    }
    let g = linked_graph(func_edges, seed_summaries, &functions);
    g.unwrap()
}

/// Whether `build_partition_graph` can build the graph of these functions.
pub fn partition_graph_fits(
    func_edges: &FunctionEdges,
    seed_summaries: &[SeedTraceSummary],
    coverage_by_function: &SortedMap<String, FunctionCoverage>,
    workspace_root: &str,
) -> (r: bool)
    ensures
        r == placement_fits(
            func_edges.seq(),
            func_edges@,
            seed_summaries@,
            coverage_by_function@,
            workspace_root@,
        ),
{
    let functions = placed_functions(
        func_edges,
        seed_summaries,
        coverage_by_function,
        workspace_root,
    );
    let ghost placed = keys(functions.seq());
    proof {
        lemma_placed_list(
            func_edges,
            seed_summaries@,
            coverage_by_function@,
            workspace_root@,
            &functions,
        );
        assert forall|names: Seq<Seq<char>>|
            #![trigger graph_fits(func_edges.seq(), seed_summaries@, names)]
            is_placed_list(
                func_edges@,
                seed_summaries@,
                coverage_by_function@,
                workspace_root@,
                names,
            ) implies names == placed by {
            assert forall|name: Seq<char>| #[trigger]
                names.contains(name) <==> placed.contains(name) by {
                assert(placed.contains(name) <==> is_placed(
                    func_edges@,
                    seed_summaries@,
                    coverage_by_function@,
                    workspace_root@,
                    name,
                ));
            }
            lemma_ascending_unique(names, placed);
        }
    }
    linked_graph(func_edges, seed_summaries, &functions).is_some()
}

/// What the weight of a function is computed from.
pub struct NodeMetrics {
    /// Lines that were not executed.
    pub residual: u64,
    /// Lines that were executed now and not before.
    pub recent_gain: u64,
    /// For how many runs no line was gained.
    pub no_gain_cycles: u64,
    /// The placed functions that call this one.
    pub callers: Vec<usize>,
}

/// The state of a function before the first run.
pub open spec fn state_of(state: Map<Seq<char>, CoverageState>, name: Seq<char>) -> CoverageState {
    if state.contains_key(name) {
        state[name]
    } else {
        CoverageState { line_covered: 0, no_gain_cycles: 0 }
    }
}

pub open spec fn at_least_zero(n: int) -> int {
    if n < 0 {
        0
    } else {
        n
    }
}

/// The lines that were executed before, of those that the function still has.
pub open spec fn lines_before(cov: FunctionCoverage, prev: CoverageState) -> int {
    let most = if cov.line_total < cov.line_covered {
        cov.line_covered
    } else {
        cov.line_total
    };
    if prev.line_covered < most {
        prev.line_covered as int
    } else {
        most as int
    }
}

/// The metrics of the function at a place in `names`.
pub open spec fn is_metrics_of(
    calls: EdgeModel,
    coverage: Map<Seq<char>, FunctionCoverage>,
    prev: Map<Seq<char>, CoverageState>,
    state: Map<Seq<char>, CoverageState>,
    names: Seq<Seq<char>>,
    at: int,
    m: NodeMetrics,
) -> bool {
    let name = names[at];
    let cov = coverage_of(coverage, name);
    &&& m.residual == at_least_zero(cov.line_total - cov.line_covered)
    &&& m.recent_gain == at_least_zero(cov.line_covered - lines_before(cov, state_of(prev, name)))
    &&& m.no_gain_cycles == state_of(state, name).no_gain_cycles
    &&& forall|i: int, j: int|
        0 <= i < j < m.callers@.len() ==> (#[trigger] m.callers@[i]) < (#[trigger] m.callers@[j])
    &&& forall|i: int|
        0 <= i < m.callers@.len() ==> (#[trigger] m.callers@[i]) < names.len() && calls.contains_key(
            (names[m.callers@[i] as int], name),
        )
    &&& forall|x: int|
        0 <= x < names.len() && calls.contains_key((#[trigger] names[x], name))
            ==> m.callers@.contains(x as usize)
}

/// The coverage of a function, with nothing covered where it is not known.
pub open spec fn coverage_of(
    coverage: Map<Seq<char>, FunctionCoverage>,
    name: Seq<char>,
) -> FunctionCoverage {
    if coverage.contains_key(name) {
        coverage[name]
    } else {
        no_coverage()
    }
}

fn lookup_state(state: &SortedMap<String, CoverageState>, name: &String) -> (r: CoverageState)
    ensures
        r == state_of(state@, name@),
{
    match state.get(name) {
        Some(s) => *s,
        None => CoverageState { line_covered: 0, no_gain_cycles: 0 },
    }
}

/// The metrics of the functions of a graph, in the order of its nodes.
pub fn node_metrics(
    graph: &UnGraph<PartitionNode, u64>,
    func_edges: &FunctionEdges,
    coverage_by_function: &SortedMap<String, FunctionCoverage>,
    previous_state: &SortedMap<String, CoverageState>,
    current_state: &SortedMap<String, CoverageState>,
) -> (r: Vec<NodeMetrics>)
    ensures
        r@.len() == graph_nodes(*graph).len(),
        forall|at: int|
            0 <= at < r@.len() ==> is_metrics_of(
                func_edges@,
                coverage_by_function@,
                previous_state@,
                current_state@,
                node_names(graph_nodes(*graph)),
                at,
                #[trigger] r@[at],
            ),
{
    let size = node_count(graph);
    let ghost names = node_names(graph_nodes(*graph));
    let mut out: Vec<NodeMetrics> = Vec::new();
    let mut at: usize = 0;
    while at < size
        invariant
            size == graph_nodes(*graph).len(),
            names == node_names(graph_nodes(*graph)),
            at <= size,
            out@.len() == at,
            forall|k: int|
                0 <= k < at ==> is_metrics_of(
                    func_edges@,
                    coverage_by_function@,
                    previous_state@,
                    current_state@,
                    names,
                    k,
                    #[trigger] out@[k],
                ),
        decreases size - at,
    {
        let node = node_at(graph, at);
        let prev = lookup_state(previous_state, &node.name);
        let state = lookup_state(current_state, &node.name);
        let (total, covered) = match coverage_by_function.get(&node.name) {
            Some(cov) => (cov.line_total, cov.line_covered),
            None => (0u64, 0u64),
        };
        let most: u64 = if total < covered {
            covered
        } else {
            total
        };
        let before: u64 = if prev.line_covered < most {
            prev.line_covered
        } else {
            most
        };
        let callers = placed_callers(graph, func_edges, &node.name);
        let m = NodeMetrics {
            residual: total.saturating_sub(covered),
            recent_gain: covered.saturating_sub(before),
            no_gain_cycles: state.no_gain_cycles,
            callers,
        };
        out.push(m);
        at = at + 1;
    }
    out
}

/// The names of the nodes.
pub open spec fn node_names(nodes: Seq<(Seq<char>, u64)>) -> Seq<Seq<char>> {
    Seq::new(nodes.len(), |i: int| nodes[i].0)
}

/// The nodes of the functions that call a function, in ascending order.
fn placed_callers(
    graph: &UnGraph<PartitionNode, u64>,
    func_edges: &FunctionEdges,
    callee: &String,
) -> (r: Vec<usize>)
    ensures
        forall|i: int, j: int| 0 <= i < j < r@.len() ==> (#[trigger] r@[i]) < (#[trigger] r@[j]),
        forall|i: int|
            0 <= i < r@.len() ==> (#[trigger] r@[i]) < graph_nodes(*graph).len()
                && func_edges@.contains_key(
                (node_names(graph_nodes(*graph))[r@[i] as int], callee@),
            ),
        forall|x: int|
            0 <= x < graph_nodes(*graph).len() && func_edges@.contains_key(
                (#[trigger] node_names(graph_nodes(*graph))[x], callee@),
            ) ==> r@.contains(x as usize),
{
    let size = node_count(graph);
    let ghost names = node_names(graph_nodes(*graph));
    let mut out: Vec<usize> = Vec::new();
    let mut x: usize = 0;
    while x < size
        invariant
            size == graph_nodes(*graph).len(),
            names == node_names(graph_nodes(*graph)),
            x <= size,
            forall|i: int, j: int|
                0 <= i < j < out@.len() ==> (#[trigger] out@[i]) < (#[trigger] out@[j]),
            forall|i: int|
                0 <= i < out@.len() ==> (#[trigger] out@[i]) < x && func_edges@.contains_key(
                    (names[out@[i] as int], callee@),
                ),
            forall|k: int|
                0 <= k < x && func_edges@.contains_key((#[trigger] names[k], callee@))
                    ==> out@.contains(k as usize),
        decreases size - x,
    {
        let node = node_at(graph, x);
        let ghost out0 = out@;
        let call = (node.name.clone(), callee.clone());
        if func_edges.contains(&call) {
            out.push(x);
            assert(out@[out0.len() as int] == x);
        }
        proof {
            assert forall|k: int|
                0 <= k < x + 1 && func_edges@.contains_key(
                    (#[trigger] names[k], callee@),
                ) implies out@.contains(k as usize) by {
                if k < x {
                    let i = out0.index_of(k as usize);
                    assert(out@[i] == k as usize);
                }
            }
        }
        x = x + 1;
    }
    out
}

/// Gives each node its weight.
pub fn set_node_weights(graph: &mut UnGraph<PartitionNode, u64>, weights: &[u64])
    requires
        weights@.len() == graph_nodes(*old(graph)).len(),
    ensures
        graph_edges(*final(graph)) == graph_edges(*old(graph)),
        graph_nodes(*final(graph)) == Seq::new(
            weights@.len(),
            |i: int| (graph_nodes(*old(graph))[i].0, weights@[i]),
        ),
{
    let ghost nodes = graph_nodes(*graph);
    let n = weights.len();
    let mut i: usize = 0;
    while i < n
        invariant
            n == weights@.len() == nodes.len(),
            i <= n,
            nodes == graph_nodes(*old(graph)),
            graph_edges(*graph) == graph_edges(*old(graph)),
            graph_nodes(*graph).len() == n,
            forall|k: int|
                0 <= k < n ==> #[trigger] graph_nodes(*graph)[k] == (nodes[k].0, if k < i {
                    weights@[k]
                } else {
                    nodes[k].1
                }),
        decreases n - i,
    {
        let node = node_at_mut(graph, i);
        node.weight = weights[i];
        i = i + 1;
    }
}

} // verus!
