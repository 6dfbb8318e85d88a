//! What holds of the links between functions, of what is measured of them, and of tasks.

use crate::coverage::{is_owned, is_shared, CoverageState, FunctionCoverage};
use crate::dot::calls_among;
use crate::documents::is_node_list;
use crate::linkage::{
    calls_between, coverage_of, graph_fits, is_linked_graph, is_metrics_of, is_placed, joint_hits, link_weight,
    NodeMetrics,
};
use crate::partition_files::{partition_count_for, source_text};
use crate::sums::{counts_of, lemma_counts_step, total};
use crate::tasks::{
    in_task, is_blocked, is_called, is_endpoint, is_entry_path, is_linked, is_root,
    is_shortest_entry, is_task, is_task_walk, lists, EdgeModel,
};
use crate::text::{text_contains, text_ends_with, texts};
use crate::trace::SeedTraceSummary;
use vstd::prelude::*;

verus! {

/// Two functions are linked by the calls between them, whichever calls the other: the weight of these
/// is how often they were made.
pub proof fn law_calls_link_both_ways(
    calls: Seq<((Seq<char>, Seq<char>), u64)>,
    a: Seq<char>,
    b: Seq<char>,
)
    ensures
        calls_between(calls, a, b) is Some <==> exists|i: int|
            0 <= i < calls.len() && ((#[trigger] calls[i]).0 == (a, b) || calls[i].0 == (b, a)),
        calls_between(calls, a, b) matches Some(n) ==> n == total(
            counts_of(calls, |c: (Seq<char>, Seq<char>)| c == (a, b) || c == (b, a)),
        ),
    decreases calls.len(),
{
    let wanted = |c: (Seq<char>, Seq<char>)| c == (a, b) || c == (b, a);
    lemma_total_between(calls, a, b);
    if calls.len() > 0 {
        let less = calls.drop_last();
        law_calls_link_both_ways(less, a, b);
        assert(calls[calls.len() - 1] == calls.last());
        if calls_between(less, a, b) is Some {
            let i = choose|i: int|
                0 <= i < less.len() && ((#[trigger] less[i]).0 == (a, b) || less[i].0 == (b, a));
            assert(calls[i] == less[i]);
        }
        if exists|i: int|
            0 <= i < calls.len() && ((#[trigger] calls[i]).0 == (a, b) || calls[i].0 == (b, a)) {
            let i = choose|i: int|
                0 <= i < calls.len() && ((#[trigger] calls[i]).0 == (a, b) || calls[i].0 == (b, a));
            if i < less.len() {
                assert(less[i] == calls[i]);
            }
        }
    }
}

proof fn lemma_total_between(
    calls: Seq<((Seq<char>, Seq<char>), u64)>,
    a: Seq<char>,
    b: Seq<char>,
)
    ensures
        (match calls_between(calls, a, b) {
            Some(n) => n,
            None => 0,
        }) == total(counts_of(calls, |c: (Seq<char>, Seq<char>)| c == (a, b) || c == (b, a))),
    decreases calls.len(),
{
    let wanted = |c: (Seq<char>, Seq<char>)| c == (a, b) || c == (b, a);
    if calls.len() > 0 {
        lemma_total_between(calls.drop_last(), a, b);
        lemma_counts_step(calls, wanted);
    } else {
        reveal(Seq::filter);
        assert(counts_of(calls, wanted) =~= Seq::empty());
    }
}

/// Two functions are linked by each seed that reaches both.
pub proof fn law_seeds_link_what_they_reach(
    seeds: Seq<SeedTraceSummary>,
    a: Seq<char>,
    b: Seq<char>,
)
    ensures
        joint_hits(seeds, a, b) == seeds.filter(
            |s: SeedTraceSummary|
                s.function_hits@.contains_key(a) && s.function_hits@.contains_key(b),
        ).len(),
        joint_hits(seeds, a, b) == joint_hits(seeds, b, a),
    decreases seeds.len(),
{
    reveal(Seq::filter);
    if seeds.len() > 0 {
        law_seeds_link_what_they_reach(seeds.drop_last(), a, b);
    }
}

/// The link of two functions weighs what their calls and their seeds weigh together. A function is
/// linked with itself by its calls alone.
pub proof fn law_link_weighs_calls_and_seeds(
    calls: Seq<((Seq<char>, Seq<char>), u64)>,
    seeds: Seq<SeedTraceSummary>,
    a: Seq<char>,
    b: Seq<char>,
)
    ensures
        ({
            let called = total(
                counts_of(calls, |c: (Seq<char>, Seq<char>)| c == (a, b) || c == (b, a)),
            );
            let reached = seeds.filter(
                |s: SeedTraceSummary|
                    s.function_hits@.contains_key(a) && s.function_hits@.contains_key(b),
            ).len();
            let is_call = exists|i: int|
                0 <= i < calls.len() && ((#[trigger] calls[i]).0 == (a, b) || calls[i].0 == (b, a));
            match link_weight(calls, seeds, a, b) {
                Some(n) => n == called + (if a == b {
                    0
                } else {
                    reached
                }) && (is_call || (a != b && reached > 0)),
                None => !is_call && (a == b || reached == 0),
            }
        }),
{
    law_calls_link_both_ways(calls, a, b);
    lemma_total_between(calls, a, b);
    law_seeds_link_what_they_reach(seeds, a, b);
}

/// In the graph, each function is a node of weight 1, and each link an edge of its weight between the
/// two: no two edges lie between the same nodes.
pub proof fn law_graph_shows_links(
    calls: Seq<((Seq<char>, Seq<char>), u64)>,
    seeds: Seq<SeedTraceSummary>,
    names: Seq<Seq<char>>,
    nodes: Seq<(Seq<char>, u64)>,
    edges: Seq<(int, int, u64)>,
    i: int,
)
    requires
        is_linked_graph(calls, seeds, names, nodes, edges),
        0 <= i < edges.len(),
    ensures
        nodes.len() == names.len(),
        forall|k: int| 0 <= k < names.len() ==> #[trigger] nodes[k] == (names[k], 1u64),
        0 <= edges[i].0 < names.len(),
        0 <= edges[i].1 < names.len(),
        link_weight(calls, seeds, names[edges[i].0], names[edges[i].1]) == Some(edges[i].2 as nat),
        forall|j: int|
            0 <= j < edges.len() && j != i ==> !(((#[trigger] edges[j]).0 == edges[i].0
                && edges[j].1 == edges[i].1) || (edges[j].0 == edges[i].1 && edges[j].1
                == edges[i].0)),
{
    let (x, y) = (edges[i].0, edges[i].1);
    assert(crate::graph::connects(edges[i], x, y));
    let k = choose|k: int|
        0 <= k < edges.len() && #[trigger] crate::graph::connects(edges[k], x, y);
    assert(k == i) by {
        if k < i {
            assert(!crate::graph::connects(edges[k], edges[i].0, edges[i].1));
        }
        if i < k {
            assert(!crate::graph::connects(edges[i], edges[k].0, edges[k].1));
        }
    }
    assert(crate::linkage::edge_between(edges, x, y) == Some(edges[i].2 as nat));
    assert forall|j: int| 0 <= j < edges.len() && j != i implies !(((#[trigger] edges[j]).0
        == edges[i].0 && edges[j].1 == edges[i].1) || (edges[j].0 == edges[i].1 && edges[j].1
        == edges[i].0)) by {
        if j < i {
            assert(!crate::graph::connects(edges[j], edges[i].0, edges[i].1));
        } else {
            assert(!crate::graph::connects(edges[i], edges[j].0, edges[j].1));
        }
    }
}

/// A function of the project that takes part in a call is either shared or placed, and not both.
pub proof fn law_placed_or_shared(
    edges: EdgeModel,
    seeds: Seq<SeedTraceSummary>,
    coverage: Map<Seq<char>, FunctionCoverage>,
    root: Seq<char>,
    name: Seq<char>,
    other: Seq<char>,
)
    requires
        edges.contains_key((name, other)) || edges.contains_key((other, name)),
        is_owned(coverage, root, name),
    ensures
        is_placed(edges, seeds, coverage, root, name) <==> !is_shared(seeds, coverage, root, name),
{
    if edges.contains_key((name, other)) {
        assert(is_endpoint(edges, name));
    } else {
        let e = (other, name);
        assert(edges.contains_key(e));
    }
}

/// A function that no call leads to or from, or that is not of the project, is not placed.
pub proof fn law_strangers_are_not_placed(
    edges: EdgeModel,
    seeds: Seq<SeedTraceSummary>,
    coverage: Map<Seq<char>, FunctionCoverage>,
    root: Seq<char>,
    name: Seq<char>,
)
    requires
        is_placed(edges, seeds, coverage, root, name),
    ensures
        coverage.contains_key(name),
        exists|other: Seq<char>|
            #![trigger edges.contains_key((name, other))]
            #![trigger edges.contains_key((other, name))]
            edges.contains_key((name, other)) || edges.contains_key((other, name)),
{
    let e = choose|e: (Seq<char>, Seq<char>)| #[trigger]
        edges.contains_key(e) && (e.0 == name || e.1 == name);
    if e.0 == name {
        assert(edges.contains_key((name, e.1)));
    } else {
        assert(edges.contains_key((e.0, name)));
    }
}

/// What is left of a function is its lines that were not executed; what it gained are those that were
/// executed now and not before. Neither is below zero.
pub proof fn law_metrics_count_lines(
    calls: EdgeModel,
    coverage: Map<Seq<char>, FunctionCoverage>,
    prev: Map<Seq<char>, CoverageState>,
    state: Map<Seq<char>, CoverageState>,
    names: Seq<Seq<char>>,
    at: int,
    m: NodeMetrics,
)
    requires
        is_metrics_of(calls, coverage, prev, state, names, at, m),
    ensures
        ({
            let cov = coverage_of(coverage, names[at]);
            let before: u64 = if prev.contains_key(names[at]) {
                prev[names[at]].line_covered
            } else {
                0
            };
            &&& cov.line_covered <= cov.line_total ==> m.residual + cov.line_covered
                == cov.line_total
            &&& cov.line_covered > cov.line_total ==> m.residual == 0
            &&& before <= cov.line_covered ==> before + m.recent_gain == cov.line_covered
            &&& before > cov.line_covered ==> m.recent_gain == 0
            &&& state.contains_key(names[at]) ==> m.no_gain_cycles == state[names[at]].no_gain_cycles
            &&& !state.contains_key(names[at]) ==> m.no_gain_cycles == 0
        }),
{
}

/// The callers of a node are the nodes whose functions call its function.
pub proof fn law_metrics_list_callers(
    calls: EdgeModel,
    coverage: Map<Seq<char>, FunctionCoverage>,
    prev: Map<Seq<char>, CoverageState>,
    state: Map<Seq<char>, CoverageState>,
    names: Seq<Seq<char>>,
    at: int,
    m: NodeMetrics,
    x: usize,
)
    requires
        is_metrics_of(calls, coverage, prev, state, names, at, m),
        x < names.len(),
    ensures
        m.callers@.contains(x) <==> calls.contains_key((names[x as int], names[at])),
{
    if m.callers@.contains(x) {
        let i = m.callers@.index_of(x);
        assert(calls.contains_key((names[m.callers@[i] as int], names[at])));
    }
    if calls.contains_key((names[x as int], names[at])) {
        assert(m.callers@.contains(x as int as usize));
    }
}

/// The calls among some functions are those of which both ends are among them, as often as they were
/// made.
pub proof fn law_calls_among_keep_counts(
    edges: EdgeModel,
    names: Seq<Seq<char>>,
    call: (Seq<char>, Seq<char>),
)
    ensures
        calls_among(edges, names).contains_key(call) <==> edges.contains_key(call)
            && names.contains(call.0) && names.contains(call.1),
        calls_among(edges, names).contains_key(call) ==> calls_among(edges, names)[call]
            == edges[call],
{
}

/// A function that others do not call is where a program begins; where there is one such, no other is.
pub proof fn law_uncalled_are_roots(
    edges: EdgeModel,
    caller: Seq<char>,
    callee: Seq<char>,
    name: Seq<char>,
)
    requires
        edges.contains_key((caller, callee)),
        forall|other: Seq<char>| !#[trigger] edges.contains_key((other, caller)),
    ensures
        is_root(edges, caller),
        (exists|other: Seq<char>| #[trigger] edges.contains_key((other, name))) ==> !is_root(
            edges,
            name,
        ),
{
    let e = (caller, callee);
    assert(edges.contains_key(e));
    assert(is_endpoint(edges, caller));
    assert(!is_called(edges, caller)) by {
        if is_called(edges, caller) {
            let e = choose|e: (Seq<char>, Seq<char>)| #[trigger] edges.contains_key(e) && e.1
                == caller;
            assert(edges.contains_key((e.0, caller)));
        }
    }
    if exists|other: Seq<char>| #[trigger] edges.contains_key((other, name)) {
        let other = choose|other: Seq<char>| #[trigger] edges.contains_key((other, name));
        let e = (other, name);
        assert(edges.contains_key(e));
        assert(is_called(edges, name));
    }
}

/// Where every function is called, a program begins with the functions that are known to begin one.
pub proof fn law_known_names_are_roots(edges: EdgeModel, name: Seq<char>)
    requires
        is_endpoint(edges, name),
        forall|n: Seq<char>| #[trigger] is_endpoint(edges, n) ==> is_called(edges, n),
    ensures
        is_root(edges, name) <==> name == "main"@ || text_ends_with(name, "::main"@)
            || text_contains(name, "LLVMFuzzerTestOneInput"@) || text_contains(
            name,
            "__fuzz_target_impl"@,
        ) || text_contains(name, "__callgraph_rust_main"@),
{
}

/// A task holds what is linked with its partition: a function that is shared, or of the partition,
/// and to which a chain of calls leads from the partition through no function of another one.
pub proof fn law_task_follows_calls(
    edges: EdgeModel,
    coverage: Map<Seq<char>, FunctionCoverage>,
    root: Seq<char>,
    base: Seq<Seq<char>>,
    shared: Map<Seq<char>, ()>,
    task: Seq<Seq<char>>,
    chain: Seq<Seq<char>>,
)
    requires
        is_task(edges, coverage, root, base, shared, task),
        chain.len() > 0,
        base.contains(chain[0]),
        forall|i: int|
            #![trigger chain[i]]
            1 <= i < chain.len() ==> (edges.contains_key((chain[i - 1], chain[i]))
                || edges.contains_key((chain[i], chain[i - 1]))) && (!is_owned(
                coverage,
                root,
                chain[i],
            ) || base.contains(chain[i]) || shared.contains_key(chain[i])),
        shared.contains_key(chain.last()),
    ensures
        task.contains(chain.last()),
{
    assert(is_task_walk(edges, coverage, root, base, shared, chain));
    assert(task.contains(chain.last()) <==> in_task(
        edges,
        coverage,
        root,
        base,
        shared,
        chain.last(),
    ));
}

/// A task holds nothing that is linked with its partition only through functions of others: whatever
/// it holds besides is one call away from something that is not of another partition.
pub proof fn law_task_holds_neighbours(
    edges: EdgeModel,
    coverage: Map<Seq<char>, FunctionCoverage>,
    root: Seq<char>,
    base: Seq<Seq<char>>,
    shared: Map<Seq<char>, ()>,
    task: Seq<Seq<char>>,
    name: Seq<char>,
)
    requires
        is_task(edges, coverage, root, base, shared, task),
        task.contains(name),
        !base.contains(name),
    ensures
        shared.contains_key(name),
        exists|other: Seq<char>| #[trigger]
            is_linked(edges, other, name) && (base.contains(other) || !is_owned(
                coverage,
                root,
                other,
            ) || shared.contains_key(other)),
{
    assert(in_task(edges, coverage, root, base, shared, name));
    let walk = choose|walk: Seq<Seq<char>>| #[trigger]
        is_task_walk(edges, coverage, root, base, shared, walk) && walk.last() == name;
    let last = walk.len() - 1;
    assert(walk[last] == name);
    assert(last >= 1);
    assert(!is_blocked(coverage, root, base, shared, walk[last]));
    assert(is_linked(edges, walk[last - 1], walk[last]));
    if last - 1 >= 1 {
        assert(!is_blocked(coverage, root, base, shared, walk[last - 1]));
    }
}

/// There are as many partitions as asked for, but no more than functions.
pub proof fn law_partitions_as_asked_for(requested: nat, functions: nat)
    ensures
        requested <= functions ==> partition_count_for(requested, functions) == requested,
        0 < functions < requested ==> partition_count_for(requested, functions) == functions,
        functions == 0 && requested > 0 ==> partition_count_for(requested, functions) == 1,
{
}

/// A function whose source is not known is told to be of an unknown one.
pub proof fn law_unknown_source_is_told(
    coverage: Map<Seq<char>, FunctionCoverage>,
    root: Seq<char>,
    name: Seq<char>,
)
    ensures
        !coverage.contains_key(name) ==> source_text(coverage, root, name) == "<unknown>"@,
{
}

/// Whether a function is listed among those that call another one.
pub open spec fn is_caller(
    callers: Map<Seq<char>, Vec<String>>,
    name: Seq<char>,
    caller: Seq<char>,
) -> bool {
    callers.contains_key(name) && exists|i: int|
        0 <= i < callers[name]@.len() && (#[trigger] callers[name]@[i])@ == caller
}

proof fn lemma_is_caller(
    callers: Map<Seq<char>, Vec<String>>,
    name: Seq<char>,
    caller: Seq<char>,
)
    ensures
        is_caller(callers, name, caller) <==> lists(callers, name, caller),
{
    if callers.contains_key(name) {
        let all = texts(callers[name]@);
        if all.contains(caller) {
            let k = all.index_of(caller);
            assert(callers[name]@[k]@ == caller);
        }
        if is_caller(callers, name, caller) {
            let i = choose|i: int|
                0 <= i < callers[name]@.len() && (#[trigger] callers[name]@[i])@ == caller;
            assert(all[i] == caller);
        }
    }
}

/// The way to a function begins with a function with which a program begins, and follows calls through
/// functions that are not blocked; no such way is shorter. Without one, it is the function alone.
pub proof fn law_entry_follows_calls(
    callers: Map<Seq<char>, Vec<String>>,
    roots: Map<Seq<char>, ()>,
    blocked: Map<Seq<char>, ()>,
    target: Seq<char>,
    path: Seq<Seq<char>>,
    chain: Seq<Seq<char>>,
)
    requires
        is_shortest_entry(callers, roots, blocked, target, path),
        chain.len() > 0,
        chain.last() == target,
        roots.contains_key(chain[0]),
        forall|i: int|
            #![trigger chain[i]]
            0 <= i < chain.len() - 1 ==> is_caller(callers, chain[i + 1], chain[i])
                && !blocked.contains_key(chain[i]),
    ensures
        0 < path.len() <= chain.len(),
        path.last() == target,
        roots.contains_key(path[0]),
        forall|i: int|
            #![trigger path[i]]
            0 <= i < path.len() - 1 ==> is_caller(callers, path[i + 1], path[i])
                && !blocked.contains_key(path[i]),
{
    assert forall|i: int| #![trigger chain[i]] 0 <= i < chain.len() - 1 implies lists(
        callers,
        chain[i + 1],
        chain[i],
    ) && !blocked.contains_key(chain[i]) by {
        lemma_is_caller(callers, chain[i + 1], chain[i]);
    }
    assert(is_entry_path(callers, roots, blocked, target, chain));
    assert forall|i: int| #![trigger path[i]] 0 <= i < path.len() - 1 implies is_caller(
        callers,
        path[i + 1],
        path[i],
    ) && !blocked.contains_key(path[i]) by {
        lemma_is_caller(callers, path[i + 1], path[i]);
    }
}

/// A way that is not the function alone is one from where a program begins.
pub proof fn law_entry_begins_at_root(
    callers: Map<Seq<char>, Vec<String>>,
    roots: Map<Seq<char>, ()>,
    blocked: Map<Seq<char>, ()>,
    target: Seq<char>,
    path: Seq<Seq<char>>,
)
    requires
        is_shortest_entry(callers, roots, blocked, target, path),
    ensures
        path.len() > 0,
        path.last() == target,
        path.len() > 1 ==> roots.contains_key(path[0]),
        path.len() > 1 ==> !blocked.contains_key(path[0]),
{
    if path.len() > 1 {
        assert(is_entry_path(callers, roots, blocked, target, path));
        assert(!blocked.contains_key(path[0]));
    }
}

/// The nodes are the functions that call or are called, each once.
pub proof fn law_nodes_take_part_in_calls(
    edges: EdgeModel,
    names: Seq<Seq<char>>,
    call: (Seq<char>, Seq<char>),
    name: Seq<char>,
)
    requires
        is_node_list(edges, names),
    ensures
        edges.contains_key(call) ==> names.contains(call.0) && names.contains(call.1),
        names.contains(name) ==> exists|e: (Seq<char>, Seq<char>)| #[trigger]
            edges.contains_key(e) && (e.0 == name || e.1 == name),
        names.no_duplicates(),
{
    if edges.contains_key(call) {
        assert(is_endpoint(edges, call.0));
        assert(is_endpoint(edges, call.1));
    }
    if names.contains(name) {
        assert(is_endpoint(edges, name));
    }
    assert forall|i: int, j: int| 0 <= i < j < names.len() implies names[i] != names[j] by {
        crate::text::lemma_text_lt_irreflexive(names[i]);
    }
}

/// An edge points from the caller to the callee; where neither calls the other, to the later function.
pub proof fn law_edges_point_along_calls(
    calls: Seq<((Seq<char>, Seq<char>), u64)>,
    seeds: Seq<SeedTraceSummary>,
    names: Seq<Seq<char>>,
    nodes: Seq<(Seq<char>, u64)>,
    edges: Seq<(int, int, u64)>,
    i: int,
)
    requires
        is_linked_graph(calls, seeds, names, nodes, edges),
        0 <= i < edges.len(),
    ensures
        ({
            let (a, b) = (names[edges[i].0], names[edges[i].1]);
            let is_call = exists|k: int| 0 <= k < calls.len() && (#[trigger] calls[k]).0 == (a, b);
            let is_called = exists|k: int| 0 <= k < calls.len() && (#[trigger] calls[k]).0 == (b, a);
            &&& is_called ==> is_call
            &&& !is_call ==> edges[i].0 < edges[i].1
        }),
{
    let (a, b) = (names[edges[i].0], names[edges[i].1]);
    law_calls_link_both_ways(calls, a, b);
    assert(crate::linkage::follows_calls(calls, names, edges[i]));
}

/// A graph fits if its nodes and its edges can be numbered with 32 bits, and its weights be told with
/// 64.
pub proof fn law_graph_fits(
    calls: Seq<((Seq<char>, Seq<char>), u64)>,
    seeds: Seq<SeedTraceSummary>,
    names: Seq<Seq<char>>,
)
    ensures
        graph_fits(calls, seeds, names) <==> {
            &&& names.len() <= 4294967295
            &&& linkage_pairs(calls, seeds, names).len() <= 4294967295
            &&& forall|x: int, y: int|
                #![trigger names[x], names[y]]
                0 <= x < names.len() && 0 <= y < names.len() ==> (match link_weight(
                    calls,
                    seeds,
                    names[x],
                    names[y],
                ) {
                    Some(n) => n <= 18446744073709551615,
                    None => true,
                })
        },
{
    assert(linkage_pairs(calls, seeds, names) =~= crate::linkage::links(calls, seeds, names));
}

/// The pairs of functions between which there is a link.
pub open spec fn linkage_pairs(
    calls: Seq<((Seq<char>, Seq<char>), u64)>,
    seeds: Seq<SeedTraceSummary>,
    names: Seq<Seq<char>>,
) -> Set<(int, int)> {
    Set::new(
        |p: (int, int)|
            0 <= p.0 && p.0 <= p.1 && p.1 < names.len() && link_weight(
                calls,
                seeds,
                names[p.0],
                names[p.1],
            ) is Some,
    )
}

} // verus!
