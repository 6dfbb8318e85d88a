//! Cutting a graph into partitions, and handing the seeds to them.

use crate::edge_placement::{edge_state_ok, edge_weights_fit, loops_fit, name_pair, EdgePlacement};
use crate::graph::{graph_edges, graph_nodes, PartitionNode};
use crate::options::Partitioner;
use crate::ordered::SortedMap;
use crate::placement::{
    algorithm_name, as_place, at_least_one, edge_total, is_random_plan, node_total,
    partition_graph_randomly, vertex_state_ok, vertex_weights_fit, PartitionPlan, VertexPlacement,
};
use crate::text::{text_eq, text_less, text_lt, texts};
use crate::trace::SeedTraceSummary;
use petgraph::graph::UnGraph;
use vstd::prelude::*;

verus! {

/// A plan, or what is needed to make one.
pub enum Partitioning<'a> {
    Done(PartitionPlan),
    /// The functions are to be placed.
    Vertices(VertexPlacement<'a>),
    /// The links are to be placed.
    Edges(EdgePlacement<'a>),
}

/// Whether the weights of a graph can be added up in 64 bits, as far as an algorithm adds them.
pub open spec fn weights_fit(
    nodes: Seq<(Seq<char>, u64)>,
    edges: Seq<(int, int, u64)>,
    partitioner: Partitioner,
) -> bool {
    &&& node_total(nodes) <= u64::MAX
    &&& if partitioner == Partitioner::Hrdf {
        loops_fit(nodes, edges)
    } else {
        edge_total(edges) <= u64::MAX
    }
}

/// Whether `partition_graph` can handle the weights of a graph.
pub fn partitioning_fits(graph: &UnGraph<PartitionNode, u64>, partitioner: Partitioner) -> (r: bool)
    ensures
        r == weights_fit(graph_nodes(*graph), graph_edges(*graph), partitioner),
{
    match partitioner {
        Partitioner::Hrdf => edge_weights_fit(graph),
        _ => vertex_weights_fit(graph),
    }
}

/// Starts to cut a graph into at most `partition_count` partitions, and at least one.
pub fn partition_graph<'a>(
    graph: &'a UnGraph<PartitionNode, u64>,
    partition_count: usize,
    partitioner: Partitioner,
) -> (r: Partitioning<'a>)
    requires
        weights_fit(graph_nodes(*graph), graph_edges(*graph), partitioner),
    ensures
        r is Done <==> partitioner == Partitioner::Random,
        r is Edges <==> partitioner == Partitioner::Hrdf,
        r is Done ==> is_random_plan(
            graph_nodes(*graph),
            at_least_one(partition_count as nat) as int,
            r->Done_0,
        ),
        r is Edges ==> {
            let p = r->Edges_0;
            &&& p.wf()
            &&& edge_state_ok(p@)
            &&& p@.nodes == graph_nodes(*graph)
            &&& p@.edges == graph_edges(*graph)
            &&& p@.count == at_least_one(partition_count as nat)
            &&& p@.places.len() == 0
            &&& p@.candidate == 0
            &&& p@.best == 0
        },
        r is Vertices ==> {
            let p = r->Vertices_0;
            &&& p.wf()
            &&& vertex_state_ok(p@)
            &&& p.algorithm() == algorithm_name(partitioner)
            &&& p@.nodes == graph_nodes(*graph)
            &&& p@.edges == graph_edges(*graph)
            &&& p@.count == at_least_one(partition_count as nat)
            &&& p@.places.len() == 0
            &&& p@.candidate == 0
            &&& p@.best == 0
        },
{
    match partitioner {
        Partitioner::Hrdf => Partitioning::Edges(EdgePlacement::new(graph, partition_count)),
        Partitioner::Ldg | Partitioner::Fennel => {
            Partitioning::Vertices(VertexPlacement::new(graph, partition_count, partitioner))
        },
        Partitioner::Random => Partitioning::Done(partition_graph_randomly(graph, partition_count)),
    }
}

pub open spec fn lesser(a: int, b: int) -> int {
    if a < b {
        a
    } else {
        b
    }
}

/// How many partitions the plan describes in full.
pub open spec fn described(plan: PartitionPlan) -> int {
    lesser(
        lesser(plan.partitions@.len() as int, plan.loads@.len() as int),
        lesser(plan.seed_assignments@.len() as int, plan.partition_edges@.len() as int),
    )
}

/// Those of the first `n` partitions that hold a function, in order.
pub open spec fn filled(partitions: Seq<Vec<String>>, n: int) -> Seq<int>
    decreases n,
{
    if n <= 0 {
        Seq::empty()
    } else if partitions[n - 1]@.len() == 0 {
        filled(partitions, n - 1)
    } else {
        filled(partitions, n - 1).push(n - 1)
    }
}

/// `after` is `before` without the partitions that hold no function, or has one partition, which is
/// empty, where no partition holds a function.
pub open spec fn is_compacted(before: PartitionPlan, after: PartitionPlan) -> bool {
    let kept = filled(before.partitions@, described(before));
    &&& after.algorithm == before.algorithm
    &&& kept.len() > 0 ==> {
        &&& after.partitions@.len() == kept.len()
        &&& after.loads@.len() == kept.len()
        &&& after.seed_assignments@.len() == kept.len()
        &&& after.partition_edges@.len() == kept.len()
        &&& forall|k: int|
            #![trigger kept[k]]
            0 <= k < kept.len() ==> {
                &&& after.partitions@[k]@ == before.partitions@[kept[k]]@
                &&& after.loads@[k] == before.loads@[kept[k]]
                &&& after.seed_assignments@[k]@ == before.seed_assignments@[kept[k]]@
                &&& after.partition_edges@[k]@ == before.partition_edges@[kept[k]]@
            }
    }
    &&& kept.len() == 0 ==> {
        &&& after.partitions@.len() == 1
        &&& after.loads@.len() == 1
        &&& after.loads@[0] == 0
        &&& after.seed_assignments@.len() == 1
        &&& after.partition_edges@.len() == 1
        &&& after.partitions@[0]@.len() == 0
        &&& after.seed_assignments@[0]@.len() == 0
        &&& after.partition_edges@[0]@.len() == 0
    }
}

/// Leaves out the partitions that hold no function.
pub fn compact_partition_plan(plan: PartitionPlan) -> (r: PartitionPlan)
    ensures
        is_compacted(plan, r),
{
    let ghost before = plan;
    let algorithm = plan.algorithm;
    let mut old_partitions = plan.partitions;
    let old_loads = plan.loads;
    let mut old_seeds = plan.seed_assignments;
    let mut old_edges = plan.partition_edges;
    let mut n: usize = old_partitions.len();
    if old_loads.len() < n {
        n = old_loads.len();
    }
    if old_seeds.len() < n {
        n = old_seeds.len();
    }
    if old_edges.len() < n {
        n = old_edges.len();
    }
    let mut partitions: Vec<Vec<String>> = Vec::new();
    let mut loads: Vec<u64> = Vec::new();
    let mut seed_assignments: Vec<Vec<String>> = Vec::new();
    let mut partition_edges: Vec<Vec<(String, String)>> = Vec::new();
    let ghost mut kept: Seq<int> = Seq::empty();
    let mut i: usize = 0;
    while i < n
        invariant
            i <= n == described(before),
            old_partitions@.len() == before.partitions@.len(),
            old_loads@ == before.loads@,
            old_seeds@.len() == before.seed_assignments@.len(),
            old_edges@.len() == before.partition_edges@.len(),
            forall|k: int| i <= k < n ==> #[trigger] old_partitions@[k] == before.partitions@[k],
            forall|k: int| i <= k < n ==> #[trigger] old_seeds@[k] == before.seed_assignments@[k],
            forall|k: int| i <= k < n ==> #[trigger] old_edges@[k] == before.partition_edges@[k],
            kept == filled(before.partitions@, i as int),
            partitions@.len() == kept.len(),
            loads@.len() == kept.len(),
            seed_assignments@.len() == kept.len(),
            partition_edges@.len() == kept.len(),
            forall|k: int|
                #![trigger kept[k]]
                0 <= k < kept.len() ==> {
                    &&& partitions@[k]@ == before.partitions@[kept[k]]@
                    &&& loads@[k] == before.loads@[kept[k]]
                    &&& seed_assignments@[k]@ == before.seed_assignments@[kept[k]]@
                    &&& partition_edges@[k]@ == before.partition_edges@[kept[k]]@
                },
        decreases n - i,
    {
        assert(old_partitions@[i as int] == before.partitions@[i as int]);
        assert(old_seeds@[i as int] == before.seed_assignments@[i as int]);
        assert(old_edges@[i as int] == before.partition_edges@[i as int]);
        let ghost kept0 = kept;
        let mut functions: Vec<String> = Vec::new();
        std::mem::swap(&mut functions, &mut old_partitions[i]);
        if functions.len() > 0 {
            let mut seeds: Vec<String> = Vec::new();
            std::mem::swap(&mut seeds, &mut old_seeds[i]);
            let mut edges: Vec<(String, String)> = Vec::new();
            std::mem::swap(&mut edges, &mut old_edges[i]);
            partitions.push(functions);
            loads.push(old_loads[i]);
            seed_assignments.push(seeds);
            partition_edges.push(edges);
            proof {
                kept = kept.push(i as int);
                assert forall|k: int|
                    #![trigger kept[k]]
                    0 <= k < kept.len() implies {
                    &&& partitions@[k]@ == before.partitions@[kept[k]]@
                    &&& loads@[k] == before.loads@[kept[k]]
                    &&& seed_assignments@[k]@ == before.seed_assignments@[kept[k]]@
                    &&& partition_edges@[k]@ == before.partition_edges@[kept[k]]@
                } by {
                    if k < kept0.len() {
                        assert(kept0[k] == kept[k]);
                    }
                }
            }
        }
        i = i + 1;
    }
    if partitions.len() == 0 {
        partitions.push(Vec::new());
        loads.push(0);
        seed_assignments.push(Vec::new());
        partition_edges.push(Vec::new());
    }
    PartitionPlan { algorithm, partitions, loads, seed_assignments, partition_edges }
}

/// Compacting keeps the functions of every partition that has any, and in the order of the
/// partitions.
pub proof fn law_compacting_keeps_functions(before: PartitionPlan, after: PartitionPlan, p: int)
    requires
        is_compacted(before, after),
        0 <= p < described(before),
        before.partitions@[p]@.len() > 0,
    ensures
        exists|k: int|
            0 <= k < after.partitions@.len() && (#[trigger] after.partitions@[k])@
                == before.partitions@[p]@ && after.loads@[k] == before.loads@[p],
{
    lemma_filled(before.partitions@, described(before), p);
    let kept = filled(before.partitions@, described(before));
    let k = kept.index_of(p);
    assert(kept[k] == p);
    assert(after.partitions@[k]@ == before.partitions@[p]@);
}

proof fn lemma_filled(partitions: Seq<Vec<String>>, n: int, p: int)
    requires
        0 <= p < n,
        partitions[p]@.len() > 0,
    ensures
        filled(partitions, n).contains(p),
    decreases n,
{
    let before = filled(partitions, n - 1);
    let all = filled(partitions, n);
    if p == n - 1 {
        assert(all[before.len() as int] == p);
    } else {
        lemma_filled(partitions, n - 1, p);
        let k = before.index_of(p);
        assert(all[k] == p);
    }
}

/// After compacting, no partition is empty, unless there is only one.
pub proof fn law_compacted_is_filled(before: PartitionPlan, after: PartitionPlan, k: int)
    requires
        is_compacted(before, after),
        0 <= k < after.partitions@.len(),
        after.partitions@.len() > 1,
    ensures
        after.partitions@[k]@.len() > 0,
{
    let kept = filled(before.partitions@, described(before));
    lemma_filled_are_filled(before.partitions@, described(before), k);
    assert(after.partitions@[k]@ == before.partitions@[kept[k]]@);
}

proof fn lemma_filled_are_filled(partitions: Seq<Vec<String>>, n: int, k: int)
    requires
        0 <= k < filled(partitions, n).len(),
    ensures
        0 <= filled(partitions, n)[k] < n,
        partitions[filled(partitions, n)[k]]@.len() > 0,
    decreases n,
{
    if n > 0 {
        let before = filled(partitions, n - 1);
        if k < before.len() {
            lemma_filled_are_filled(partitions, n - 1, k);
            assert(filled(partitions, n)[k] == before[k]);
        }
    }
}

/// One thing that speaks for giving a seed to a partition.
#[derive(Clone, Copy, Debug, PartialEq, Eq, Structural)]
pub enum SeedTerm {
    /// The seed makes a call that the partition holds: how often, and how many seeds reach the
    /// caller and the callee.
    Link { count: u64, caller_seeds: u64, callee_seeds: u64 },
    /// The seed reaches a function of the partition, which that many seeds reach.
    Function { seeds: u64 },
}

/// How many seeds reach a function, at least one.
pub open spec fn reaching_seeds(seed_hits: Map<Seq<char>, u64>, name: Seq<char>) -> u64 {
    if seed_hits.contains_key(name) && seed_hits[name] > 0 {
        seed_hits[name]
    } else {
        1
    }
}

fn seeds_reaching(seed_hits: &SortedMap<String, u64>, name: &String) -> (r: u64)
    ensures
        r == reaching_seeds(seed_hits@, name@),
{
    match seed_hits.get(name) {
        Some(hits) => if *hits > 0 {
            *hits
        } else {
            1
        },
        None => 1,
    }
}

/// Whether the plan places links.
pub open spec fn places_links(plan: PartitionPlan) -> bool {
    exists|p: int|
        0 <= p < plan.partition_edges@.len() && (#[trigger] plan.partition_edges@[p])@.len() > 0
}

/// Whether the link is that of a call, in either direction.
pub open spec fn is_call(link: (String, String), caller: Seq<char>, callee: Seq<char>) -> bool {
    (link.0@, link.1@) == name_pair(caller, callee)
}

/// As many copies of the term as the partition has links for the call.
pub open spec fn link_copies(
    links: Seq<(String, String)>,
    caller: Seq<char>,
    callee: Seq<char>,
    term: SeedTerm,
) -> Seq<SeedTerm>
    decreases links.len(),
{
    if links.len() == 0 {
        Seq::empty()
    } else {
        let before = link_copies(links.drop_last(), caller, callee, term);
        if is_call(links.last(), caller, callee) {
            before.push(term)
        } else {
            before
        }
    }
}

/// What the calls of a seed say for a partition that holds these links.
pub open spec fn link_terms(
    links: Seq<(String, String)>,
    calls: Seq<((String, String), u64)>,
    seed_hits: Map<Seq<char>, u64>,
) -> Seq<SeedTerm>
    decreases calls.len(),
{
    if calls.len() == 0 {
        Seq::empty()
    } else {
        let call = calls.last();
        link_terms(links, calls.drop_last(), seed_hits) + link_copies(
            links,
            call.0.0@,
            call.0.1@,
            SeedTerm::Link {
                count: call.1,
                caller_seeds: reaching_seeds(seed_hits, call.0.0@),
                callee_seeds: reaching_seeds(seed_hits, call.0.1@),
            },
        )
    }
}

/// The last of the first `n` partitions that holds a function.
pub open spec fn home_of(partitions: Seq<Vec<String>>, n: int, name: Seq<char>) -> Option<int>
    decreases n,
{
    if n <= 0 {
        None
    } else if texts(partitions[n - 1]@).contains(name) {
        Some(n - 1)
    } else {
        home_of(partitions, n - 1, name)
    }
}

/// What the functions that a seed reaches say for a partition.
pub open spec fn function_terms(
    partitions: Seq<Vec<String>>,
    reached: Seq<(Seq<char>, u64)>,
    seed_hits: Map<Seq<char>, u64>,
    partition: int,
) -> Seq<SeedTerm>
    decreases reached.len(),
{
    if reached.len() == 0 {
        Seq::empty()
    } else {
        let name = reached.last().0;
        let before = function_terms(partitions, reached.drop_last(), seed_hits, partition);
        if home_of(partitions, partitions.len() as int, name) == Some(partition) {
            before.push(SeedTerm::Function { seeds: reaching_seeds(seed_hits, name) })
        } else {
            before
        }
    }
}

/// What speaks for giving a seed to a partition.
pub open spec fn terms_for(
    plan: PartitionPlan,
    seed: SeedTraceSummary,
    seed_hits: Map<Seq<char>, u64>,
    partition: int,
) -> Seq<SeedTerm> {
    if places_links(plan) {
        link_terms(plan.partition_edges@[partition]@, seed.edge_hits@, seed_hits)
    } else {
        function_terms(plan.partitions@, seed.function_hits.seq(), seed_hits, partition)
    }
}

/// A plan says of every partition all that there is to say.
pub open spec fn plan_ok(plan: PartitionPlan) -> bool {
    &&& plan.loads@.len() == plan.partitions@.len()
    &&& plan.seed_assignments@.len() == plan.partitions@.len()
    &&& plan.partition_edges@.len() == plan.partitions@.len()
}

fn plan_places_links(plan: &PartitionPlan) -> (r: bool)
    ensures
        r == places_links(*plan),
{
    let n = plan.partition_edges.len();
    let mut p: usize = 0;
    while p < n
        invariant
            n == plan.partition_edges@.len(),
            p <= n,
            forall|q: int| 0 <= q < p ==> (#[trigger] plan.partition_edges@[q])@.len() == 0,
        decreases n - p,
    {
        if plan.partition_edges[p].len() > 0 {
            return true;
        }
        p = p + 1;
    }
    false
}

fn terms_from_links(
    links: &Vec<(String, String)>,
    calls: &Vec<((String, String), u64)>,
    seed_hits: &SortedMap<String, u64>,
) -> (r: Vec<SeedTerm>)
    ensures
        r@ == link_terms(links@, calls@, seed_hits@),
{
    let mut out: Vec<SeedTerm> = Vec::new();
    let n = calls.len();
    let m = links.len();
    let mut i: usize = 0;
    while i < n
        invariant
            n == calls@.len(),
            m == links@.len(),
            i <= n,
            out@ == link_terms(links@, calls@.take(i as int), seed_hits@),
        decreases n - i,
    {
        let call = &calls[i];
        let term = SeedTerm::Link {
            count: call.1,
            caller_seeds: seeds_reaching(seed_hits, &call.0.0),
            callee_seeds: seeds_reaching(seed_hits, &call.0.1),
        };
        let swapped = text_less(call.0.1.as_str(), call.0.0.as_str());
        let ghost (caller, callee) = (call.0.0@, call.0.1@);
        let ghost before = out@;
        let mut j: usize = 0;
        while j < m
            invariant
                m == links@.len(),
                j <= m,
                (caller, callee) == (call.0.0@, call.0.1@),
                swapped == text_lt(callee, caller),
                out@ == before + link_copies(links@.take(j as int), caller, callee, term),
            decreases m - j,
        {
            let link = &links[j];
            let found = if swapped {
                text_eq(link.0.as_str(), call.0.1.as_str()) && text_eq(
                    link.1.as_str(),
                    call.0.0.as_str(),
                )
            } else {
                text_eq(link.0.as_str(), call.0.0.as_str()) && text_eq(
                    link.1.as_str(),
                    call.0.1.as_str(),
                )
            };
            assert(links@.take(j + 1).drop_last() =~= links@.take(j as int));
            assert(found == is_call(links@[j as int], caller, callee));
            if found {
                out.push(term);
            }
            j = j + 1;
        }
        assert(links@.take(m as int) =~= links@);
        assert(calls@.take(i + 1).drop_last() =~= calls@.take(i as int));
        i = i + 1;
    }
    assert(calls@.take(n as int) =~= calls@);
    out
}

/// The last partition that holds a function.
fn find_home(partitions: &Vec<Vec<String>>, name: &String) -> (r: Option<usize>)
    ensures
        as_place(r) == home_of(partitions@, partitions@.len() as int, name@),
{
    let mut n: usize = partitions.len();
    while n > 0
        invariant
            n <= partitions@.len(),
            home_of(partitions@, n as int, name@) == home_of(
                partitions@,
                partitions@.len() as int,
                name@,
            ),
        decreases n,
    {
        let list = &partitions[n - 1];
        let m = list.len();
        let mut i: usize = 0;
        while i < m
            invariant
                0 < n <= partitions@.len(),
                list == partitions@[n - 1],
                home_of(partitions@, n as int, name@) == home_of(
                    partitions@,
                    partitions@.len() as int,
                    name@,
                ),
                m == list@.len(),
                i <= m,
                forall|k: int| 0 <= k < i ==> (#[trigger] list@[k])@ != name@,
            decreases m - i,
        {
            if text_eq(list[i].as_str(), name.as_str()) {
                assert(texts(partitions@[n - 1]@)[i as int] == name@);
                return Some(n - 1);
            }
            i = i + 1;
        }
        proof {
            if texts(list@).contains(name@) {
                let k = texts(list@).index_of(name@);
                assert(list@[k]@ == name@);
            }
        }
        n = n - 1;
    }
    None
}

fn terms_from_functions(
    partitions: &Vec<Vec<String>>,
    reached: &SortedMap<String, u64>,
    seed_hits: &SortedMap<String, u64>,
    partition: usize,
) -> (r: Vec<SeedTerm>)
    ensures
        r@ == function_terms(partitions@, reached.seq(), seed_hits@, partition as int),
{
    let ghost all = reached.seq();
    let n = reached.len();
    let mut out: Vec<SeedTerm> = Vec::new();
    let mut i: usize = 0;
    while i < n
        invariant
            all == reached.seq(),
            n == all.len(),
            i <= n,
            out@ == function_terms(
                partitions@,
                all.take(i as int),
                seed_hits@,
                partition as int,
            ),
        decreases n - i,
    {
        let name = reached.key_at(i);
        assert(all.take(i + 1).drop_last() =~= all.take(i as int));
        if let Some(home) = find_home(partitions, name) {
            if home == partition {
                out.push(SeedTerm::Function { seeds: seeds_reaching(seed_hits, name) });
            }
        }
        i = i + 1;
    }
    assert(all.take(n as int) =~= all);
    out
}

/// What speaks for giving a seed to each of the partitions.
pub fn seed_terms(
    plan: &PartitionPlan,
    seed: &SeedTraceSummary,
    seed_hits: &SortedMap<String, u64>,
) -> (r: Vec<Vec<SeedTerm>>)
    requires
        plan_ok(*plan),
    ensures
        r@.len() == plan.partitions@.len(),
        forall|p: int|
            0 <= p < r@.len() ==> (#[trigger] r@[p])@ == terms_for(*plan, *seed, seed_hits@, p),
{
    let links = plan_places_links(plan);
    let n = plan.partitions.len();
    let mut out: Vec<Vec<SeedTerm>> = Vec::new();
    let mut p: usize = 0;
    while p < n
        invariant
            plan_ok(*plan),
            links == places_links(*plan),
            n == plan.partitions@.len(),
            p <= n,
            out@.len() == p,
            forall|q: int|
                0 <= q < p ==> (#[trigger] out@[q])@ == terms_for(*plan, *seed, seed_hits@, q),
        decreases n - p,
    {
        let terms = if links {
            terms_from_links(&plan.partition_edges[p], &seed.edge_hits, seed_hits)
        } else {
            terms_from_functions(&plan.partitions, &seed.function_hits, seed_hits, p)
        };
        out.push(terms);
        p = p + 1;
    }
    out
}

/// The partition, among the first `n`, that a seed goes to: the one with the best score; among
/// those with that score, one with the fewest seeds; and among those the last.
pub open spec fn seed_home(scores: Seq<u64>, sizes: spec_fn(int) -> nat, n: int) -> int
    decreases n,
{
    if n <= 1 {
        0
    } else {
        let best = seed_home(scores, sizes, n - 1);
        if scores[n - 1] > scores[best] || (scores[n - 1] == scores[best] && sizes(n - 1) <= sizes(
            best,
        )) {
            n - 1
        } else {
            best
        }
    }
}

/// The paths in each of the lists.
pub open spec fn path_lists(v: Seq<Vec<String>>) -> Seq<Seq<Seq<char>>> {
    Seq::new(v.len(), |i: int| texts(v[i]@))
}

/// The seeds of each partition, when the first seeds have been handed out.
pub open spec fn handed_out(
    before: Seq<Seq<Seq<char>>>,
    seeds: Seq<SeedTraceSummary>,
    scores: Seq<Vec<u64>>,
    n: int,
) -> Seq<Seq<Seq<char>>>
    decreases n,
{
    if n <= 0 {
        before
    } else {
        let lists = handed_out(before, seeds, scores, n - 1);
        let home = seed_home(scores[n - 1]@, |p: int| lists[p].len(), before.len() as int);
        lists.update(home, lists[home].push(seeds[n - 1].seed_path@))
    }
}

fn find_seed_home(scores: &Vec<u64>, lists: &Vec<Vec<String>>) -> (r: usize)
    requires
        scores@.len() == lists@.len() > 0,
    ensures
        r < lists@.len(),
        r == seed_home(
            scores@,
            |p: int| path_lists(lists@)[p].len(),
            lists@.len() as int,
        ),
{
    let n = lists.len();
    let ghost sizes = |p: int| path_lists(lists@)[p].len();
    let mut best: usize = 0;
    let mut p: usize = 1;
    while p < n
        invariant
            n == lists@.len() == scores@.len(),
            sizes == (|p: int| path_lists(lists@)[p].len()),
            best < p <= n,
            best == seed_home(scores@, sizes, p as int),
        decreases n - p,
    {
        if scores[p] > scores[best] || (scores[p] == scores[best] && lists[p].len()
            <= lists[best].len()) {
            best = p;
        }
        p = p + 1;
    }
    best
}

/// Hands the seeds to the partitions, by the scores of the partitions for each seed.
pub fn assign_seeds_to_partitions(
    plan: &mut PartitionPlan,
    seed_summaries: &[SeedTraceSummary],
    scores: &[Vec<u64>],
)
    requires
        plan_ok(*old(plan)),
        old(plan).partitions@.len() > 0,
        scores@.len() == seed_summaries@.len(),
        forall|s: int|
            0 <= s < scores@.len() ==> (#[trigger] scores@[s])@.len() == old(plan).partitions@.len(),
    ensures
        plan_ok(*final(plan)),
        final(plan).algorithm == old(plan).algorithm,
        final(plan).partitions == old(plan).partitions,
        final(plan).loads == old(plan).loads,
        final(plan).partition_edges == old(plan).partition_edges,
        path_lists(final(plan).seed_assignments@) == handed_out(
            path_lists(old(plan).seed_assignments@),
            seed_summaries@,
            scores@,
            seed_summaries@.len() as int,
        ),
{
    let ghost before = path_lists(plan.seed_assignments@);
    let n = seed_summaries.len();
    let mut s: usize = 0;
    while s < n
        invariant
            n == seed_summaries@.len() == scores@.len(),
            forall|k: int|
                0 <= k < scores@.len() ==> (#[trigger] scores@[k])@.len()
                    == plan.partitions@.len(),
            s <= n,
            plan_ok(*plan),
            plan.partitions@.len() > 0,
            plan.algorithm == old(plan).algorithm,
            plan.partitions == old(plan).partitions,
            plan.loads == old(plan).loads,
            plan.partition_edges == old(plan).partition_edges,
            before.len() == plan.partitions@.len(),
            path_lists(plan.seed_assignments@) == handed_out(
                before,
                seed_summaries@,
                scores@,
                s as int,
            ),
        decreases n - s,
    {
        let ghost lists = path_lists(plan.seed_assignments@);
        let home = find_seed_home(&scores[s], &plan.seed_assignments);
        let mut list: Vec<String> = Vec::new();
        std::mem::swap(&mut list, &mut plan.seed_assignments[home]);
        let ghost list0 = list@;
        list.push(seed_summaries[s].seed_path.clone());
        assert(texts(list@) =~= texts(list0).push(seed_summaries@[s as int].seed_path@));
        plan.seed_assignments.set(home, list);
        assert(path_lists(plan.seed_assignments@) =~= lists.update(
            home as int,
            lists[home as int].push(seed_summaries@[s as int].seed_path@),
        ));
        s = s + 1;
    }
}

/// A seed goes to a partition with the best score, to one of those with the fewest seeds, and to
/// the last of these.
pub proof fn law_seed_home_is_best(scores: Seq<u64>, sizes: spec_fn(int) -> nat, n: int, p: int)
    requires
        0 <= p < n <= scores.len(),
    ensures
        0 <= seed_home(scores, sizes, n) < n,
        scores[p] <= scores[seed_home(scores, sizes, n)],
        scores[p] == scores[seed_home(scores, sizes, n)] ==> sizes(p) >= sizes(
            seed_home(scores, sizes, n),
        ),
        scores[p] == scores[seed_home(scores, sizes, n)] && sizes(p) == sizes(
            seed_home(scores, sizes, n),
        ) ==> p <= seed_home(scores, sizes, n),
    decreases n,
{
    if n > 1 {
        law_seed_home_is_best(scores, sizes, n - 1, 0);
        if p < n - 1 {
            law_seed_home_is_best(scores, sizes, n - 1, p);
        }
    }
}

/// How many seeds there are in all lists.
pub open spec fn seed_total(lists: Seq<Seq<Seq<char>>>) -> nat
    decreases lists.len(),
{
    if lists.len() == 0 {
        0
    } else {
        seed_total(lists.drop_last()) + lists.last().len()
    }
}

/// Whether one of the lists holds the path.
pub open spec fn is_listed(lists: Seq<Seq<Seq<char>>>, path: Seq<char>) -> bool {
    exists|p: int| 0 <= p < lists.len() && #[trigger] lists[p].contains(path)
}

/// Every seed is handed to one partition: each adds one to the number of seeds handed out, and is
/// found in the list of some partition.
pub proof fn law_every_seed_is_handed_out(
    before: Seq<Seq<Seq<char>>>,
    seeds: Seq<SeedTraceSummary>,
    scores: Seq<Vec<u64>>,
    n: int,
)
    requires
        before.len() > 0,
        0 <= n <= seeds.len(),
        scores.len() == seeds.len(),
        forall|s: int| 0 <= s < scores.len() ==> (#[trigger] scores[s])@.len() == before.len(),
    ensures
        handed_out(before, seeds, scores, n).len() == before.len(),
        seed_total(handed_out(before, seeds, scores, n)) == seed_total(before) + n,
        forall|s: int|
            0 <= s < n ==> is_listed(
                handed_out(before, seeds, scores, n),
                (#[trigger] seeds[s]).seed_path@,
            ),
    decreases n,
{
    if n > 0 {
        law_every_seed_is_handed_out(before, seeds, scores, n - 1);
        let lists = handed_out(before, seeds, scores, n - 1);
        let sizes = |p: int| lists[p].len();
        let home = seed_home(scores[n - 1]@, sizes, before.len() as int);
        assert(scores[n - 1]@.len() == before.len());
        law_seed_home_is_best(scores[n - 1]@, sizes, before.len() as int, 0);
        let more = lists.update(home, lists[home].push(seeds[n - 1].seed_path@));
        assert(handed_out(before, seeds, scores, n) == more);
        lemma_seed_total(lists, home, seeds[n - 1].seed_path@);
        assert forall|s: int| 0 <= s < n implies is_listed(
            more,
            (#[trigger] seeds[s]).seed_path@,
        ) by {
            let path = seeds[s].seed_path@;
            if s == n - 1 {
                assert(more[home][lists[home].len() as int] == path);
                assert(more[home].contains(path));
            } else {
                assert(is_listed(lists, path));
                let p = choose|p: int| 0 <= p < lists.len() && #[trigger] lists[p].contains(path);
                let k = lists[p].index_of(path);
                assert(more[p][k] == path);
                assert(more[p].contains(path));
            }
        }
    }
}

proof fn lemma_seed_total(lists: Seq<Seq<Seq<char>>>, home: int, path: Seq<char>)
    requires
        0 <= home < lists.len(),
    ensures
        seed_total(lists.update(home, lists[home].push(path))) == seed_total(lists) + 1,
    decreases lists.len(),
{
    let more = lists.update(home, lists[home].push(path));
    if home == lists.len() - 1 {
        assert(more.drop_last() =~= lists.drop_last());
    } else {
        lemma_seed_total(lists.drop_last(), home, path);
        assert(more.drop_last() =~= lists.drop_last().update(home, lists[home].push(path)));
    }
}

} // verus!
