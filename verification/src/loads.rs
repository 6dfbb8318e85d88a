//! What holds of the order in which nodes and edges are placed, and of the loads of partitions.

use crate::edge_placement::{
    fill_up, holds_pair, is_edge_score, load_with, name_pair, stands_in, EdgeScore, EdgeState,
};
use crate::graph::{edges_at, far_ends};
use crate::options::Partitioner;
use crate::partition::weights_fit;
use crate::placement::{
    algorithm_name, at_least_one, ceil_div, edge_total, hashed_text, is_random_plan, is_scattered,
    is_vertex_plan, is_vertex_score, node_total, place_of, placed_names, takes_lead, weight_where,
    PartitionPlan, Standing, VertexScore, VertexState,
};
use crate::ranking::{
    is_edge_order, is_isolated, is_isolated_order, is_node_order, is_numbering, touches,
};
use crate::sums::total;
use crate::text::{text_lt, texts};
use std::collections::hash_map::DefaultHasher;
use vstd::std_specs::hash::DefaultHasherAdditionalSpecFns;
use vstd::prelude::*;

verus! {

/// Heavier nodes come first; of nodes of one weight, those with lesser names; of nodes of one name,
/// those with lesser numbers. Every node comes once.
pub proof fn law_heavier_nodes_come_first(
    nodes: Seq<(Seq<char>, u64)>,
    order: Seq<int>,
    k: int,
    l: int,
)
    requires
        is_node_order(nodes, order),
        nodes.len() <= usize::MAX,
        0 <= k < l < order.len(),
    ensures
        order.len() == nodes.len(),
        order[k] != order[l],
        nodes[order[k]].1 >= nodes[order[l]].1,
        nodes[order[k]].1 == nodes[order[l]].1 ==> text_lt(nodes[order[k]].0, nodes[order[l]].0) || (
        nodes[order[k]].0 == nodes[order[l]].0 && order[k] < order[l]),
{
}

/// Heavier edges come first; of edges of one weight, those whose first ends have lesser names, then
/// those whose second ends have; and of these, those with lesser numbers. Every edge comes once.
pub proof fn law_heavier_edges_come_first(
    nodes: Seq<(Seq<char>, u64)>,
    edges: Seq<(int, int, u64)>,
    order: Seq<int>,
    k: int,
    l: int,
)
    requires
        is_edge_order(nodes, edges, order),
        edges.len() <= usize::MAX,
        0 <= k < l < order.len(),
    ensures
        order.len() == edges.len(),
        order[k] != order[l],
        edges[order[k]].2 >= edges[order[l]].2,
        edges[order[k]].2 == edges[order[l]].2 ==> {
            let a = nodes[edges[order[k]].0].0;
            let b = nodes[edges[order[l]].0].0;
            let c = nodes[edges[order[k]].1].0;
            let d = nodes[edges[order[l]].1].0;
            text_lt(a, b) || (a == b && (text_lt(c, d) || (c == d && order[k] < order[l])))
        },
{
}

/// A node without edges comes once among the nodes without edges, and no other node does.
pub proof fn law_isolated_nodes_are_listed(
    nodes: Seq<(Seq<char>, u64)>,
    edges: Seq<(int, int, u64)>,
    order: Seq<int>,
    node: int,
)
    requires
        is_isolated_order(nodes, edges, order),
        0 <= node < nodes.len(),
    ensures
        order.contains(node) <==> forall|e: int|
            0 <= e < edges.len() ==> (#[trigger] edges[e]).0 != node && edges[e].1 != node,
        order.no_duplicates(),
        forall|k: int, l: int|
            #![trigger order[k], order[l]]
            0 <= k < l < order.len() ==> !text_lt(nodes[order[l]].0, nodes[order[k]].0),
{
    if order.contains(node) {
        let k = order.index_of(node);
        assert(is_isolated(edges, order[k]));
        assert forall|e: int| 0 <= e < edges.len() implies (#[trigger] edges[e]).0 != node
            && edges[e].1 != node by {
            assert(!touches(edges[e], node));
        }
    }
    if forall|e: int|
        0 <= e < edges.len() ==> (#[trigger] edges[e]).0 != node && edges[e].1 != node {
        assert(is_isolated(edges, node));
    }
    assert forall|k: int, l: int| #![trigger order[k], order[l]] 0 <= k < l < order.len() implies
        !text_lt(nodes[order[l]].0, nodes[order[k]].0) && order[k] != order[l] by {
        let (a, b) = (nodes[order[k]].0, nodes[order[l]].0);
        crate::text::lemma_text_lt_irreflexive(a);
        if text_lt(a, b) && text_lt(b, a) {
            crate::text::lemma_text_lt_transitive(a, b, a);
        }
    }
}

/// The weight of some nodes is the sum of the weights of those.
pub proof fn law_weight_is_the_sum(nodes: Seq<(Seq<char>, u64)>, here: spec_fn(int) -> bool)
    ensures
        weight_where(nodes, here) == total(
            Seq::new(
                nodes.len(),
                |i: int|
                    if here(i) {
                        nodes[i].1
                    } else {
                        0u64
                    },
            ),
        ),
    decreases nodes.len(),
{
    let all = Seq::new(
        nodes.len(),
        |i: int|
            if here(i) {
                nodes[i].1
            } else {
                0u64
            },
    );
    if nodes.len() > 0 {
        law_weight_is_the_sum(nodes.drop_last(), here);
        assert(all.drop_last() =~= Seq::new(
            nodes.drop_last().len(),
            |i: int|
                if here(i) {
                    nodes.drop_last()[i].1
                } else {
                    0u64
                },
        ));
    }
}

/// All nodes weigh the sum of their weights, and all edges theirs.
pub proof fn law_totals_are_sums(nodes: Seq<(Seq<char>, u64)>, edges: Seq<(int, int, u64)>)
    ensures
        node_total(nodes) == total(Seq::new(nodes.len(), |i: int| nodes[i].1)),
        edge_total(edges) == total(Seq::new(edges.len(), |i: int| edges[i].2)),
    decreases edges.len(),
{
    law_weight_is_the_sum(nodes, |i: int| true);
    assert(Seq::new(nodes.len(), |i: int| nodes[i].1) =~= Seq::new(
        nodes.len(),
        |i: int|
            if (|j: int| true)(i) {
                nodes[i].1
            } else {
                0u64
            },
    ));
    if edges.len() > 0 {
        law_totals_are_sums(nodes, edges.drop_last());
        let all = Seq::new(edges.len(), |i: int| edges[i].2);
        assert(all.drop_last() =~= Seq::new(
            edges.drop_last().len(),
            |i: int| edges.drop_last()[i].2,
        ));
    }
}

/// A node stands where it was placed.
pub proof fn law_node_stands_where_placed(v: VertexState, k: int)
    requires
        v.order.no_duplicates(),
        0 <= k < v.places.len() <= v.order.len(),
    ensures
        place_of(v.order, v.places, v.order[k]) == Some(v.places[k]),
    decreases v.places.len(),
{
    let last = v.places.len() - 1;
    if k < last {
        let less = VertexState { places: v.places.drop_last(), ..v };
        assert(v.order[last] != v.order[k]);
        law_node_stands_where_placed(less, k);
    }
}

/// A node that was not placed yet stands nowhere.
pub proof fn law_unplaced_stands_nowhere(v: VertexState, k: int)
    requires
        v.order.no_duplicates(),
        v.places.len() <= k < v.order.len(),
    ensures
        place_of(v.order, v.places, v.order[k]) is None,
    decreases v.places.len(),
{
    if v.places.len() > 0 {
        assert(v.order[v.places.len() - 1] != v.order[k]);
        law_unplaced_stands_nowhere(VertexState { places: v.places.drop_last(), ..v }, k);
    }
}

/// A node that is placed is named last in its partition; the other partitions name what they did.
pub proof fn law_placing_names_node(v: VertexState, p: int, q: int)
    requires
        v.places.len() < v.order.len(),
    ensures
        ({
            let before = placed_names(v.nodes, v.order, v.places, q);
            let after = placed_names(v.nodes, v.order, v.place(p).places, q);
            after == if p == q {
                before.push(v.nodes[v.order[v.places.len() as int]].0)
            } else {
                before
            }
        }),
{
    assert(v.places.push(p).drop_last() =~= v.places);
}

/// A candidate takes the lead if its score is higher, or as high with less load; not with as much.
pub proof fn law_lead_is_taken(load: nat, best_load: nat)
    ensures
        takes_lead(Standing::Higher, load, best_load),
        !takes_lead(Standing::Lower, load, best_load),
        load < best_load ==> takes_lead(Standing::Near, load, best_load),
        load >= best_load ==> !takes_lead(Standing::Near, load, best_load),
{
}

/// The capacity of partitions is the least with which they hold everything.
pub proof fn law_capacity_is_least(weight: nat, count: nat)
    requires
        count > 0,
    ensures
        ceil_div(weight, count) * count >= weight,
        weight > 0 ==> (ceil_div(weight, count) - 1) * count < weight,
{
    let q = weight / count;
    let r = weight % count;
    assert(weight == q * count + r && 0 <= r < count) by (nonlinear_arith)
        requires
            q == weight / count,
            r == weight % count,
            count > 0,
    ;
    assert((q + 1) * count == q * count + count) by (nonlinear_arith);
    assert((q - 1) * count == q * count - count) by (nonlinear_arith);
}

/// The question for a node tells what stands at its edges in the candidate, what the candidate holds
/// and what it can hold: all candidates together can hold all nodes.
pub proof fn law_question_tells_room(v: VertexState, q: VertexScore)
    requires
        is_vertex_score(v, q),
        v.count > 0,
    ensures
        q.partition == v.candidate,
        q.partition_count == v.count,
        q.node_weight == v.nodes[v.order[v.places.len() as int]].1,
        q.load == v.load(v.candidate),
        q.capacity * q.partition_count >= node_total(v.nodes),
        q.total_weight >= node_total(v.nodes),
        q.total_edge_weight >= edge_total(v.edges),
        q.total_weight > 1 ==> q.total_weight == node_total(v.nodes),
        q.total_edge_weight > 1 ==> q.total_edge_weight == edge_total(v.edges),
        q.total_weight > 0 && q.total_edge_weight > 0 && q.capacity > 0,
        (q.capacity - 1) * q.partition_count < q.total_weight,
{
    let weight = q.total_weight as nat;
    let count = v.count as nat;
    law_capacity_is_least(weight, count);
    let c = ceil_div(weight, count);
    assert(c >= 1) by {
        if c == 0 {
            assert(c * count == 0) by (nonlinear_arith)
                requires
                    c == 0,
            ;
        }
    }
    assert(q.capacity == c);
    assert(q.capacity * q.partition_count == c * count);
    assert((q.capacity - 1) * q.partition_count == (c - 1) * count);
}

/// A node stands in a partition if and only if one of its edges was placed there.
pub proof fn law_node_stands_with_its_edges(
    edges: Seq<(int, int, u64)>,
    order: Seq<int>,
    places: Seq<int>,
    partition: int,
    node: int,
)
    ensures
        stands_in(edges, order, places, partition, node) <==> exists|k: int|
            0 <= k < places.len() && (#[trigger] places[k]) == partition && (edges[order[k]].0
                == node || edges[order[k]].1 == node),
    decreases places.len(),
{
    if places.len() > 0 {
        let less = places.drop_last();
        law_node_stands_with_its_edges(edges, order, less, partition, node);
        if stands_in(edges, order, less, partition, node) {
            let k = choose|k: int|
                0 <= k < less.len() && (#[trigger] less[k]) == partition && (edges[order[k]].0
                    == node || edges[order[k]].1 == node);
            assert(places[k] == less[k]);
        }
        assert(places[places.len() - 1] == places.last());
        if exists|k: int|
            0 <= k < places.len() && (#[trigger] places[k]) == partition && (edges[order[k]].0
                == node || edges[order[k]].1 == node) {
            let k = choose|k: int|
                0 <= k < places.len() && (#[trigger] places[k]) == partition && (edges[order[k]].0
                    == node || edges[order[k]].1 == node);
            if k < less.len() {
                assert(less[k] == places[k]);
            }
        }
    }
}

/// A partition holds a link if and only if an edge between two nodes of these names was placed there.
pub proof fn law_partition_holds_its_links(
    nodes: Seq<(Seq<char>, u64)>,
    edges: Seq<(int, int, u64)>,
    order: Seq<int>,
    places: Seq<int>,
    partition: int,
    pair: (Seq<char>, Seq<char>),
)
    ensures
        holds_pair(nodes, edges, order, places, partition, pair) <==> exists|k: int|
            0 <= k < places.len() && (#[trigger] places[k]) == partition && pair == name_pair(
                nodes[edges[order[k]].0].0,
                nodes[edges[order[k]].1].0,
            ),
    decreases places.len(),
{
    if places.len() > 0 {
        let less = places.drop_last();
        law_partition_holds_its_links(nodes, edges, order, less, partition, pair);
        if holds_pair(nodes, edges, order, less, partition, pair) {
            let k = choose|k: int|
                0 <= k < less.len() && (#[trigger] less[k]) == partition && pair == name_pair(
                    nodes[edges[order[k]].0].0,
                    nodes[edges[order[k]].1].0,
                );
            assert(places[k] == less[k]);
        }
        assert(places[places.len() - 1] == places.last());
        if exists|k: int|
            0 <= k < places.len() && (#[trigger] places[k]) == partition && pair == name_pair(
                nodes[edges[order[k]].0].0,
                nodes[edges[order[k]].1].0,
            ) {
            let k = choose|k: int|
                0 <= k < places.len() && (#[trigger] places[k]) == partition && pair == name_pair(
                    nodes[edges[order[k]].0].0,
                    nodes[edges[order[k]].1].0,
                );
            if k < less.len() {
                assert(less[k] == places[k]);
            }
        }
    }
}

/// The question for an edge tells which of its ends stand in the candidate, what they weigh, and how
/// much the candidate, the fullest and the emptiest partition hold.
pub proof fn law_edge_question_tells_loads(v: EdgeState, q: EdgeScore, p: int)
    requires
        is_edge_score(v, q),
        0 <= p < v.count,
        0 <= v.candidate < v.count,
    ensures
        q.min_load <= v.load(p) <= q.max_load,
        q.min_load <= q.load <= q.max_load,
        q.load == v.load(v.candidate),
        q.source_weight + q.target_weight <= q.ends_weight,
        q.ends_weight > 0,
        q.ends_weight > 1 ==> q.ends_weight == q.source_weight + q.target_weight,
        ({
            let e = v.edges[v.order[v.places.len() as int]];
            &&& q.source_weight == v.nodes[e.0].1
            &&& q.target_weight == v.nodes[e.1].1
            &&& q.source_present <==> exists|k: int|
                0 <= k < v.places.len() && (#[trigger] v.places[k]) == v.candidate && (
                v.edges[v.order[k]].0 == e.0 || v.edges[v.order[k]].1 == e.0)
            &&& q.target_present <==> exists|k: int|
                0 <= k < v.places.len() && (#[trigger] v.places[k]) == v.candidate && (
                v.edges[v.order[k]].0 == e.1 || v.edges[v.order[k]].1 == e.1)
        }),
{
    let e = v.edges[v.order[v.places.len() as int]];
    law_node_stands_with_its_edges(v.edges, v.order, v.places, v.candidate, e.0);
    law_node_stands_with_its_edges(v.edges, v.order, v.places, v.candidate, e.1);
    let loads = |p: int| v.load(p);
    assert(loads(p) == v.load(p));
    assert(loads(v.candidate) == v.load(v.candidate));
}

/// A node without edges goes where the least load is, of several such to the first.
pub proof fn law_rest_goes_to_least_load(
    v: EdgeState,
    isolated: Seq<int>,
    places: Seq<int>,
    k: int,
    q: int,
)
    requires
        fill_up(v, isolated, places),
        0 <= k < places.len(),
        0 <= q < v.count,
    ensures
        ({
            let here = load_with(v, isolated, places.take(k), places[k]);
            let there = load_with(v, isolated, places.take(k), q);
            &&& here <= there
            &&& here == there ==> places[k] <= q
        }),
{
    let loads = |p: int| load_with(v, isolated, places.take(k), p);
    assert(loads(q) == load_with(v, isolated, places.take(k), q));
    assert(loads(places[k]) == load_with(v, isolated, places.take(k), places[k]));
}

/// There is always a partition to place in, and no more than asked for.
pub proof fn law_one_partition_at_least(count: nat)
    ensures
        at_least_one(count) >= 1,
        at_least_one(count) >= count,
        count >= 1 ==> at_least_one(count) == count,
        count == 0 ==> at_least_one(count) == 1,
{
}

/// A node has the edges of which it is an end, each once, with the other end and the weight.
pub proof fn law_node_has_its_edges(edges: Seq<(int, int, u64)>, node: int)
    ensures
        edges_at(edges, node) == edges.filter(
            |e: (int, int, u64)| e.0 == node || e.1 == node,
        ).map_values(
            |e: (int, int, u64)|
                (
                    if e.0 == node {
                        e.1
                    } else {
                        e.0
                    },
                    e.2,
                ),
        ),
    decreases edges.len(),
{
    reveal(Seq::filter);
    let f = |e: (int, int, u64)| e.0 == node || e.1 == node;
    let g = |e: (int, int, u64)|
        (
            if e.0 == node {
                e.1
            } else {
                e.0
            },
            e.2,
        );
    if edges.len() > 0 {
        law_node_has_its_edges(edges.drop_last(), node);
        let less = edges.drop_last().filter(f);
        if f(edges.last()) {
            assert(edges.filter(f) =~= less.push(edges.last()));
            assert(less.push(edges.last()).map_values(g) =~= less.map_values(g).push(
                g(edges.last()),
            ));
        } else {
            assert(edges.filter(f) =~= less);
        }
    } else {
        assert(edges.filter(f).map_values(g) =~= Seq::empty());
    }
}

/// The question for a node tells of the edges whose other ends stand in the candidate.
pub proof fn law_question_tells_ties(v: VertexState, q: VertexScore, tie: (int, u64))
    requires
        is_vertex_score(v, q),
        far_ends(q.ties@).contains(tie),
    ensures
        place_of(v.order, v.places, tie.0) == Some(v.candidate),
        edges_at(v.edges, v.order[v.places.len() as int]).contains(tie),
{
    let node = v.order[v.places.len() as int];
    far_ends(q.ties@).to_multiset_ensures();
    edges_at(v.edges, node).to_multiset_ensures();
    assert(far_ends(q.ties@).to_multiset().count(tie) > 0);
}

proof fn lemma_named_where_placed(v: VertexState, n: int, k: int)
    requires
        0 <= k < n <= v.places.len(),
    ensures
        placed_names(v.nodes, v.order, v.places.take(n), v.places[k]).contains(
            v.nodes[v.order[k]].0,
        ),
    decreases n,
{
    let places = v.places.take(n);
    let p = v.places[k];
    let name = v.nodes[v.order[k]].0;
    assert(places.drop_last() =~= v.places.take(n - 1));
    let before = placed_names(v.nodes, v.order, v.places.take(n - 1), p);
    let all = placed_names(v.nodes, v.order, places, p);
    if k == n - 1 {
        assert(all =~= before.push(name));
        assert(all[before.len() as int] == name);
    } else {
        lemma_named_where_placed(v, n - 1, k);
        let at = before.index_of(name);
        assert(all[at] == name);
    }
}

/// A plan lists each function in the partition that it was placed in, and tells what each partition
/// holds.
pub proof fn law_plan_lists_placed_functions(
    v: VertexState,
    algorithm: Seq<char>,
    plan: PartitionPlan,
    k: int,
)
    requires
        is_vertex_plan(v, algorithm, plan),
        0 <= k < v.places.len(),
        0 <= v.places[k] < v.count,
    ensures
        plan.partitions@.len() == v.count,
        texts(plan.partitions@[v.places[k]]@).contains(v.nodes[v.order[k]].0),
        plan.loads@[v.places[k]] == v.load(v.places[k]),
{
    lemma_named_where_placed(v, v.places.len() as int, k);
    assert(v.places.take(v.places.len() as int) =~= v.places);
}

/// By chance a function goes where its name is hashed to: the remainder of the hash by the number of
/// partitions.
pub proof fn law_chance_follows_hash(
    nodes: Seq<(Seq<char>, u64)>,
    count: int,
    plan: PartitionPlan,
    node: int,
)
    requires
        is_random_plan(nodes, count, plan),
        0 <= node < nodes.len(),
        count > 0,
    ensures
        ({
            let p = (DefaultHasher::spec_finish(hashed_text(nodes[node].0)) as usize) as int % count;
            &&& 0 <= p < count
            &&& plan.partitions@.len() == count
            &&& texts(plan.partitions@[p]@).contains(nodes[node].0)
        }),
{
    let v = choose|v: VertexState|
        is_scattered(v, nodes, count) && #[trigger] is_vertex_plan(
            v,
            algorithm_name(Partitioner::Random),
            plan,
        );
    lemma_numbering_has_all(v.order, nodes.len(), node);
    let k = v.order.index_of(node);
    let hash = (DefaultHasher::spec_finish(hashed_text(nodes[node].0)) as usize) as int;
    assert(0 <= hash % count < count) by (nonlinear_arith)
        requires
            count > 0,
            hash >= 0,
    ;
    assert(v.places[k] == hash % count);
    law_plan_lists_placed_functions(v, algorithm_name(Partitioner::Random), plan, k);
}

proof fn lemma_numbering_has_all(order: Seq<int>, n: nat, node: int)
    requires
        is_numbering(order, n),
        0 <= node < n,
    ensures
        order.contains(node),
{
    let all = Set::new(|i: int| 0 <= i < n);
    vstd::set_lib::lemma_int_range(0, n as int);
    assert(all =~= vstd::set_lib::set_int_range(0, n as int));
    order.unique_seq_to_set();
    assert(order.to_set().subset_of(all)) by {
        assert forall|i: int| order.to_set().contains(i) implies all.contains(i) by {
            let k = order.index_of(i);
            assert(0 <= order[k] < n);
        }
    }
    vstd::set_lib::lemma_subset_equality(order.to_set(), all);
    assert(all.contains(node));
    assert(order.to_set().contains(node));
}

/// Weights fit if their sums can be told with 64 bits; where edges are placed, those of the ends of
/// each edge must.
pub proof fn law_weights_fit(
    nodes: Seq<(Seq<char>, u64)>,
    edges: Seq<(int, int, u64)>,
    partitioner: Partitioner,
)
    ensures
        partitioner != Partitioner::Hrdf ==> (weights_fit(nodes, edges, partitioner) <==> total(
            Seq::new(nodes.len(), |i: int| nodes[i].1),
        ) <= 18446744073709551615 && total(Seq::new(edges.len(), |i: int| edges[i].2))
            <= 18446744073709551615),
        partitioner == Partitioner::Hrdf ==> (weights_fit(nodes, edges, partitioner) <==> total(
            Seq::new(nodes.len(), |i: int| nodes[i].1),
        ) <= 18446744073709551615 && forall|e: int|
            0 <= e < edges.len() && (#[trigger] edges[e]).0 == edges[e].1 ==> 2
                * nodes[edges[e].0].1 <= 18446744073709551615),
{
    law_totals_are_sums(nodes, edges);
}

} // verus!
