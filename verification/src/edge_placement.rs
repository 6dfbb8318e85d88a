//! Placing the links of a graph in partitions.
//!
//! A function stands in every partition that holds one of its links, so it can stand in several.

use crate::graph::{edge_list, graph_edges, graph_nodes, node_at, node_count, PartitionNode};
use crate::ordered::{Key, NameSet, SortedMap};
use crate::placement::{
    at_least_one, empty_lists, lemma_weight_nowhere, lemma_weight_split, lemma_weight_where_add,
    lemma_weight_where_le, node_total, place_of, placed_weight, sum_nodes, takes_lead, weight_where,
    PartitionPlan, Standing,
};
use crate::ranking::{
    edge_order, ints, is_edge_order, is_isolated, is_isolated_order, isolated_order, touches,
};
use crate::tasks::{ascending_names, sorted_names};
use crate::text::{lemma_text_lt_irreflexive, text_less, text_lt, texts};
use petgraph::graph::UnGraph;
use vstd::prelude::*;

verus! {

/// Whether a node stands in a partition: the edge `order[k]` was placed in `places[k]`.
pub open spec fn stands_in(
    edges: Seq<(int, int, u64)>,
    order: Seq<int>,
    places: Seq<int>,
    partition: int,
    node: int,
) -> bool
    decreases places.len(),
{
    places.len() > 0 && (stands_in(edges, order, places.drop_last(), partition, node) || (
    places.last() == partition && touches(edges[order[places.len() - 1]], node)))
}

/// The weight of the nodes that stand in a partition.
pub open spec fn standing_weight(
    nodes: Seq<(Seq<char>, u64)>,
    edges: Seq<(int, int, u64)>,
    order: Seq<int>,
    places: Seq<int>,
    partition: int,
) -> nat {
    weight_where(nodes, |i: int| stands_in(edges, order, places, partition, i))
}

/// Whether a function of that name stands in a partition.
pub open spec fn name_stands(
    nodes: Seq<(Seq<char>, u64)>,
    edges: Seq<(int, int, u64)>,
    order: Seq<int>,
    places: Seq<int>,
    partition: int,
    name: Seq<char>,
) -> bool {
    exists|i: int|
        0 <= i < nodes.len() && nodes[i].0 == name && #[trigger] stands_in(
            edges,
            order,
            places,
            partition,
            i,
        )
}

/// The names of the ends of a link, the lesser first.
pub open spec fn name_pair(a: Seq<char>, b: Seq<char>) -> (Seq<char>, Seq<char>) {
    if text_lt(b, a) {
        (b, a)
    } else {
        (a, b)
    }
}

/// Whether a link between functions of these names was placed in a partition.
pub open spec fn holds_pair(
    nodes: Seq<(Seq<char>, u64)>,
    edges: Seq<(int, int, u64)>,
    order: Seq<int>,
    places: Seq<int>,
    partition: int,
    pair: (Seq<char>, Seq<char>),
) -> bool
    decreases places.len(),
{
    let e = edges[order[places.len() - 1]];
    places.len() > 0 && (holds_pair(nodes, edges, order, places.drop_last(), partition, pair) || (
    places.last() == partition && pair == name_pair(nodes[e.0].0, nodes[e.1].0)))
}

/// An edge placement: the edges are placed one after the other.
pub struct EdgeState {
    pub nodes: Seq<(Seq<char>, u64)>,
    pub edges: Seq<(int, int, u64)>,
    /// How many partitions there are.
    pub count: int,
    /// The edges, in the order in which they are placed.
    pub order: Seq<int>,
    /// Where the first of them were placed.
    pub places: Seq<int>,
    /// The partition whose score comes next, for the next edge.
    pub candidate: int,
    /// The partition that leads.
    pub best: int,
}

impl EdgeState {
    /// Whether a node stands in a partition.
    pub open spec fn present(self, partition: int, node: int) -> bool {
        stands_in(self.edges, self.order, self.places, partition, node)
    }

    /// Whether a function of that name stands in a partition.
    pub open spec fn has_name(self, partition: int, name: Seq<char>) -> bool {
        name_stands(self.nodes, self.edges, self.order, self.places, partition, name)
    }

    /// The weight of the nodes that stand in a partition.
    pub open spec fn load(self, partition: int) -> nat {
        standing_weight(self.nodes, self.edges, self.order, self.places, partition)
    }

    pub open spec fn finished(self) -> bool {
        self.places.len() == self.order.len()
    }

    pub open spec fn place(self, partition: int) -> EdgeState {
        EdgeState { places: self.places.push(partition), candidate: 0, best: 0, ..self }
    }

    /// What follows when the score of the candidate is known.
    pub open spec fn after(self, standing: Standing) -> EdgeState {
        let best = if takes_lead(standing, self.load(self.candidate), self.load(self.best)) {
            self.candidate
        } else {
            self.best
        };
        if self.candidate + 1 == self.count {
            self.place(best)
        } else {
            EdgeState { candidate: self.candidate + 1, best, ..self }
        }
    }
}

/// The weights of both ends of every edge that begins and ends at the same node fit in 64 bits.
pub open spec fn loops_fit(nodes: Seq<(Seq<char>, u64)>, edges: Seq<(int, int, u64)>) -> bool {
    forall|e: int|
        0 <= e < edges.len() && (#[trigger] edges[e]).0 == edges[e].1 ==> nodes[edges[e].0].1 * 2
            <= u64::MAX
}

/// What holds of every edge placement.
pub open spec fn edge_state_ok(v: EdgeState) -> bool {
    &&& is_edge_order(v.nodes, v.edges, v.order)
    &&& forall|e: int|
        0 <= e < v.edges.len() ==> 0 <= (#[trigger] v.edges[e]).0 < v.nodes.len() && 0
            <= v.edges[e].1 < v.nodes.len()
    &&& v.count > 0
    &&& v.places.len() <= v.order.len()
    &&& forall|k: int| 0 <= k < v.places.len() ==> 0 <= #[trigger] v.places[k] < v.count
    &&& 0 <= v.best <= v.candidate < v.count
    &&& node_total(v.nodes) <= u64::MAX
    &&& loops_fit(v.nodes, v.edges)
}

/// Places the links of a graph one by one.
pub struct EdgePlacement<'a> {
    graph: &'a UnGraph<PartitionNode, u64>,
    edges: Vec<(usize, usize, u64)>,
    order: Vec<usize>,
    places: Vec<usize>,
    /// For each partition, which nodes stand in it.
    members: Vec<Vec<bool>>,
    loads: Vec<u64>,
    names: Vec<NameSet>,
    pairs: Vec<SortedMap<(String, String), ()>>,
    candidate: usize,
    best: usize,
}

impl<'a> View for EdgePlacement<'a> {
    type V = EdgeState;

    closed spec fn view(&self) -> EdgeState {
        EdgeState {
            nodes: graph_nodes(*self.graph),
            edges: graph_edges(*self.graph),
            count: self.loads@.len() as int,
            order: ints(self.order@),
            places: ints(self.places@),
            candidate: self.candidate as int,
            best: self.best as int,
        }
    }
}

impl<'a> EdgePlacement<'a> {
    pub closed spec fn wf(&self) -> bool {
        let v = self@;
        &&& edge_state_ok(v)
        &&& self.edges@.len() == v.edges.len()
        &&& forall|e: int|
            0 <= e < self.edges@.len() ==> (#[trigger] self.edges@[e]).0 == v.edges[e].0
                && self.edges@[e].1 == v.edges[e].1
        &&& self.members@.len() == v.count
        &&& forall|p: int| 0 <= p < v.count ==> (#[trigger] self.members@[p])@.len() == v.nodes.len()
        &&& forall|p: int, i: int|
            0 <= p < v.count && 0 <= i < v.nodes.len() ==> #[trigger] self.members@[p]@[i]
                == v.present(p, i)
        &&& forall|p: int| 0 <= p < v.count ==> #[trigger] self.loads@[p] == v.load(p)
        &&& self.names@.len() == v.count
        &&& forall|p: int, name: Seq<char>|
            0 <= p < v.count ==> (#[trigger] self.names@[p]@.contains_key(name) <==> v.has_name(p, name))
        &&& self.pairs@.len() == v.count
        &&& forall|p: int, pair: (Seq<char>, Seq<char>)|
            0 <= p < v.count ==> (#[trigger] self.pairs@[p]@.contains_key(pair) <==> holds_pair(
                v.nodes,
                v.edges,
                v.order,
                v.places,
                p,
                pair,
            ))
    }

    /// The state of a placement is sound.
    pub proof fn lemma_state_ok(&self)
        requires
            self.wf(),
        ensures
            edge_state_ok(self@),
    {
    }
}

/// Placing an edge adds its ends to one partition.
proof fn lemma_stands_in(v: EdgeState, chosen: int, p: int, i: int)
    requires
        v.places.len() < v.order.len(),
    ensures
        v.place(chosen).present(p, i) <==> v.present(p, i) || (p == chosen && touches(
            v.edges[v.order[v.places.len() as int]],
            i,
        )),
{
    assert(v.place(chosen).places.drop_last() =~= v.places);
}

/// What the score of a partition for a link depends on.
pub struct EdgeScore {
    /// The partition.
    pub partition: usize,
    /// Whether the ends of the link stand in the partition.
    pub source_present: bool,
    pub target_present: bool,
    pub source_weight: u64,
    pub target_weight: u64,
    /// The weight of both ends, at least 1.
    pub ends_weight: u64,
    /// The load of the partition.
    pub load: u64,
    /// The greatest and the least load of a partition.
    pub max_load: u64,
    pub min_load: u64,
}

pub open spec fn is_greatest(loads: spec_fn(int) -> nat, count: int, m: nat) -> bool {
    &&& exists|p: int| 0 <= p < count && #[trigger] loads(p) == m
    &&& forall|p: int| 0 <= p < count ==> #[trigger] loads(p) <= m
}

pub open spec fn is_least(loads: spec_fn(int) -> nat, count: int, m: nat) -> bool {
    &&& exists|p: int| 0 <= p < count && #[trigger] loads(p) == m
    &&& forall|p: int| 0 <= p < count ==> #[trigger] loads(p) >= m
}

/// What the score of the candidate for the next edge depends on.
pub open spec fn is_edge_score(v: EdgeState, q: EdgeScore) -> bool {
    let e = v.edges[v.order[v.places.len() as int]];
    &&& q.partition == v.candidate
    &&& q.source_present == v.present(v.candidate, e.0)
    &&& q.target_present == v.present(v.candidate, e.1)
    &&& q.source_weight == v.nodes[e.0].1
    &&& q.target_weight == v.nodes[e.1].1
    &&& q.ends_weight == at_least_one((q.source_weight + q.target_weight) as nat)
    &&& q.load == v.load(v.candidate)
    &&& is_greatest(|p: int| v.load(p), v.count, q.max_load as nat)
    &&& is_least(|p: int| v.load(p), v.count, q.min_load as nat)
}

/// Two different nodes weigh no more than all.
proof fn lemma_two_nodes(nodes: Seq<(Seq<char>, u64)>, a: int, b: int)
    requires
        0 <= a < nodes.len(),
        0 <= b < nodes.len(),
        a != b,
    ensures
        nodes[a].1 + nodes[b].1 <= node_total(nodes),
{
    let none = |i: int| false;
    let one = |i: int| i == a;
    let two = |i: int| i == a || i == b;
    lemma_weight_nowhere(nodes, none);
    lemma_weight_where_add(nodes, none, one, a);
    lemma_weight_where_add(nodes, one, two, b);
    lemma_weight_where_le(nodes, two, |i: int| true);
}

/// Whether the weights of a graph can be added up in 64 bits when its links are placed.
pub fn edge_weights_fit(graph: &UnGraph<PartitionNode, u64>) -> (r: bool)
    ensures
        r == (node_total(graph_nodes(*graph)) <= u64::MAX && loops_fit(
            graph_nodes(*graph),
            graph_edges(*graph),
        )),
{
    let ghost nodes = graph_nodes(*graph);
    let ghost edges = graph_edges(*graph);
    let list = edge_list(graph);
    let n = list.len();
    let mut e: usize = 0;
    while e < n
        invariant
            nodes == graph_nodes(*graph),
            edges == graph_edges(*graph),
            n == list@.len() == edges.len(),
            forall|k: int|
                0 <= k < list@.len() ==> (#[trigger] list@[k]).0 == edges[k].0 && list@[k].1
                    == edges[k].1 && list@[k].0 < nodes.len(),
            e <= n,
            forall|k: int|
                0 <= k < e && (#[trigger] edges[k]).0 == edges[k].1 ==> nodes[edges[k].0].1 * 2
                    <= u64::MAX,
        decreases n - e,
    {
        let (a, b, _) = list[e];
        assert(list@[e as int].0 == edges[e as int].0);
        if a == b && node_at(graph, a).weight > u64::MAX / 2 {
            return false;
        }
        e = e + 1;
    }
    sum_nodes(graph).is_some()
}

impl<'a> EdgePlacement<'a> {
    /// Starts with no link placed.
    pub fn new(graph: &'a UnGraph<PartitionNode, u64>, partition_count: usize) -> (r: Self)
        requires
            node_total(graph_nodes(*graph)) <= u64::MAX,
            loops_fit(graph_nodes(*graph), graph_edges(*graph)),
        ensures
            r.wf(),
            edge_state_ok(r@),
            r@.nodes == graph_nodes(*graph),
            r@.edges == graph_edges(*graph),
            r@.count == at_least_one(partition_count as nat),
            r@.places.len() == 0,
            r@.candidate == 0,
            r@.best == 0,
    {
        let count: usize = if partition_count == 0 {
            1
        } else {
            partition_count
        };
        let size = node_count(graph);
        let edges = edge_list(graph);
        let order = edge_order(graph);
        let mut members: Vec<Vec<bool>> = Vec::new();
        let mut loads: Vec<u64> = Vec::new();
        let mut names: Vec<NameSet> = Vec::new();
        let mut pairs: Vec<SortedMap<(String, String), ()>> = Vec::new();
        let mut p: usize = 0;
        while p < count
            invariant
                p <= count,
                members@.len() == p,
                loads@.len() == p,
                names@.len() == p,
                pairs@.len() == p,
                forall|k: int| 0 <= k < p ==> (#[trigger] members@[k])@.len() == size,
                forall|k: int, i: int|
                    0 <= k < p && 0 <= i < size ==> !(#[trigger] members@[k]@[i]),
                forall|k: int| 0 <= k < p ==> #[trigger] loads@[k] == 0,
                forall|k: int, name: Seq<char>|
                    0 <= k < p ==> !(#[trigger] names@[k]@.contains_key(name)),
                forall|k: int, pair: (Seq<char>, Seq<char>)|
                    0 <= k < p ==> !(#[trigger] pairs@[k]@.contains_key(pair)),
            decreases count - p,
        {
            let row = vec![false; size];
            members.push(row);
            loads.push(0);
            names.push(SortedMap::new());
            pairs.push(SortedMap::new());
            p = p + 1;
        }
        let r = EdgePlacement {
            graph,
            edges,
            order,
            places: Vec::new(),
            members,
            loads,
            names,
            pairs,
            candidate: 0,
            best: 0,
        };
        proof {
            let v = r@;
            assert forall|p: int| 0 <= p < v.count implies #[trigger] r.loads@[p] == v.load(p) by {
                lemma_weight_nowhere(v.nodes, |i: int| stands_in(v.edges, v.order, v.places, p, i));
            }
            assert forall|e: int| 0 <= e < v.edges.len() implies 0 <= (#[trigger] v.edges[e]).0
                < v.nodes.len() && 0 <= v.edges[e].1 < v.nodes.len() by {
                assert(r.edges@[e].0 == v.edges[e].0);
            }
        }
        r
    }

    /// What the next score depends on, as long as there is a link to place.
    pub fn question(&self) -> (r: Option<EdgeScore>)
        requires
            self.wf(),
        ensures
            r is None <==> self@.finished(),
            r is Some ==> is_edge_score(self@, r->0),
    {
        let k = self.places.len();
        if k == self.order.len() {
            return None;
        }
        let ghost v = self@;
        let at = self.order[k];
        assert(v.order[k as int] == at);
        let (a, b, _) = self.edges[at];
        assert(self.edges@[at as int].0 == v.edges[at as int].0);
        let source_weight = node_at(self.graph, a).weight;
        let target_weight = node_at(self.graph, b).weight;
        proof {
            if a != b {
                lemma_two_nodes(v.nodes, a as int, b as int);
            }
        }
        let both: u64 = source_weight + target_weight;
        let n = self.loads.len();
        let ghost loads = |p: int| v.load(p);
        let mut max_load: u64 = self.loads[0];
        let mut min_load: u64 = self.loads[0];
        let mut p: usize = 1;
        assert(loads(0) == self.loads@[0]);
        while p < n
            invariant
                self.wf(),
                v == self@,
                loads == (|p: int| v.load(p)),
                1 <= p <= n == v.count,
                n == self.loads@.len(),
                exists|q: int| 0 <= q < p && #[trigger] loads(q) == max_load,
                exists|q: int| 0 <= q < p && #[trigger] loads(q) == min_load,
                forall|q: int| 0 <= q < p ==> min_load <= #[trigger] loads(q) <= max_load,
            decreases n - p,
        {
            assert(loads(p as int) == self.loads@[p as int]);
            if self.loads[p] > max_load {
                max_load = self.loads[p];
            }
            if self.loads[p] < min_load {
                min_load = self.loads[p];
            }
            p = p + 1;
        }
        Some(
            EdgeScore {
                partition: self.candidate,
                source_present: self.members[self.candidate][a],
                target_present: self.members[self.candidate][b],
                source_weight,
                target_weight,
                ends_weight: if both == 0 {
                    1
                } else {
                    both
                },
                load: self.loads[self.candidate],
                max_load,
                min_load,
            },
        )
    }
}

/// The load of a partition when one more node stands in it, if it did not before.
spec fn grown(v: EdgeState, p: int, a: int) -> spec_fn(int) -> bool {
    |i: int| stands_in(v.edges, v.order, v.places, p, i) || i == a
}

/// The loads change by the weights of the ends that are new.
proof fn lemma_loads_grow(v: EdgeState, chosen: int, p: int)
    requires
        edge_state_ok(v),
        v.places.len() < v.order.len(),
    ensures
        p != chosen ==> v.place(chosen).load(p) == v.load(p),
        ({
            let e = v.edges[v.order[v.places.len() as int]];
            let first = v.load(chosen) + (if v.present(chosen, e.0) {
                0
            } else {
                v.nodes[e.0].1 as nat
            });
            let second = first + (if v.present(chosen, e.1) || e.0 == e.1 {
                0
            } else {
                v.nodes[e.1].1 as nat
            });
            &&& v.place(chosen).load(chosen) == second
            &&& second <= u64::MAX
        }),
{
    let e = v.edges[v.order[v.places.len() as int]];
    let w = v.place(chosen);
    assert forall|q: int, i: int| #[trigger]
        stands_in(w.edges, w.order, w.places, q, i) <==> stands_in(
            v.edges,
            v.order,
            v.places,
            q,
            i,
        ) || (q == chosen && touches(e, i)) by {
        lemma_stands_in(v, chosen, q, i);
    }
    if p != chosen {
        lemma_weight_where_le(
            v.nodes,
            |i: int| stands_in(v.edges, v.order, v.places, p, i),
            |i: int| stands_in(w.edges, w.order, w.places, p, i),
        );
        lemma_weight_where_le(
            v.nodes,
            |i: int| stands_in(w.edges, w.order, w.places, p, i),
            |i: int| stands_in(v.edges, v.order, v.places, p, i),
        );
    }
    let here = |i: int| stands_in(v.edges, v.order, v.places, chosen, i);
    let there = |i: int| stands_in(w.edges, w.order, w.places, chosen, i);
    let mid = grown(v, chosen, e.0);
    if v.present(chosen, e.0) {
        lemma_weight_where_le(v.nodes, here, mid);
        lemma_weight_where_le(v.nodes, mid, here);
    } else {
        lemma_weight_where_add(v.nodes, here, mid, e.0);
    }
    if v.present(chosen, e.1) || e.0 == e.1 {
        lemma_weight_where_le(v.nodes, mid, there);
        lemma_weight_where_le(v.nodes, there, mid);
    } else {
        lemma_weight_where_add(v.nodes, mid, there, e.1);
    }
    lemma_weight_where_le(v.nodes, there, |i: int| true);
}

impl<'a> EdgePlacement<'a> {
    /// Places the next edge.
    #[verifier::rlimit(60)]
    fn assign(&mut self, chosen: usize)
        requires
            old(self).wf(),
            !old(self)@.finished(),
            chosen < old(self)@.count,
        ensures
            final(self).wf(),
            final(self)@ == old(self)@.place(chosen as int),
    {
        let ghost v = self@;
        let ghost w = v.place(chosen as int);
        let k = self.places.len();
        let at = self.order[k];
        assert(v.order[k as int] == at);
        let (a, b, _) = self.edges[at];
        assert(self.edges@[at as int].0 == v.edges[at as int].0);
        let ghost e = v.edges[at as int];
        proof {
            lemma_loads_grow(v, chosen as int, chosen as int);
        }
        let ghost members0 = self.members@;
        let ghost names0 = self.names@;
        let ghost pairs0 = self.pairs@;
        let ghost loads0 = self.loads@;
        let source = node_at(self.graph, a);
        let target = node_at(self.graph, b);
        let mut row: Vec<bool> = Vec::new();
        std::mem::swap(&mut row, &mut self.members[chosen]);
        let mut set: NameSet = SortedMap::new();
        std::mem::swap(&mut set, &mut self.names[chosen]);
        let mut held: SortedMap<(String, String), ()> = SortedMap::new();
        std::mem::swap(&mut held, &mut self.pairs[chosen]);
        let mut load: u64 = self.loads[chosen];
        if !row[a] {
            row.set(a, true);
            set.insert(source.name.clone(), ());
            load = load + source.weight;
        }
        if !row[b] {
            row.set(b, true);
            set.insert(target.name.clone(), ());
            load = load + target.weight;
        }
        if text_less(target.name.as_str(), source.name.as_str()) {
            held.insert((target.name.clone(), source.name.clone()), ());
        } else {
            held.insert((source.name.clone(), target.name.clone()), ());
        }
        let ghost row1 = row@;
        let ghost set1 = set@;
        let ghost held1 = held@;
        self.members.set(chosen, row);
        self.names.set(chosen, set);
        self.pairs.set(chosen, held);
        self.loads.set(chosen, load);
        self.places.push(chosen);
        self.candidate = 0;
        self.best = 0;
        proof {
            assert(ints(self.places@) =~= v.places.push(chosen as int));
            assert(self@ == w);
            assert(w.places.drop_last() =~= v.places);
            assert forall|p: int, i: int|
                0 <= p < w.count && 0 <= i < w.nodes.len() implies #[trigger] self.members@[p]@[i]
                == w.present(p, i) by {
                lemma_stands_in(v, chosen as int, p, i);
                assert(members0[p]@[i] == v.present(p, i));
            }
            assert forall|p: int| 0 <= p < w.count implies #[trigger] self.loads@[p] == w.load(
                p,
            ) by {
                lemma_loads_grow(v, chosen as int, p);
                assert(loads0[p] == v.load(p));
            }
            assert forall|p: int, name: Seq<char>| 0 <= p < w.count implies (
            #[trigger] self.names@[p]@.contains_key(name) <==> w.has_name(p, name)) by {
                assert(names0[p]@.contains_key(name) <==> v.has_name(p, name));
                lemma_has_name(v, chosen as int, p, name);
                assert(members0[p]@[a as int] == v.present(p, a as int));
                assert(members0[p]@[b as int] == v.present(p, b as int));
                if v.present(p, a as int) && v.nodes[a as int].0 == name {
                    assert(v.has_name(p, name));
                }
                if v.present(p, b as int) && v.nodes[b as int].0 == name {
                    assert(v.has_name(p, name));
                }
            }
            assert forall|p: int, pair: (Seq<char>, Seq<char>)| 0 <= p < w.count implies (
            #[trigger] self.pairs@[p]@.contains_key(pair) <==> holds_pair(
                w.nodes,
                w.edges,
                w.order,
                w.places,
                p,
                pair,
            )) by {
                assert(pairs0[p]@.contains_key(pair) <==> holds_pair(
                    v.nodes,
                    v.edges,
                    v.order,
                    v.places,
                    p,
                    pair,
                ));
            }
        }
    }

    /// Takes note of how the score of the candidate stands. Tells whether the candidate leads now.
    pub fn answer(&mut self, standing: Standing) -> (r: bool)
        requires
            old(self).wf(),
            !old(self)@.finished(),
        ensures
            final(self).wf(),
            final(self)@ == old(self)@.after(standing),
            r == takes_lead(
                standing,
                old(self)@.load(old(self)@.candidate),
                old(self)@.load(old(self)@.best),
            ),
    {
        let count = self.loads.len();
        let leads = match standing {
            Standing::Higher => true,
            Standing::Near => self.loads[self.candidate] < self.loads[self.best],
            Standing::Lower => false,
        };
        let best: usize = if leads {
            self.candidate
        } else {
            self.best
        };
        if self.candidate + 1 == count {
            self.assign(best);
        } else {
            self.candidate = self.candidate + 1;
            self.best = best;
        }
        leads
    }
}

/// The names in a partition after an edge was placed.
proof fn lemma_has_name(v: EdgeState, chosen: int, p: int, name: Seq<char>)
    requires
        edge_state_ok(v),
        v.places.len() < v.order.len(),
    ensures
        ({
            let e = v.edges[v.order[v.places.len() as int]];
            v.place(chosen).has_name(p, name) <==> v.has_name(p, name) || (p == chosen && (
            v.nodes[e.0].0 == name || v.nodes[e.1].0 == name))
        }),
{
    let e = v.edges[v.order[v.places.len() as int]];
    let w = v.place(chosen);
    if w.has_name(p, name) {
        let i = choose|i: int|
            0 <= i < w.nodes.len() && w.nodes[i].0 == name && #[trigger] stands_in(
                w.edges,
                w.order,
                w.places,
                p,
                i,
            );
        lemma_stands_in(v, chosen, p, i);
        assert(v.present(p, i) ==> v.has_name(p, name));
    }
    if v.has_name(p, name) {
        let i = choose|i: int|
            0 <= i < v.nodes.len() && v.nodes[i].0 == name && #[trigger] stands_in(
                v.edges,
                v.order,
                v.places,
                p,
                i,
            );
        lemma_stands_in(v, chosen, p, i);
        assert(w.present(p, i));
    }
    if p == chosen {
        lemma_stands_in(v, chosen, p, e.0);
        lemma_stands_in(v, chosen, p, e.1);
        assert(w.present(p, e.0) && w.present(p, e.1));
    }
}

/// The load of a partition, with the isolated nodes that were placed in it.
pub open spec fn load_with(v: EdgeState, isolated: Seq<int>, places: Seq<int>, partition: int) -> nat {
    v.load(partition) + placed_weight(v.nodes, isolated, places, partition)
}

/// Whether a function of that name stands in a partition, or is isolated and was placed in it.
pub open spec fn name_with(
    v: EdgeState,
    isolated: Seq<int>,
    places: Seq<int>,
    partition: int,
    name: Seq<char>,
) -> bool {
    v.has_name(partition, name) || exists|k: int|
        0 <= k < places.len() && (#[trigger] places[k]) == partition && v.nodes[isolated[k]].0 == name
}

/// The partition with the least load, the first of them if there are several.
pub open spec fn is_least_loaded(loads: spec_fn(int) -> nat, count: int, p: int) -> bool {
    &&& 0 <= p < count
    &&& forall|q: int| 0 <= q < count ==> loads(p) < #[trigger] loads(q) || (loads(p) == loads(q) && p <= q)
}

/// Each isolated node goes to the partition with the least load at that time.
pub open spec fn fill_up(v: EdgeState, isolated: Seq<int>, places: Seq<int>) -> bool {
    &&& places.len() <= isolated.len()
    &&& forall|k: int|
        0 <= k < places.len() ==> is_least_loaded(
            |p: int| load_with(v, isolated, places.take(k), p),
            v.count,
            #[trigger] places[k],
        )
}

pub open spec fn pair_list(s: Seq<(String, String)>) -> Seq<(Seq<char>, Seq<char>)> {
    Seq::new(s.len(), |i: int| (s[i].0@, s[i].1@))
}

/// The pairs of `s` go up strictly.
pub open spec fn ascending_pairs(s: Seq<(Seq<char>, Seq<char>)>) -> bool {
    forall|i: int, j: int|
        0 <= i < j < s.len() ==> text_lt((#[trigger] s[i]).0, (#[trigger] s[j]).0) || (s[i].0
            == s[j].0 && text_lt(s[i].1, s[j].1))
}

/// The plan of a finished edge placement.
pub open spec fn is_edge_plan(
    v: EdgeState,
    isolated: Seq<int>,
    places: Seq<int>,
    plan: PartitionPlan,
) -> bool {
    &&& plan.algorithm@ == "hrdf"@
    &&& is_isolated_order(v.nodes, v.edges, isolated)
    &&& places.len() == isolated.len()
    &&& fill_up(v, isolated, places)
    &&& plan.partitions@.len() == v.count
    &&& plan.loads@.len() == v.count
    &&& plan.seed_assignments@.len() == v.count
    &&& plan.partition_edges@.len() == v.count
    &&& forall|p: int|
        0 <= p < v.count ==> ascending_names(texts((#[trigger] plan.partitions@[p])@))
    &&& forall|p: int, name: Seq<char>|
        0 <= p < v.count ==> (#[trigger] texts(plan.partitions@[p]@).contains(name) <==> name_with(
            v,
            isolated,
            places,
            p,
            name,
        ))
    &&& forall|p: int|
        0 <= p < v.count ==> (#[trigger] plan.loads@[p]) == load_with(v, isolated, places, p)
    &&& forall|p: int| 0 <= p < v.count ==> (#[trigger] plan.seed_assignments@[p])@.len() == 0
    &&& forall|p: int|
        0 <= p < v.count ==> ascending_pairs(pair_list((#[trigger] plan.partition_edges@[p])@))
    &&& forall|p: int, pair: (Seq<char>, Seq<char>)|
        0 <= p < v.count ==> (#[trigger] pair_list(plan.partition_edges@[p]@).contains(pair)
            <==> holds_pair(v.nodes, v.edges, v.order, v.places, p, pair))
}

/// A node that an edge does not touch stands in no partition.
proof fn lemma_isolated_stands_nowhere(v: EdgeState, places: Seq<int>, p: int, i: int)
    requires
        edge_state_ok(v),
        places.len() <= v.order.len(),
        is_isolated(v.edges, i),
    ensures
        !stands_in(v.edges, v.order, places, p, i),
    decreases places.len(),
{
    if places.len() > 0 {
        lemma_isolated_stands_nowhere(v, places.drop_last(), p, i);
        let e = v.order[places.len() - 1];
        assert(!touches(v.edges[e], i));
    }
}

/// One more isolated node adds its weight to its partition, and there is room for it.
proof fn lemma_fill_up(v: EdgeState, isolated: Seq<int>, places: Seq<int>, chosen: int, p: int)
    requires
        edge_state_ok(v),
        is_isolated_order(v.nodes, v.edges, isolated),
        places.len() < isolated.len(),
    ensures
        load_with(v, isolated, places.push(chosen), p) == load_with(v, isolated, places, p) + (if p
            == chosen {
            v.nodes[isolated[places.len() as int]].1 as nat
        } else {
            0
        }),
        load_with(v, isolated, places.push(chosen), p) <= u64::MAX,
{
    let more = places.push(chosen);
    assert(more.drop_last() =~= places);
    let node = isolated[places.len() as int];
    let here = |i: int| place_of(isolated, places, i) == Some(p);
    let there = |i: int| place_of(isolated, more, i) == Some(p);
    assert(place_of(isolated, places, node) is None) by {
        lemma_later_not_placed(v, isolated, places, places.len() as int);
    }
    if p == chosen {
        lemma_weight_where_add(v.nodes, here, there, node);
    } else {
        lemma_weight_where_le(v.nodes, here, there);
        lemma_weight_where_le(v.nodes, there, here);
    }
    let stands = |i: int| stands_in(v.edges, v.order, v.places, p, i);
    let both = |i: int| stands(i) || there(i);
    assert forall|i: int| 0 <= i < v.nodes.len() implies #[trigger] both(i) == (stands(i) || there(
        i,
    )) && !(stands(i) && there(i)) by {
        if there(i) {
            lemma_placed_is_isolated(v, isolated, more, i);
            lemma_isolated_stands_nowhere(v, v.places, p, i);
        }
    }
    lemma_weight_split(v.nodes, both, stands, there);
    lemma_weight_where_le(v.nodes, both, |i: int| true);
}

proof fn lemma_later_not_placed(v: EdgeState, isolated: Seq<int>, places: Seq<int>, k: int)
    requires
        is_isolated_order(v.nodes, v.edges, isolated),
        places.len() <= k < isolated.len(),
    ensures
        place_of(isolated, places, isolated[k]) is None,
    decreases places.len(),
{
    if places.len() > 0 {
        lemma_later_not_placed(v, isolated, places.drop_last(), k);
        let l = places.len() - 1;
        lemma_text_lt_irreflexive(v.nodes[isolated[l]].0);
        assert(isolated[l] != isolated[k]);
    }
}

proof fn lemma_placed_is_isolated(v: EdgeState, isolated: Seq<int>, places: Seq<int>, i: int)
    requires
        is_isolated_order(v.nodes, v.edges, isolated),
        places.len() <= isolated.len(),
        place_of(isolated, places, i) is Some,
    ensures
        is_isolated(v.edges, i),
    decreases places.len(),
{
    if isolated[places.len() - 1] != i {
        lemma_placed_is_isolated(v, isolated, places.drop_last(), i);
    }
}

/// The first of the partitions with the least load.
fn least_loaded(loads: &Vec<u64>) -> (r: usize)
    requires
        loads@.len() > 0,
    ensures
        is_least_loaded(|p: int| loads@[p] as nat, loads@.len() as int, r as int),
{
    let n = loads.len();
    let mut best: usize = 0;
    let mut p: usize = 1;
    let ghost of = |p: int| loads@[p] as nat;
    while p < n
        invariant
            n == loads@.len(),
            best < p <= n,
            of == (|p: int| loads@[p] as nat),
            forall|q: int|
                0 <= q < p ==> of(best as int) < #[trigger] of(q) || (of(best as int) == of(q)
                    && best <= q),
        decreases n - p,
    {
        if loads[p] < loads[best] {
            best = p;
        }
        p = p + 1;
    }
    best
}

/// The pairs of a map, in ascending order.
fn sorted_pairs(pairs: &SortedMap<(String, String), ()>) -> (r: Vec<(String, String)>)
    ensures
        ascending_pairs(pair_list(r@)),
        forall|pair: (Seq<char>, Seq<char>)| #[trigger]
            pair_list(r@).contains(pair) <==> pairs@.contains_key(pair),
{
    let n = pairs.len();
    let ghost all = pairs.seq();
    let mut out: Vec<(String, String)> = Vec::new();
    let mut i: usize = 0;
    while i < n
        invariant
            n == all.len(),
            all == pairs.seq(),
            i <= n,
            out@.len() == i,
            forall|k: int| 0 <= k < i ==> #[trigger] pair_list(out@)[k] == all[k].0,
        decreases n - i,
    {
        let pair = pairs.key_at(i);
        let ghost out0 = out@;
        out.push((pair.0.clone(), pair.1.clone()));
        assert(pair_list(out@) =~= pair_list(out0).push(all[i as int].0));
        i = i + 1;
    }
    proof {
        let list = pair_list(out@);
        assert forall|a: int, b: int| 0 <= a < b < list.len() implies text_lt(
            (#[trigger] list[a]).0,
            (#[trigger] list[b]).0,
        ) || (list[a].0 == list[b].0 && text_lt(list[a].1, list[b].1)) by {
            assert(<(String, String) as Key>::lt(all[a].0, all[b].0));
        }
        assert forall|pair: (Seq<char>, Seq<char>)| #[trigger]
            list.contains(pair) <==> pairs@.contains_key(pair) by {
            if list.contains(pair) {
                let k = list.index_of(pair);
                assert(all[k].0 == pair);
            }
            if pairs@.contains_key(pair) {
                let k = choose|k: int| 0 <= k < all.len() && (#[trigger] all[k]).0 == pair;
                assert(list[k] == pair);
            }
        }
    }
    out
}

impl<'a> EdgePlacement<'a> {
    /// Places the isolated functions, and gives the plan, when every link is placed.
    pub fn finish(self) -> (r: PartitionPlan)
        requires
            self.wf(),
            self@.finished(),
        ensures
            exists|isolated: Seq<int>, places: Seq<int>| #[trigger]
                is_edge_plan(self@, isolated, places, r),
    {
        let ghost v = self@;
        let order = isolated_order(self.graph);
        let ghost isolated = ints(order@);
        let graph = self.graph;
        let pairs = self.pairs;
        let mut loads = self.loads;
        let mut names = self.names;
        let count = loads.len();
        let ghost mut places: Seq<int> = Seq::empty();
        let n = order.len();
        let mut k: usize = 0;
        proof {
            assert forall|p: int| 0 <= p < count implies #[trigger] loads@[p] == load_with(
                v,
                isolated,
                places,
                p,
            ) by {
                lemma_weight_nowhere(v.nodes, |i: int| place_of(isolated, places, i) == Some(p));
            }
        }
        while k < n
            invariant
                edge_state_ok(v),
                v.nodes == graph_nodes(*graph),
                v.count == count,
                isolated == ints(order@),
                is_isolated_order(v.nodes, v.edges, isolated),
                k <= n == order@.len(),
                places.len() == k,
                loads@.len() == count,
                names@.len() == count,
                fill_up(v, isolated, places),
                forall|p: int|
                    0 <= p < count ==> #[trigger] loads@[p] == load_with(v, isolated, places, p),
                forall|p: int, name: Seq<char>|
                    0 <= p < count ==> (#[trigger] names@[p]@.contains_key(name) <==> name_with(
                        v,
                        isolated,
                        places,
                        p,
                        name,
                    )),
            decreases n - k,
        {
            let chosen = least_loaded(&loads);
            assert(isolated[k as int] == order@[k as int]);
            let node = node_at(graph, order[k]);
            let ghost more = places.push(chosen as int);
            let ghost names0 = names@;
            let ghost loads0 = loads@;
            proof {
                let a = |p: int| loads@[p] as nat;
                let b = |p: int| load_with(v, isolated, places, p);
                assert forall|q: int| 0 <= q < count implies b(chosen as int) < #[trigger] b(q) || (b(
                    chosen as int,
                ) == b(q) && chosen <= q) by {
                    assert(loads@[q] == load_with(v, isolated, places, q));
                    assert(loads@[chosen as int] == load_with(v, isolated, places, chosen as int));
                    assert(a(chosen as int) < a(q) || (a(chosen as int) == a(q) && chosen <= q));
                }
                lemma_fill_up(v, isolated, places, chosen as int, chosen as int);
                assert forall|j: int| 0 <= j < more.len() implies is_least_loaded(
                    |p: int| load_with(v, isolated, more.take(j), p),
                    v.count,
                    #[trigger] more[j],
                ) by {
                    assert(more.take(j) =~= places.take(j));
                    if j == k {
                        assert(places.take(j) =~= places);
                    } else {
                        assert(more[j] == places[j]);
                    }
                }
            }
            let load = loads[chosen];
            loads.set(chosen, load + node.weight);
            let mut set: NameSet = SortedMap::new();
            std::mem::swap(&mut set, &mut names[chosen]);
            set.insert(node.name.clone(), ());
            names.set(chosen, set);
            proof {
                assert forall|p: int| 0 <= p < count implies #[trigger] loads@[p] == load_with(
                    v,
                    isolated,
                    more,
                    p,
                ) by {
                    assert(loads0[p] == load_with(v, isolated, places, p));
                    lemma_fill_up(v, isolated, places, chosen as int, p);
                }
                assert forall|p: int, name: Seq<char>| 0 <= p < count implies (
                #[trigger] names@[p]@.contains_key(name) <==> name_with(
                    v,
                    isolated,
                    more,
                    p,
                    name,
                )) by {
                    assert(names0[p]@.contains_key(name) <==> name_with(
                        v,
                        isolated,
                        places,
                        p,
                        name,
                    ));
                    lemma_name_with(v, isolated, places, chosen as int, p, name);
                }
                places = more;
            }
            k = k + 1;
        }
        let mut partitions: Vec<Vec<String>> = Vec::new();
        let mut partition_edges: Vec<Vec<(String, String)>> = Vec::new();
        let mut p: usize = 0;
        while p < count
            invariant
                p <= count,
                names@.len() == count,
                pairs@.len() == count,
                partitions@.len() == p,
                partition_edges@.len() == p,
                forall|q: int|
                    0 <= q < p ==> ascending_names(texts((#[trigger] partitions@[q])@)),
                forall|q: int, name: Seq<char>|
                    0 <= q < p ==> (#[trigger] texts(partitions@[q]@).contains(name)
                        <==> names@[q]@.contains_key(name)),
                forall|q: int|
                    0 <= q < p ==> ascending_pairs(pair_list((#[trigger] partition_edges@[q])@)),
                forall|q: int, pair: (Seq<char>, Seq<char>)|
                    0 <= q < p ==> (#[trigger] pair_list(partition_edges@[q]@).contains(pair)
                        <==> pairs@[q]@.contains_key(pair)),
            decreases count - p,
        {
            partitions.push(sorted_names(&names[p]));
            partition_edges.push(sorted_pairs(&pairs[p]));
            p = p + 1;
        }
        let plan = PartitionPlan {
            algorithm: "hrdf",
            partitions,
            loads,
            seed_assignments: empty_lists::<String>(count),
            partition_edges,
        };
        assert(is_edge_plan(v, isolated, places, plan));
        plan
    }
}

proof fn lemma_name_with(
    v: EdgeState,
    isolated: Seq<int>,
    places: Seq<int>,
    chosen: int,
    p: int,
    name: Seq<char>,
)
    ensures
        name_with(v, isolated, places.push(chosen), p, name) <==> name_with(
            v,
            isolated,
            places,
            p,
            name,
        ) || (p == chosen && v.nodes[isolated[places.len() as int]].0 == name),
{
    let more = places.push(chosen);
    if name_with(v, isolated, more, p, name) && !v.has_name(p, name) {
        let k = choose|k: int|
            0 <= k < more.len() && (#[trigger] more[k]) == p && v.nodes[isolated[k]].0 == name;
        if k < places.len() {
            assert(places[k] == p);
        }
    }
    if name_with(v, isolated, places, p, name) && !v.has_name(p, name) {
        let k = choose|k: int|
            0 <= k < places.len() && (#[trigger] places[k]) == p && v.nodes[isolated[k]].0 == name;
        assert(more[k] == p);
    }
    if p == chosen && v.nodes[isolated[places.len() as int]].0 == name {
        assert(more[places.len() as int] == p);
    }
}

/// When a placement has finished, every link stands in a partition, together with both its ends.
pub proof fn law_every_link_is_placed(v: EdgeState, e: int)
    requires
        edge_state_ok(v),
        v.finished(),
        0 <= e < v.edges.len(),
    ensures
        exists|p: int|
            0 <= p < v.count && v.present(p, v.edges[e].0) && v.present(p, v.edges[e].1)
                && #[trigger] holds_pair(
                v.nodes,
                v.edges,
                v.order,
                v.places,
                p,
                name_pair(v.nodes[v.edges[e].0].0, v.nodes[v.edges[e].1].0),
            ),
{
    let all = vstd::set_lib::set_int_range(0, v.edges.len() as int);
    vstd::set_lib::lemma_int_range(0, v.edges.len() as int);
    v.order.unique_seq_to_set();
    assert(v.order.to_set().subset_of(all));
    vstd::set_lib::lemma_subset_equality(v.order.to_set(), all);
    assert(all.contains(e));
    assert(v.order.to_set().contains(e));
    let k = v.order.index_of(e);
    lemma_placed_link(v, v.places, k);
}

proof fn lemma_placed_link(v: EdgeState, places: Seq<int>, k: int)
    requires
        0 <= k < places.len() <= v.order.len(),
    ensures
        ({
            let e = v.edges[v.order[k]];
            &&& stands_in(v.edges, v.order, places, places[k], e.0)
            &&& stands_in(v.edges, v.order, places, places[k], e.1)
            &&& holds_pair(
                v.nodes,
                v.edges,
                v.order,
                places,
                places[k],
                name_pair(v.nodes[e.0].0, v.nodes[e.1].0),
            )
        }),
    decreases places.len(),
{
    if k < places.len() - 1 {
        lemma_placed_link(v, places.drop_last(), k);
    }
}

/// When a placement has finished, every function is listed in some partition of the plan.
pub proof fn law_every_function_is_listed(
    v: EdgeState,
    isolated: Seq<int>,
    places: Seq<int>,
    plan: PartitionPlan,
    node: int,
)
    requires
        edge_state_ok(v),
        v.finished(),
        is_edge_plan(v, isolated, places, plan),
        0 <= node < v.nodes.len(),
    ensures
        exists|p: int|
            0 <= p < v.count && #[trigger] texts(plan.partitions@[p]@).contains(v.nodes[node].0),
{
    if is_isolated(v.edges, node) {
        assert(isolated.contains(node));
        let k = isolated.index_of(node);
        let p = places[k];
        assert(name_with(v, isolated, places, p, v.nodes[node].0));
        assert(texts(plan.partitions@[p]@).contains(v.nodes[node].0));
    } else {
        let e = choose|e: int| 0 <= e < v.edges.len() && touches(#[trigger] v.edges[e], node);
        law_every_link_is_placed(v, e);
        let p = choose|p: int|
            0 <= p < v.count && v.present(p, v.edges[e].0) && v.present(p, v.edges[e].1)
                && #[trigger] holds_pair(
                v.nodes,
                v.edges,
                v.order,
                v.places,
                p,
                name_pair(v.nodes[v.edges[e].0].0, v.nodes[v.edges[e].1].0),
            );
        assert(stands_in(v.edges, v.order, v.places, p, node));
        assert(name_with(v, isolated, places, p, v.nodes[node].0));
        assert(texts(plan.partitions@[p]@).contains(v.nodes[node].0));
    }
}

} // verus!
