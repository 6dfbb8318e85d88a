//! Placing the functions of a graph in partitions.
//!
//! The scores by which the partitions compete for a function are computed outside: a placement
//! tells what a score depends on, is told how the score stands to the best one so far, and decides.

use crate::graph::{
    edge_list, edges_at, far_ends, graph_edges, graph_nodes, incident_edges, node_at, node_count,
    PartitionNode,
};
use crate::options::Partitioner;
use crate::ranking::{ints, is_node_order, node_order};
use crate::text::texts;
use petgraph::graph::UnGraph;
use std::collections::hash_map::DefaultHasher;
use std::hash::{Hash, Hasher};
use vstd::multiset::Multiset;
use vstd::prelude::*;
use vstd::std_specs::hash::DefaultHasherAdditionalSpecFns;

verus! {

/// Which functions stand in which partition.
#[derive(Debug)]
pub struct PartitionPlan {
    pub algorithm: &'static str,
    /// The functions of each partition.
    pub partitions: Vec<Vec<String>>,
    /// The weight of each partition.
    pub loads: Vec<u64>,
    /// The seeds that each partition starts with.
    pub seed_assignments: Vec<Vec<String>>,
    /// The links that each partition holds, where links are placed and not functions.
    pub partition_edges: Vec<Vec<(String, String)>>,
}

/// How a score stands to the best one so far.
#[derive(Clone, Copy, Debug, PartialEq, Eq, Structural)]
pub enum Standing {
    /// It is greater.
    Higher,
    /// The two are so close that they count as equal.
    Near,
    /// It is neither.
    Lower,
}

/// A partition takes the lead with a higher score, or with an equal one and a smaller load.
pub open spec fn takes_lead(standing: Standing, load: nat, best_load: nat) -> bool {
    match standing {
        Standing::Higher => true,
        Standing::Near => load < best_load,
        Standing::Lower => false,
    }
}

/// The weight of the nodes for which `here` holds.
pub open spec fn weight_where(nodes: Seq<(Seq<char>, u64)>, here: spec_fn(int) -> bool) -> nat
    decreases nodes.len(),
{
    if nodes.len() == 0 {
        0
    } else {
        weight_where(nodes.drop_last(), here) + (if here(nodes.len() - 1) {
            nodes.last().1 as nat
        } else {
            0
        })
    }
}

/// The weight of all nodes.
pub open spec fn node_total(nodes: Seq<(Seq<char>, u64)>) -> nat {
    weight_where(nodes, |i: int| true)
}

/// The weight of all edges.
pub open spec fn edge_total(edges: Seq<(int, int, u64)>) -> nat
    decreases edges.len(),
{
    if edges.len() == 0 {
        0
    } else {
        edge_total(edges.drop_last()) + edges.last().2 as nat
    }
}

pub(crate) proof fn lemma_weight_where_le(
    nodes: Seq<(Seq<char>, u64)>,
    here: spec_fn(int) -> bool,
    there: spec_fn(int) -> bool,
)
    requires
        forall|i: int| 0 <= i < nodes.len() && #[trigger] here(i) ==> there(i),
    ensures
        weight_where(nodes, here) <= weight_where(nodes, there),
    decreases nodes.len(),
{
    if nodes.len() > 0 {
        lemma_weight_where_le(nodes.drop_last(), here, there);
        assert(here(nodes.len() - 1) ==> there(nodes.len() - 1));
    }
}

/// One more node adds its weight.
pub(crate) proof fn lemma_weight_where_add(
    nodes: Seq<(Seq<char>, u64)>,
    here: spec_fn(int) -> bool,
    there: spec_fn(int) -> bool,
    x: int,
)
    requires
        0 <= x < nodes.len(),
        !here(x),
        there(x),
        forall|i: int| 0 <= i < nodes.len() && i != x ==> #[trigger] here(i) == there(i),
    ensures
        weight_where(nodes, there) == weight_where(nodes, here) + nodes[x].1,
    decreases nodes.len(),
{
    let n = nodes.len() - 1;
    if x == n {
        lemma_weight_where_le(nodes.drop_last(), here, there);
        assert forall|i: int| 0 <= i < nodes.drop_last().len() && #[trigger] there(i) implies here(
            i,
        ) by {
            assert(here(i) == there(i));
        }
        lemma_weight_where_le(nodes.drop_last(), there, here);
    } else {
        lemma_weight_where_add(nodes.drop_last(), here, there, x);
        assert(here(n) == there(n));
    }
}

/// The weight of all nodes of a graph, if it fits in 64 bits.
pub(crate) fn sum_nodes(g: &UnGraph<PartitionNode, u64>) -> (r: Option<u64>)
    ensures
        r is Some <==> node_total(graph_nodes(*g)) <= u64::MAX,
        r is Some ==> r->0 == node_total(graph_nodes(*g)),
{
    let ghost nodes = graph_nodes(*g);
    let ghost every = |i: int| true;
    let n = node_count(g);
    let mut sum: u64 = 0;
    let mut i: usize = 0;
    while i < n
        invariant
            nodes == graph_nodes(*g),
            n == nodes.len(),
            i <= n,
            every == (|i: int| true),
            sum == weight_where(nodes.take(i as int), every),
        decreases n - i,
    {
        assert(nodes.take(i + 1).drop_last() =~= nodes.take(i as int));
        match sum.checked_add(node_at(g, i).weight) {
            Some(s) => {
                sum = s;
            },
            None => {
                proof {
                    lemma_weight_where_take(nodes, every, i + 1);
                }
                return None;
            },
        }
        i = i + 1;
    }
    assert(nodes.take(n as int) =~= nodes);
    Some(sum)
}

proof fn lemma_weight_where_take(
    nodes: Seq<(Seq<char>, u64)>,
    here: spec_fn(int) -> bool,
    k: int,
)
    requires
        0 <= k <= nodes.len(),
    ensures
        weight_where(nodes.take(k), here) <= weight_where(nodes, here),
    decreases nodes.len(),
{
    if k == nodes.len() {
        assert(nodes.take(k) =~= nodes);
    } else {
        lemma_weight_where_take(nodes.drop_last(), here, k);
        assert(nodes.drop_last().take(k) =~= nodes.take(k));
    }
}

proof fn lemma_edge_total_take(edges: Seq<(int, int, u64)>, k: int)
    requires
        0 <= k <= edges.len(),
    ensures
        edge_total(edges.take(k)) <= edge_total(edges),
    decreases edges.len(),
{
    if k == edges.len() {
        assert(edges.take(k) =~= edges);
    } else {
        lemma_edge_total_take(edges.drop_last(), k);
        assert(edges.drop_last().take(k) =~= edges.take(k));
    }
}

/// The weight of all edges of a graph, if it fits in 64 bits.
fn sum_edges(g: &UnGraph<PartitionNode, u64>) -> (r: Option<u64>)
    ensures
        r is Some <==> edge_total(graph_edges(*g)) <= u64::MAX,
        r is Some ==> r->0 == edge_total(graph_edges(*g)),
{
    let ghost edges = graph_edges(*g);
    let list = edge_list(g);
    let n = list.len();
    let mut sum: u64 = 0;
    let mut i: usize = 0;
    while i < n
        invariant
            edges == graph_edges(*g),
            n == list@.len() == edges.len(),
            forall|k: int| 0 <= k < list@.len() ==> (#[trigger] list@[k]).2 == edges[k].2,
            i <= n,
            sum == edge_total(edges.take(i as int)),
        decreases n - i,
    {
        assert(edges.take(i + 1).drop_last() =~= edges.take(i as int));
        assert(list@[i as int].2 == edges[i as int].2);
        match sum.checked_add(list[i].2) {
            Some(s) => {
                sum = s;
            },
            None => {
                proof {
                    lemma_edge_total_take(edges, i + 1);
                }
                return None;
            },
        }
        i = i + 1;
    }
    assert(edges.take(n as int) =~= edges);
    Some(sum)
}

/// The name of a partitioning algorithm.
pub open spec fn algorithm_name(partitioner: Partitioner) -> Seq<char> {
    match partitioner {
        Partitioner::Ldg => "ldg"@,
        Partitioner::Fennel => "fennel"@,
        Partitioner::Hrdf => "hrdf"@,
        Partitioner::Random => "random"@,
    }
}

pub fn partitioner_name(partitioner: Partitioner) -> (r: &'static str)
    ensures
        r@ == algorithm_name(partitioner),
{
    match partitioner {
        Partitioner::Ldg => "ldg",
        Partitioner::Fennel => "fennel",
        Partitioner::Hrdf => "hrdf",
        Partitioner::Random => "random",
    }
}

/// The partition in which a node was placed, if it was: `order[k]` was placed in `places[k]`.
pub open spec fn place_of(order: Seq<int>, places: Seq<int>, node: int) -> Option<int>
    decreases places.len(),
{
    if places.len() == 0 {
        None
    } else if order[places.len() - 1] == node {
        Some(places.last())
    } else {
        place_of(order, places.drop_last(), node)
    }
}

/// The weight of the nodes that were placed in a partition.
pub open spec fn placed_weight(
    nodes: Seq<(Seq<char>, u64)>,
    order: Seq<int>,
    places: Seq<int>,
    partition: int,
) -> nat {
    weight_where(nodes, |i: int| place_of(order, places, i) == Some(partition))
}

/// The names of the nodes that were placed in a partition, in the order of placing.
pub open spec fn placed_names(
    nodes: Seq<(Seq<char>, u64)>,
    order: Seq<int>,
    places: Seq<int>,
    partition: int,
) -> Seq<Seq<char>>
    decreases places.len(),
{
    if places.len() == 0 {
        Seq::empty()
    } else {
        let before = placed_names(nodes, order, places.drop_last(), partition);
        if places.last() == partition {
            before.push(nodes[order[places.len() - 1]].0)
        } else {
            before
        }
    }
}

/// Only nodes that came up were placed.
proof fn lemma_place_of_some(order: Seq<int>, places: Seq<int>, node: int)
    requires
        places.len() <= order.len(),
    ensures
        place_of(order, places, node) is Some <==> exists|k: int|
            0 <= k < places.len() && #[trigger] order[k] == node,
        place_of(order, places, node) is Some ==> exists|k: int|
            0 <= k < places.len() && #[trigger] order[k] == node && place_of(order, places, node)
                == Some(places[k]),
    decreases places.len(),
{
    if places.len() > 0 {
        lemma_place_of_some(order, places.drop_last(), node);
        let last = places.len() - 1;
        if order[last] == node {
            assert(place_of(order, places, node) == Some(places[last]));
        } else if place_of(order, places.drop_last(), node) is Some {
            let k = choose|k: int|
                0 <= k < places.drop_last().len() && #[trigger] order[k] == node && place_of(
                    order,
                    places.drop_last(),
                    node,
                ) == Some(places.drop_last()[k]);
            assert(places[k] == places.drop_last()[k]);
        }
    }
}

/// A vertex placement: the nodes are placed one after the other.
pub struct VertexState {
    pub nodes: Seq<(Seq<char>, u64)>,
    pub edges: Seq<(int, int, u64)>,
    /// How many partitions there are.
    pub count: int,
    /// The nodes, in the order in which they are placed.
    pub order: Seq<int>,
    /// Where the first of them were placed.
    pub places: Seq<int>,
    /// The partition whose score comes next, for the next node.
    pub candidate: int,
    /// The partition that leads.
    pub best: int,
}

impl VertexState {
    pub open spec fn load(self, partition: int) -> nat {
        placed_weight(self.nodes, self.order, self.places, partition)
    }

    pub open spec fn finished(self) -> bool {
        self.places.len() == self.order.len()
    }

    pub open spec fn place(self, partition: int) -> VertexState {
        VertexState { places: self.places.push(partition), candidate: 0, best: 0, ..self }
    }

    /// What follows when the score of the candidate is known.
    pub open spec fn after(self, standing: Standing) -> VertexState {
        let best = if takes_lead(standing, self.load(self.candidate), self.load(self.best)) {
            self.candidate
        } else {
            self.best
        };
        if self.candidate + 1 == self.count {
            self.place(best)
        } else {
            VertexState { candidate: self.candidate + 1, best, ..self }
        }
    }
}

/// What the score of a partition for a node depends on.
pub struct VertexScore {
    /// The partition.
    pub partition: usize,
    /// The links from the node into the partition: the node at the other end, and the weight.
    pub ties: Vec<(usize, u64)>,
    /// The load of the partition.
    pub load: u64,
    pub node_weight: u64,
    /// The load that each partition has if all have the same, rounded up, at least 1.
    pub capacity: u64,
    /// The weight of all nodes, at least 1.
    pub total_weight: u64,
    /// The weight of all edges, at least 1.
    pub total_edge_weight: u64,
    pub partition_count: usize,
}

pub open spec fn at_least_one(n: nat) -> nat {
    if n == 0 {
        1
    } else {
        n
    }
}

/// `n / d`, rounded up.
pub open spec fn ceil_div(n: nat, d: nat) -> nat {
    if n % d == 0 {
        n / d
    } else {
        n / d + 1
    }
}

/// Places the functions of a graph one by one.
pub struct VertexPlacement<'a> {
    graph: &'a UnGraph<PartitionNode, u64>,
    algorithm: &'static str,
    total_weight: u64,
    total_edge_weight: u64,
    order: Vec<usize>,
    places: Vec<usize>,
    assigned: Vec<Option<usize>>,
    loads: Vec<u64>,
    partitions: Vec<Vec<String>>,
    candidate: usize,
    best: usize,
}

pub open spec fn as_place(p: Option<usize>) -> Option<int> {
    match p {
        Some(p) => Some(p as int),
        None => None,
    }
}

impl<'a> View for VertexPlacement<'a> {
    type V = VertexState;

    closed spec fn view(&self) -> VertexState {
        VertexState {
            nodes: graph_nodes(*self.graph),
            edges: graph_edges(*self.graph),
            count: self.loads@.len() as int,
            order: ints(self.order@),
            places: ints(self.places@),
            candidate: self.candidate as int,
            best: self.best as int,
        }
    }
}

/// What holds of every vertex placement.
pub open spec fn vertex_state_ok(v: VertexState) -> bool {
    &&& is_node_order(v.nodes, v.order)
    &&& v.count > 0
    &&& v.places.len() <= v.order.len()
    &&& forall|k: int| 0 <= k < v.places.len() ==> 0 <= #[trigger] v.places[k] < v.count
    &&& 0 <= v.best <= v.candidate < v.count
    &&& node_total(v.nodes) <= u64::MAX
    &&& edge_total(v.edges) <= u64::MAX
}

impl<'a> VertexPlacement<'a> {
    pub closed spec fn algorithm(&self) -> Seq<char> {
        self.algorithm@
    }

    pub closed spec fn wf(&self) -> bool {
        &&& vertex_state_ok(self@)
        &&& self.total_weight == at_least_one(node_total(self@.nodes))
        &&& self.total_edge_weight == at_least_one(edge_total(self@.edges))
        &&& self.assigned@.len() == self@.nodes.len()
        &&& forall|i: int|
            0 <= i < self.assigned@.len() ==> as_place(#[trigger] self.assigned@[i]) == place_of(
                self@.order,
                self@.places,
                i,
            )
        &&& forall|p: int| 0 <= p < self.loads@.len() ==> #[trigger] self.loads@[p] == self@.load(p)
        &&& self.partitions@.len() == self.loads@.len()
        &&& forall|p: int|
            0 <= p < self.partitions@.len() ==> texts(
                (#[trigger] self.partitions@[p])@,
            ) == placed_names(self@.nodes, self@.order, self@.places, p)
    }

    /// Starts with no function placed.
    pub fn new(
        graph: &'a UnGraph<PartitionNode, u64>,
        partition_count: usize,
        partitioner: Partitioner,
    ) -> (r: Self)
        requires
            node_total(graph_nodes(*graph)) <= u64::MAX,
            edge_total(graph_edges(*graph)) <= u64::MAX,
        ensures
            r.wf(),
            vertex_state_ok(r@),
            r.algorithm() == algorithm_name(partitioner),
            r@.nodes == graph_nodes(*graph),
            r@.edges == graph_edges(*graph),
            r@.count == at_least_one(partition_count as nat),
            r@.places.len() == 0,
            r@.candidate == 0,
            r@.best == 0,
    {
        let count: usize = if partition_count == 0 {
            1
        } else {
            partition_count
        };
        let nodes = sum_nodes(graph).unwrap();
        let edges = sum_edges(graph).unwrap();
        let order = node_order(graph);
        let size = node_count(graph);
        let mut assigned: Vec<Option<usize>> = Vec::new();
        let mut i: usize = 0;
        while i < size
            invariant
                i <= size,
                assigned@.len() == i,
                forall|k: int| 0 <= k < i ==> (#[trigger] assigned@[k]) is None,
            decreases size - i,
        {
            assigned.push(None);
            i = i + 1;
        }
        let mut loads: Vec<u64> = Vec::new();
        let mut partitions: Vec<Vec<String>> = Vec::new();
        let mut p: usize = 0;
        while p < count
            invariant
                p <= count,
                loads@.len() == p,
                partitions@.len() == p,
                forall|k: int| 0 <= k < p ==> #[trigger] loads@[k] == 0,
                forall|k: int| 0 <= k < p ==> (#[trigger] partitions@[k])@.len() == 0,
            decreases count - p,
        {
            loads.push(0);
            partitions.push(Vec::new());
            p = p + 1;
        }
        let r = VertexPlacement {
            graph,
            algorithm: partitioner_name(partitioner),
            total_weight: if nodes == 0 {
                1
            } else {
                nodes
            },
            total_edge_weight: if edges == 0 {
                1
            } else {
                edges
            },
            order,
            places: Vec::new(),
            assigned,
            loads,
            partitions,
            candidate: 0,
            best: 0,
        };
        proof {
            assert forall|p: int| 0 <= p < r.loads@.len() implies #[trigger] r.loads@[p] == r@.load(
                p,
            ) by {
                lemma_weight_nowhere(
                    r@.nodes,
                    |i: int| place_of(r@.order, r@.places, i) == Some(p),
                );
            }
            assert forall|p: int| 0 <= p < r.partitions@.len() implies texts(
                (#[trigger] r.partitions@[p])@,
            ) == placed_names(r@.nodes, r@.order, r@.places, p) by {}
        }
        r
    }
}

/// The links from a node into a partition.
pub open spec fn ties_into(
    edges: Seq<(int, int, u64)>,
    order: Seq<int>,
    places: Seq<int>,
    node: int,
    partition: int,
) -> Multiset<(int, u64)> {
    edges_at(edges, node).to_multiset().filter(
        |e: (int, u64)| place_of(order, places, e.0) == Some(partition),
    )
}

/// What the score of the candidate for the next node depends on.
pub open spec fn is_vertex_score(v: VertexState, q: VertexScore) -> bool {
    let node = v.order[v.places.len() as int];
    &&& q.partition == v.candidate
    &&& far_ends(q.ties@).to_multiset() == ties_into(
        v.edges,
        v.order,
        v.places,
        node,
        v.candidate,
    )
    &&& q.load == v.load(v.candidate)
    &&& q.node_weight == v.nodes[node].1
    &&& q.load + q.node_weight <= u64::MAX
    &&& q.total_weight == at_least_one(node_total(v.nodes))
    &&& q.total_edge_weight == at_least_one(edge_total(v.edges))
    &&& q.capacity == at_least_one(ceil_div(q.total_weight as nat, v.count as nat))
    &&& q.partition_count == v.count
}

impl<'a> VertexPlacement<'a> {
    /// What the next score depends on, as long as there is a function to place.
    pub fn question(&self) -> (r: Option<VertexScore>)
        requires
            self.wf(),
        ensures
            r is None <==> self@.finished(),
            r is Some ==> is_vertex_score(self@, r->0),
    {
        let k = self.places.len();
        if k == self.order.len() {
            return None;
        }
        let node = self.order[k];
        let ghost v = self@;
        let ghost into = |e: (int, u64)| place_of(v.order, v.places, e.0) == Some(v.candidate);
        assert(v.order[k as int] == node);
        let incident = incident_edges(self.graph, node);
        let ghost all = far_ends(incident@);
        let mut ties: Vec<(usize, u64)> = Vec::new();
        let n = incident.len();
        let mut i: usize = 0;
        proof {
            broadcast use vstd::seq_lib::group_to_multiset_ensures;

            assert(far_ends(ties@).to_multiset() =~= all.take(0).to_multiset().filter(into));
        }
        while i < n
            invariant
                self.wf(),
                v == self@,
                n == incident@.len(),
                all == far_ends(incident@),
                forall|j: int| 0 <= j < incident@.len() ==> (#[trigger] incident@[j]).0 < v.nodes.len(),
                i <= n,
                into == (|e: (int, u64)| place_of(v.order, v.places, e.0) == Some(v.candidate)),
                far_ends(ties@).to_multiset() == all.take(i as int).to_multiset().filter(into),
            decreases n - i,
        {
            broadcast use vstd::seq_lib::group_to_multiset_ensures;

            let ghost ties0 = ties@;
            let tie = incident[i];
            let inside = match self.assigned[tie.0] {
                Some(p) => p == self.candidate,
                None => false,
            };
            assert(inside == into(all[i as int]));
            assert(all.take(i + 1) =~= all.take(i as int).push(all[i as int]));
            if inside {
                ties.push(tie);
                assert(far_ends(ties@) =~= far_ends(ties0).push(all[i as int]));
            }
            assert(far_ends(ties@).to_multiset() =~= all.take(i + 1).to_multiset().filter(into));
            i = i + 1;
        }
        assert(all.take(n as int) =~= all);
        proof {
            self.lemma_room(v.candidate);
            vstd::arithmetic::div_mod::lemma_div_is_ordered_by_denominator(
                self.total_weight as int,
                1,
                v.count,
            );
            vstd::arithmetic::div_mod::lemma_fundamental_div_mod(
                self.total_weight as int,
                v.count,
            );
        }
        let count = self.loads.len() as u64;
        let quotient: u64 = self.total_weight / count;
        let capacity: u64 = if self.total_weight % count == 0 {
            quotient
        } else {
            assert(quotient < self.total_weight) by {
                assert(count != 1);
                assert(quotient * 2 <= self.total_weight) by (nonlinear_arith)
                    requires
                        quotient == self.total_weight / count,
                        count >= 2,
                ;
            }
            quotient + 1
        };
        Some(
            VertexScore {
                partition: self.candidate,
                ties,
                load: self.loads[self.candidate],
                node_weight: node_at(self.graph, node).weight,
                capacity: if capacity == 0 {
                    1
                } else {
                    capacity
                },
                total_weight: self.total_weight,
                total_edge_weight: self.total_edge_weight,
                partition_count: self.loads.len(),
            },
        )
    }

    /// The next node fits in any partition: the loads add up to no more than the weight of all.
    proof fn lemma_room(&self, p: int)
        requires
            self.wf(),
            !self@.finished(),
        ensures
            self@.load(p) + self@.nodes[self@.order[self@.places.len() as int]].1 == self@.place(
                p,
            ).load(p),
            self@.load(p) + self@.nodes[self@.order[self@.places.len() as int]].1 <= u64::MAX,
    {
        lemma_place_changes(self@, p, p);
        lemma_weight_where_le(
            self@.nodes,
            |i: int| place_of(self@.order, self@.place(p).places, i) == Some(p),
            |i: int| true,
        );
    }

    /// Places the next node.
    fn assign(&mut self, chosen: usize)
        requires
            old(self).wf(),
            !old(self)@.finished(),
            chosen < old(self)@.count,
        ensures
            final(self).wf(),
            final(self)@ == old(self)@.place(chosen as int),
            final(self).algorithm() == old(self).algorithm(),
    {
        let ghost v = self@;
        proof {
            self.lemma_room(chosen as int);
        }
        let k = self.places.len();
        let node = self.order[k];
        assert(v.order[k as int] == node);
        let ghost partitions0 = self.partitions@;
        let found = node_at(self.graph, node);
        let load = self.loads[chosen];
        self.loads.set(chosen, load + found.weight);
        self.assigned.set(node, Some(chosen));
        let mut list: Vec<String> = Vec::new();
        std::mem::swap(&mut list, &mut self.partitions[chosen]);
        let ghost list0 = list@;
        list.push(found.name.clone());
        self.partitions.set(chosen, list);
        self.places.push(chosen);
        self.candidate = 0;
        self.best = 0;
        proof {
            let w = v.place(chosen as int);
            assert(ints(self.places@) =~= v.places.push(chosen as int));
            assert(self@ == w);
            assert(w.places.drop_last() =~= v.places);
            assert forall|i: int| 0 <= i < self.assigned@.len() implies as_place(
                #[trigger] self.assigned@[i],
            ) == place_of(w.order, w.places, i) by {
                if i != node {
                    assert(v.order[k as int] != i);
                }
            }
            assert forall|p: int| 0 <= p < self.loads@.len() implies #[trigger] self.loads@[p]
                == w.load(p) by {
                lemma_place_changes(v, chosen as int, p);
            }
            assert forall|p: int| 0 <= p < self.partitions@.len() implies texts(
                (#[trigger] self.partitions@[p])@,
            ) == placed_names(w.nodes, w.order, w.places, p) by {
                assert(texts(partitions0[p]@) == placed_names(
                    v.nodes,
                    v.order,
                    v.places,
                    p,
                ));
                if p == chosen {
                    assert(texts(self.partitions@[p]@) =~= texts(
                        list0,
                    ).push(v.nodes[node as int].0));
                }
            }
        }
    }

    /// Takes note of how the score of the candidate stands. Tells whether the candidate leads now.
    pub fn answer(&mut self, standing: Standing) -> (r: bool)
        requires
            old(self).wf(),
            !old(self)@.finished(),
        ensures
            final(self).wf(),
            final(self)@ == old(self)@.after(standing),
            final(self).algorithm() == old(self).algorithm(),
            r == takes_lead(
                standing,
                old(self)@.load(old(self)@.candidate),
                old(self)@.load(old(self)@.best),
            ),
    {
        let count = self.loads.len();
        let leads = match standing {
            Standing::Higher => true,
            Standing::Near => self.loads[self.candidate] < self.loads[self.best],
            Standing::Lower => false,
        };
        let best: usize = if leads {
            self.candidate
        } else {
            self.best
        };
        if self.candidate + 1 == count {
            self.assign(best);
        } else {
            self.candidate = self.candidate + 1;
            self.best = best;
        }
        leads
    }

    /// The plan, when every function is placed.
    pub fn finish(self) -> (r: PartitionPlan)
        requires
            self.wf(),
            self@.finished(),
        ensures
            is_vertex_plan(self@, self.algorithm(), r),
    {
        let count = self.loads.len();
        let seed_assignments = empty_lists::<String>(count);
        let partition_edges = empty_lists::<(String, String)>(count);
        PartitionPlan {
            algorithm: self.algorithm,
            partitions: self.partitions,
            loads: self.loads,
            seed_assignments,
            partition_edges,
        }
    }
}

/// Placing a node changes the load of its partition only, by its weight.
proof fn lemma_place_changes(v: VertexState, chosen: int, p: int)
    requires
        is_node_order(v.nodes, v.order),
        v.places.len() < v.order.len(),
    ensures
        v.place(chosen).load(p) == v.load(p) + (if p == chosen {
            v.nodes[v.order[v.places.len() as int]].1 as nat
        } else {
            0
        }),
{
    let w = v.place(chosen);
    let node = v.order[v.places.len() as int];
    assert(w.places.drop_last() =~= v.places);
    let here = |i: int| place_of(v.order, v.places, i) == Some(p);
    let there = |i: int| place_of(w.order, w.places, i) == Some(p);
    lemma_place_of_some(v.order, v.places, node);
    assert(place_of(v.order, v.places, node) is None) by {
        if place_of(v.order, v.places, node) is Some {
            let k = choose|k: int| 0 <= k < v.places.len() && #[trigger] v.order[k] == node;
            assert(v.order[k] == v.order[v.places.len() as int]);
        }
    }
    if p == chosen {
        lemma_weight_where_add(v.nodes, here, there, node);
    } else {
        lemma_weight_where_le(v.nodes, here, there);
        lemma_weight_where_le(v.nodes, there, here);
    }
}

/// A list of empty lists.
pub(crate) fn empty_lists<T>(count: usize) -> (r: Vec<Vec<T>>)
    ensures
        r@.len() == count,
        forall|i: int| 0 <= i < count ==> (#[trigger] r@[i])@.len() == 0,
{
    let mut out: Vec<Vec<T>> = Vec::new();
    let mut i: usize = 0;
    while i < count
        invariant
            i <= count,
            out@.len() == i,
            forall|k: int| 0 <= k < i ==> (#[trigger] out@[k])@.len() == 0,
        decreases count - i,
    {
        out.push(Vec::new());
        i = i + 1;
    }
    out
}

/// The plan of a finished vertex placement.
pub open spec fn is_vertex_plan(v: VertexState, algorithm: Seq<char>, plan: PartitionPlan) -> bool {
    &&& plan.algorithm@ == algorithm
    &&& plan.partitions@.len() == v.count
    &&& plan.loads@.len() == v.count
    &&& plan.seed_assignments@.len() == v.count
    &&& plan.partition_edges@.len() == v.count
    &&& forall|p: int|
        0 <= p < v.count ==> texts((#[trigger] plan.partitions@[p])@) == placed_names(
            v.nodes,
            v.order,
            v.places,
            p,
        )
    &&& forall|p: int| 0 <= p < v.count ==> (#[trigger] plan.loads@[p]) == v.load(p)
    &&& forall|p: int| 0 <= p < v.count ==> (#[trigger] plan.seed_assignments@[p])@.len() == 0
    &&& forall|p: int| 0 <= p < v.count ==> (#[trigger] plan.partition_edges@[p])@.len() == 0
}

pub(crate) proof fn lemma_weight_nowhere(nodes: Seq<(Seq<char>, u64)>, here: spec_fn(int) -> bool)
    requires
        forall|i: int| 0 <= i < nodes.len() ==> !#[trigger] here(i),
    ensures
        weight_where(nodes, here) == 0,
    decreases nodes.len(),
{
    if nodes.len() > 0 {
        lemma_weight_nowhere(nodes.drop_last(), here);
        assert(!here(nodes.len() - 1));
    }
}

/// What the hash of a name is computed from.
pub uninterp spec fn hashed_text(name: Seq<char>) -> Seq<Seq<u8>>;

/// `<str as Hash>::hash` feeds a hasher with what stands for the text, which is named here: how a
/// text is cut into bytes is left to the standard library.
#[verifier::external_body]
fn hash_text(name: &str, hasher: &mut DefaultHasher)
    ensures
        final(hasher)@ == old(hasher)@ + hashed_text(name@),
{
    name.hash(hasher);
}

/// The partition that a name hashes to.
pub open spec fn hashed_partition(name: Seq<char>, partition_count: int) -> int {
    (DefaultHasher::spec_finish(hashed_text(name)) as usize) as int % partition_count
}

/// The partition for a hash.
pub fn partition_for_hash(hash: u64, partition_count: usize) -> (r: usize)
    requires
        partition_count > 0,
    ensures
        r == (hash as usize) as int % partition_count as int,
        r < partition_count,
{
    (hash as usize) % partition_count
}

/// A partition that depends on nothing but the name.
pub fn random_partition(name: &str, partition_count: usize) -> (r: usize)
    requires
        partition_count > 0,
    ensures
        r == hashed_partition(name@, partition_count as int),
        r < partition_count,
{
    let mut hasher = DefaultHasher::new();
    hash_text(name, &mut hasher);
    assert(hasher@ =~= hashed_text(name@));
    partition_for_hash(hasher.finish(), partition_count)
}

impl<'a> VertexPlacement<'a> {
    /// Places every function where its name hashes to.
    fn scatter(&mut self)
        requires
            old(self).wf(),
            old(self)@.places.len() == 0,
        ensures
            final(self).wf(),
            final(self)@.finished(),
            final(self)@.nodes == old(self)@.nodes,
            final(self)@.edges == old(self)@.edges,
            final(self)@.count == old(self)@.count,
            final(self)@.order == old(self)@.order,
            final(self).algorithm() == old(self).algorithm(),
            forall|k: int|
                0 <= k < final(self)@.places.len() ==> #[trigger] final(self)@.places[k]
                    == hashed_partition(
                    final(self)@.nodes[final(self)@.order[k]].0,
                    final(self)@.count,
                ),
    {
        let ghost v = self@;
        let n = self.order.len();
        let count = self.loads.len();
        let mut k: usize = 0;
        while k < n
            invariant
                self.wf(),
                self.algorithm() == old(self).algorithm(),
                v == old(self)@,
                self@.nodes == v.nodes,
                self@.edges == v.edges,
                self@.count == v.count == count > 0,
                self@.order == v.order,
                self@.places.len() == k <= n == self@.order.len(),
                forall|j: int|
                    0 <= j < k ==> #[trigger] self@.places[j] == hashed_partition(
                        v.nodes[v.order[j]].0,
                        v.count,
                    ),
            decreases n - k,
        {
            assert(self@.order[k as int] == self.order@[k as int]);
            let node = node_at(self.graph, self.order[k]);
            let chosen = random_partition(node.name.as_str(), count);
            self.assign(chosen);
            k = k + 1;
        }
    }
}

/// Whether the weights of a graph add up without leaving 64 bits.
pub fn vertex_weights_fit(graph: &UnGraph<PartitionNode, u64>) -> (r: bool)
    ensures
        r == (node_total(graph_nodes(*graph)) <= u64::MAX && edge_total(graph_edges(*graph))
            <= u64::MAX),
{
    sum_nodes(graph).is_some() && sum_edges(graph).is_some()
}

/// Places the functions of a graph by their names.
pub fn partition_graph_randomly(
    graph: &UnGraph<PartitionNode, u64>,
    partition_count: usize,
) -> (r: PartitionPlan)
    requires
        node_total(graph_nodes(*graph)) <= u64::MAX,
        edge_total(graph_edges(*graph)) <= u64::MAX,
    ensures
        is_random_plan(
            graph_nodes(*graph),
            at_least_one(partition_count as nat) as int,
            r,
        ),
{
    let mut placement = VertexPlacement::new(graph, partition_count, Partitioner::Random);
    placement.scatter();
    let ghost v = placement@;
    proof {
        placement.lemma_state_ok();
    }
    let plan = placement.finish();
    assert(is_vertex_plan(v, algorithm_name(Partitioner::Random), plan));
    plan
}

/// The plan of a placement by names.
pub open spec fn is_random_plan(
    nodes: Seq<(Seq<char>, u64)>,
    count: int,
    plan: PartitionPlan,
) -> bool {
    exists|v: VertexState|
        is_scattered(v, nodes, count) && #[trigger] is_vertex_plan(
            v,
            algorithm_name(Partitioner::Random),
            plan,
        )
}

/// Every node was placed where its name hashes to.
pub open spec fn is_scattered(v: VertexState, nodes: Seq<(Seq<char>, u64)>, count: int) -> bool {
    &&& v.nodes == nodes
    &&& v.count == count
    &&& is_node_order(v.nodes, v.order)
    &&& v.finished()
    &&& forall|k: int|
        0 <= k < v.places.len() ==> #[trigger] v.places[k] == hashed_partition(
            v.nodes[v.order[k]].0,
            v.count,
        )
}

impl<'a> VertexPlacement<'a> {
    /// The state of a placement is sound.
    pub proof fn lemma_state_ok(&self)
        requires
            self.wf(),
        ensures
            vertex_state_ok(self@),
    {
    }
}

/// When a placement has finished, every node stands in exactly one partition, and is listed there.
pub proof fn law_every_node_is_placed(v: VertexState, node: int)
    requires
        vertex_state_ok(v),
        v.finished(),
        0 <= node < v.nodes.len(),
    ensures
        place_of(v.order, v.places, node) is Some,
        0 <= place_of(v.order, v.places, node)->0 < v.count,
        placed_names(
            v.nodes,
            v.order,
            v.places,
            place_of(v.order, v.places, node)->0,
        ).contains(v.nodes[node].0),
{
    let all = vstd::set_lib::set_int_range(0, v.nodes.len() as int);
    vstd::set_lib::lemma_int_range(0, v.nodes.len() as int);
    v.order.unique_seq_to_set();
    assert(v.order.to_set().subset_of(all));
    vstd::set_lib::lemma_subset_equality(v.order.to_set(), all);
    assert(all.contains(node));
    assert(v.order.to_set().contains(node));
    let k = v.order.index_of(node);
    lemma_place_of_some(v.order, v.places, node);
    assert(v.order[k] == node);
    let k = choose|k: int|
        0 <= k < v.places.len() && #[trigger] v.order[k] == node && place_of(
            v.order,
            v.places,
            node,
        ) == Some(v.places[k]);
    lemma_named(v.nodes, v.order, v.places, k);
}

proof fn lemma_named(nodes: Seq<(Seq<char>, u64)>, order: Seq<int>, places: Seq<int>, k: int)
    requires
        0 <= k < places.len(),
    ensures
        placed_names(nodes, order, places, places[k]).contains(nodes[order[k]].0),
    decreases places.len(),
{
    let p = places[k];
    let before = placed_names(nodes, order, places.drop_last(), p);
    let names = placed_names(nodes, order, places, p);
    if k == places.len() - 1 {
        assert(names[before.len() as int] == nodes[order[k]].0);
    } else {
        lemma_named(nodes, order, places.drop_last(), k);
        let i = before.index_of(nodes[order[k]].0);
        assert(names[i] == nodes[order[k]].0);
    }
}

/// The loads of the first partitions.
pub open spec fn load_sum(v: VertexState, partitions: int) -> nat
    decreases partitions,
{
    if partitions <= 0 {
        0
    } else {
        load_sum(v, partitions - 1) + v.load(partitions - 1)
    }
}

/// When a placement has finished, the loads of the partitions add up to the weight of the graph.
pub proof fn law_loads_add_up(v: VertexState)
    requires
        vertex_state_ok(v),
        v.finished(),
    ensures
        load_sum(v, v.count) == node_total(v.nodes),
{
    lemma_load_sum(v, v.count);
    let here = |i: int| exists|p: int| 0 <= p < v.count && place_of(v.order, v.places, i) == Some(p);
    let every = |i: int| true;
    assert forall|i: int| 0 <= i < v.nodes.len() && #[trigger] every(i) implies here(i) by {
        law_every_node_is_placed(v, i);
    }
    lemma_weight_where_le(v.nodes, every, here);
    lemma_weight_where_le(v.nodes, here, every);
}

proof fn lemma_load_sum(v: VertexState, partitions: int)
    requires
        0 <= partitions,
    ensures
        load_sum(v, partitions) == weight_where(
            v.nodes,
            |i: int| exists|p: int| 0 <= p < partitions && place_of(v.order, v.places, i) == Some(p),
        ),
    decreases partitions,
{
    let here = |i: int|
        exists|p: int| 0 <= p < partitions && place_of(v.order, v.places, i) == Some(p);
    if partitions == 0 {
        lemma_weight_nowhere(v.nodes, here);
    } else {
        lemma_load_sum(v, partitions - 1);
        let before = |i: int|
            exists|p: int| 0 <= p < partitions - 1 && place_of(v.order, v.places, i) == Some(p);
        let last = |i: int| place_of(v.order, v.places, i) == Some(partitions - 1);
        assert forall|i: int| 0 <= i < v.nodes.len() implies #[trigger] here(i) == (before(i)
            || last(i)) && !(before(i) && last(i)) by {
            if here(i) {
                let p = place_of(v.order, v.places, i)->0;
                assert(place_of(v.order, v.places, i) == Some(p));
            }
        }
        lemma_weight_split(v.nodes, here, before, last);
    }
}

pub(crate) proof fn lemma_weight_split(
    nodes: Seq<(Seq<char>, u64)>,
    here: spec_fn(int) -> bool,
    a: spec_fn(int) -> bool,
    b: spec_fn(int) -> bool,
)
    requires
        forall|i: int|
            0 <= i < nodes.len() ==> #[trigger] here(i) == (a(i) || b(i)) && !(a(i) && b(i)),
    ensures
        weight_where(nodes, here) == weight_where(nodes, a) + weight_where(nodes, b),
    decreases nodes.len(),
{
    if nodes.len() > 0 {
        lemma_weight_split(nodes.drop_last(), here, a, b);
        let n = nodes.len() - 1;
        assert(here(n) == (a(n) || b(n)) && !(a(n) && b(n)));
    }
}

/// How one number stands to another.
pub open spec fn standing_of(score: int, best: int) -> Standing {
    if score > best {
        Standing::Higher
    } else if score == best {
        Standing::Near
    } else {
        Standing::Lower
    }
}

/// The partition that leads when the first scores have been seen.
pub open spec fn leader(scores: Seq<int>, loads: Seq<nat>, seen: int) -> int
    decreases seen,
{
    if seen <= 1 {
        0
    } else {
        let best = leader(scores, loads, seen - 1);
        if takes_lead(
            standing_of(scores[seen - 1], scores[best]),
            loads[seen - 1],
            loads[best],
        ) {
            seen - 1
        } else {
            best
        }
    }
}

/// The partition that leads in the end has the best score; among those with that score it has the
/// least load; and among those it is the first.
pub proof fn law_leader_is_best(scores: Seq<int>, loads: Seq<nat>, seen: int, p: int)
    requires
        0 <= p < seen <= scores.len(),
        scores.len() == loads.len(),
    ensures
        0 <= leader(scores, loads, seen) < seen,
        scores[p] <= scores[leader(scores, loads, seen)],
        scores[p] == scores[leader(scores, loads, seen)] ==> loads[p] >= loads[leader(
            scores,
            loads,
            seen,
        )],
        scores[p] == scores[leader(scores, loads, seen)] && loads[p] == loads[leader(
            scores,
            loads,
            seen,
        )] ==> p >= leader(scores, loads, seen),
    decreases seen,
{
    if seen > 1 {
        if p < seen - 1 {
            law_leader_is_best(scores, loads, seen - 1, p);
        }
        law_leader_is_best(scores, loads, seen - 1, 0);
    }
}

/// A placement that has seen the first scores for a node.
pub open spec fn contest(v: VertexState, scores: Seq<int>, seen: int) -> VertexState
    decreases seen,
{
    if seen <= 0 {
        v
    } else {
        let w = contest(v, scores, seen - 1);
        w.after(standing_of(scores[seen - 1], scores[w.best]))
    }
}

/// A node goes to the partition that leads in the end.
pub proof fn law_node_goes_to_leader(v: VertexState, scores: Seq<int>)
    requires
        v.count > 0,
        v.candidate == 0,
        v.best == 0,
        scores.len() == v.count,
    ensures
        contest(v, scores, v.count) == v.place(
            leader(scores, Seq::new(v.count as nat, |p: int| v.load(p)), v.count),
        ),
{
    let loads = Seq::new(v.count as nat, |p: int| v.load(p));
    lemma_contest(v, scores, v.count - 1);
    law_leader_is_best(scores, loads, v.count, 0);
    if v.count > 1 {
        law_leader_is_best(scores, loads, v.count - 1, 0);
    }
}

proof fn lemma_contest(v: VertexState, scores: Seq<int>, seen: int)
    requires
        0 <= seen < v.count,
        v.candidate == 0,
        v.best == 0,
        scores.len() == v.count,
    ensures
        contest(v, scores, seen) == (VertexState {
            candidate: seen,
            best: leader(scores, Seq::new(v.count as nat, |p: int| v.load(p)), seen),
            ..v
        }),
    decreases seen,
{
    let loads = Seq::new(v.count as nat, |p: int| v.load(p));
    if seen > 0 {
        lemma_contest(v, scores, seen - 1);
        if seen > 1 {
            law_leader_is_best(scores, loads, seen - 1, 0);
        }
    }
}

} // verus!
