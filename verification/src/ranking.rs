//! In which order the nodes and the edges of a graph are placed.

use crate::graph::{edge_list, graph_edges, graph_nodes, node_at, node_count, PartitionNode};
use crate::ordered::{has_key, Key, SortedMap};
use crate::text::{
    lemma_text_lt_irreflexive, lemma_text_lt_total, lemma_text_lt_transitive, text_eq, text_less,
    text_lt,
};
use petgraph::graph::UnGraph;
use vstd::prelude::*;

verus! {

/// Where a node stands among the others.
pub struct NodeRank {
    pub weight: u64,
    pub name: String,
    pub index: usize,
}

/// Heavy nodes come first; nodes of the same weight go by their names.
pub open spec fn node_ranks_before(a: (u64, Seq<char>, usize), b: (u64, Seq<char>, usize)) -> bool {
    a.0 > b.0 || (a.0 == b.0 && (text_lt(a.1, b.1) || (a.1 == b.1 && a.2 < b.2)))
}

impl Key for NodeRank {
    type Model = (u64, Seq<char>, usize);

    open spec fn key(&self) -> (u64, Seq<char>, usize) {
        (self.weight, self.name@, self.index)
    }

    open spec fn lt(a: (u64, Seq<char>, usize), b: (u64, Seq<char>, usize)) -> bool {
        node_ranks_before(a, b)
    }

    proof fn lt_irreflexive(a: (u64, Seq<char>, usize)) {
        lemma_text_lt_irreflexive(a.1);
    }

    proof fn lt_transitive(
        a: (u64, Seq<char>, usize),
        b: (u64, Seq<char>, usize),
        c: (u64, Seq<char>, usize),
    ) {
        if text_lt(a.1, b.1) && text_lt(b.1, c.1) {
            lemma_text_lt_transitive(a.1, b.1, c.1);
        }
    }

    proof fn lt_total(a: (u64, Seq<char>, usize), b: (u64, Seq<char>, usize)) {
        lemma_text_lt_total(a.1, b.1);
    }

    fn less(&self, other: &Self) -> (r: bool) {
        self.weight > other.weight || (self.weight == other.weight && (text_less(
            self.name.as_str(),
            other.name.as_str(),
        ) || (text_eq(self.name.as_str(), other.name.as_str()) && self.index < other.index)))
    }

    fn duplicate(&self) -> (r: Self) {
        NodeRank { weight: self.weight, name: self.name.clone(), index: self.index }
    }
}

/// The numbers in `order` are those below `n`, each once.
pub open spec fn is_numbering(order: Seq<int>, n: nat) -> bool {
    &&& order.len() == n
    &&& order.no_duplicates()
    &&& forall|k: int| 0 <= k < order.len() ==> 0 <= #[trigger] order[k] < n
}

/// The order in which nodes are placed.
pub open spec fn is_node_order(nodes: Seq<(Seq<char>, u64)>, order: Seq<int>) -> bool {
    &&& is_numbering(order, nodes.len())
    &&& forall|k: int, l: int|
        #![trigger order[k], order[l]]
        0 <= k < l < order.len() ==> node_ranks_before(
            (nodes[order[k]].1, nodes[order[k]].0, order[k] as usize),
            (nodes[order[l]].1, nodes[order[l]].0, order[l] as usize),
        )
}

/// Numbers as mathematical values.
pub open spec fn ints(v: Seq<usize>) -> Seq<int> {
    Seq::new(v.len(), |i: int| v[i] as int)
}

/// The nodes of a graph in the order in which they are placed.
pub(crate) fn node_order(g: &UnGraph<PartitionNode, u64>) -> (r: Vec<usize>)
    ensures
        is_node_order(graph_nodes(*g), ints(r@)),
{
    let size = node_count(g);
    let ghost nodes = graph_nodes(*g);
    let mut ranks: SortedMap<NodeRank, ()> = SortedMap::new();
    let mut i: usize = 0;
    while i < size
        invariant
            size == nodes.len(),
            nodes == graph_nodes(*g),
            i <= size,
            ranks.ok(),
            ranks.seq().len() == i,
            forall|k: (u64, Seq<char>, usize)| #[trigger]
                ranks@.contains_key(k) <==> k.2 < i && k.0 == nodes[k.2 as int].1 && k.1
                    == nodes[k.2 as int].0,
        decreases size - i,
    {
        let node = node_at(g, i);
        let ghost before = ranks@;
        let rank = NodeRank { weight: node.weight, name: node.name.clone(), index: i };
        let ghost key = rank.key();
        proof {
            assert(!before.contains_key(key));
        }
        ranks.insert(rank, ());
        proof {
            assert forall|k: (u64, Seq<char>, usize)| #[trigger]
                ranks@.contains_key(k) <==> k.2 < i + 1 && k.0 == nodes[k.2 as int].1 && k.1
                    == nodes[k.2 as int].0 by {
                assert(before.contains_key(k) <==> k.2 < i && k.0 == nodes[k.2 as int].1 && k.1
                    == nodes[k.2 as int].0);
            }
        }
        i = i + 1;
    }
    let mut out: Vec<usize> = Vec::new();
    let n = ranks.len();
    let ghost seq = ranks.seq();
    let mut k: usize = 0;
    while k < n
        invariant
            n == seq.len(),
            seq == ranks.seq(),
            k <= n,
            out@.len() == k,
            forall|j: int| 0 <= j < k ==> #[trigger] out@[j] == seq[j].0.2,
        decreases n - k,
    {
        let rank = ranks.key_at(k);
        out.push(rank.index);
        k = k + 1;
    }
    proof {
        let order = ints(out@);
        assert forall|a: int| 0 <= a < seq.len() implies (#[trigger] seq[a]).0 == (
            nodes[seq[a].0.2 as int].1,
            nodes[seq[a].0.2 as int].0,
            seq[a].0.2,
        ) && seq[a].0.2 < size by {
            assert(has_key(seq, seq[a].0));
            assert(ranks@.contains_key(seq[a].0));
        }
        assert forall|a: int, b: int|
            #![trigger order[a], order[b]]
            0 <= a < b < order.len() implies node_ranks_before(
            (nodes[order[a]].1, nodes[order[a]].0, order[a] as usize),
            (nodes[order[b]].1, nodes[order[b]].0, order[b] as usize),
        ) by {
            assert(NodeRank::lt(seq[a].0, seq[b].0));
        }
        assert(order.no_duplicates()) by {
            assert forall|a: int, b: int|
                0 <= a < b < order.len() implies #[trigger] order[a] != #[trigger] order[b] by {
                lemma_text_lt_irreflexive(nodes[order[a]].0);
            }
        }
    }
    out
}

/// Where an edge stands among the others.
pub struct EdgeRank {
    pub weight: u64,
    pub source: String,
    pub target: String,
    pub index: usize,
}

/// Heavy edges come first; edges of the same weight go by the names of their ends.
pub open spec fn edge_ranks_before(
    a: (u64, Seq<char>, Seq<char>, usize),
    b: (u64, Seq<char>, Seq<char>, usize),
) -> bool {
    a.0 > b.0 || (a.0 == b.0 && (text_lt(a.1, b.1) || (a.1 == b.1 && (text_lt(a.2, b.2) || (a.2
        == b.2 && a.3 < b.3)))))
}

impl Key for EdgeRank {
    type Model = (u64, Seq<char>, Seq<char>, usize);

    open spec fn key(&self) -> (u64, Seq<char>, Seq<char>, usize) {
        (self.weight, self.source@, self.target@, self.index)
    }

    open spec fn lt(
        a: (u64, Seq<char>, Seq<char>, usize),
        b: (u64, Seq<char>, Seq<char>, usize),
    ) -> bool {
        edge_ranks_before(a, b)
    }

    proof fn lt_irreflexive(a: (u64, Seq<char>, Seq<char>, usize)) {
        lemma_text_lt_irreflexive(a.1);
        lemma_text_lt_irreflexive(a.2);
    }

    proof fn lt_transitive(
        a: (u64, Seq<char>, Seq<char>, usize),
        b: (u64, Seq<char>, Seq<char>, usize),
        c: (u64, Seq<char>, Seq<char>, usize),
    ) {
        if text_lt(a.1, b.1) && text_lt(b.1, c.1) {
            lemma_text_lt_transitive(a.1, b.1, c.1);
        }
        if text_lt(a.2, b.2) && text_lt(b.2, c.2) {
            lemma_text_lt_transitive(a.2, b.2, c.2);
        }
    }

    proof fn lt_total(
        a: (u64, Seq<char>, Seq<char>, usize),
        b: (u64, Seq<char>, Seq<char>, usize),
    ) {
        lemma_text_lt_total(a.1, b.1);
        lemma_text_lt_total(a.2, b.2);
    }

    fn less(&self, other: &Self) -> (r: bool) {
        self.weight > other.weight || (self.weight == other.weight && (text_less(
            self.source.as_str(),
            other.source.as_str(),
        ) || (text_eq(self.source.as_str(), other.source.as_str()) && (text_less(
            self.target.as_str(),
            other.target.as_str(),
        ) || (text_eq(self.target.as_str(), other.target.as_str()) && self.index < other.index)))))
    }

    fn duplicate(&self) -> (r: Self) {
        EdgeRank {
            weight: self.weight,
            source: self.source.clone(),
            target: self.target.clone(),
            index: self.index,
        }
    }
}

/// Where the edge with the number `e` stands.
pub open spec fn edge_rank(
    nodes: Seq<(Seq<char>, u64)>,
    edges: Seq<(int, int, u64)>,
    e: int,
) -> (u64, Seq<char>, Seq<char>, usize) {
    (edges[e].2, nodes[edges[e].0].0, nodes[edges[e].1].0, e as usize)
}

/// The order in which edges are placed.
pub open spec fn is_edge_order(
    nodes: Seq<(Seq<char>, u64)>,
    edges: Seq<(int, int, u64)>,
    order: Seq<int>,
) -> bool {
    &&& is_numbering(order, edges.len())
    &&& forall|k: int, l: int|
        #![trigger order[k], order[l]]
        0 <= k < l < order.len() ==> edge_ranks_before(
            edge_rank(nodes, edges, order[k]),
            edge_rank(nodes, edges, order[l]),
        )
}

/// The edges of a graph in the order in which they are placed, with their numbers.
pub(crate) fn edge_order(g: &UnGraph<PartitionNode, u64>) -> (r: Vec<usize>)
    ensures
        is_edge_order(graph_nodes(*g), graph_edges(*g), ints(r@)),
{
    let list = edge_list(g);
    let size = list.len();
    let ghost nodes = graph_nodes(*g);
    let ghost edges = graph_edges(*g);
    let mut ranks: SortedMap<EdgeRank, ()> = SortedMap::new();
    let mut i: usize = 0;
    while i < size
        invariant
            size == edges.len() == list@.len(),
            nodes == graph_nodes(*g),
            edges == graph_edges(*g),
            forall|k: int|
                0 <= k < list@.len() ==> (#[trigger] list@[k]).0 == edges[k].0 && list@[k].1
                    == edges[k].1 && list@[k].2 == edges[k].2 && list@[k].0 < nodes.len()
                    && list@[k].1 < nodes.len(),
            i <= size,
            ranks.ok(),
            ranks.seq().len() == i,
            forall|k: (u64, Seq<char>, Seq<char>, usize)| #[trigger]
                ranks@.contains_key(k) <==> k.3 < i && k == edge_rank(nodes, edges, k.3 as int),
        decreases size - i,
    {
        let (a, b, weight) = list[i];
        let ghost before = ranks@;
        let rank = EdgeRank {
            weight,
            source: node_at(g, a).name.clone(),
            target: node_at(g, b).name.clone(),
            index: i,
        };
        proof {
            assert(rank.key() == edge_rank(nodes, edges, i as int));
            assert(!before.contains_key(rank.key()));
        }
        ranks.insert(rank, ());
        proof {
            assert forall|k: (u64, Seq<char>, Seq<char>, usize)| #[trigger]
                ranks@.contains_key(k) <==> k.3 < i + 1 && k == edge_rank(
                    nodes,
                    edges,
                    k.3 as int,
                ) by {
                assert(before.contains_key(k) <==> k.3 < i && k == edge_rank(
                    nodes,
                    edges,
                    k.3 as int,
                ));
            }
        }
        i = i + 1;
    }
    let mut out: Vec<usize> = Vec::new();
    let n = ranks.len();
    let ghost seq = ranks.seq();
    let mut k: usize = 0;
    while k < n
        invariant
            n == seq.len(),
            seq == ranks.seq(),
            k <= n,
            out@.len() == k,
            forall|j: int| 0 <= j < k ==> #[trigger] out@[j] == seq[j].0.3,
        decreases n - k,
    {
        let rank = ranks.key_at(k);
        out.push(rank.index);
        k = k + 1;
    }
    proof {
        let order = ints(out@);
        assert forall|a: int| 0 <= a < seq.len() implies (#[trigger] seq[a]).0 == edge_rank(
            nodes,
            edges,
            seq[a].0.3 as int,
        ) && seq[a].0.3 < size by {
            assert(has_key(seq, seq[a].0));
            assert(ranks@.contains_key(seq[a].0));
        }
        assert forall|a: int, b: int|
            #![trigger order[a], order[b]]
            0 <= a < b < order.len() implies edge_ranks_before(
            edge_rank(nodes, edges, order[a]),
            edge_rank(nodes, edges, order[b]),
        ) by {
            assert(EdgeRank::lt(seq[a].0, seq[b].0));
        }
        assert(order.no_duplicates()) by {
            assert forall|a: int, b: int|
                0 <= a < b < order.len() implies #[trigger] order[a] != #[trigger] order[b] by {
                EdgeRank::lt_irreflexive(seq[a].0);
            }
        }
    }
    out
}

/// Whether a node is an end of an edge.
pub open spec fn touches(edge: (int, int, u64), node: int) -> bool {
    edge.0 == node || edge.1 == node
}

/// Whether no edge touches a node.
pub open spec fn is_isolated(edges: Seq<(int, int, u64)>, node: int) -> bool {
    forall|e: int| 0 <= e < edges.len() ==> !touches(#[trigger] edges[e], node)
}

/// The isolated nodes, in the order of their names.
pub open spec fn is_isolated_order(
    nodes: Seq<(Seq<char>, u64)>,
    edges: Seq<(int, int, u64)>,
    order: Seq<int>,
) -> bool {
    &&& forall|k: int|
        0 <= k < order.len() ==> 0 <= #[trigger] order[k] < nodes.len() && is_isolated(
            edges,
            order[k],
        )
    &&& forall|k: int, l: int|
        #![trigger order[k], order[l]]
        0 <= k < l < order.len() ==> text_lt(nodes[order[k]].0, nodes[order[l]].0) || (
        nodes[order[k]].0 == nodes[order[l]].0 && order[k] < order[l])
    &&& forall|i: int| 0 <= i < nodes.len() && is_isolated(edges, i) ==> #[trigger] order.contains(i)
}

/// Which nodes are an end of an edge.
fn touched_nodes(
    list: &Vec<(usize, usize, u64)>,
    size: usize,
    Ghost(edges): Ghost<Seq<(int, int, u64)>>,
) -> (r: Vec<bool>)
    requires
        list@.len() == edges.len(),
        forall|k: int|
            0 <= k < list@.len() ==> (#[trigger] list@[k]).0 == edges[k].0 && list@[k].1
                == edges[k].1 && list@[k].0 < size && list@[k].1 < size,
    ensures
        r@.len() == size,
        forall|i: int| 0 <= i < size ==> (#[trigger] r@[i]) == !is_isolated(edges, i),
{
    let mut out: Vec<bool> = Vec::new();
    let mut i: usize = 0;
    while i < size
        invariant
            i <= size,
            out@.len() == i,
            forall|k: int| 0 <= k < i ==> !(#[trigger] out@[k]),
        decreases size - i,
    {
        out.push(false);
        i = i + 1;
    }
    let n = list.len();
    let mut e: usize = 0;
    proof {
        assert forall|i: int| 0 <= i < size implies (#[trigger] out@[i]) == !is_isolated(
            edges.take(0),
            i,
        ) by {}
    }
    while e < n
        invariant
            n == list@.len() == edges.len(),
            e <= n,
            out@.len() == size,
            forall|k: int|
                0 <= k < list@.len() ==> (#[trigger] list@[k]).0 == edges[k].0 && list@[k].1
                    == edges[k].1 && list@[k].0 < size && list@[k].1 < size,
            forall|i: int|
                0 <= i < size ==> (#[trigger] out@[i]) == !is_isolated(edges.take(e as int), i),
        decreases n - e,
    {
        let (a, b, _) = list[e];
        let ghost out0 = out@;
        out.set(a, true);
        out.set(b, true);
        proof {
            let less = edges.take(e as int);
            let more = edges.take(e + 1);
            assert forall|i: int| 0 <= i < size implies (#[trigger] out@[i]) == !is_isolated(
                more,
                i,
            ) by {
                assert(out0[i] == !is_isolated(less, i));
                assert(more[e as int] == edges[e as int]);
                if touches(edges[e as int], i) {
                    assert(!is_isolated(more, i));
                } else if !is_isolated(less, i) {
                    let k = choose|k: int| 0 <= k < less.len() && touches(#[trigger] less[k], i);
                    assert(touches(more[k], i));
                } else {
                    assert forall|k: int| 0 <= k < more.len() implies !touches(
                        #[trigger] more[k],
                        i,
                    ) by {
                        if k < e {
                            assert(less[k] == more[k]);
                        }
                    }
                }
            }
        }
        e = e + 1;
    }
    assert(edges.take(n as int) =~= edges);
    out
}

/// The isolated nodes of a graph, in the order in which they are placed.
pub(crate) fn isolated_order(g: &UnGraph<PartitionNode, u64>) -> (r: Vec<usize>)
    ensures
        is_isolated_order(graph_nodes(*g), graph_edges(*g), ints(r@)),
{
    let list = edge_list(g);
    let size = node_count(g);
    let ghost nodes = graph_nodes(*g);
    let ghost edges = graph_edges(*g);
    let touched = touched_nodes(&list, size, Ghost(edges));
    let mut ranks: SortedMap<NodeRank, ()> = SortedMap::new();
    let mut i: usize = 0;
    while i < size
        invariant
            size == nodes.len() == touched@.len(),
            nodes == graph_nodes(*g),
            i <= size,
            ranks.ok(),
            forall|k: int| 0 <= k < size ==> (#[trigger] touched@[k]) == !is_isolated(edges, k),
            forall|k: (u64, Seq<char>, usize)| #[trigger]
                ranks@.contains_key(k) <==> k.2 < i && is_isolated(edges, k.2 as int) && k == (
                    0u64,
                    nodes[k.2 as int].0,
                    k.2,
                ),
        decreases size - i,
    {
        let ghost before = ranks@;
        if !touched[i] {
            let node = node_at(g, i);
            ranks.insert(NodeRank { weight: 0, name: node.name.clone(), index: i }, ());
        }
        proof {
            assert forall|k: (u64, Seq<char>, usize)| #[trigger]
                ranks@.contains_key(k) <==> k.2 < i + 1 && is_isolated(edges, k.2 as int) && k == (
                    0u64,
                    nodes[k.2 as int].0,
                    k.2,
                ) by {
                assert(before.contains_key(k) <==> k.2 < i && is_isolated(edges, k.2 as int) && k
                    == (0u64, nodes[k.2 as int].0, k.2));
            }
        }
        i = i + 1;
    }
    let mut out: Vec<usize> = Vec::new();
    let n = ranks.len();
    let ghost seq = ranks.seq();
    let mut k: usize = 0;
    while k < n
        invariant
            n == seq.len(),
            seq == ranks.seq(),
            k <= n,
            out@.len() == k,
            forall|j: int| 0 <= j < k ==> #[trigger] out@[j] == seq[j].0.2,
        decreases n - k,
    {
        let rank = ranks.key_at(k);
        out.push(rank.index);
        k = k + 1;
    }
    proof {
        let order = ints(out@);
        assert forall|a: int| 0 <= a < seq.len() implies (#[trigger] seq[a]).0 == (
            0u64,
            nodes[seq[a].0.2 as int].0,
            seq[a].0.2,
        ) && seq[a].0.2 < size && is_isolated(edges, seq[a].0.2 as int) by {
            assert(has_key(seq, seq[a].0));
            assert(ranks@.contains_key(seq[a].0));
        }
        assert forall|a: int, b: int|
            #![trigger order[a], order[b]]
            0 <= a < b < order.len() implies text_lt(nodes[order[a]].0, nodes[order[b]].0) || (
        nodes[order[a]].0 == nodes[order[b]].0 && order[a] < order[b]) by {
            assert(NodeRank::lt(seq[a].0, seq[b].0));
        }
        assert forall|i: int|
            0 <= i < nodes.len() && is_isolated(edges, i) implies #[trigger] order.contains(i) by {
            let key = (0u64, nodes[i].0, i as usize);
            assert(ranks@.contains_key(key));
            let a = choose|a: int| 0 <= a < seq.len() && (#[trigger] seq[a]).0 == key;
            assert(order[a] == i);
        }
    }
    out
}

} // verus!
