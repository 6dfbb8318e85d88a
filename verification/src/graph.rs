//! The weighted graph of functions that is cut into partitions.
//!
//! The graph itself is a `petgraph` graph. Its nodes are numbered in the order in which they were
//! added, and so are its edges.

use petgraph::graph::{EdgeIndex, NodeIndex, UnGraph};
use petgraph::visit::EdgeRef;
use vstd::prelude::*;

verus! {

/// A function to be placed in a partition.
#[derive(Clone, Debug)]
pub struct PartitionNode {
    pub name: String,
    pub weight: u64,
}

/// `petgraph::graph::Graph`.
#[verifier::external_type_specification]
#[verifier::external_body]
#[verifier::reject_recursive_types(N)]
#[verifier::reject_recursive_types(E)]
#[verifier::reject_recursive_types(Ty)]
#[verifier::reject_recursive_types(Ix)]
pub struct ExGraph<N, E, Ty, Ix>(petgraph::graph::Graph<N, E, Ty, Ix>);

/// `petgraph::Undirected`.
#[verifier::external_type_specification]
#[verifier::external_body]
pub struct ExUndirected(petgraph::Undirected);

/// The name and the weight of each node, in the order of the node numbers.
pub uninterp spec fn graph_nodes(g: UnGraph<PartitionNode, u64>) -> Seq<(Seq<char>, u64)>;

/// The two ends and the weight of each edge, in the order of the edge numbers.
pub uninterp spec fn graph_edges(g: UnGraph<PartitionNode, u64>) -> Seq<(int, int, u64)>;

/// Whether the edge lies between the two nodes, in either direction.
pub open spec fn connects(edge: (int, int, u64), a: int, b: int) -> bool {
    (edge.0 == a && edge.1 == b) || (edge.0 == b && edge.1 == a)
}

/// The far end and the weight of each edge at the node `a`, in the order of the edge numbers.
pub open spec fn edges_at(edges: Seq<(int, int, u64)>, a: int) -> Seq<(int, u64)>
    decreases edges.len(),
{
    if edges.len() == 0 {
        Seq::empty()
    } else {
        let e = edges.last();
        let before = edges_at(edges.drop_last(), a);
        if e.0 == a {
            before.push((e.1, e.2))
        } else if e.1 == a {
            before.push((e.0, e.2))
        } else {
            before
        }
    }
}

/// `Graph::new_undirected` makes a graph without nodes and edges.
#[verifier::external_body]
pub(crate) fn empty_graph() -> (r: UnGraph<PartitionNode, u64>)
    ensures
        graph_nodes(r) == Seq::<(Seq<char>, u64)>::empty(),
        graph_edges(r) == Seq::<(int, int, u64)>::empty(),
{
    UnGraph::new_undirected()
}

/// `Graph::node_count` counts the nodes.
#[verifier::external_body]
pub(crate) fn node_count(g: &UnGraph<PartitionNode, u64>) -> (r: usize)
    ensures
        r == graph_nodes(*g).len(),
{
    g.node_count()
}

/// `Graph::node_weight` gives what is stored at a node.
#[verifier::external_body]
pub(crate) fn node_at(g: &UnGraph<PartitionNode, u64>, i: usize) -> (r: &PartitionNode)
    requires
        i < graph_nodes(*g).len(),
    ensures
        (r.name@, r.weight) == graph_nodes(*g)[i as int],
{
    g.node_weight(NodeIndex::new(i)).unwrap()
}

/// `Graph::node_weight_mut` gives access to what is stored at a node; everything else in the graph
/// stays as it is.
#[verifier::external_body]
pub(crate) fn node_at_mut(g: &mut UnGraph<PartitionNode, u64>, i: usize) -> (r: &mut PartitionNode)
    requires
        i < graph_nodes(*old(g)).len(),
    ensures
        (r.name@, r.weight) == graph_nodes(*old(g))[i as int],
        graph_nodes(*final(g)) == graph_nodes(*old(g)).update(
            i as int,
            (final(r).name@, final(r).weight),
        ),
        graph_edges(*final(g)) == graph_edges(*old(g)),
{
    g.node_weight_mut(NodeIndex::new(i)).unwrap()
}

/// `Graph::add_node` appends a node. It panics when the node numbers, which have 32 bits, are used
/// up.
#[verifier::external_body]
pub(crate) fn add_node(g: &mut UnGraph<PartitionNode, u64>, node: PartitionNode) -> (r: usize)
    requires
        graph_nodes(*old(g)).len() < u32::MAX,
    ensures
        r == graph_nodes(*old(g)).len(),
        graph_nodes(*final(g)) == graph_nodes(*old(g)).push((node.name@, node.weight)),
        graph_edges(*final(g)) == graph_edges(*old(g)),
{
    g.add_node(node).index()
}

/// `Graph::edge_count` counts the edges.
#[verifier::external_body]
pub(crate) fn edge_count(g: &UnGraph<PartitionNode, u64>) -> (r: usize)
    ensures
        r == graph_edges(*g).len(),
{
    g.edge_count()
}

/// `Graph::find_edge` finds an edge between two nodes of an undirected graph, whichever of the two
/// it was added from, where there is one.
#[verifier::external_body]
pub(crate) fn find_edge(g: &UnGraph<PartitionNode, u64>, a: usize, b: usize) -> (r: Option<usize>)
    requires
        a < graph_nodes(*g).len(),
        b < graph_nodes(*g).len(),
    ensures
        r is Some ==> r->0 < graph_edges(*g).len() && connects(
            graph_edges(*g)[r->0 as int],
            a as int,
            b as int,
        ),
        r is None ==> forall|i: int|
            0 <= i < graph_edges(*g).len() ==> !connects(
                #[trigger] graph_edges(*g)[i],
                a as int,
                b as int,
            ),
{
    g.find_edge(NodeIndex::new(a), NodeIndex::new(b)).map(|e| e.index())
}

/// `Graph::edge_weight_mut` gives access to the weight of an edge; everything else in the graph
/// stays as it is.
#[verifier::external_body]
pub(crate) fn edge_weight_mut(g: &mut UnGraph<PartitionNode, u64>, e: usize) -> (r: &mut u64)
    requires
        e < graph_edges(*old(g)).len(),
    ensures
        *r == graph_edges(*old(g))[e as int].2,
        graph_edges(*final(g)) == graph_edges(*old(g)).update(
            e as int,
            (
                graph_edges(*old(g))[e as int].0,
                graph_edges(*old(g))[e as int].1,
                *final(r),
            ),
        ),
        graph_nodes(*final(g)) == graph_nodes(*old(g)),
{
    g.edge_weight_mut(EdgeIndex::new(e)).unwrap()
}

/// `Graph::add_edge` appends an edge. It panics when the edge numbers, which have 32 bits, are used
/// up, or an end is no node.
#[verifier::external_body]
pub(crate) fn add_edge(
    g: &mut UnGraph<PartitionNode, u64>,
    a: usize,
    b: usize,
    weight: u64,
) -> (r: usize)
    requires
        a < graph_nodes(*old(g)).len(),
        b < graph_nodes(*old(g)).len(),
        graph_edges(*old(g)).len() < u32::MAX,
    ensures
        r == graph_edges(*old(g)).len(),
        graph_edges(*final(g)) == graph_edges(*old(g)).push((a as int, b as int, weight)),
        graph_nodes(*final(g)) == graph_nodes(*old(g)),
{
    g.add_edge(NodeIndex::new(a), NodeIndex::new(b), weight).index()
}

/// `Graph::edge_references` walks over the edges in the order of their numbers. Both ends of an
/// edge are nodes of the graph.
#[verifier::external_body]
pub(crate) fn edge_list(g: &UnGraph<PartitionNode, u64>) -> (r: Vec<(usize, usize, u64)>)
    ensures
        r@.len() == graph_edges(*g).len(),
        forall|i: int|
            0 <= i < r@.len() ==> (#[trigger] r@[i]).0 == graph_edges(*g)[i].0 && r@[i].1
                == graph_edges(*g)[i].1 && r@[i].2 == graph_edges(*g)[i].2 && r@[i].0 < graph_nodes(
                *g,
            ).len() && r@[i].1 < graph_nodes(*g).len(),
{
    g.edge_references().map(|e| (e.source().index(), e.target().index(), *e.weight())).collect()
}

/// The far end of an edge and its weight, as mathematical values.
pub open spec fn far_ends(v: Seq<(usize, u64)>) -> Seq<(int, u64)> {
    Seq::new(v.len(), |i: int| (v[i].0 as int, v[i].1))
}

/// `Graph::edges` walks over the edges at a node, each once; the far end of each is another node of
/// the graph, or the node itself. In which order is not stated.
#[verifier::external_body]
pub(crate) fn incident_edges(g: &UnGraph<PartitionNode, u64>, a: usize) -> (r: Vec<(usize, u64)>)
    requires
        a < graph_nodes(*g).len(),
    ensures
        far_ends(r@).to_multiset() == edges_at(graph_edges(*g), a as int).to_multiset(),
        forall|i: int| 0 <= i < r@.len() ==> (#[trigger] r@[i]).0 < graph_nodes(*g).len(),
{
    g.edges(NodeIndex::new(a)).map(|e| (e.target().index(), *e.weight())).collect()
}

} // verus!
