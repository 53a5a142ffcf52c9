//! The boundary to `petgraph`: the types of it that the library names, what a
//! graph holds as sequences, and one function for each call that the library
//! makes. Verus takes the contracts in this file on trust.

use vstd::prelude::*;
use petgraph::graph::{DiGraph, Graph, NodeIndex};
use petgraph::visit::{Dfs, EdgeRef, Walker};
use petgraph::{Directed, Direction};
use crate::clusters::NodeW;
use crate::model::{incident_edges, reaches, TreeView};

verus! {

/// `petgraph::graph::Graph`, of which the verifier sees nothing but what the
/// functions of this file state.
#[verifier::external_type_specification]
#[verifier::external_body]
#[verifier::reject_recursive_types(N)]
#[verifier::reject_recursive_types(E)]
#[verifier::reject_recursive_types(Ty)]
#[verifier::reject_recursive_types(Ix)]
pub struct ExGraph<N, E, Ty, Ix>(Graph<N, E, Ty, Ix>);

/// `petgraph::graph::NodeIndex`, a position in a graph.
#[verifier::external_type_specification]
#[verifier::external_body]
#[verifier::reject_recursive_types(Ix)]
pub struct ExNodeIndex<Ix>(NodeIndex<Ix>);

/// `petgraph::Directed`, the mark of a graph whose edges have a direction.
#[verifier::external_type_specification]
#[verifier::external_body]
pub struct ExDirected(Directed);

/// `petgraph::Direction`, `Outgoing` or `Incoming`.
#[verifier::external_type_specification]
pub struct ExDirection(Direction);

/// The weights of the graph's nodes, by position.
pub uninterp spec fn graph_nodes(g: DiGraph<NodeW, ()>) -> Seq<NodeW>;

/// The graph's edges as pairs of source and target positions, in the order in
/// which they were added.
pub uninterp spec fn graph_edges(g: DiGraph<NodeW, ()>) -> Seq<(int, int)>;

/// The position that a node index stands for.
pub uninterp spec fn node_position(a: NodeIndex<u32>) -> int;

/// The nodes that a depth-first walk over `edges` comes upon from `start`, in
/// the order of the walk.
pub uninterp spec fn dfs_order(edges: Seq<(int, int)>, start: int) -> Seq<int>;

/// A vector of positions, as integers.
pub open spec fn as_ints(v: Seq<usize>) -> Seq<int> {
    v.map_values(|x: usize| x as int)
}

/// The graph as the contracts speak of it.
pub open spec fn tree_view(g: DiGraph<NodeW, ()>) -> TreeView {
    TreeView { nodes: graph_nodes(g), edges: graph_edges(g) }
}

/// The pairs of a vector of positions, as integers.
pub open spec fn as_int_pairs(v: Seq<(usize, usize)>) -> Seq<(int, int)> {
    v.map_values(|p: (usize, usize)| (p.0 as int, p.1 as int))
}

/// `Graph::new`: a graph without nodes or edges.
#[verifier::external_body]
pub(crate) fn new_graph() -> (g: DiGraph<NodeW, ()>)
    ensures
        graph_nodes(g) == Seq::<NodeW>::empty(),
        graph_edges(g) == Seq::<(int, int)>::empty(),
{
    DiGraph::new()
}

/// `Graph::add_node`: the node is added behind the others and its position
/// returned; the edges stay. The call panics on a graph of `u32::MAX` nodes.
#[verifier::external_body]
pub(crate) fn add_node(g: &mut DiGraph<NodeW, ()>, weight: NodeW) -> (a: NodeIndex<u32>)
    requires
        graph_nodes(*old(g)).len() < u32::MAX,
    ensures
        graph_nodes(*final(g)) == graph_nodes(*old(g)).push(weight),
        graph_edges(*final(g)) == graph_edges(*old(g)),
        node_position(a) == graph_nodes(*old(g)).len(),
{
    g.add_node(weight)
}

/// `Graph::add_edge`: the edge is added behind the others; the nodes stay. The
/// call panics where an end is no node of the graph, and on a graph of
/// `u32::MAX` edges.
#[verifier::external_body]
pub(crate) fn add_edge(g: &mut DiGraph<NodeW, ()>, a: NodeIndex<u32>, b: NodeIndex<u32>)
    requires
        0 <= node_position(a) < graph_nodes(*old(g)).len(),
        0 <= node_position(b) < graph_nodes(*old(g)).len(),
        graph_edges(*old(g)).len() < u32::MAX,
    ensures
        graph_edges(*final(g)) == graph_edges(*old(g)).push((node_position(a), node_position(b))),
        graph_nodes(*final(g)) == graph_nodes(*old(g)),
{
    g.add_edge(a, b, ());
}

/// `Graph::node_count`: the number of nodes. It never passes `u32::MAX`, and
/// both ends of every edge are below it, since `add_node` and `add_edge`
/// panic otherwise.
#[verifier::external_body]
pub(crate) fn node_count(g: &DiGraph<NodeW, ()>) -> (n: usize)
    ensures
        n == graph_nodes(*g).len(),
        n <= u32::MAX,
        forall|k: int|
            0 <= k < graph_edges(*g).len() ==> 0 <= (#[trigger] graph_edges(*g)[k]).0 < n && 0
                <= graph_edges(*g)[k].1 < n,
{
    g.node_count()
}

/// `Graph::node_weight`: the weight at the position of `a`, if the graph has
/// that many nodes.
#[verifier::external_body]
pub(crate) fn node_weight(g: &DiGraph<NodeW, ()>, a: NodeIndex<u32>) -> (w: Option<&NodeW>)
    ensures
        w is Some <==> 0 <= node_position(a) < graph_nodes(*g).len(),
        w matches Some(weight) ==> *weight == graph_nodes(*g)[node_position(a)],
{
    g.node_weight(a)
}

/// `Graph::node_weight_mut`: access to the weight at the position of `a`, if
/// the graph has that many nodes. What is written through it is the only
/// change to the graph.
#[verifier::external_body]
pub(crate) fn node_weight_mut(g: &mut DiGraph<NodeW, ()>, a: NodeIndex<u32>) -> (w: Option<
    &mut NodeW,
>)
    ensures
        w is Some <==> 0 <= node_position(a) < graph_nodes(*old(g)).len(),
        w is None ==> graph_nodes(*final(g)) == graph_nodes(*old(g)),
        w matches Some(weight) ==> *weight == graph_nodes(*old(g))[node_position(a)]
            && graph_nodes(*final(g)) == graph_nodes(*old(g)).update(
            node_position(a),
            *final(weight),
        ),
        graph_edges(*final(g)) == graph_edges(*old(g)),
{
    g.node_weight_mut(a)
}

/// `Graph::edges_directed`, with `EdgeRef::source` and `target`: the
/// ends of the edges that leave `a` (for `Incoming`: that enter it), the
/// latest first. A graph walks the edges at a node from the one added last.
#[verifier::external_body]
pub(crate) fn edges_directed(g: &DiGraph<NodeW, ()>, a: NodeIndex<u32>, dir: Direction) -> (ends:
    Vec<(usize, usize)>)
    ensures
        as_int_pairs(ends@) == incident_edges(
            graph_edges(*g),
            node_position(a),
            dir == Direction::Outgoing,
        ),
{
    g.edges_directed(a, dir).map(|e| (e.source().index(), e.target().index())).collect()
}

/// `Dfs::new`, walked to its end with `Walker::iter`: every node that can be
/// reached from `start`, and `start` itself, once each, in the order of the
/// walk, which the edges and `start` decide. The walk panics where `start` is
/// no node of the graph.
#[verifier::external_body]
pub(crate) fn dfs_from(g: &DiGraph<NodeW, ()>, start: NodeIndex<u32>) -> (found: Vec<usize>)
    requires
        0 <= node_position(start) < graph_nodes(*g).len(),
    ensures
        as_ints(found@) == dfs_order(graph_edges(*g), node_position(start)),
        found@.no_duplicates(),
        forall|i: int|
            0 <= i < found.len() ==> reaches(
                graph_edges(*g),
                node_position(start),
                #[trigger] found[i] as int,
            ),
        forall|x: int|
            reaches(graph_edges(*g), node_position(start), x) ==> exists|i: int|
                0 <= i < found.len() && #[trigger] found[i] == x,
{
    Dfs::new(g, start).iter(g).map(|node| node.index()).collect()
}

/// `NodeIndex::new`: the index of a position. A position over `u32::MAX` would
/// be cut short.
#[verifier::external_body]
pub(crate) fn node_at(position: usize) -> (a: NodeIndex<u32>)
    requires
        position <= u32::MAX,
    ensures
        node_position(a) == position,
{
    NodeIndex::new(position)
}

/// `NodeIndex::index`: the position that the index stands for, a `u32` made
/// wider.
#[verifier::external_body]
pub(crate) fn position_of(a: NodeIndex<u32>) -> (position: usize)
    ensures
        position == node_position(a),
        position <= u32::MAX,
{
    a.index()
}

} // verus!
