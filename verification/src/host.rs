//! The boundary with petgraph: the graph type, the model of what it holds,
//! and the calls into it.

use petgraph::graph::Graph;
use petgraph::graph::NodeIndex;
use petgraph::Directed;
use petgraph::Direction;
use vstd::prelude::*;

verus! {

/// petgraph's adjacency-list graph. Its fields are hidden from the verifier;
/// `edges` and `order` stand for what it holds.
#[verifier::external_type_specification]
#[verifier::external_body]
#[verifier::reject_recursive_types(N)]
#[verifier::reject_recursive_types(E)]
#[verifier::reject_recursive_types(Ty)]
#[verifier::reject_recursive_types(Ix)]
pub struct ExGraph<N, E, Ty, Ix>(Graph<N, E, Ty, Ix>);

/// petgraph's node identifier. `node_id` stands for the index inside it.
#[verifier::external_type_specification]
#[verifier::external_body]
#[verifier::reject_recursive_types(Ix)]
pub struct ExNodeIndex<Ix>(NodeIndex<Ix>);

/// petgraph's marker for graphs with directed edges.
#[verifier::external_type_specification]
#[verifier::external_body]
pub struct ExDirected(Directed);

/// The graphs that queries run on: directed, nodes labelled with a string,
/// edges carrying an integer weight that is never read (every edge is one hop).
pub type HostGraph = Graph<&'static str, i32>;

/// The edges of a graph as (source, target) pairs of node indices, in the
/// order in which they were added to it.
pub uninterp spec fn edges(graph: HostGraph) -> Seq<(usize, usize)>;

/// The number of nodes of a graph.
pub uninterp spec fn order(graph: HostGraph) -> usize;

/// The index that a node identifier holds.
pub uninterp spec fn node_id(node: NodeIndex) -> usize;

/// The direction in which an edge is followed.
#[derive(Clone, Copy, Debug, PartialEq, Eq, Structural)]
pub enum Way {
    /// From a parent to its child.
    Forward,
    /// From a child to its parent.
    Backward,
}

/// The far ends of the edges in `es` that leave `a` in direction `way`,
/// the most recently added edge first.
pub open spec fn adjacency(es: Seq<(usize, usize)>, a: usize, way: Way) -> Seq<usize>
    decreases es.len(),
{
    if es.len() == 0 {
        Seq::empty()
    } else {
        let older = adjacency(es.drop_last(), a, way);
        let (near, far) = match way {
            Way::Forward => (es.last().0, es.last().1),
            Way::Backward => (es.last().1, es.last().0),
        };
        if near == a {
            seq![far] + older
        } else {
            older
        }
    }
}

/// The neighbours of node `a` in direction `way`, in the order in which the
/// graph lists them.
pub open spec fn neighbours(graph: HostGraph, a: usize, way: Way) -> Seq<usize> {
    adjacency(edges(graph), a, way)
}

/// The parents of node `a`: the sources of the edges that end in `a`.
#[verifier::inline]
pub open spec fn parents(graph: HostGraph, a: usize) -> Seq<usize> {
    neighbours(graph, a, Way::Backward)
}

/// The children of node `a`: the targets of the edges that start in `a`.
#[verifier::inline]
pub open spec fn children(graph: HostGraph, a: usize) -> Seq<usize> {
    neighbours(graph, a, Way::Forward)
}

/// Every edge joins two nodes of the graph.
pub open spec fn well_formed(graph: HostGraph) -> bool {
    forall|i: int|
        0 <= i < edges(graph).len() ==> (#[trigger] edges(graph)[i]).0 < order(graph)
            && edges(graph)[i].1 < order(graph)
}

/// The indices of a list of node identifiers.
pub open spec fn ids(nodes: Seq<NodeIndex>) -> Seq<usize> {
    nodes.map_values(|n: NodeIndex| node_id(n))
}

/// An answer as the model has it: the node by its index.
pub open spec fn shown(answer: Option<NodeIndex>) -> Option<usize> {
    match answer {
        Some(node) => Some(node_id(node)),
        None => None,
    }
}

/// Calls `NodeIndex::index`, which returns the index that the identifier
/// wraps. The contract only gives that index its name.
#[verifier::external_body]
pub(crate) fn index_of(node: NodeIndex) -> (r: usize)
    ensures
        r == node_id(node),
{
    node.index()
}

/// Calls `Graph::node_count`. petgraph numbers the nodes of a graph
/// 0 to n - 1 and refuses an edge whose end is not one of them, so the
/// contract claims that the count bounds both ends of every edge.
#[verifier::external_body]
pub(crate) fn node_count(graph: &HostGraph) -> (n: usize)
    ensures
        n == order(*graph),
        forall|i: int|
            0 <= i < edges(*graph).len() ==> (#[trigger] edges(*graph)[i]).0 < n && edges(
                *graph,
            )[i].1 < n,
{
    graph.node_count()
}

/// The number of nodes of `graph`. Every edge of the graph joins two of them.
pub fn order_of(graph: &HostGraph) -> (n: usize)
    ensures
        n == order(*graph),
        well_formed(*graph),
{
    node_count(graph)
}

/// Calls `Graph::neighbors_directed`, with `Outgoing` for `Way::Forward` and
/// `Incoming` for `Way::Backward`. petgraph lists, for a directed graph, the
/// other end of every edge from (or to) the node, the most recently added
/// edge first, and nothing for a node that the graph does not have. The
/// contract claims exactly that list.
#[verifier::external_body]
pub(crate) fn adjacent(graph: &HostGraph, node: NodeIndex, way: Way) -> (r: Vec<NodeIndex>)
    ensures
        ids(r@) == neighbours(*graph, node_id(node), way),
{
    let direction = match way {
        Way::Forward => Direction::Outgoing,
        Way::Backward => Direction::Incoming,
    };
    graph.neighbors_directed(node, direction).collect()
}

} // verus!
