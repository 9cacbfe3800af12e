//! The lowest common ancestor of two nodes, from their ancestor sets.

use crate::ancestry::ancestors;
use crate::cycle::check_cycle;
use crate::host::node_id;
use crate::host::shown;
use crate::host::HostGraph;
use crate::nearest::compare_ancestors;
use crate::nearest::is_nearest;
use crate::nearest::nearest;
use crate::rooted::lca_rooted;
use crate::rooted::rooted_lowest;
use crate::walk::ancestor_set;
use crate::walk::tangled;
use petgraph::graph::NodeIndex;
use vstd::prelude::*;

verus! {

/// The lowest common ancestor of `a` and `b`, by index: nothing where a
/// cycle lies among the ancestors of either, else what the search from `b`
/// finds in the ancestor set of `a`.
pub open spec fn lowest_common(graph: HostGraph, a: usize, b: usize) -> Option<usize> {
    if tangled(graph, a) || tangled(graph, b) {
        None
    } else {
        match nearest(graph, ancestor_set(graph, a), b, 0) {
            Some(found) => Some(found.node),
            None => None,
        }
    }
}

/// The lowest common ancestor of `node1` and `node2`: the node that is an
/// ancestor of both, each node counting among its own ancestors, and
/// nearest to `node2`; among several equally near, the one that a search
/// from `node2` meets first, going through parents in the order in which the
/// graph lists them.
///
/// Returns `None` where `node1` and `node2` have no ancestor in common, and
/// where either of them lies on a cycle or has an ancestor that does.
pub fn lca(graph: &HostGraph, node1: NodeIndex, node2: NodeIndex) -> (answer: Option<NodeIndex>)
    ensures
        shown(answer) == lowest_common(*graph, node_id(node1), node_id(node2)),
        match answer {
            Some(c) => {
                &&& !tangled(*graph, node_id(node1))
                &&& !tangled(*graph, node_id(node2))
                &&& is_nearest(
                    *graph,
                    ancestor_set(*graph, node_id(node1)),
                    node_id(node2),
                    node_id(c),
                )
            },
            None => {
                ||| tangled(*graph, node_id(node1))
                ||| tangled(*graph, node_id(node2))
                ||| ancestor_set(*graph, node_id(node1)).disjoint(
                    ancestor_set(*graph, node_id(node2)),
                )
            },
        },
{
    if check_cycle(graph, node1) || check_cycle(graph, node2) {
        return None;
    }
    let ancestors = ancestors(graph, node1);
    assert(ancestors@.dom() =~= ancestor_set(*graph, node_id(node1)));
    compare_ancestors(graph, &ancestors, node2)
}

/// The way in which a query is answered. The caller chooses: the two ways
/// rest on different assumptions about the graph and are never mixed.
#[derive(Clone, Copy, Debug)]
pub enum Strategy {
    /// No root is known: the ancestor sets of the two nodes are compared.
    Rootless,
    /// The graph is a tree or forest below the given root: the paths from
    /// the root to the two nodes are compared.
    Rooted(NodeIndex),
}

/// The answer of a query by a given strategy, by index.
pub open spec fn resolved(
    graph: HostGraph,
    strategy: Strategy,
    a: usize,
    b: usize,
) -> Option<usize> {
    match strategy {
        Strategy::Rootless => lowest_common(graph, a, b),
        Strategy::Rooted(root) => rooted_lowest(graph, node_id(root), a, b),
    }
}

/// The lowest common ancestor of `node1` and `node2` by the strategy that the
/// caller names: `lca` without a root, `lca_rooted` with one.
pub fn lca_with(
    graph: &HostGraph,
    strategy: Strategy,
    node1: NodeIndex,
    node2: NodeIndex,
) -> (answer: Option<NodeIndex>)
    ensures
        shown(answer) == resolved(*graph, strategy, node_id(node1), node_id(node2)),
{
    match strategy {
        Strategy::Rootless => lca(graph, node1, node2),
        Strategy::Rooted(root) => lca_rooted(graph, root, node1, node2),
    }
}

} // verus!
