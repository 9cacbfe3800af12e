//! The comparison of a node's ancestors with a given set: which node of the
//! set, if any, is the nearest ancestor of the node.

use crate::host::adjacent;
use crate::host::ids;
use crate::host::index_of;
use crate::host::node_id;
use crate::host::order;
use crate::host::order_of;
use crate::host::parents;
use crate::host::well_formed;
use crate::host::HostGraph;
use crate::host::Way;
use crate::walk::climbs;
use crate::walk::hop;
use crate::walk::is_ancestor;
use crate::walk::lemma_stranger_stays;
use crate::walk::lemma_untangled;
use crate::walk::lemma_walk_join;
use crate::walk::lemma_walk_push;
use crate::walk::lemma_walk_skip;
use crate::walk::tangled;
use crate::walk::within;
use petgraph::graph::NodeIndex;
use std::collections::HashMap;
use vstd::prelude::*;

verus! {

broadcast use vstd::std_specs::hash::group_hash_axioms;

/// A candidate as a search holds it: a node that it met, and the cost of the
/// node, the number of edges between the node of the query and it along the
/// way taken.
#[derive(Clone, Copy, Debug)]
pub struct PathRecord {
    pub node: NodeIndex,
    pub cost: usize,
}

/// A candidate in the model: the node by its index, with its cost.
pub struct Reached {
    pub node: usize,
    pub cost: nat,
}

/// Of two candidates the one that a search keeps which met `sooner` first:
/// `later` only where it is strictly cheaper.
pub open spec fn better(sooner: Option<Reached>, later: Option<Reached>) -> Option<Reached> {
    match (sooner, later) {
        (_, None) => sooner,
        (None, Some(_)) => later,
        (Some(a), Some(b)) => if b.cost < a.cost {
            later
        } else {
            sooner
        },
    }
}

/// What the search from `node`, itself `depth` edges away from the node of the
/// query, finds: `node` if it is in `among`, else the cheapest of what the
/// searches from its parents find, the first of them among equals. The cost
/// of a node is its distance from the node of the query along the way taken.
///
/// No way that repeats no node is as long as the graph has nodes, so the
/// search has nothing to find at that depth.
pub open spec fn nearest(
    graph: HostGraph,
    among: Set<usize>,
    node: usize,
    depth: nat,
) -> Option<Reached>
    decreases order(graph) - depth, 0nat,
{
    if among.contains(node) {
        Some(Reached { node, cost: depth })
    } else if depth >= order(graph) {
        None
    } else {
        nearest_above(graph, among, parents(graph, node), depth + 1)
    }
}

/// What the searches from the nodes of `above`, each `depth` edges away from
/// the node of the query, find between them.
pub open spec fn nearest_above(
    graph: HostGraph,
    among: Set<usize>,
    above: Seq<usize>,
    depth: nat,
) -> Option<Reached>
    decreases order(graph) - depth, above.len() + 1,
{
    if above.len() == 0 {
        None
    } else {
        better(
            nearest_above(graph, among, above.drop_last(), depth),
            nearest(graph, among, above.last(), depth),
        )
    }
}

/// `c` is a node of `among` and an ancestor of `node`, and no node of
/// `among` is an ancestor of `node` along fewer edges.
pub open spec fn is_nearest(graph: HostGraph, among: Set<usize>, node: usize, c: usize) -> bool {
    &&& among.contains(c)
    &&& is_ancestor(graph, node, c)
    &&& forall|x: usize, k: nat|
        among.contains(x) && #[trigger] within(graph, node, x, k) ==> within(graph, node, c, k)
}

/// A candidate as the model has it: the node by its index.
pub open spec fn candidate(found: Option<PathRecord>) -> Option<Reached> {
    match found {
        Some(record) => Some(Reached { node: node_id(record.node), cost: record.cost as nat }),
        None => None,
    }
}

/// What the searches from some parents find is in the set, and is an ancestor
/// of one of the parents at the distance that its cost tells.
pub proof fn lemma_nearest_above_sound(
    graph: HostGraph,
    among: Set<usize>,
    above: Seq<usize>,
    depth: nat,
) -> (j: int)
    requires
        nearest_above(graph, among, above, depth) is Some,
    ensures
        0 <= j < above.len(),
        among.contains(nearest_above(graph, among, above, depth).unwrap().node),
        nearest_above(graph, among, above, depth).unwrap().cost >= depth,
        within(
            graph,
            above[j],
            nearest_above(graph, among, above, depth).unwrap().node,
            (nearest_above(graph, among, above, depth).unwrap().cost - depth) as nat,
        ),
    decreases order(graph) - depth, above.len() + 1,
{
    let sooner = nearest_above(graph, among, above.drop_last(), depth);
    let last = nearest(graph, among, above.last(), depth);
    if better(sooner, last) == last {
        lemma_nearest_sound(graph, among, above.last(), depth);
        above.len() - 1
    } else {
        lemma_nearest_above_sound(graph, among, above.drop_last(), depth)
    }
}

/// What a search finds is in the set, and is an ancestor of the node at the
/// distance that its cost tells.
pub proof fn lemma_nearest_sound(graph: HostGraph, among: Set<usize>, node: usize, depth: nat)
    requires
        nearest(graph, among, node, depth) is Some,
    ensures
        among.contains(nearest(graph, among, node, depth).unwrap().node),
        nearest(graph, among, node, depth).unwrap().cost >= depth,
        within(
            graph,
            node,
            nearest(graph, among, node, depth).unwrap().node,
            (nearest(graph, among, node, depth).unwrap().cost - depth) as nat,
        ),
    decreases order(graph) - depth, 0nat,
{
    if among.contains(node) {
        let w = seq![node];
        assert(climbs(graph, w) && w[0] == node && w.last() == node && w.len() <= 1);
    } else {
        let above = parents(graph, node);
        let j = lemma_nearest_above_sound(graph, among, above, depth + 1);
        let found = nearest_above(graph, among, above, depth + 1).unwrap();
        let k = (found.cost - depth - 1) as nat;
        let v = choose|v: Seq<usize>|
            #[trigger] climbs(graph, v) && v[0] == above[j] && v.last() == found.node
                && v.len() <= k + 1;
        let u = seq![node, above[j]];
        assert(climbs(graph, u)) by {
            assert forall|i: int| 0 <= i < u.len() - 1 implies #[trigger] hop(
                graph,
                u,
                i,
                Way::Backward,
            ) by {
                assert(above.contains(above[j]));
            }
        }
        lemma_walk_join(graph, u, v, Way::Backward);
        assert(climbs(graph, u + v.skip(1)));
    }
}

/// Where the search from one of the parents finds something, the searches
/// from all of them find something that costs no more.
pub proof fn lemma_nearest_above_beats(
    graph: HostGraph,
    among: Set<usize>,
    above: Seq<usize>,
    depth: nat,
    j: int,
)
    requires
        0 <= j < above.len(),
        nearest(graph, among, above[j], depth) is Some,
    ensures
        nearest_above(graph, among, above, depth) is Some,
        nearest_above(graph, among, above, depth).unwrap().cost <= nearest(
            graph,
            among,
            above[j],
            depth,
        ).unwrap().cost,
    decreases above.len(),
{
    if j < above.len() - 1 {
        lemma_nearest_above_beats(graph, among, above.drop_last(), depth, j);
    }
}

/// Where a walk from `node` that fits in the graph ends in the set, the
/// search from `node` finds something that costs no more than the walk.
pub proof fn lemma_nearest_complete(
    graph: HostGraph,
    among: Set<usize>,
    node: usize,
    depth: nat,
    w: Seq<usize>,
)
    requires
        climbs(graph, w),
        w[0] == node,
        among.contains(w.last()),
        w.len() >= 2 ==> depth + w.len() <= order(graph),
    ensures
        nearest(graph, among, node, depth) is Some,
        nearest(graph, among, node, depth).unwrap().cost <= depth + w.len() - 1,
    decreases w.len(),
{
    if !among.contains(node) {
        let above = parents(graph, node);
        assert(hop(graph, w, 0, Way::Backward));
        let j = choose|j: int| 0 <= j < above.len() && above[j] == w[1];
        lemma_walk_skip(graph, w, 1, Way::Backward);
        lemma_nearest_complete(graph, among, w[1], depth + 1, w.skip(1));
        lemma_nearest_above_beats(graph, among, above, depth + 1, j);
    }
}

/// In a graph without a cycle among the ancestors of `node`, the search from
/// `node` finds the nearest ancestor of `node` in the set, and finds nothing
/// only where the set holds no ancestor of `node`.
pub proof fn lemma_nearest_is_nearest(graph: HostGraph, among: Set<usize>, node: usize)
    requires
        well_formed(graph),
        !tangled(graph, node),
    ensures
        match nearest(graph, among, node, 0) {
            Some(found) => is_nearest(graph, among, node, found.node),
            None => forall|x: usize| among.contains(x) ==> !is_ancestor(graph, node, x),
        },
{
    let result = nearest(graph, among, node, 0);
    assert forall|x: usize, k: nat|
        among.contains(x) && #[trigger] within(graph, node, x, k) implies result is Some
        && result.unwrap().cost <= k by {
        let w = choose|w: Seq<usize>|
            #[trigger] climbs(graph, w) && w[0] == node && w.last() == x && w.len() <= k + 1;
        lemma_untangled(graph, w);
        lemma_nearest_complete(graph, among, node, 0, w);
    }
    match result {
        Some(found) => {
            lemma_nearest_sound(graph, among, node, 0);
            let v = choose|v: Seq<usize>|
                #[trigger] climbs(graph, v) && v[0] == node && v.last() == found.node && v.len()
                    <= found.cost + 1;
            assert(is_ancestor(graph, node, found.node));
            assert forall|x: usize, k: nat|
                among.contains(x) && #[trigger] within(graph, node, x, k) implies within(
                graph,
                node,
                found.node,
                k,
            ) by {
                assert(climbs(graph, v) && v.len() <= k + 1);
            }
        },
        None => {
            assert forall|x: usize| among.contains(x) implies !is_ancestor(graph, node, x) by {
                if is_ancestor(graph, node, x) {
                    let w = choose|w: Seq<usize>|
                        #[trigger] climbs(graph, w) && w[0] == node && w.last() == x;
                    assert(within(graph, node, x, w.len()));
                }
            }
        },
    }
}

/// Searches from `node`, which `trail` reached after `cost` edges, towards its
/// ancestors, and stops on each way at the first node that `ancestors` holds.
/// Returns the cheapest node found with its cost, the first among equals.
fn compare_ancestors_node(
    graph: &HostGraph,
    ancestors: &HashMap<usize, bool>,
    node: NodeIndex,
    cost: usize,
    Ghost(trail): Ghost<Seq<usize>>,
) -> (found: Option<PathRecord>)
    requires
        well_formed(*graph),
        climbs(*graph, trail),
        trail.last() == node_id(node),
        trail.len() == cost + 1,
        !tangled(*graph, trail[0]),
    ensures
        candidate(found) == nearest(*graph, ancestors@.dom(), node_id(node), cost as nat),
    decreases order(*graph) - trail.len(),
{
    let key = index_of(node);
    if ancestors.contains_key(&key) {
        return Some(PathRecord { node, cost });
    }
    let above = adjacent(graph, node, Way::Backward);
    let mut best: Option<PathRecord> = None;
    let mut i: usize = 0;
    while i < above.len()
        invariant
            0 <= i <= above.len(),
            well_formed(*graph),
            climbs(*graph, trail),
            trail.last() == key,
            trail.len() == cost + 1,
            key == node_id(node),
            !tangled(*graph, trail[0]),
            ids(above@) == parents(*graph, key),
            candidate(best) == nearest_above(
                *graph,
                ancestors@.dom(),
                ids(above@).take(i as int),
                (cost + 1) as nat,
            ),
        decreases above.len() - i,
    {
        let ghost parent = node_id(above[i as int]);
        let ghost path = trail.push(parent);
        proof {
            assert(ids(above@)[i as int] == parent);
            lemma_walk_push(*graph, trail, parent, Way::Backward);
            assert(path[0] == trail[0]);
            lemma_untangled(*graph, path);
            assert(ids(above@).take(i + 1).drop_last() =~= ids(above@).take(i as int));
            assert(ids(above@).take(i + 1).last() == parent);
        }
        let found = compare_ancestors_node(graph, ancestors, above[i], cost + 1, Ghost(path));
        match found {
            Some(later) => {
                let cheaper = match best {
                    Some(sooner) => later.cost < sooner.cost,
                    None => true,
                };
                if cheaper {
                    best = found;
                }
            },
            None => {},
        }
        i += 1;
    }
    proof {
        assert(ids(above@).take(above.len() as int) =~= ids(above@));
        if above.len() > 0 {
            let parent = ids(above@)[0];
            assert(parents(*graph, key).contains(parent));
            lemma_walk_push(*graph, trail, parent, Way::Backward);
            assert(trail.push(parent)[0] == trail[0]);
            lemma_untangled(*graph, trail.push(parent));
        }
    }
    best
}

/// Compares the ancestors of `node` with the set `ancestors`, which holds
/// nodes by their indices, and returns the nearest ancestor of `node` that
/// the set holds, `node` itself if the set holds it; among ancestors equally
/// near, the one that the search meets first, going through parents in the
/// order in which the graph lists them. Returns `None` where the set holds
/// no ancestor of `node`; a node that the graph does not hold has none but
/// itself.
///
/// The search ends only where the ancestors of `node` hold no cycle, so
/// `check_cycle` must have cleared `node` before.
pub fn compare_ancestors(
    graph: &HostGraph,
    ancestors: &HashMap<usize, bool>,
    node: NodeIndex,
) -> (found: Option<NodeIndex>)
    requires
        !tangled(*graph, node_id(node)),
    ensures
        match found {
            Some(c) => {
                &&& nearest(*graph, ancestors@.dom(), node_id(node), 0) is Some
                &&& nearest(*graph, ancestors@.dom(), node_id(node), 0).unwrap().node == node_id(c)
                &&& is_nearest(*graph, ancestors@.dom(), node_id(node), node_id(c))
            },
            None => {
                &&& nearest(*graph, ancestors@.dom(), node_id(node), 0) is None
                &&& forall|x: usize|
                    ancestors@.dom().contains(x) ==> !is_ancestor(*graph, node_id(node), x)
            },
        },
{
    let key = index_of(node);
    if key >= order_of(graph) {
        proof {
            lemma_nearest_is_nearest(*graph, ancestors@.dom(), key);
            if parents(*graph, key).len() > 0 {
                let w = seq![key, parents(*graph, key)[0]];
                assert(climbs(*graph, w)) by {
                    assert forall|i: int| 0 <= i < w.len() - 1 implies #[trigger] hop(
                        *graph,
                        w,
                        i,
                        Way::Backward,
                    ) by {
                        assert(parents(*graph, key).contains(w[1]));
                    }
                }
                lemma_stranger_stays(*graph, w, Way::Backward);
            }
        }
        return if ancestors.contains_key(&key) {
            Some(node)
        } else {
            None
        };
    }
    let ghost trail = seq![key];
    proof {
        assert(climbs(*graph, trail));
        lemma_nearest_is_nearest(*graph, ancestors@.dom(), key);
    }
    match compare_ancestors_node(graph, ancestors, node, 0, Ghost(trail)) {
        Some(record) => Some(record.node),
        None => None,
    }
}

} // verus!
