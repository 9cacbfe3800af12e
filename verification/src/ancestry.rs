//! The ancestor collector: the set of all nodes from which a given node
//! descends, the node itself among them.

use crate::host::adjacent;
use crate::host::ids;
use crate::host::index_of;
use crate::host::node_id;
use crate::host::order;
use crate::host::order_of;
use crate::host::parents;
use crate::host::well_formed;
use crate::host::HostGraph;
use crate::host::Way;
use crate::walk::ancestor_set;
use crate::walk::climbs;
use crate::walk::gathered;
use crate::walk::is_ancestor;
use crate::walk::lemma_ancestor_self;
use crate::walk::lemma_ancestor_step;
use crate::walk::lemma_stranger_stays;
use crate::walk::lemma_untangled;
use crate::walk::lemma_walk_push;
use crate::walk::tangled;
use petgraph::graph::NodeIndex;
use std::collections::HashMap;
use vstd::prelude::*;

verus! {

broadcast use vstd::std_specs::hash::group_hash_axioms;

/// The map that flags every node of `found` as present and keeps the other
/// entries of `before`.
pub open spec fn flagged(before: Map<usize, bool>, found: Set<usize>) -> Map<usize, bool> {
    Map::new(
        |k: usize| before.contains_key(k) || found.contains(k),
        |k: usize|
            if found.contains(k) {
                true
            } else {
                before[k]
            },
    )
}

/// Puts `node` and all its ancestors into `ancestors`. `trail` is the way
/// that led from the node of the query to `node`.
fn add_ancestors(
    graph: &HostGraph,
    ancestors: HashMap<usize, bool>,
    node: NodeIndex,
    Ghost(trail): Ghost<Seq<usize>>,
) -> (filled: HashMap<usize, bool>)
    requires
        well_formed(*graph),
        climbs(*graph, trail),
        trail.last() == node_id(node),
        !tangled(*graph, trail[0]),
    ensures
        filled@ =~= flagged(ancestors@, ancestor_set(*graph, node_id(node))),
    decreases order(*graph) - trail.len(),
{
    let mut filled = ancestors;
    let key = index_of(node);
    filled.insert(key, true);
    let above = adjacent(graph, node, Way::Backward);
    let mut i: usize = 0;
    while i < above.len()
        invariant
            0 <= i <= above.len(),
            well_formed(*graph),
            climbs(*graph, trail),
            trail.last() == key,
            key == node_id(node),
            !tangled(*graph, trail[0]),
            ids(above@) == parents(*graph, key),
            filled@ =~= flagged(
                ancestors@,
                gathered(*graph, ids(above@), i as int).insert(key),
            ),
        decreases above.len() - i,
    {
        let ghost parent = node_id(above[i as int]);
        let ghost path = trail.push(parent);
        let ghost before = filled@;
        proof {
            assert(ids(above@)[i as int] == parent);
            lemma_walk_push(*graph, trail, parent, Way::Backward);
            assert(path[0] == trail[0]);
            lemma_untangled(*graph, path);
        }
        filled = add_ancestors(graph, filled, above[i], Ghost(path));
        proof {
            let sooner = gathered(*graph, ids(above@), i as int).insert(key);
            let later = gathered(*graph, ids(above@), i + 1).insert(key);
            assert forall|x: usize| later.contains(x) <==> (sooner.contains(x) || ancestor_set(
                *graph,
                parent,
            ).contains(x)) by {
                if gathered(*graph, ids(above@), i + 1).contains(x) {
                    let j = choose|j: int|
                        0 <= j < i + 1 && #[trigger] is_ancestor(*graph, ids(above@)[j], x);
                    if j < i {
                        assert(gathered(*graph, ids(above@), i as int).contains(x));
                    }
                }
                if gathered(*graph, ids(above@), i as int).contains(x) {
                    let j = choose|j: int|
                        0 <= j < i && #[trigger] is_ancestor(*graph, ids(above@)[j], x);
                    assert(is_ancestor(*graph, ids(above@)[j], x));
                }
                if is_ancestor(*graph, parent, x) {
                    assert(is_ancestor(*graph, ids(above@)[i as int], x));
                }
            }
            assert(filled@ =~= flagged(ancestors@, later));
        }
        i += 1;
    }
    proof {
        let all = gathered(*graph, ids(above@), above.len() as int).insert(key);
        assert forall|x: usize| all.contains(x) <==> ancestor_set(*graph, key).contains(x) by {
            lemma_ancestor_step(*graph, key, x);
        }
        assert(all =~= ancestor_set(*graph, key));
    }
    filled
}

/// Collects the ancestor set of `node`: `node` itself and every node from
/// which a path leads to it, each by its index and flagged `true`. A node
/// that the graph does not hold has no ancestor but itself.
///
/// The walk ends only where the ancestors of `node` hold no cycle, so
/// `check_cycle` must have cleared `node` before.
pub fn ancestors(graph: &HostGraph, node: NodeIndex) -> (found: HashMap<usize, bool>)
    requires
        !tangled(*graph, node_id(node)),
    ensures
        found@ =~= flagged(Map::empty(), ancestor_set(*graph, node_id(node))),
{
    let mut found = HashMap::<usize, bool>::new();
    let key = index_of(node);
    if key >= order_of(graph) {
        found.insert(key, true);
        proof {
            lemma_ancestor_self(*graph, key);
            assert forall|x: usize| is_ancestor(*graph, key, x) implies x == key by {
                let w = choose|w: Seq<usize>|
                    #[trigger] climbs(*graph, w) && w[0] == key && w.last() == x;
                lemma_stranger_stays(*graph, w, Way::Backward);
            }
        }
        return found;
    }
    let ghost trail = seq![key];
    proof {
        assert(climbs(*graph, trail));
    }
    add_ancestors(graph, found, node, Ghost(trail))
}

} // verus!
