//! The cycle detector: does a walk towards the ancestors of a node come to
//! some node twice?

use crate::host::adjacent;
use crate::host::ids;
use crate::host::index_of;
use crate::host::node_id;
use crate::host::order;
use crate::host::order_of;
use crate::host::parents;
use crate::host::well_formed;
use crate::host::HostGraph;
use crate::host::Way;
use crate::walk::climbs;
use crate::walk::lemma_revisits_later;
use crate::walk::lemma_revisits_sooner;
use crate::walk::lemma_stranger_stays;
use crate::walk::lemma_walk_bounded;
use crate::walk::lemma_walk_push;
use crate::walk::revisits;
use crate::walk::tangled;
use petgraph::graph::NodeIndex;
use std::collections::HashMap;
use vstd::prelude::*;

verus! {

broadcast use vstd::std_specs::hash::group_hash_axioms;

/// Goes on from `node` towards its ancestors. `visited` holds the nodes on
/// the way that led here, `trail`; each branch works on a copy of it. Reports
/// whether some way on from here comes to a node a second time.
fn check_cycle_node(
    graph: &HostGraph,
    visited: HashMap<usize, bool>,
    node: NodeIndex,
    Ghost(trail): Ghost<Seq<usize>>,
) -> (found: bool)
    requires
        well_formed(*graph),
        trail.len() > 0,
        trail.no_duplicates(),
        climbs(*graph, trail.push(node_id(node))),
        visited@.dom() =~= trail.to_set(),
    ensures
        found == revisits(*graph, trail.push(node_id(node))),
    decreases order(*graph) - trail.len(),
{
    let mut visited = visited;
    let key = index_of(node);
    let ghost path = trail.push(key);
    if visited.contains_key(&key) {
        proof {
            let i = choose|i: int| 0 <= i < trail.len() && trail[i] == key;
            assert(path[i] == path[trail.len() as int]);
            assert(path.is_prefix_of(path));
        }
        return true;
    }
    visited.insert(key, true);
    proof {
        assert(!trail.contains(key));
        assert(path.no_duplicates());
        assert(visited@.dom() =~= path.to_set()) by {
            assert forall|x: usize| path.to_set().contains(x) <==> trail.to_set().insert(
                key,
            ).contains(x) by {
                if path.contains(x) {
                    let i = choose|i: int| 0 <= i < path.len() && path[i] == x;
                    if i < trail.len() {
                        assert(trail[i] == x);
                    }
                }
                if trail.contains(x) {
                    let i = choose|i: int| 0 <= i < trail.len() && trail[i] == x;
                    assert(path[i] == x);
                }
                if x == key {
                    assert(path[trail.len() as int] == x);
                }
            }
        }
        lemma_walk_bounded(*graph, path, Way::Backward);
    }
    let above = adjacent(graph, node, Way::Backward);
    let mut i: usize = 0;
    while i < above.len()
        invariant
            0 <= i <= above.len(),
            well_formed(*graph),
            climbs(*graph, path),
            path.no_duplicates(),
            key == node_id(node),
            path == trail.push(key),
            path.len() <= order(*graph),
            visited@.dom() =~= path.to_set(),
            ids(above@) == parents(*graph, key),
            forall|j: int| 0 <= j < i ==> !revisits(*graph, path.push(#[trigger] ids(above@)[j])),
        decreases above.len() - i,
    {
        proof {
            assert(ids(above@)[i as int] == node_id(above[i as int]));
            lemma_walk_push(*graph, path, node_id(above[i as int]), Way::Backward);
        }
        if check_cycle_node(graph, visited.clone(), above[i], Ghost(path)) {
            proof {
                lemma_revisits_sooner(*graph, path, node_id(above[i as int]));
            }
            return true;
        }
        i += 1;
    }
    proof {
        if revisits(*graph, path) {
            let b = lemma_revisits_later(*graph, path);
            let j = choose|j: int| 0 <= j < ids(above@).len() && ids(above@)[j] == b;
            assert(!revisits(*graph, path.push(ids(above@)[j])));
        }
    }
    false
}

/// Reports whether a walk from `node` towards its ancestors can come to some
/// node twice: whether `node` or one of its ancestors lies on a cycle.
///
/// A node that the graph does not hold has no parents, and so no cycle.
///
/// Each branch of the walk keeps its own copy of the set of nodes on its
/// way, so that two ways to one ancestor are not taken for a cycle. That is
/// one copy for each node of a way, which suits graphs of small and medium
/// size.
pub fn check_cycle(graph: &HostGraph, node: NodeIndex) -> (found: bool)
    ensures
        found == tangled(*graph, node_id(node)),
{
    let key = index_of(node);
    let ghost path = seq![key];
    proof {
        assert forall|w: Seq<usize>| climbs(*graph, w) implies (path.is_prefix_of(w) <==> w[0]
            == key) by {
            if w[0] == key {
                assert(path =~= w.subrange(0, 1));
            }
            if path.is_prefix_of(w) {
                assert(path[0] == w.subrange(0, 1)[0]);
            }
        }
        assert(tangled(*graph, key) == revisits(*graph, path));
    }
    if key >= order_of(graph) {
        proof {
            if tangled(*graph, key) {
                let w = choose|w: Seq<usize>|
                    #[trigger] climbs(*graph, w) && w[0] == key && !w.no_duplicates();
                lemma_stranger_stays(*graph, w, Way::Backward);
            }
        }
        return false;
    }
    let above = adjacent(graph, node, Way::Backward);
    let mut visited = HashMap::<usize, bool>::new();
    visited.insert(key, true);
    proof {
        assert(visited@.dom() =~= path.to_set()) by {
            assert(path[0] == key);
            assert forall|x: usize| path.to_set().contains(x) implies x == key by {
                let i = choose|i: int| 0 <= i < path.len() && path[i] == x;
            }
        }
    }
    let mut i: usize = 0;
    while i < above.len()
        invariant
            0 <= i <= above.len(),
            well_formed(*graph),
            key == node_id(node),
            path == seq![key],
            tangled(*graph, key) == revisits(*graph, path),
            visited@.dom() =~= path.to_set(),
            ids(above@) == parents(*graph, key),
            forall|j: int| 0 <= j < i ==> !revisits(*graph, path.push(#[trigger] ids(above@)[j])),
        decreases above.len() - i,
    {
        proof {
            assert(ids(above@)[i as int] == node_id(above[i as int]));
            assert(climbs(*graph, path));
            lemma_walk_push(*graph, path, node_id(above[i as int]), Way::Backward);
        }
        if check_cycle_node(graph, visited.clone(), above[i], Ghost(path)) {
            proof {
                lemma_revisits_sooner(*graph, path, node_id(above[i as int]));
            }
            return true;
        }
        i += 1;
    }
    proof {
        if revisits(*graph, path) {
            let b = lemma_revisits_later(*graph, path);
            let j = choose|j: int| 0 <= j < ids(above@).len() && ids(above@)[j] == b;
            assert(!revisits(*graph, path.push(ids(above@)[j])));
        }
    }
    false
}

} // verus!
