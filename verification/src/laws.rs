//! What holds of the answers, whatever the graph.

use crate::graph::lowest_common;
use crate::host::edges;
use crate::host::parents;
use crate::host::well_formed;
use crate::host::HostGraph;
use crate::host::Way;
use crate::nearest::is_nearest;
use crate::nearest::lemma_nearest_is_nearest;
use crate::nearest::lemma_nearest_sound;
use crate::nearest::nearest;
use crate::rooted::fork;
use crate::rooted::is_descendant;
use crate::rooted::leads;
use crate::rooted::lemma_fork;
use crate::rooted::lemma_parts_once;
use crate::rooted::lemma_tree_one_path;
use crate::rooted::lemma_tree_untangled;
use crate::rooted::parts_at;
use crate::rooted::rooted_lowest;
use crate::rooted::route;
use crate::rooted::search_agrees;
use crate::rooted::shared_len;
use crate::rooted::tree_below;
use crate::walk::ancestor_set;
use crate::walk::climbs;
use crate::walk::is_ancestor;
use crate::walk::lemma_ancestor_self;
use crate::walk::lemma_no_way_back;
use crate::walk::lemma_single_way;
use crate::walk::lemma_walk_ancestor;
use crate::walk::lemma_walk_join;
use crate::walk::lemma_walk_skip;
use crate::walk::lemma_walk_take;
use crate::walk::tangled;
use crate::walk::within;
use vstd::prelude::*;

verus! {

/// `a` lies on a cycle: a walk of at least one edge leads from `a` back to `a`.
pub open spec fn on_cycle(graph: HostGraph, a: usize) -> bool {
    exists|w: Seq<usize>| #[trigger] climbs(graph, w) && w.len() >= 2 && w[0] == a && w.last() == a
}

/// No ancestor of `a`, `a` among them, has two parents: above `a` the graph
/// is a chain, as in a tree or a forest.
pub open spec fn single_line(graph: HostGraph, a: usize) -> bool {
    forall|x: usize| is_ancestor(graph, a, x) ==> (#[trigger] parents(graph, x)).len() <= 1
}

/// A node is tangled exactly when it or one of its ancestors lies on a cycle.
pub proof fn lemma_tangled_means_cycle(graph: HostGraph, a: usize)
    ensures
        tangled(graph, a) <==> exists|x: usize| is_ancestor(graph, a, x) && #[trigger] on_cycle(
            graph,
            x,
        ),
{
    if tangled(graph, a) {
        let w = choose|w: Seq<usize>|
            #[trigger] climbs(graph, w) && w[0] == a && !w.no_duplicates();
        let (i, j) = choose|i: int, j: int|
            0 <= i < w.len() && 0 <= j < w.len() && i != j && w[i] == w[j];
        let (lo, hi) = if i < j {
            (i, j)
        } else {
            (j, i)
        };
        lemma_walk_ancestor(graph, w, lo);
        lemma_walk_take(graph, w, hi + 1, Way::Backward);
        lemma_walk_skip(graph, w.take(hi + 1), lo, Way::Backward);
        let round = w.take(hi + 1).skip(lo);
        assert(climbs(graph, round) && round.len() >= 2 && round[0] == w[lo] && round.last()
            == w[lo]);
        assert(on_cycle(graph, w[lo]));
    }
    if exists|x: usize| is_ancestor(graph, a, x) && #[trigger] on_cycle(graph, x) {
        let x = choose|x: usize| is_ancestor(graph, a, x) && #[trigger] on_cycle(graph, x);
        let u = choose|u: Seq<usize>| #[trigger] climbs(graph, u) && u[0] == a && u.last() == x;
        let round = choose|w: Seq<usize>|
            #[trigger] climbs(graph, w) && w.len() >= 2 && w[0] == x && w.last() == x;
        lemma_walk_join(graph, u, round, Way::Backward);
        let w = u + round.skip(1);
        assert(w[u.len() - 1] == x && w[w.len() - 1] == x);
        assert(climbs(graph, w) && w[0] == a && !w.no_duplicates());
    }
}

/// Reflexivity: the lowest common ancestor of a node and itself is the node,
/// unless a cycle lies among its ancestors.
pub proof fn lemma_lca_reflexive(graph: HostGraph, a: usize)
    requires
        !tangled(graph, a),
    ensures
        lowest_common(graph, a, a) == Some(a),
{
    lemma_ancestor_self(graph, a);
}

/// Cycle rejection: a query on a node that lies on a cycle has no answer,
/// whichever place the node takes in it, with or without a root.
pub proof fn lemma_cycle_rejected(graph: HostGraph, a: usize, b: usize, root: usize)
    requires
        on_cycle(graph, a),
    ensures
        lowest_common(graph, a, b) is None,
        lowest_common(graph, b, a) is None,
        rooted_lowest(graph, root, a, b) is None,
        rooted_lowest(graph, root, b, a) is None,
{
    lemma_ancestor_self(graph, a);
    lemma_tangled_means_cycle(graph, a);
}

/// Disconnection: two nodes without an ancestor in common have no lowest
/// common ancestor.
pub proof fn lemma_disconnected(graph: HostGraph, a: usize, b: usize)
    requires
        ancestor_set(graph, a).disjoint(ancestor_set(graph, b)),
    ensures
        lowest_common(graph, a, b) is None,
{
    let among = ancestor_set(graph, a);
    if nearest(graph, among, b, 0) is Some {
        lemma_nearest_sound(graph, among, b, 0);
        let c = nearest(graph, among, b, 0).unwrap().node;
        assert(among.contains(c) && ancestor_set(graph, b).contains(c));
    }
}

/// There is an answer exactly where no cycle lies among the ancestors of
/// either node and the two have an ancestor in common; the answer is then a
/// common ancestor, and none is nearer to the second node.
pub proof fn lemma_lca_found(graph: HostGraph, a: usize, b: usize)
    requires
        well_formed(graph),
    ensures
        lowest_common(graph, a, b) is Some <==> !tangled(graph, a) && !tangled(graph, b)
            && !ancestor_set(graph, a).disjoint(ancestor_set(graph, b)),
        lowest_common(graph, a, b) is Some ==> is_nearest(
            graph,
            ancestor_set(graph, a),
            b,
            lowest_common(graph, a, b).unwrap(),
        ),
{
    if !tangled(graph, a) && !tangled(graph, b) {
        lemma_nearest_is_nearest(graph, ancestor_set(graph, a), b);
        if ancestor_set(graph, a).disjoint(ancestor_set(graph, b)) {
            lemma_disconnected(graph, a, b);
        }
    }
}

/// Of two common ancestors of `a` and `b`, the one nearest to `b` has the
/// other among its ancestors, where the ancestors of `b` are a chain.
proof fn lemma_nearest_is_lowest(graph: HostGraph, a: usize, b: usize, c: usize, x: usize)
    requires
        single_line(graph, b),
        is_nearest(graph, ancestor_set(graph, a), b, c),
        is_ancestor(graph, a, x),
        is_ancestor(graph, b, x),
    ensures
        is_ancestor(graph, c, x),
{
    let v = choose|v: Seq<usize>| #[trigger] climbs(graph, v) && v[0] == b && v.last() == x;
    let k = (v.len() - 1) as nat;
    assert(within(graph, b, x, k));
    assert(ancestor_set(graph, a).contains(x));
    assert(within(graph, b, c, k));
    let u = choose|u: Seq<usize>|
        #[trigger] climbs(graph, u) && u[0] == b && u.last() == c && u.len() <= k + 1;
    let at = u.len() - 1;
    assert forall|j: int| 0 <= j < at implies parents(graph, #[trigger] u[j]).len() <= 1 by {
        lemma_walk_ancestor(graph, u, j);
    }
    lemma_single_way(graph, u, v, at);
    lemma_walk_skip(graph, v, at, Way::Backward);
    let rest = v.skip(at);
    assert(climbs(graph, rest) && rest[0] == c && rest.last() == x);
}

/// Symmetry: in a tree or a forest the answer does not depend on the order
/// of the two nodes. It is enough that no ancestor of either node has two
/// parents. (Where one has, the node nearest to the second node need not
/// be the one nearest to the first.)
pub proof fn lemma_lca_symmetric(graph: HostGraph, a: usize, b: usize)
    requires
        well_formed(graph),
        single_line(graph, a),
        single_line(graph, b),
    ensures
        lowest_common(graph, a, b) == lowest_common(graph, b, a),
{
    lemma_lca_found(graph, a, b);
    lemma_lca_found(graph, b, a);
    assert(ancestor_set(graph, a).disjoint(ancestor_set(graph, b)) <==> ancestor_set(
        graph,
        b,
    ).disjoint(ancestor_set(graph, a)));
    if lowest_common(graph, a, b) is Some {
        let c = lowest_common(graph, a, b).unwrap();
        let d = lowest_common(graph, b, a).unwrap();
        assert(ancestor_set(graph, a).contains(c) && ancestor_set(graph, b).contains(d));
        lemma_nearest_is_lowest(graph, a, b, c, d);
        lemma_nearest_is_lowest(graph, b, a, d, c);
        lemma_no_way_back(graph, b, c, d);
    }
}

/// Both ways round there is an answer or there is none, in any graph.
pub proof fn lemma_lca_found_both_ways(graph: HostGraph, a: usize, b: usize)
    requires
        well_formed(graph),
    ensures
        lowest_common(graph, a, b) is Some <==> lowest_common(graph, b, a) is Some,
{
    lemma_lca_found(graph, a, b);
    lemma_lca_found(graph, b, a);
    assert(ancestor_set(graph, a).disjoint(ancestor_set(graph, b)) <==> ancestor_set(
        graph,
        b,
    ).disjoint(ancestor_set(graph, a)));
}

/// Symmetry below a root: the answer does not depend on the order of the
/// two nodes, in any graph.
pub proof fn lemma_rooted_symmetric(graph: HostGraph, root: usize, a: usize, b: usize)
    ensures
        rooted_lowest(graph, root, a, b) == rooted_lowest(graph, root, b, a),
{
    match (route(edges(graph), root, a), route(edges(graph), root, b)) {
        (Some(p), Some(q)) => {
            lemma_fork(p, q);
        },
        _ => {},
    }
}

/// Reflexivity below a root: the answer for a node and itself is the node,
/// where the root leads to it and no cycle lies among its ancestors.
pub proof fn lemma_rooted_reflexive(graph: HostGraph, root: usize, a: usize)
    requires
        !tangled(graph, a),
        is_descendant(graph, root, a),
        search_agrees(graph, root, a, route(edges(graph), root, a)),
    ensures
        rooted_lowest(graph, root, a, a) == Some(a),
{
    let p = route(edges(graph), root, a).unwrap();
    assert(parts_at(p, p, p.len() as int));
    lemma_fork(p, p);
    lemma_parts_once(p, p, p.len() as int, shared_len(p, p));
}

/// Tree correctness: in a tree with the root on top, the answer for two
/// nodes below the root is the deepest node that the path from the root to
/// the one and the path from the root to the other have in common.
pub proof fn lemma_rooted_in_tree(
    graph: HostGraph,
    root: usize,
    a: usize,
    b: usize,
    p: Seq<usize>,
    q: Seq<usize>,
)
    requires
        tree_below(graph, root),
        leads(graph, root, a, p),
        leads(graph, root, b, q),
        search_agrees(graph, root, a, route(edges(graph), root, a)),
        search_agrees(graph, root, b, route(edges(graph), root, b)),
    ensures
        rooted_lowest(graph, root, a, b) == fork(p, q),
        fork(p, q) is Some,
        parts_at(p, q, shared_len(p, q)),
{
    lemma_tree_untangled(graph, root, a, p);
    lemma_tree_untangled(graph, root, b, q);
    assert(is_descendant(graph, root, a) && is_descendant(graph, root, b));
    lemma_tree_one_path(graph, root, a, p, route(edges(graph), root, a).unwrap());
    lemma_tree_one_path(graph, root, b, q, route(edges(graph), root, b).unwrap());
    lemma_fork(p, q);
}

} // verus!
