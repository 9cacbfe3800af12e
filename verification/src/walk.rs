//! Walks along the edges of a graph, and what can be reached by them.

use crate::host::adjacency;
use crate::host::children;
use crate::host::edges;
use crate::host::neighbours;
use crate::host::order;
use crate::host::parents;
use crate::host::well_formed;
use crate::host::HostGraph;
use crate::host::Way;
use vstd::prelude::*;
use vstd::set_lib::lemma_int_range;
use vstd::set_lib::lemma_len_subset;
use vstd::set_lib::set_int_range;

verus! {

/// The other direction.
pub open spec fn turned(way: Way) -> Way {
    match way {
        Way::Forward => Way::Backward,
        Way::Backward => Way::Forward,
    }
}

/// Position `i + 1` of `w` is a neighbour of position `i`.
pub open spec fn hop(graph: HostGraph, w: Seq<usize>, i: int, way: Way) -> bool {
    neighbours(graph, w[i], way).contains(w[i + 1])
}

/// `w` is a walk: it has a first node, and each of its nodes is followed by
/// one of that node's neighbours in direction `way`.
pub open spec fn is_walk(graph: HostGraph, w: Seq<usize>, way: Way) -> bool {
    w.len() > 0 && forall|i: int| 0 <= i < w.len() - 1 ==> #[trigger] hop(graph, w, i, way)
}

/// `w` walks from child to parent.
pub open spec fn climbs(graph: HostGraph, w: Seq<usize>) -> bool {
    is_walk(graph, w, Way::Backward)
}

/// `w` walks from parent to child.
pub open spec fn descends(graph: HostGraph, w: Seq<usize>) -> bool {
    is_walk(graph, w, Way::Forward)
}

/// `x` is `a` itself or an ancestor of `a`.
pub open spec fn is_ancestor(graph: HostGraph, a: usize, x: usize) -> bool {
    exists|w: Seq<usize>| #[trigger] climbs(graph, w) && w[0] == a && w.last() == x
}

/// The ancestor set of `a`: every node that a walk from child to parent
/// reaches from `a`, with `a` itself.
pub open spec fn ancestor_set(graph: HostGraph, a: usize) -> Set<usize> {
    Set::new(|x: usize| is_ancestor(graph, a, x))
}

/// `x` is an ancestor of `a` at most `k` edges away.
pub open spec fn within(graph: HostGraph, a: usize, x: usize, k: nat) -> bool {
    exists|w: Seq<usize>|
        #[trigger] climbs(graph, w) && w[0] == a && w.last() == x && w.len() <= k + 1
}

/// Some walk from child to parent that starts at `a` comes to a node twice:
/// `a` lies on a cycle, or one of its ancestors does.
pub open spec fn tangled(graph: HostGraph, a: usize) -> bool {
    exists|w: Seq<usize>| #[trigger] climbs(graph, w) && w[0] == a && !w.no_duplicates()
}

/// Some walk from child to parent that begins with `trail` comes to a node twice.
pub open spec fn revisits(graph: HostGraph, trail: Seq<usize>) -> bool {
    exists|w: Seq<usize>|
        #[trigger] climbs(graph, w) && trail.is_prefix_of(w) && !w.no_duplicates()
}

/// The nodes that are one of the first `upto` nodes of `from`, or an
/// ancestor of one of them.
pub open spec fn gathered(graph: HostGraph, from: Seq<usize>, upto: int) -> Set<usize> {
    Set::new(|x: usize| exists|j: int| 0 <= j < upto && #[trigger] is_ancestor(graph, from[j], x))
}

/// An edge list has `b` next to `a` exactly when it holds the edge between them.
pub proof fn lemma_adjacency_holds(es: Seq<(usize, usize)>, a: usize, b: usize, way: Way)
    ensures
        adjacency(es, a, way).contains(b) <==> es.contains(
            match way {
                Way::Forward => (a, b),
                Way::Backward => (b, a),
            },
        ),
    decreases es.len(),
{
    let edge = match way {
        Way::Forward => (a, b),
        Way::Backward => (b, a),
    };
    if es.len() > 0 {
        let older = es.drop_last();
        lemma_adjacency_holds(older, a, b, way);
        let (near, far) = match way {
            Way::Forward => (es.last().0, es.last().1),
            Way::Backward => (es.last().1, es.last().0),
        };
        let list = adjacency(es, a, way);
        let rest = adjacency(older, a, way);
        if list.contains(b) {
            let i = choose|i: int| 0 <= i < list.len() && list[i] == b;
            if near == a && i == 0 {
                assert(es[es.len() - 1] == edge);
            } else {
                if near == a {
                    assert(rest[i - 1] == b);
                }
                assert(rest.contains(b));
                let j = choose|j: int| 0 <= j < older.len() && older[j] == edge;
                assert(es[j] == edge);
            }
        }
        if es.contains(edge) {
            let j = choose|j: int| 0 <= j < es.len() && es[j] == edge;
            if j == es.len() - 1 {
                assert(list[0] == b);
            } else {
                assert(older[j] == edge);
                let i = choose|i: int| 0 <= i < rest.len() && rest[i] == b;
                if near == a {
                    assert(list[i + 1] == b);
                } else {
                    assert(list[i] == b);
                }
            }
        }
    }
}

/// `b` is a child of `a` exactly when `a` is a parent of `b`.
pub proof fn lemma_turn_round(graph: HostGraph, a: usize, b: usize)
    ensures
        children(graph, a).contains(b) <==> parents(graph, b).contains(a),
{
    lemma_adjacency_holds(edges(graph), a, b, Way::Forward);
    lemma_adjacency_holds(edges(graph), b, a, Way::Backward);
}

/// In a well-formed graph a node with a neighbour, and the neighbour, are
/// nodes of the graph.
pub proof fn lemma_neighbour_in_range(graph: HostGraph, a: usize, b: usize, way: Way)
    requires
        well_formed(graph),
        neighbours(graph, a, way).contains(b),
    ensures
        a < order(graph),
        b < order(graph),
{
    lemma_adjacency_holds(edges(graph), a, b, way);
    let edge = match way {
        Way::Forward => (a, b),
        Way::Backward => (b, a),
    };
    let i = choose|i: int| 0 <= i < edges(graph).len() && edges(graph)[i] == edge;
    assert(edges(graph)[i].0 < order(graph));
}

/// Every node of a walk of two nodes or more is a node of the graph.
pub proof fn lemma_walk_in_range(graph: HostGraph, w: Seq<usize>, way: Way)
    requires
        well_formed(graph),
        is_walk(graph, w, way),
        w.len() >= 2,
    ensures
        forall|i: int| 0 <= i < w.len() ==> w[i] < order(graph),
{
    assert forall|i: int| 0 <= i < w.len() implies w[i] < order(graph) by {
        if i < w.len() - 1 {
            assert(hop(graph, w, i, way));
            lemma_neighbour_in_range(graph, w[i], w[i + 1], way);
        } else {
            assert(hop(graph, w, i - 1, way));
            lemma_neighbour_in_range(graph, w[i - 1], w[i], way);
        }
    }
}

/// A list of distinct numbers below `bound` has at most `bound` entries.
pub proof fn lemma_distinct_bounded(w: Seq<usize>, bound: nat)
    requires
        w.no_duplicates(),
        forall|i: int| 0 <= i < w.len() ==> w[i] < bound,
    ensures
        w.len() <= bound,
{
    let up = w.map_values(|x: usize| x as int);
    assert(up.no_duplicates()) by {
        assert forall|i: int, j: int|
            0 <= i < up.len() && 0 <= j < up.len() && i != j implies up[i] != up[j] by {
            assert(w[i] != w[j]);
        }
    }
    up.unique_seq_to_set();
    lemma_int_range(0, bound as int);
    assert(up.to_set().subset_of(set_int_range(0, bound as int))) by {
        assert forall|x: int| up.to_set().contains(x) implies set_int_range(
            0,
            bound as int,
        ).contains(x) by {
            let i = choose|i: int| 0 <= i < up.len() && up[i] == x;
            assert(w[i] < bound);
        }
    }
    lemma_len_subset(up.to_set(), set_int_range(0, bound as int));
}

/// A walk without a repeated node has at most as many nodes as the graph,
/// unless it is a single node.
pub proof fn lemma_walk_bounded(graph: HostGraph, w: Seq<usize>, way: Way)
    requires
        well_formed(graph),
        is_walk(graph, w, way),
        w.no_duplicates(),
        w.len() >= 2,
    ensures
        w.len() <= order(graph),
{
    lemma_walk_in_range(graph, w, way);
    lemma_distinct_bounded(w, order(graph) as nat);
}

/// A walk goes on to any neighbour of its last node.
pub proof fn lemma_walk_push(graph: HostGraph, w: Seq<usize>, b: usize, way: Way)
    requires
        is_walk(graph, w, way),
        neighbours(graph, w.last(), way).contains(b),
    ensures
        is_walk(graph, w.push(b), way),
{
    let longer = w.push(b);
    assert forall|i: int| 0 <= i < longer.len() - 1 implies #[trigger] hop(
        graph,
        longer,
        i,
        way,
    ) by {
        if i < w.len() - 1 {
            assert(hop(graph, w, i, way));
        }
    }
}

/// A walk that ends where another begins goes on along the other.
pub proof fn lemma_walk_join(graph: HostGraph, u: Seq<usize>, v: Seq<usize>, way: Way)
    requires
        is_walk(graph, u, way),
        is_walk(graph, v, way),
        u.last() == v[0],
    ensures
        is_walk(graph, u + v.skip(1), way),
        (u + v.skip(1)).len() == u.len() + v.len() - 1,
        (u + v.skip(1))[0] == u[0],
        (u + v.skip(1)).last() == v.last(),
{
    let joined = u + v.skip(1);
    assert forall|i: int| 0 <= i < joined.len() - 1 implies #[trigger] hop(
        graph,
        joined,
        i,
        way,
    ) by {
        if i < u.len() - 1 {
            assert(hop(graph, u, i, way));
        } else {
            assert(hop(graph, v, i - u.len() + 1, way));
        }
    }
}

/// The first `k` nodes of a walk are a walk.
pub proof fn lemma_walk_take(graph: HostGraph, w: Seq<usize>, k: int, way: Way)
    requires
        is_walk(graph, w, way),
        1 <= k <= w.len(),
    ensures
        is_walk(graph, w.take(k), way),
{
    let head = w.take(k);
    assert forall|i: int| 0 <= i < head.len() - 1 implies #[trigger] hop(graph, head, i, way) by {
        assert(hop(graph, w, i, way));
    }
}

/// A walk without its first `k` nodes is a walk.
pub proof fn lemma_walk_skip(graph: HostGraph, w: Seq<usize>, k: int, way: Way)
    requires
        is_walk(graph, w, way),
        0 <= k < w.len(),
    ensures
        is_walk(graph, w.skip(k), way),
{
    let tail = w.skip(k);
    assert forall|i: int| 0 <= i < tail.len() - 1 implies #[trigger] hop(graph, tail, i, way) by {
        assert(hop(graph, w, i + k, way));
    }
}

/// A walk from a node that the graph does not hold is that node alone.
pub proof fn lemma_stranger_stays(graph: HostGraph, w: Seq<usize>, way: Way)
    requires
        well_formed(graph),
        is_walk(graph, w, way),
        w[0] >= order(graph),
    ensures
        w.len() == 1,
{
    if w.len() >= 2 {
        lemma_walk_in_range(graph, w, way);
    }
}

/// What revisits a node after a longer beginning revisits it after a shorter one.
pub proof fn lemma_revisits_sooner(graph: HostGraph, trail: Seq<usize>, b: usize)
    requires
        revisits(graph, trail.push(b)),
    ensures
        revisits(graph, trail),
{
    let w = choose|w: Seq<usize>|
        #[trigger] climbs(graph, w) && trail.push(b).is_prefix_of(w) && !w.no_duplicates();
    assert(trail.is_prefix_of(w)) by {
        assert(trail =~= trail.push(b).take(trail.len() as int));
        assert(trail =~= w.subrange(0, trail.len() as int));
    }
}

/// A walk that repeats no node and is the beginning of one that does goes
/// on to a parent of its last node before the repeat.
pub proof fn lemma_revisits_later(graph: HostGraph, trail: Seq<usize>) -> (b: usize)
    requires
        trail.len() > 0,
        trail.no_duplicates(),
        revisits(graph, trail),
    ensures
        parents(graph, trail.last()).contains(b),
        revisits(graph, trail.push(b)),
{
    let w = choose|w: Seq<usize>|
        #[trigger] climbs(graph, w) && trail.is_prefix_of(w) && !w.no_duplicates();
    let n = trail.len() as int;
    assert(trail =~= w.subrange(0, n));
    if w.len() == n {
        assert(w =~= trail);
    }
    let b = w[n];
    assert(hop(graph, w, n - 1, Way::Backward));
    assert(trail.last() == w[n - 1]);
    assert(trail.push(b) =~= w.subrange(0, n + 1));
    b
}

/// A node is its own ancestor in the wide sense.
pub proof fn lemma_ancestor_self(graph: HostGraph, a: usize)
    ensures
        is_ancestor(graph, a, a),
        within(graph, a, a, 0),
{
    let w = seq![a];
    assert(climbs(graph, w) && w[0] == a && w.last() == a && w.len() <= 1);
}

/// The ancestors of a node are the node and the ancestors of its parents.
pub proof fn lemma_ancestor_step(graph: HostGraph, a: usize, x: usize)
    ensures
        is_ancestor(graph, a, x) <==> (x == a || gathered(
            graph,
            parents(graph, a),
            parents(graph, a).len() as int,
        ).contains(x)),
{
    let above = parents(graph, a);
    if is_ancestor(graph, a, x) && x != a {
        let w = choose|w: Seq<usize>| #[trigger] climbs(graph, w) && w[0] == a && w.last() == x;
        assert(hop(graph, w, 0, Way::Backward));
        let j = choose|j: int| 0 <= j < above.len() && above[j] == w[1];
        lemma_walk_skip(graph, w, 1, Way::Backward);
        let v = w.skip(1);
        assert(climbs(graph, v) && v[0] == above[j] && v.last() == x);
        assert(is_ancestor(graph, above[j], x));
    }
    if x == a {
        lemma_ancestor_self(graph, a);
    }
    if gathered(graph, above, above.len() as int).contains(x) {
        let j = choose|j: int| 0 <= j < above.len() && #[trigger] is_ancestor(graph, above[j], x);
        let v = choose|v: Seq<usize>|
            #[trigger] climbs(graph, v) && v[0] == above[j] && v.last() == x;
        let u = seq![a, above[j]];
        assert(climbs(graph, u)) by {
            assert forall|i: int| 0 <= i < u.len() - 1 implies #[trigger] hop(
                graph,
                u,
                i,
                Way::Backward,
            ) by {
                assert(above.contains(above[j]));
            }
        }
        lemma_walk_join(graph, u, v, Way::Backward);
        assert(climbs(graph, u + v.skip(1)));
    }
}

/// A walk whose first node is not tangled repeats no node, and fits in the graph.
pub proof fn lemma_untangled(graph: HostGraph, w: Seq<usize>)
    requires
        well_formed(graph),
        climbs(graph, w),
        !tangled(graph, w[0]),
    ensures
        w.no_duplicates(),
        w.len() >= 2 ==> w.len() <= order(graph),
{
    if w.len() >= 2 {
        lemma_walk_bounded(graph, w, Way::Backward);
    }
}

/// A walk read from its end is a walk in the other direction.
pub proof fn lemma_walk_reverse(graph: HostGraph, w: Seq<usize>, way: Way)
    requires
        is_walk(graph, w, way),
    ensures
        is_walk(graph, w.reverse(), turned(way)),
        w.reverse().len() == w.len(),
        w.reverse()[0] == w.last(),
        w.reverse().last() == w[0],
{
    let r = w.reverse();
    assert forall|i: int| 0 <= i < r.len() - 1 implies #[trigger] hop(graph, r, i, turned(way)) by {
        let k = w.len() - 2 - i;
        assert(hop(graph, w, k, way));
        match way {
            Way::Forward => lemma_turn_round(graph, w[k], w[k + 1]),
            Way::Backward => lemma_turn_round(graph, w[k + 1], w[k]),
        }
    }
}

/// Every node of a walk towards ancestors is an ancestor of its first node.
pub proof fn lemma_walk_ancestor(graph: HostGraph, w: Seq<usize>, i: int)
    requires
        climbs(graph, w),
        0 <= i < w.len(),
    ensures
        is_ancestor(graph, w[0], w[i]),
        within(graph, w[0], w[i], i as nat),
{
    lemma_walk_take(graph, w, i + 1, Way::Backward);
    let head = w.take(i + 1);
    assert(climbs(graph, head) && head[0] == w[0] && head.last() == w[i]);
}

/// Two walks from one node towards ancestors go the same way as long as no
/// node on it has two parents.
pub proof fn lemma_single_way(graph: HostGraph, u: Seq<usize>, v: Seq<usize>, i: int)
    requires
        climbs(graph, u),
        climbs(graph, v),
        u[0] == v[0],
        0 <= i < u.len(),
        i < v.len(),
        forall|j: int| 0 <= j < i ==> parents(graph, #[trigger] u[j]).len() <= 1,
    ensures
        u[i] == v[i],
    decreases i,
{
    if i > 0 {
        lemma_single_way(graph, u, v, i - 1);
        assert(hop(graph, u, i - 1, Way::Backward));
        assert(hop(graph, v, i - 1, Way::Backward));
        assert(parents(graph, u[i - 1]).len() <= 1);
    }
}

/// Of two nodes that are ancestors of each other and of a node that is not
/// tangled there is only one.
pub proof fn lemma_no_way_back(graph: HostGraph, a: usize, x: usize, y: usize)
    requires
        !tangled(graph, a),
        is_ancestor(graph, a, x),
        is_ancestor(graph, x, y),
        is_ancestor(graph, y, x),
    ensures
        x == y,
{
    let u = choose|u: Seq<usize>| #[trigger] climbs(graph, u) && u[0] == a && u.last() == x;
    let s = choose|s: Seq<usize>| #[trigger] climbs(graph, s) && s[0] == x && s.last() == y;
    let t = choose|t: Seq<usize>| #[trigger] climbs(graph, t) && t[0] == y && t.last() == x;
    lemma_walk_join(graph, u, s, Way::Backward);
    let us = u + s.skip(1);
    lemma_walk_join(graph, us, t, Way::Backward);
    let ust = us + t.skip(1);
    assert(climbs(graph, ust) && ust[0] == a);
    assert(ust[u.len() - 1] == x);
    assert(ust[ust.len() - 1] == x);
}

} // verus!
