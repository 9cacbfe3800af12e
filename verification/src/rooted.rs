//! The lowest common ancestor below a known root: the node at which the
//! shortest paths from the root to the two nodes part.

use crate::cycle::check_cycle;
use crate::host::adjacent;
use crate::host::children;
use crate::host::edges;
use crate::host::ids;
use crate::host::index_of;
use crate::host::node_id;
use crate::host::parents;
use crate::host::shown;
use crate::host::HostGraph;
use crate::host::Way;
use crate::walk::climbs;
use crate::walk::descends;
use crate::walk::hop;
use crate::walk::lemma_single_way;
use crate::walk::lemma_walk_reverse;
use crate::walk::lemma_walk_skip;
use crate::walk::tangled;
use pathfinding::directed::astar::astar;
use petgraph::graph::NodeIndex;
use vstd::prelude::*;

verus! {

/// The path that the search finds from `from` to `to` along the edges `es`,
/// as node indices, or nothing.
pub uninterp spec fn route(es: Seq<(usize, usize)>, from: usize, to: usize) -> Option<Seq<usize>>;

/// `to` is `from` or a descendant of it: some walk from parent to child
/// leads from `from` to `to`.
pub open spec fn is_descendant(graph: HostGraph, from: usize, to: usize) -> bool {
    exists|w: Seq<usize>| #[trigger] descends(graph, w) && w[0] == from && w.last() == to
}

/// `p` is a path from `from` to `to`: a walk from parent to child between them.
pub open spec fn leads(graph: HostGraph, from: usize, to: usize, p: Seq<usize>) -> bool {
    descends(graph, p) && p[0] == from && p.last() == to
}

/// What holds of what the search from `root` for `goal` reports: a path
/// between them than which none is shorter, or nothing where there is none.
pub open spec fn search_agrees(
    graph: HostGraph,
    root: usize,
    goal: usize,
    found: Option<Seq<usize>>,
) -> bool {
    match found {
        Some(p) => {
            &&& leads(graph, root, goal, p)
            &&& forall|w: Seq<usize>| #[trigger] leads(graph, root, goal, w) ==> p.len() <= w.len()
        },
        None => !is_descendant(graph, root, goal),
    }
}

/// Below `root` the graph is a tree: `root` has no parent, and no node has two.
pub open spec fn tree_below(graph: HostGraph, root: usize) -> bool {
    &&& parents(graph, root).len() == 0
    &&& forall|x: usize| (#[trigger] parents(graph, x)).len() <= 1
}

/// The first `k` nodes of `a` and `b` are the same, and the next ones, if
/// both go on, are not.
pub open spec fn parts_at(a: Seq<usize>, b: Seq<usize>, k: int) -> bool {
    &&& 0 <= k <= a.len()
    &&& k <= b.len()
    &&& forall|i: int| 0 <= i < k ==> a[i] == b[i]
    &&& k < a.len() && k < b.len() ==> a[k] != b[k]
}

/// The number of nodes that `a` and `b` share from their start.
pub open spec fn shared_len(a: Seq<usize>, b: Seq<usize>) -> int {
    choose|k: int| parts_at(a, b, k)
}

/// The node `k` of a path counted from one, nothing for zero.
pub open spec fn node_before(a: Seq<usize>, k: int) -> Option<usize> {
    if k > 0 {
        Some(a[k - 1])
    } else {
        None
    }
}

/// The last node that `a` and `b` share from their start: the node at which
/// two paths from one root part. Nothing where they share no start.
pub open spec fn fork(a: Seq<usize>, b: Seq<usize>) -> Option<usize> {
    node_before(a, shared_len(a, b))
}

/// The answer below a root, by index: nothing where a cycle lies among the
/// ancestors of `a` or of `b` or the search finds no path from the root to
/// one of them, else the node at which the two paths found part.
pub open spec fn rooted_lowest(
    graph: HostGraph,
    root: usize,
    a: usize,
    b: usize,
) -> Option<usize> {
    if tangled(graph, a) || tangled(graph, b) {
        None
    } else {
        match (route(edges(graph), root, a), route(edges(graph), root, b)) {
            (Some(p), Some(q)) => fork(p, q),
            _ => None,
        }
    }
}

/// A path as the model has it: the nodes by their indices.
pub open spec fn listed(path: Option<Vec<NodeIndex>>) -> Option<Seq<usize>> {
    match path {
        Some(nodes) => Some(ids(nodes@)),
        None => None,
    }
}

/// Two paths part somewhere: at `from`, or later if they agree there.
pub proof fn lemma_parts_somewhere(a: Seq<usize>, b: Seq<usize>, from: int) -> (k: int)
    requires
        0 <= from <= a.len(),
        from <= b.len(),
        forall|i: int| 0 <= i < from ==> a[i] == b[i],
    ensures
        from <= k,
        parts_at(a, b, k),
    decreases a.len() - from,
{
    if from < a.len() && from < b.len() && a[from] == b[from] {
        lemma_parts_somewhere(a, b, from + 1)
    } else {
        from
    }
}

/// Two paths part at one place only.
pub proof fn lemma_parts_once(a: Seq<usize>, b: Seq<usize>, j: int, k: int)
    requires
        parts_at(a, b, j),
        parts_at(a, b, k),
    ensures
        j == k,
{
    if j < k {
        assert(a[j] == b[j]);
    }
    if k < j {
        assert(a[k] == b[k]);
    }
}

/// The two paths part where `shared_len` says, and in whichever order they
/// are taken the node before is the same.
pub proof fn lemma_fork(a: Seq<usize>, b: Seq<usize>)
    ensures
        parts_at(a, b, shared_len(a, b)),
        fork(a, b) == fork(b, a),
        fork(a, b) is Some <==> a.len() > 0 && b.len() > 0 && a[0] == b[0],
{
    lemma_parts_somewhere(a, b, 0);
    lemma_parts_somewhere(b, a, 0);
    assert(parts_at(b, a, shared_len(a, b)));
    lemma_parts_once(b, a, shared_len(a, b), shared_len(b, a));
    if a.len() > 0 && b.len() > 0 && a[0] == b[0] && shared_len(a, b) == 0 {
        assert(a[0] != b[0]);
    }
}

/// A walk towards ancestors is no longer than one from the same node that
/// ends at the root of a tree, and goes the same way.
pub proof fn lemma_tree_climb(graph: HostGraph, root: usize, s: Seq<usize>, t: Seq<usize>)
    requires
        tree_below(graph, root),
        climbs(graph, s),
        climbs(graph, t),
        s[0] == t[0],
        t.last() == root,
    ensures
        s.len() <= t.len(),
        s =~= t.take(s.len() as int),
{
    if s.len() > t.len() {
        lemma_single_way(graph, t, s, t.len() - 1);
        assert(hop(graph, s, t.len() - 1, Way::Backward));
    }
    assert forall|i: int| 0 <= i < s.len() implies s[i] == t[i] by {
        lemma_single_way(graph, s, t, i);
    }
}

/// In a tree one path only leads from the root to a node.
pub proof fn lemma_tree_one_path(
    graph: HostGraph,
    root: usize,
    goal: usize,
    p: Seq<usize>,
    q: Seq<usize>,
)
    requires
        tree_below(graph, root),
        leads(graph, root, goal, p),
        leads(graph, root, goal, q),
    ensures
        p == q,
{
    lemma_walk_reverse(graph, p, Way::Forward);
    lemma_walk_reverse(graph, q, Way::Forward);
    lemma_tree_climb(graph, root, p.reverse(), q.reverse());
    lemma_tree_climb(graph, root, q.reverse(), p.reverse());
    assert(p.reverse() =~= q.reverse());
    assert forall|i: int| 0 <= i < p.len() implies p[i] == q[i] by {
        assert(p.reverse()[p.len() - 1 - i] == p[i]);
        assert(q.reverse()[q.len() - 1 - i] == q[i]);
    }
    assert(p =~= q);
}

/// In a tree no cycle lies among the ancestors of a node below the root.
pub proof fn lemma_tree_untangled(graph: HostGraph, root: usize, goal: usize, p: Seq<usize>)
    requires
        tree_below(graph, root),
        leads(graph, root, goal, p),
    ensures
        !tangled(graph, goal),
{
    lemma_walk_reverse(graph, p, Way::Forward);
    let up = p.reverse();
    if tangled(graph, goal) {
        let w = choose|w: Seq<usize>|
            #[trigger] climbs(graph, w) && w[0] == goal && !w.no_duplicates();
        lemma_tree_climb(graph, root, w, up);
        let (i, j) = choose|i: int, j: int|
            0 <= i < w.len() && 0 <= j < w.len() && i != j && w[i] == w[j];
        let (lo, hi) = if i < j {
            (i, j)
        } else {
            (j, i)
        };
        assert(w[lo] == up[lo] && w[hi] == up[hi]);
        lemma_walk_skip(graph, up, lo, Way::Backward);
        lemma_walk_skip(graph, up, hi, Way::Backward);
        lemma_tree_climb(graph, root, up.skip(lo), up.skip(hi));
    }
}

/// Returns list of neighbors of a node: its children, in the order in which
/// the graph lists them.
pub fn neighbors(graph: &HostGraph, n: NodeIndex) -> (list: Vec<NodeIndex>)
    ensures
        ids(list@) == children(*graph, node_id(n)),
{
    adjacent(graph, n, Way::Forward)
}

/// Returns list of neighbors of a node with the corresponding cost, which is
/// one for every edge.
pub fn neighbors_cost(graph: &HostGraph, n: NodeIndex) -> (list: Vec<(NodeIndex, u32)>)
    ensures
        list.len() == children(*graph, node_id(n)).len(),
        forall|i: int|
            0 <= i < list.len() ==> node_id((#[trigger] list[i]).0) == children(
                *graph,
                node_id(n),
            )[i] && list[i].1 == 1,
{
    let below = neighbors(graph, n);
    let mut list: Vec<(NodeIndex, u32)> = Vec::new();
    let mut i: usize = 0;
    while i < below.len()
        invariant
            0 <= i <= below.len(),
            list.len() == i,
            ids(below@) == children(*graph, node_id(n)),
            forall|j: int|
                0 <= j < i ==> node_id((#[trigger] list[j]).0) == ids(below@)[j] && list[j].1 == 1,
        decreases below.len() - i,
    {
        list.push((below[i], 1));
        i += 1;
    }
    list
}

/// The estimate of what is left of the way to the goal: none, so the search
/// is by cost alone.
fn estimate(node: NodeIndex) -> (left: u32)
    ensures
        left == 0,
{
    0
}

/// Whether two identifiers name the same node.
fn same_node(a: NodeIndex, b: NodeIndex) -> (same: bool)
    ensures
        same == (node_id(a) == node_id(b)),
{
    index_of(a) == index_of(b)
}

/// Calls pathfinding's `astar` from `root`, with `neighbors_cost` for the
/// successors, no estimate, and `goal` as the only goal, and keeps the path.
/// `astar` returns a shortest path from the start to the goal along
/// successors, both ends included, or `None` if there is none; which of
/// several shortest paths it returns follows from the start, the goal and
/// the successor lists alone. The contract names the path and claims that it
/// is a walk from `root` to `goal` than which none is shorter, and that
/// `None` means that there is no walk.
#[verifier::external_body]
fn shortest_path(
    graph: &HostGraph,
    root: NodeIndex,
    goal: NodeIndex,
) -> (found: Option<Vec<NodeIndex>>)
    ensures
        listed(found) == route(edges(*graph), node_id(root), node_id(goal)),
        search_agrees(*graph, node_id(root), node_id(goal), listed(found)),
{
    astar(
        &root,
        |n| neighbors_cost(graph, *n),
        |n| estimate(*n),
        |n| same_node(*n, goal),
    ).map(|found| found.0)
}

/// Returns the last node that two paths share from their start, `None`
/// where they do not start at one node.
pub fn last_shared(first: &Vec<NodeIndex>, second: &Vec<NodeIndex>) -> (answer: Option<NodeIndex>)
    ensures
        shown(answer) == fork(ids(first@), ids(second@)),
        parts_at(ids(first@), ids(second@), shared_len(ids(first@), ids(second@))),
{
    let mut answer: Option<NodeIndex> = None;
    let mut i: usize = 0;
    let mut together = true;
    while together && i < first.len() && i < second.len()
        invariant
            0 <= i <= first.len(),
            i <= second.len(),
            forall|j: int| 0 <= j < i ==> ids(first@)[j] == ids(second@)[j],
            shown(answer) == node_before(ids(first@), i as int),
            !together ==> i < first.len() && i < second.len() && ids(first@)[i as int] != ids(
                second@,
            )[i as int],
        decreases first.len() - i + if together { 1int } else { 0int },
    {
        if same_node(first[i], second[i]) {
            answer = Some(first[i]);
            i += 1;
        } else {
            together = false;
        }
    }
    proof {
        assert(parts_at(ids(first@), ids(second@), i as int));
        lemma_parts_once(
            ids(first@),
            ids(second@),
            i as int,
            shared_len(ids(first@), ids(second@)),
        );
    }
    answer
}

/// The lowest common ancestor of `node1` and `node2` in a tree or forest
/// that hangs from `root`: the last node that the shortest paths found from
/// `root` to `node1` and to `node2` share. In a tree there is one path to
/// each, and the answer is the deepest node on both.
///
/// Returns `None` where no path leads from `root` to one of the two nodes,
/// and where either of them lies on a cycle or has an ancestor that does.
pub fn lca_rooted(
    graph: &HostGraph,
    root: NodeIndex,
    node1: NodeIndex,
    node2: NodeIndex,
) -> (answer: Option<NodeIndex>)
    ensures
        shown(answer) == rooted_lowest(*graph, node_id(root), node_id(node1), node_id(node2)),
        answer is None <==> {
            ||| tangled(*graph, node_id(node1))
            ||| tangled(*graph, node_id(node2))
            ||| !is_descendant(*graph, node_id(root), node_id(node1))
            ||| !is_descendant(*graph, node_id(root), node_id(node2))
        },
        answer is Some ==> {
            &&& search_agrees(
                *graph,
                node_id(root),
                node_id(node1),
                route(edges(*graph), node_id(root), node_id(node1)),
            )
            &&& search_agrees(
                *graph,
                node_id(root),
                node_id(node2),
                route(edges(*graph), node_id(root), node_id(node2)),
            )
        },
        answer is Some && node_id(node1) == node_id(node2) ==> shown(answer) == Some(
            node_id(node1),
        ),
        tree_below(*graph, node_id(root)) ==> forall|p: Seq<usize>, q: Seq<usize>|
            #[trigger] leads(*graph, node_id(root), node_id(node1), p) && #[trigger] leads(
                *graph,
                node_id(root),
                node_id(node2),
                q,
            ) ==> shown(answer) == fork(p, q),
{
    proof {
        if tree_below(*graph, node_id(root)) {
            assert forall|p: Seq<usize>| #[trigger]
                leads(*graph, node_id(root), node_id(node1), p) implies !tangled(
                *graph,
                node_id(node1),
            ) by {
                lemma_tree_untangled(*graph, node_id(root), node_id(node1), p);
            }
            assert forall|q: Seq<usize>| #[trigger]
                leads(*graph, node_id(root), node_id(node2), q) implies !tangled(
                *graph,
                node_id(node2),
            ) by {
                lemma_tree_untangled(*graph, node_id(root), node_id(node2), q);
            }
        }
    }
    if check_cycle(graph, node1) || check_cycle(graph, node2) {
        return None;
    }
    let first = match shortest_path(graph, root, node1) {
        Some(path) => path,
        None => {
            return None;
        },
    };
    let second = match shortest_path(graph, root, node2) {
        Some(path) => path,
        None => {
            return None;
        },
    };
    let answer = last_shared(&first, &second);
    proof {
        lemma_fork(ids(first@), ids(second@));
        if node_id(node1) == node_id(node2) {
            assert(parts_at(ids(first@), ids(first@), first.len() as int));
            lemma_parts_once(
                ids(first@),
                ids(first@),
                first.len() as int,
                shared_len(ids(first@), ids(first@)),
            );
        }
        if tree_below(*graph, node_id(root)) {
            assert forall|p: Seq<usize>, q: Seq<usize>| #[trigger]
                leads(*graph, node_id(root), node_id(node1), p) && #[trigger] leads(
                    *graph,
                    node_id(root),
                    node_id(node2),
                    q,
                ) implies shown(answer) == fork(p, q) by {
                lemma_tree_one_path(*graph, node_id(root), node_id(node1), p, ids(first@));
                lemma_tree_one_path(*graph, node_id(root), node_id(node2), q, ids(second@));
            }
        }
    }
    answer
}

} // verus!
