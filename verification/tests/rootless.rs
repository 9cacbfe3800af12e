use graph_lca::graph::{lca, lca_with, Strategy};
use petgraph::graph::NodeIndex;
use petgraph::Graph;

/// The graph `1->2, 2->3, 2->4, 3->5, 4->6, 5->7, 6->7, 7->8`; node `k` is at place `k - 1`.
fn diamond() -> (Graph<&'static str, i32>, Vec<NodeIndex>) {
    let mut map = Graph::<&str, i32>::new();
    let labels = ["1", "2", "3", "4", "5", "6", "7", "8"];
    let mut n = Vec::new();
    for label in labels {
        n.push(map.add_node(label));
    }
    map.extend_with_edges(&[
        (n[0], n[1]),
        (n[1], n[2]),
        (n[1], n[3]),
        (n[2], n[4]),
        (n[3], n[5]),
        (n[4], n[6]),
        (n[5], n[6]),
        (n[6], n[7]),
    ]);
    (map, n)
}

/// The forest `{1->2, 2->3, 2->4}` and `{5->6, 5->7, 6->8}`; node `k` is at place `k - 1`.
fn forest() -> (Graph<&'static str, i32>, Vec<NodeIndex>) {
    let mut map = Graph::<&str, i32>::new();
    let labels = ["1", "2", "3", "4", "5", "6", "7", "8"];
    let mut n = Vec::new();
    for label in labels {
        n.push(map.add_node(label));
    }
    map.extend_with_edges(&[
        (n[0], n[1]),
        (n[1], n[2]),
        (n[1], n[3]),
        (n[4], n[5]),
        (n[4], n[6]),
        (n[5], n[7]),
    ]);
    (map, n)
}

#[test]
fn a_node_is_its_own_lowest_common_ancestor() {
    let (map, n) = diamond();
    for node in &n {
        assert_eq!(Some(*node), lca(&map, *node, *node));
    }
    let (map, n) = forest();
    for node in &n {
        assert_eq!(Some(*node), lca(&map, *node, *node));
    }
}

#[test]
fn the_order_of_the_nodes_does_not_matter_in_a_forest() {
    let (map, n) = forest();
    for a in &n {
        for b in &n {
            assert_eq!(lca(&map, *a, *b), lca(&map, *b, *a));
        }
    }
}

#[test]
fn forest_answers() {
    let (map, n) = forest();
    assert_eq!(Some(n[1]), lca(&map, n[1], n[3]));
    assert_eq!(Some(n[1]), lca(&map, n[2], n[3]));
    assert_eq!(Some(n[0]), lca(&map, n[0], n[3]));
    assert_eq!(Some(n[4]), lca(&map, n[6], n[7]));
    assert_eq!(Some(n[4]), lca(&map, n[7], n[6]));
    assert_eq!(Some(n[5]), lca(&map, n[5], n[7]));
    assert_eq!(None, lca(&map, n[3], n[5]));
    assert_eq!(None, lca(&map, n[0], n[4]));
}

#[test]
fn diamond_answers() {
    let (map, n) = diamond();
    assert_eq!(Some(n[3]), lca(&map, n[7], n[3]));
    assert_eq!(Some(n[1]), lca(&map, n[7], n[1]));
    assert_eq!(Some(n[4]), lca(&map, n[7], n[4]));
    assert_eq!(Some(n[2]), lca(&map, n[2], n[6]));
    // 5 and 6 sit on the two sides of the diamond and meet in 2.
    assert_eq!(Some(n[1]), lca(&map, n[4], n[5]));
    assert_eq!(Some(n[1]), lca(&map, n[5], n[4]));
    assert_eq!(Some(n[0]), lca(&map, n[0], n[7]));
}

#[test]
fn a_node_on_a_cycle_has_no_answer_even_with_a_common_ancestor() {
    let mut map = Graph::<&str, i32>::new();
    let r = map.add_node("r");
    let a = map.add_node("a");
    let b = map.add_node("b");
    let c = map.add_node("c");
    map.extend_with_edges(&[(r, a), (r, c), (a, b), (b, a)]);
    assert_eq!(None, lca(&map, a, c));
    assert_eq!(None, lca(&map, c, a));
    assert_eq!(None, lca(&map, b, c));
    assert_eq!(None, lca(&map, a, a));
    assert_eq!(None, lca(&map, a, b));
    // Away from the cycle the answers stand.
    assert_eq!(Some(r), lca(&map, r, c));
    assert_eq!(Some(c), lca(&map, c, c));
}

#[test]
fn a_node_below_a_cycle_has_no_answer() {
    let mut map = Graph::<&str, i32>::new();
    let a = map.add_node("a");
    let b = map.add_node("b");
    let c = map.add_node("c");
    let d = map.add_node("d");
    map.extend_with_edges(&[(a, b), (b, a), (b, c), (c, d)]);
    assert_eq!(None, lca(&map, d, d));
    assert_eq!(None, lca(&map, c, d));
    assert_eq!(None, lca(&map, d, c));
}

#[test]
fn a_self_loop_is_a_cycle() {
    let mut map = Graph::<&str, i32>::new();
    let a = map.add_node("a");
    let b = map.add_node("b");
    map.extend_with_edges(&[(a, a), (a, b)]);
    assert_eq!(None, lca(&map, a, a));
    assert_eq!(None, lca(&map, b, b));
}

#[test]
fn parallel_edges_are_no_cycle() {
    let mut map = Graph::<&str, i32>::new();
    let a = map.add_node("a");
    let b = map.add_node("b");
    let c = map.add_node("c");
    map.extend_with_edges(&[(a, b), (a, b), (a, c)]);
    assert_eq!(Some(a), lca(&map, b, c));
    assert_eq!(Some(a), lca(&map, c, b));
    assert_eq!(Some(a), lca(&map, a, b));
}

#[test]
fn nodes_without_a_common_ancestor_have_no_answer() {
    let mut map = Graph::<&str, i32>::new();
    let a = map.add_node("a");
    let b = map.add_node("b");
    let c = map.add_node("c");
    let d = map.add_node("d");
    // `c` is a common descendant, not a common ancestor.
    map.extend_with_edges(&[(a, c), (b, c), (b, d)]);
    assert_eq!(None, lca(&map, a, b));
    assert_eq!(None, lca(&map, b, a));
    assert_eq!(None, lca(&map, a, d));
    assert_eq!(Some(b), lca(&map, c, d));
    assert_eq!(Some(a), lca(&map, a, c));
}

#[test]
fn the_answer_is_the_common_ancestor_nearest_to_the_second_node() {
    // q->n1, n1->m, m->n2, q->n2: q is one edge above n2, n1 is two.
    let mut map = Graph::<&str, i32>::new();
    let q = map.add_node("q");
    let n1 = map.add_node("n1");
    let m = map.add_node("m");
    let n2 = map.add_node("n2");
    map.extend_with_edges(&[(n1, m), (m, n2), (q, n2), (q, n1)]);
    assert_eq!(Some(q), lca(&map, n1, n2));
    assert_eq!(Some(n1), lca(&map, n2, n1));
}

#[test]
fn among_equally_near_ancestors_the_parent_listed_first_wins() {
    // Both x and y are parents of a and of b; the graph lists the parent of
    // the edge added last first.
    let mut map = Graph::<&str, i32>::new();
    let x = map.add_node("x");
    let y = map.add_node("y");
    let a = map.add_node("a");
    let b = map.add_node("b");
    map.extend_with_edges(&[(x, a), (y, a), (x, b), (y, b)]);
    assert_eq!(Some(y), lca(&map, a, b));
    assert_eq!(Some(y), lca(&map, b, a));

    let mut map = Graph::<&str, i32>::new();
    let x = map.add_node("x");
    let y = map.add_node("y");
    let a = map.add_node("a");
    let b = map.add_node("b");
    map.extend_with_edges(&[(x, a), (y, a), (y, b), (x, b)]);
    assert_eq!(Some(x), lca(&map, a, b));
    assert_eq!(Some(y), lca(&map, b, a));
}

#[test]
fn a_nearer_ancestor_found_later_replaces_a_farther_one() {
    // From b the first parent listed, m, leads to the common ancestor t in
    // two edges; the second, t itself, in one. Either way the answer is t,
    // but s, above m only, is two edges away and must lose against u.
    let mut map = Graph::<&str, i32>::new();
    let s = map.add_node("s");
    let u = map.add_node("u");
    let m = map.add_node("m");
    let a = map.add_node("a");
    let b = map.add_node("b");
    map.extend_with_edges(&[(s, a), (u, a), (s, m), (u, b), (m, b)]);
    // Parents of b: m (added last), then u. Through m, s costs 2; u costs 1.
    assert_eq!(Some(u), lca(&map, a, b));
}

#[test]
fn a_node_that_the_graph_does_not_hold_has_only_itself() {
    let (map, n) = forest();
    let stranger = NodeIndex::new(40);
    assert_eq!(Some(stranger), lca(&map, stranger, stranger));
    assert_eq!(None, lca(&map, stranger, n[0]));
    assert_eq!(None, lca(&map, n[0], stranger));
    let empty = Graph::<&str, i32>::new();
    assert_eq!(Some(stranger), lca(&empty, stranger, stranger));
    assert_eq!(None, lca(&empty, stranger, NodeIndex::new(41)));
}

#[test]
fn edge_weights_are_not_read() {
    let mut map = Graph::<&str, i32>::new();
    let a = map.add_node("a");
    let b = map.add_node("b");
    let c = map.add_node("c");
    let d = map.add_node("d");
    map.add_edge(a, b, 100);
    map.add_edge(b, d, 100);
    map.add_edge(a, c, -7);
    map.add_edge(c, d, 0);
    map.add_edge(a, d, 1000);
    // a is one edge above d whatever the edge weighs.
    assert_eq!(Some(a), lca(&map, a, d));
    // a and b are both one edge above d; a is listed first, by the edge added last.
    assert_eq!(Some(a), lca(&map, b, d));
    assert_eq!(Some(a), lca(&map, b, c));
    assert_eq!(Some(b), lca(&map, b, b));
}

#[test]
fn the_rootless_strategy_is_lca() {
    let (map, n) = diamond();
    for a in &n {
        for b in &n {
            assert_eq!(lca(&map, *a, *b), lca_with(&map, Strategy::Rootless, *a, *b));
        }
    }
}
