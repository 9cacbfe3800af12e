use graph_lca::ancestry::ancestors;
use graph_lca::cycle::check_cycle;
use graph_lca::host::order_of;
use graph_lca::nearest::compare_ancestors;
use petgraph::graph::NodeIndex;
use petgraph::Graph;
use std::collections::HashMap;

/// The graph `1->2, 2->3, 2->4, 3->5, 4->6, 5->7, 6->7, 7->8`; node `k` is at place `k - 1`.
fn diamond() -> (Graph<&'static str, i32>, Vec<NodeIndex>) {
    let mut map = Graph::<&str, i32>::new();
    let labels = ["1", "2", "3", "4", "5", "6", "7", "8"];
    let mut n = Vec::new();
    for label in labels {
        n.push(map.add_node(label));
    }
    map.extend_with_edges(&[
        (n[0], n[1]),
        (n[1], n[2]),
        (n[1], n[3]),
        (n[2], n[4]),
        (n[3], n[5]),
        (n[4], n[6]),
        (n[5], n[6]),
        (n[6], n[7]),
    ]);
    (map, n)
}

fn flags(places: &[usize]) -> HashMap<usize, bool> {
    places.iter().map(|k| (*k, true)).collect()
}

#[test]
fn no_cycle_in_a_graph_without_one() {
    let (map, n) = diamond();
    for node in &n {
        assert_eq!(false, check_cycle(&map, *node));
    }
    assert_eq!(false, check_cycle(&map, NodeIndex::new(8)));
    assert_eq!(false, check_cycle(&Graph::<&str, i32>::new(), NodeIndex::new(0)));
}

#[test]
fn a_cycle_is_found_from_every_node_on_it_or_below_it() {
    let mut map = Graph::<&str, i32>::new();
    let top = map.add_node("top");
    let a = map.add_node("a");
    let b = map.add_node("b");
    let c = map.add_node("c");
    let below = map.add_node("below");
    let aside = map.add_node("aside");
    map.extend_with_edges(&[(top, a), (a, b), (b, c), (c, a), (c, below), (top, aside)]);
    assert_eq!(true, check_cycle(&map, a));
    assert_eq!(true, check_cycle(&map, b));
    assert_eq!(true, check_cycle(&map, c));
    assert_eq!(true, check_cycle(&map, below));
    // The cycle lies below `top` and beside `aside`, not above them.
    assert_eq!(false, check_cycle(&map, top));
    assert_eq!(false, check_cycle(&map, aside));
}

#[test]
fn two_ways_to_one_ancestor_are_no_cycle() {
    let mut map = Graph::<&str, i32>::new();
    let a = map.add_node("a");
    let b = map.add_node("b");
    let c = map.add_node("c");
    let d = map.add_node("d");
    map.extend_with_edges(&[(a, b), (a, c), (b, d), (c, d), (a, d)]);
    assert_eq!(false, check_cycle(&map, d));
}

#[test]
fn the_ancestor_set_holds_the_node_and_all_above_it() {
    let (map, n) = diamond();
    assert_eq!(flags(&[0]), ancestors(&map, n[0]));
    assert_eq!(flags(&[0, 1, 2]), ancestors(&map, n[2]));
    assert_eq!(flags(&[0, 1, 3, 5]), ancestors(&map, n[5]));
    // Both sides of the diamond lead to 7; each ancestor is recorded once.
    assert_eq!(flags(&[0, 1, 2, 3, 4, 5, 6]), ancestors(&map, n[6]));
    assert_eq!(flags(&[0, 1, 2, 3, 4, 5, 6, 7]), ancestors(&map, n[7]));
    assert_eq!(flags(&[12]), ancestors(&map, NodeIndex::new(12)));
}

#[test]
fn the_nearest_ancestor_in_a_set() {
    let (map, n) = diamond();
    assert_eq!(Some(n[7]), compare_ancestors(&map, &flags(&[7]), n[7]));
    assert_eq!(Some(n[6]), compare_ancestors(&map, &flags(&[0, 6]), n[7]));
    assert_eq!(Some(n[3]), compare_ancestors(&map, &flags(&[0, 1, 3]), n[7]));
    assert_eq!(Some(n[1]), compare_ancestors(&map, &flags(&[0, 1]), n[7]));
    assert_eq!(Some(n[0]), compare_ancestors(&map, &flags(&[0]), n[7]));
    assert_eq!(None, compare_ancestors(&map, &flags(&[7]), n[6]));
    assert_eq!(None, compare_ancestors(&map, &flags(&[]), n[7]));
    assert_eq!(None, compare_ancestors(&map, &flags(&[4]), n[5]));
    let stranger = NodeIndex::new(30);
    assert_eq!(Some(stranger), compare_ancestors(&map, &flags(&[30]), stranger));
    assert_eq!(None, compare_ancestors(&map, &flags(&[0, 1]), stranger));
}

#[test]
fn a_flag_in_the_set_counts_whatever_it_says() {
    let (map, n) = diamond();
    let mut set = HashMap::new();
    set.insert(1usize, false);
    assert_eq!(Some(n[1]), compare_ancestors(&map, &set, n[7]));
}

#[test]
fn the_order_of_a_graph_is_its_number_of_nodes() {
    let (map, _) = diamond();
    assert_eq!(8, order_of(&map));
    assert_eq!(0, order_of(&Graph::<&str, i32>::new()));
}
