use airgraph::bfs::{bfs, resolve, traverse, Distance, NodeWithDistanceAndPath};
use airgraph::graph::Graph;

fn node(distance: u128, path: &[&str]) -> NodeWithDistanceAndPath {
    NodeWithDistanceAndPath {
        distance: Distance::Finite(distance),
        path: path.iter().map(|id| id.to_string()).collect(),
    }
}

fn unreachable_node() -> NodeWithDistanceAndPath {
    NodeWithDistanceAndPath { distance: Distance::Infinite, path: vec![] }
}

fn ids(names: &[&str]) -> Vec<String> {
    names.iter().map(|id| id.to_string()).collect()
}

fn chain() -> Graph {
    let mut graph = Graph::new();
    graph.add_route("A", "B", 1);
    graph.add_route("B", "C", 1);
    graph.add_route("C", "D", 1);
    graph
}

#[test]
fn chain_of_four_airports() {
    let graph = chain();
    let result = traverse(&graph, "A");
    assert_eq!(result.len(), 4);
    assert_eq!(result.get("A"), Some(&node(0, &["A"])));
    assert_eq!(result.get("B"), Some(&node(1, &["A", "B"])));
    assert_eq!(result.get("C"), Some(&node(2, &["A", "B", "C"])));
    assert_eq!(result.get("D"), Some(&node(3, &["A", "B", "C", "D"])));
}

#[test]
fn disconnected_pair_is_marked_unreachable() {
    let mut graph = chain();
    graph.add_route("E", "F", 1);
    let mut result = traverse(&graph, "A");
    assert_eq!(result.len(), 4);
    assert!(!result.contains_key("E"));
    assert!(!result.contains_key("F"));
    resolve(&graph, &mut result);
    assert_eq!(result.len(), 6);
    assert_eq!(result.get("E"), Some(&unreachable_node()));
    assert_eq!(result.get("F"), Some(&unreachable_node()));
    assert_eq!(result.get("D"), Some(&node(3, &["A", "B", "C", "D"])));
    let total = bfs(&graph, "A");
    assert_eq!(total.keys(), result.keys());
    assert_eq!(total.get("F"), Some(&unreachable_node()));
}

#[test]
fn source_has_distance_zero_and_itself_as_path() {
    let mut graph = chain();
    graph.add_route("E", "F", 1);
    for source in ["A", "B", "C", "D", "E", "F"] {
        let result = bfs(&graph, source);
        assert_eq!(result.get(source), Some(&node(0, &[source])));
        assert_eq!(result.keys()[0], source);
    }
}

#[test]
fn source_outside_the_graph_is_recorded_alone() {
    let graph = chain();
    let result = traverse(&graph, "Q");
    assert_eq!(result.len(), 1);
    assert_eq!(result.get("Q"), Some(&node(0, &["Q"])));
    let total = bfs(&graph, "Q");
    assert_eq!(total.len(), 5);
    assert_eq!(total.get("Q"), Some(&node(0, &["Q"])));
    for id in ["A", "B", "C", "D"] {
        assert_eq!(total.get(id), Some(&unreachable_node()));
    }
}

#[test]
fn traversal_of_the_empty_graph() {
    let graph = Graph::new();
    let result = bfs(&graph, "A");
    assert_eq!(result.len(), 1);
    assert!(!result.is_empty());
    assert_eq!(result.get("A"), Some(&node(0, &["A"])));
}

#[test]
fn first_discovery_wins_over_lighter_path() {
    let mut graph = Graph::new();
    graph.add_route("A", "B", 10);
    graph.add_route("A", "C", 1);
    graph.add_route("C", "B", 1);
    let result = traverse(&graph, "A");
    assert_eq!(result.get("B"), Some(&node(10, &["A", "B"])));
    assert_eq!(result.get("C"), Some(&node(1, &["A", "C"])));
    assert_eq!(result.keys(), &ids(&["A", "B", "C"]));
}

#[test]
fn nodes_are_expanded_in_the_order_of_discovery() {
    let mut graph = Graph::new();
    graph.add_route("S", "X", 4);
    graph.add_route("S", "Y", 2);
    graph.add_route("Y", "T", 1);
    graph.add_route("X", "T", 1);
    graph.add_route("X", "U", 3);
    let result = traverse(&graph, "S");
    assert_eq!(result.keys(), &ids(&["S", "X", "Y", "T", "U"]));
    assert_eq!(result.get("T"), Some(&node(5, &["S", "X", "T"])));
    assert_eq!(result.get("U"), Some(&node(7, &["S", "X", "U"])));
    assert_eq!(result.get("Y"), Some(&node(2, &["S", "Y"])));
}

#[test]
fn first_of_parallel_edges_gives_the_weight() {
    let mut graph = Graph::new();
    graph.add_route("A", "B", 9);
    graph.add_route("A", "B", 3);
    graph.add_route("B", "C", 1);
    let result = traverse(&graph, "A");
    assert_eq!(result.len(), 3);
    assert_eq!(result.get("B"), Some(&node(9, &["A", "B"])));
    assert_eq!(result.get("C"), Some(&node(10, &["A", "B", "C"])));
}

#[test]
fn self_loop_does_not_change_the_source() {
    let mut graph = Graph::new();
    graph.add_route("A", "A", 0);
    graph.add_route("A", "B", 2);
    let result = traverse(&graph, "A");
    assert_eq!(result.len(), 2);
    assert_eq!(result.get("A"), Some(&node(0, &["A"])));
    assert_eq!(result.get("B"), Some(&node(2, &["A", "B"])));
}

#[test]
fn paths_have_the_fewest_hops() {
    let mut graph = Graph::new();
    graph.add_route("A", "B", 1);
    graph.add_route("B", "C", 1);
    graph.add_route("C", "D", 1);
    graph.add_route("D", "E", 1);
    graph.add_route("A", "E", 100);
    let result = traverse(&graph, "A");
    assert_eq!(result.get("E"), Some(&node(100, &["A", "E"])));
    assert_eq!(result.get("D"), Some(&node(101, &["A", "E", "D"])));
    assert_eq!(result.get("C"), Some(&node(2, &["A", "B", "C"])));
}

#[test]
fn paths_begin_at_the_source_and_end_at_the_node() {
    let mut graph = chain();
    graph.add_route("D", "A", 5);
    graph.add_route("B", "E", 2);
    let result = traverse(&graph, "C");
    for id in result.keys() {
        let record = result.get(id).expect("a key has a record");
        assert_eq!(record.path.first().map(|s| s.as_str()), Some("C"));
        assert_eq!(record.path.last(), Some(id));
    }
    assert_eq!(result.len(), 5);
}

#[test]
fn resolution_covers_the_graph_and_the_source() {
    let mut graph = chain();
    graph.add_route("E", "F", 1);
    graph.add_route("G", "G", 0);
    let result = bfs(&graph, "E");
    assert_eq!(result.len(), graph.len());
    for id in graph.keys() {
        assert!(result.contains_key(id));
    }
    assert_eq!(result.get("F"), Some(&node(1, &["E", "F"])));
    for id in ["A", "B", "C", "D", "G"] {
        assert_eq!(result.get(id), Some(&unreachable_node()));
    }
}

#[test]
fn resolve_leaves_a_total_result_unchanged() {
    let graph = chain();
    let mut result = traverse(&graph, "A");
    let keys_before = result.keys().clone();
    resolve(&graph, &mut result);
    assert_eq!(result.keys(), &keys_before);
    assert_eq!(result.get("D"), Some(&node(3, &["A", "B", "C", "D"])));
}

#[test]
fn distances_add_up_beyond_one_weight() {
    let mut graph = Graph::new();
    graph.add_route("A", "B", u64::MAX);
    graph.add_route("B", "C", u64::MAX);
    let result = traverse(&graph, "A");
    assert_eq!(result.get("C"), Some(&node(2 * (u64::MAX as u128), &["A", "B", "C"])));
}

#[test]
fn traversals_do_not_share_state() {
    let graph = chain();
    let from_a = traverse(&graph, "A");
    let from_d = traverse(&graph, "D");
    assert_eq!(from_a.get("D"), Some(&node(3, &["A", "B", "C", "D"])));
    assert_eq!(from_d.get("A"), Some(&node(3, &["D", "C", "B", "A"])));
    assert_eq!(traverse(&graph, "A").keys(), from_a.keys());
}

#[test]
fn ring_of_many_airports() {
    let count = 2000;
    let mut graph = Graph::new();
    for i in 0..count {
        let from = format!("N{}", i);
        let to = format!("N{}", (i + 1) % count);
        graph.add_route(&from, &to, 3);
    }
    let result = bfs(&graph, "N0");
    assert_eq!(result.len(), count);
    let half = result.get("N1000").expect("every node of the ring is reached");
    assert_eq!(half.distance, Distance::Finite(3000));
    assert_eq!(half.path.len(), 1001);
    assert_eq!(half.path[1], "N1");
    let before = result.get("N1999").expect("every node of the ring is reached");
    assert_eq!(before, &node(3, &["N0", "N1999"]));
    let far = result.get("N1001").expect("every node of the ring is reached");
    assert_eq!(far.distance, Distance::Finite(2997));
    assert_eq!(far.path.len(), 1000);
}

#[test]
fn star_is_discovered_in_the_order_of_the_edges() {
    let mut graph = Graph::new();
    let names = ["K", "C", "X", "A", "M"];
    for (weight, name) in names.iter().enumerate() {
        graph.add_route("HUB", name, weight as u64);
    }
    let result = traverse(&graph, "HUB");
    assert_eq!(result.keys(), &ids(&["HUB", "K", "C", "X", "A", "M"]));
    let from_leaf = traverse(&graph, "X");
    assert_eq!(from_leaf.keys(), &ids(&["X", "HUB", "K", "C", "A", "M"]));
    assert_eq!(from_leaf.get("M"), Some(&node(6, &["X", "HUB", "M"])));
}

#[test]
fn clone_of_a_record_is_equal_to_it() {
    let graph = chain();
    let result = traverse(&graph, "A");
    let record = result.get("C").expect("C is reached");
    let copy = record.clone();
    assert_eq!(&copy, record);
    assert_eq!(copy, node(2, &["A", "B", "C"]));
}
