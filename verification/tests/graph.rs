use longest_path_rs::{Edge, Graph, Node};
use std::collections::HashSet;

fn graph_of(labels: &[&str], edges: &[(u32, u32, u64)], undirected: bool) -> Graph {
    let mut nodes: Vec<Node> = Vec::new();
    for (i, label) in labels.iter().enumerate() {
        nodes.push(Node { id: i as u32, edges: Vec::new(), label: label.to_string() });
    }
    for &(from, to, cost) in edges {
        nodes[from as usize].edges.push(Edge { to, cost });
        if undirected {
            nodes[to as usize].edges.push(Edge { to: from, cost });
        }
    }
    Graph { node_count: nodes.len() as u32, nodes }
}

#[test]
fn find_node_id_finds_each_label() {
    let graph = graph_of(&["A", "B", "C"], &[], false);
    assert_eq!(graph.find_node_id("A"), Some(0));
    assert_eq!(graph.find_node_id("B"), Some(1));
    assert_eq!(graph.find_node_id("C"), Some(2));
}

#[test]
fn find_node_id_of_an_unknown_label_is_none() {
    let graph = graph_of(&["A", "B"], &[], false);
    assert_eq!(graph.find_node_id("Z"), None);
    assert_eq!(graph.find_node_id(""), None);
    assert_eq!(graph.find_node_id("a"), None);
    assert_eq!(graph.find_node_id("AB"), None);
}

#[test]
fn find_node_id_takes_the_earliest_of_equal_labels() {
    let graph = graph_of(&["A", "B", "A", "B"], &[], false);
    assert_eq!(graph.find_node_id("A"), Some(0));
    assert_eq!(graph.find_node_id("B"), Some(1));
}

#[test]
fn find_node_id_returns_the_identifier_the_node_carries() {
    let mut graph = graph_of(&["A", "B"], &[], false);
    graph.nodes[1].id = 7;
    assert_eq!(graph.find_node_id("B"), Some(7));
}

#[test]
fn find_neighbor_id_set_holds_each_destination_once() {
    let graph = graph_of(
        &["A", "B", "C", "D"],
        &[(0, 1, 1), (0, 2, 1), (0, 1, 5), (3, 0, 2)],
        false,
    );
    assert_eq!(graph.find_neighbor_id_set(0), HashSet::from([1, 2]));
    assert_eq!(graph.find_neighbor_id_set(1), HashSet::new());
    assert_eq!(graph.find_neighbor_id_set(3), HashSet::from([0]));
}

#[test]
fn well_formed_graphs_are_recognised() {
    let graph = graph_of(&["A", "B", "C"], &[(0, 1, 1), (1, 2, 2)], true);
    assert!(graph.is_well_formed());
    assert!(graph_of(&[], &[], false).is_well_formed());
}

#[test]
fn ill_formed_graphs_are_recognised() {
    let mut wrong_count = graph_of(&["A", "B"], &[(0, 1, 1)], true);
    wrong_count.node_count = 3;
    assert!(!wrong_count.is_well_formed());

    let mut wrong_id = graph_of(&["A", "B"], &[(0, 1, 1)], true);
    wrong_id.nodes[1].id = 0;
    assert!(!wrong_id.is_well_formed());

    let mut dangling = graph_of(&["A", "B"], &[(0, 1, 1)], true);
    dangling.nodes[1].edges.push(Edge { to: 2, cost: 1 });
    assert!(!dangling.is_well_formed());
}

#[test]
fn total_cost_sums_every_edge_record() {
    let graph = graph_of(
        &["A", "B", "C", "D"],
        &[(0, 1, 1), (1, 2, 2), (2, 3, 3), (3, 0, 4), (0, 2, 5)],
        true,
    );
    assert_eq!(graph.total_cost(), Some(30));
    assert_eq!(graph_of(&["A"], &[], false).total_cost(), Some(0));
    let one_way = graph_of(&["A", "B"], &[(0, 1, u64::MAX)], false);
    assert_eq!(one_way.total_cost(), Some(u64::MAX));
}

#[test]
fn total_cost_beyond_u64_is_none() {
    let graph = graph_of(&["A", "B", "C"], &[(0, 1, u64::MAX), (1, 2, 1)], false);
    assert_eq!(graph.total_cost(), None);
    let both_ways = graph_of(&["A", "B"], &[(0, 1, u64::MAX / 2 + 1)], true);
    assert_eq!(both_ways.total_cost(), None);
}
