use longest_path_rs::edge_list::GraphError;
use longest_path_rs::Graph;

fn edges_of(graph: &Graph, node: usize) -> Vec<(u32, u64)> {
    graph.nodes[node].edges.iter().map(|e| (e.to, e.cost)).collect()
}

fn labels_of(graph: &Graph) -> Vec<String> {
    graph.nodes.iter().map(|n| n.label.clone()).collect()
}

#[test]
fn directed_records_give_one_edge_each() {
    let graph = Graph::from_json_directed(r#"[["A","B",5],["B","C",7],["A","C",1]]"#).unwrap();
    assert_eq!(graph.node_count, 3);
    assert_eq!(labels_of(&graph), vec!["A", "B", "C"]);
    assert_eq!(graph.nodes.iter().map(|n| n.id).collect::<Vec<u32>>(), vec![0, 1, 2]);
    assert_eq!(edges_of(&graph, 0), vec![(1, 5), (2, 1)]);
    assert_eq!(edges_of(&graph, 1), vec![(2, 7)]);
    assert_eq!(edges_of(&graph, 2), vec![]);
    assert!(graph.is_well_formed());
}

#[test]
fn undirected_records_give_two_edges_each() {
    let graph = Graph::from_json_undirected(r#"[["A","B",5],["C","A",7]]"#).unwrap();
    assert_eq!(graph.node_count, 3);
    assert_eq!(labels_of(&graph), vec!["A", "B", "C"]);
    assert_eq!(edges_of(&graph, 0), vec![(1, 5), (2, 7)]);
    assert_eq!(edges_of(&graph, 1), vec![(0, 5)]);
    assert_eq!(edges_of(&graph, 2), vec![(0, 7)]);
    assert!(graph.is_well_formed());
}

#[test]
fn identifiers_follow_first_occurrence() {
    let graph = Graph::from_json_directed(r#"[["x","y",1],["z","x",1],["y","w",1]]"#).unwrap();
    assert_eq!(labels_of(&graph), vec!["x", "y", "z", "w"]);
    assert_eq!(graph.find_node_id("x"), Some(0));
    assert_eq!(graph.find_node_id("y"), Some(1));
    assert_eq!(graph.find_node_id("z"), Some(2));
    assert_eq!(graph.find_node_id("w"), Some(3));
    assert_eq!(edges_of(&graph, 2), vec![(0, 1)]);
}

#[test]
fn empty_list_gives_the_empty_graph() {
    let graph = Graph::from_json_undirected("[]").unwrap();
    assert_eq!(graph.node_count, 0);
    assert!(graph.nodes.is_empty());
    let graph = Graph::from_json_directed(" [ ] ").unwrap();
    assert_eq!(graph.node_count, 0);
}

#[test]
fn record_with_one_new_label_twice_enters_one_node() {
    let graph = Graph::from_json_undirected(r#"[["A","A",1]]"#).unwrap();
    assert_eq!(graph.node_count, 1);
    assert_eq!(labels_of(&graph), vec!["A"]);
    assert_eq!(edges_of(&graph, 0), vec![(0, 1), (0, 1)]);
    assert!(graph.is_well_formed());

    let graph = Graph::from_json_directed(r#"[["A","A",1],["A","B",2]]"#).unwrap();
    assert_eq!(graph.node_count, 2);
    assert_eq!(labels_of(&graph), vec!["A", "B"]);
    assert_eq!(edges_of(&graph, 0), vec![(0, 1), (1, 2)]);
    assert_eq!(edges_of(&graph, 1), vec![]);
    assert_eq!(graph.find_node_id("A"), Some(0));
    assert_eq!(graph.find_node_id("B"), Some(1));
}

#[test]
fn each_label_gets_one_node() {
    let graph = Graph::from_json_undirected(
        r#"[["B","B",3],["A","B",1],["C","C",2],["C","A",4],["A","A",5]]"#,
    )
    .unwrap();
    assert_eq!(labels_of(&graph), vec!["B", "A", "C"]);
    assert_eq!(edges_of(&graph, 0), vec![(0, 3), (0, 3), (1, 1)]);
    assert_eq!(edges_of(&graph, 1), vec![(0, 1), (2, 4), (1, 5), (1, 5)]);
    assert_eq!(edges_of(&graph, 2), vec![(2, 2), (2, 2), (1, 4)]);
}

#[test]
fn record_with_one_known_label_twice_is_a_self_loop() {
    let graph = Graph::from_json_undirected(r#"[["A","B",1],["B","B",4]]"#).unwrap();
    assert_eq!(graph.node_count, 2);
    assert_eq!(edges_of(&graph, 1), vec![(0, 1), (1, 4), (1, 4)]);
}

#[test]
fn repeated_records_give_parallel_edges() {
    let graph = Graph::from_json_directed(r#"[["A","B",1],["A","B",9]]"#).unwrap();
    assert_eq!(edges_of(&graph, 0), vec![(1, 1), (1, 9)]);
}

#[test]
fn labels_may_be_any_strings() {
    let graph = Graph::from_json_directed(r#"[["", "a b", 0], ["é\n", "", 18446744073709551615]]"#)
        .unwrap();
    assert_eq!(labels_of(&graph), vec!["", "a b", "\u{e9}\n"]);
    assert_eq!(edges_of(&graph, 2), vec![(0, u64::MAX)]);
    assert_eq!(graph.find_node_id("a b"), Some(1));
}

#[test]
fn text_that_is_not_json_is_refused() {
    assert!(matches!(Graph::from_json_directed("not json"), Err(GraphError::Json(_))));
    assert!(matches!(Graph::from_json_undirected(""), Err(GraphError::Json(_))));
    assert!(matches!(Graph::from_json_undirected("[[\"A\",\"B\",1]"), Err(GraphError::Json(_))));
}

#[test]
fn records_of_another_shape_are_refused() {
    assert!(matches!(Graph::from_json_directed(r#"[["A","B"]]"#), Err(GraphError::Json(_))));
    assert!(matches!(Graph::from_json_directed(r#"[["A","B",1,2]]"#), Err(GraphError::Json(_))));
    assert!(matches!(Graph::from_json_directed(r#"[["A","B",-1]]"#), Err(GraphError::Json(_))));
    assert!(matches!(Graph::from_json_directed(r#"[["A","B",1.5]]"#), Err(GraphError::Json(_))));
    assert!(matches!(Graph::from_json_directed(r#"[["A",2,1]]"#), Err(GraphError::Json(_))));
    assert!(matches!(
        Graph::from_json_directed(r#"[["A","B",18446744073709551616]]"#),
        Err(GraphError::Json(_))
    ));
    assert!(matches!(Graph::from_json_undirected(r#"{"A":"B"}"#), Err(GraphError::Json(_))));
}

#[test]
fn records_build_the_same_graph_as_their_json() {
    let records = vec![
        ("A".to_string(), "B".to_string(), 5u64),
        ("B".to_string(), "C".to_string(), 7u64),
    ];
    let graph = Graph::from_edges_undirected(&records).unwrap();
    let read = Graph::from_json_undirected(r#"[["A","B",5],["B","C",7]]"#).unwrap();
    assert_eq!(labels_of(&graph), labels_of(&read));
    for node in 0..3 {
        assert_eq!(edges_of(&graph, node), edges_of(&read, node));
    }
    let one_way = Graph::from_edges_directed(&records).unwrap();
    assert_eq!(edges_of(&one_way, 1), vec![(2, 7)]);
    assert_eq!(edges_of(&one_way, 2), vec![]);
}

#[test]
fn graph_read_from_json_is_searched() {
    let graph = Graph::from_json_undirected(r#"[["A","B",1],["B","C",2],["A","C",10]]"#).unwrap();
    let root = graph.find_node_id("A").unwrap();
    let target = graph.find_node_id("B").unwrap();
    assert_eq!(graph.total_cost(), Some(26));
    let path = graph.find_longest_path_to(root, target);
    let labels: Vec<&str> =
        path.node_ids.iter().map(|id| graph.nodes[*id as usize].label.as_str()).collect();
    assert_eq!(labels, vec!["A", "C", "B"]);
    assert_eq!(path.distance_sum, 12);
}
