use longest_path_rs::parallel::{branch_step, raises, BranchStep};
use longest_path_rs::{Edge, Graph, Node, Path};
use std::collections::HashSet;

fn graph_of(labels: &[&str], edges: &[(u32, u32, u64)], undirected: bool) -> Graph {
    let mut nodes: Vec<Node> = Vec::new();
    for (i, label) in labels.iter().enumerate() {
        nodes.push(Node { id: i as u32, edges: Vec::new(), label: label.to_string() });
    }
    for &(from, to, cost) in edges {
        nodes[from as usize].edges.push(Edge { to, cost });
        if undirected {
            nodes[to as usize].edges.push(Edge { to: from, cost });
        }
    }
    Graph { node_count: nodes.len() as u32, nodes }
}

/// A-B 1, B-C 2, C-D 3, D-A 4, A-C 5, edges both ways.
fn square_with_diagonal() -> Graph {
    graph_of(
        &["A", "B", "C", "D"],
        &[(0, 1, 1), (1, 2, 2), (2, 3, 3), (3, 0, 4), (0, 2, 5)],
        true,
    )
}

fn assert_is_empty(path: &Path) {
    assert!(path.node_ids.is_empty());
    assert!(path.node_id_set.is_empty());
    assert_eq!(path.distance_sum, 0);
}

fn assert_mirror_matches(path: &Path) {
    let set: HashSet<u32> = path.node_ids.iter().copied().collect();
    assert_eq!(set, path.node_id_set);
    assert_eq!(set.len(), path.node_ids.len());
}

/// The minimum over the edges from `a` to `b`, summed along the path, is a
/// lower bound, and the maximum an upper bound, of a distance that is a sum
/// of edges joining the nodes.
fn assert_distance_is_edge_sum(graph: &Graph, path: &Path) {
    let mut least: u64 = 0;
    let mut most: u64 = 0;
    for pair in path.node_ids.windows(2) {
        let costs: Vec<u64> = graph.nodes[pair[0] as usize]
            .edges
            .iter()
            .filter(|e| e.to == pair[1])
            .map(|e| e.cost)
            .collect();
        assert!(!costs.is_empty());
        least += costs.iter().min().unwrap();
        most += costs.iter().max().unwrap();
    }
    assert!(least <= path.distance_sum && path.distance_sum <= most);
}

#[test]
fn default_path_is_empty() {
    let path = Path::default();
    assert_is_empty(&path);
}

#[test]
fn cloned_path_is_equal() {
    let graph = square_with_diagonal();
    let path = graph.find_longest_path(0);
    let copy = path.clone();
    assert_eq!(copy.node_ids, path.node_ids);
    assert_eq!(copy.node_id_set, path.node_id_set);
    assert_eq!(copy.distance_sum, path.distance_sum);
}

#[test]
fn single_edge_search_to_returns_both_nodes() {
    let graph = graph_of(&["A", "B"], &[(0, 1, 5)], true);
    let path = graph.find_longest_path_to(0, 1);
    assert_eq!(path.node_ids, vec![0, 1]);
    assert_eq!(path.distance_sum, 5);
    assert_mirror_matches(&path);
}

#[test]
fn single_edge_search_from_returns_both_nodes() {
    let graph = graph_of(&["A", "B"], &[(0, 1, 5)], true);
    let path = graph.find_longest_path(1);
    assert_eq!(path.node_ids, vec![1, 0]);
    assert_eq!(path.distance_sum, 5);
}

#[test]
fn triangle_search_from_takes_the_detour() {
    let graph = graph_of(&["A", "B", "C"], &[(0, 1, 1), (1, 2, 2), (0, 2, 10)], true);
    let path = graph.find_longest_path(0);
    assert_eq!(path.node_ids, vec![0, 2, 1]);
    assert_eq!(path.distance_sum, 12);
    assert_mirror_matches(&path);
}

#[test]
fn triangle_search_to_each_node() {
    let graph = graph_of(&["A", "B", "C"], &[(0, 1, 1), (1, 2, 2), (0, 2, 10)], true);
    let to_b = graph.find_longest_path_to(0, 1);
    assert_eq!(to_b.node_ids, vec![0, 2, 1]);
    assert_eq!(to_b.distance_sum, 12);
    let to_c = graph.find_longest_path_to(0, 2);
    assert_eq!(to_c.node_ids, vec![0, 2]);
    assert_eq!(to_c.distance_sum, 10);
}

#[test]
fn square_search_from_finds_nine() {
    let graph = square_with_diagonal();
    let path = graph.find_longest_path(0);
    assert_eq!(path.node_ids, vec![0, 3, 2, 1]);
    assert_eq!(path.distance_sum, 9);
}

#[test]
fn square_search_to_finds_the_longest_into_each_target() {
    let graph = square_with_diagonal();
    let to_c = graph.find_longest_path_to(0, 2);
    assert_eq!(to_c.node_ids, vec![0, 3, 2]);
    assert_eq!(to_c.distance_sum, 7);
    let to_d = graph.find_longest_path_to(0, 3);
    assert_eq!(to_d.node_ids, vec![0, 2, 3]);
    assert_eq!(to_d.distance_sum, 8);
    let to_b = graph.find_longest_path_to(0, 1);
    assert_eq!(to_b.node_ids, vec![0, 3, 2, 1]);
    assert_eq!(to_b.distance_sum, 9);
}

#[test]
fn unreachable_target_gives_the_empty_path() {
    let graph = graph_of(&["A", "B", "C", "D"], &[(0, 1, 3), (2, 3, 4)], true);
    assert_is_empty(&graph.find_longest_path_to(0, 3));
    assert_is_empty(&graph.find_longest_path_to_paralell(0, 3));
}

#[test]
fn isolated_root_gives_the_empty_path() {
    let graph = graph_of(&["A", "B", "C"], &[(1, 2, 4)], true);
    assert_is_empty(&graph.find_longest_path(0));
}

#[test]
fn target_equal_to_root_gives_the_empty_path() {
    let graph = square_with_diagonal();
    assert_is_empty(&graph.find_longest_path_to(2, 2));
    assert_is_empty(&graph.find_longest_path_to_paralell(2, 2));
}

#[test]
fn path_of_cost_zero_is_not_kept() {
    let graph = graph_of(&["A", "B"], &[(0, 1, 0)], true);
    assert_is_empty(&graph.find_longest_path_to(0, 1));
    assert_is_empty(&graph.find_longest_path(0));
}

#[test]
fn search_does_not_pass_through_the_target() {
    // A-B 1, B-C 1, C-A 10: the long way into B is A-C-B; into C, the
    // search may not go through C and come back.
    let graph = graph_of(&["A", "B", "C", "D"], &[(0, 1, 1), (1, 2, 1), (2, 3, 50), (3, 0, 1)], true);
    let path = graph.find_longest_path_to(0, 2);
    assert_eq!(path.node_ids, vec![0, 3, 2]);
    assert_eq!(path.distance_sum, 51);
}

#[test]
fn pruning_cuts_detours_once_all_neighbours_of_the_target_are_touched() {
    // One-way edges R -> A -> T. T has no neighbours, so every path has
    // touched them all, and only an edge into T is followed: none from R.
    let graph = graph_of(&["R", "A", "T"], &[(0, 1, 1), (1, 2, 1)], false);
    assert_is_empty(&graph.find_longest_path_to(0, 2));
    // From A the edge into T is followed.
    let path = graph.find_longest_path_to(1, 2);
    assert_eq!(path.node_ids, vec![1, 2]);
    assert_eq!(path.distance_sum, 1);
    // The search without a target is not pruned.
    let free = graph.find_longest_path(0);
    assert_eq!(free.node_ids, vec![0, 1, 2]);
    assert_eq!(free.distance_sum, 2);
}

#[test]
fn directed_edges_are_followed_one_way() {
    let graph = graph_of(&["A", "B", "C"], &[(0, 1, 2), (1, 2, 3), (2, 0, 7)], false);
    let path = graph.find_longest_path(1);
    assert_eq!(path.node_ids, vec![1, 2, 0]);
    assert_eq!(path.distance_sum, 10);
}

#[test]
fn equal_paths_into_different_nodes_the_lowest_node_wins() {
    // A's edges lead to C first, then to B, both at cost 3.
    let graph = graph_of(&["A", "B", "C"], &[(0, 2, 3), (0, 1, 3)], false);
    let path = graph.find_longest_path(0);
    assert_eq!(path.node_ids, vec![0, 1]);
    assert_eq!(path.distance_sum, 3);
}

#[test]
fn equal_paths_into_one_node_the_first_found_wins() {
    // A-B-D costs 1 + 2, A-C-D costs 2 + 1; A's edge to B comes first.
    let graph = graph_of(
        &["A", "B", "C", "D"],
        &[(0, 1, 1), (0, 2, 2), (1, 3, 2), (2, 3, 1)],
        true,
    );
    let path = graph.find_longest_path_to(0, 3);
    assert_eq!(path.node_ids, vec![0, 1, 3]);
    assert_eq!(path.distance_sum, 3);
    // With A's edge to C first, the path through C is found first.
    let graph = graph_of(
        &["A", "B", "C", "D"],
        &[(0, 2, 2), (0, 1, 1), (1, 3, 2), (2, 3, 1)],
        true,
    );
    let path = graph.find_longest_path_to(0, 3);
    assert_eq!(path.node_ids, vec![0, 2, 3]);
    assert_eq!(path.distance_sum, 3);
    let free = graph.find_longest_path(0);
    assert_eq!(free.node_ids, vec![0, 2, 3, 1]);
    assert_eq!(free.distance_sum, 5);
}

#[test]
fn of_parallel_edges_the_costliest_counts() {
    let graph = graph_of(&["A", "B"], &[(0, 1, 1), (0, 1, 9), (0, 1, 4)], false);
    let path = graph.find_longest_path_to(0, 1);
    assert_eq!(path.node_ids, vec![0, 1]);
    assert_eq!(path.distance_sum, 9);
    assert_eq!(graph.find_longest_path(0).distance_sum, 9);
    assert_eq!(graph.find_longest_path_to_paralell(0, 1).distance_sum, 9);
}

#[test]
fn self_loops_are_never_followed() {
    let graph = graph_of(&["A", "B"], &[(0, 0, 100), (0, 1, 2), (1, 1, 100)], false);
    let path = graph.find_longest_path(0);
    assert_eq!(path.node_ids, vec![0, 1]);
    assert_eq!(path.distance_sum, 2);
}

fn complete_graph(n: u32) -> Graph {
    let labels: Vec<String> = (0..n).map(|i| format!("n{}", i)).collect();
    let names: Vec<&str> = labels.iter().map(|s| s.as_str()).collect();
    let mut edges: Vec<(u32, u32, u64)> = Vec::new();
    for a in 0..n {
        for b in (a + 1)..n {
            edges.push((a, b, ((a * 7 + b * 13) % 10 + 1) as u64));
        }
    }
    graph_of(&names, &edges, true)
}

#[test]
fn returned_paths_repeat_no_node() {
    let graph = complete_graph(6);
    for root in 0..6 {
        let free = graph.find_longest_path(root);
        assert_mirror_matches(&free);
        assert_eq!(free.node_ids.first(), Some(&root));
        for target in 0..6 {
            let path = graph.find_longest_path_to(root, target);
            assert_mirror_matches(&path);
            if root == target {
                assert_is_empty(&path);
            } else {
                assert_eq!(path.node_ids.first(), Some(&root));
                assert_eq!(path.node_ids.last(), Some(&target));
                assert!(path.distance_sum <= free.distance_sum);
            }
        }
    }
}

#[test]
fn distance_is_the_sum_of_the_edges_walked() {
    let graph = complete_graph(6);
    for root in 0..6 {
        assert_distance_is_edge_sum(&graph, &graph.find_longest_path(root));
        for target in 0..6 {
            assert_distance_is_edge_sum(&graph, &graph.find_longest_path_to(root, target));
            assert_distance_is_edge_sum(&graph, &graph.find_longest_path_to_paralell(root, target));
        }
    }
}

#[test]
fn searching_twice_gives_the_same_path() {
    let graph = complete_graph(6);
    let first = graph.find_longest_path(2);
    let second = graph.find_longest_path(2);
    assert_eq!(first.node_ids, second.node_ids);
    assert_eq!(first.distance_sum, second.distance_sum);
    let first = graph.find_longest_path_to(2, 4);
    let second = graph.find_longest_path_to(2, 4);
    assert_eq!(first.node_ids, second.node_ids);
    assert_eq!(first.distance_sum, second.distance_sum);
}

/// The longest simple path from `node` to `target` by plain enumeration,
/// without any pruning.
fn longest_by_enumeration(graph: &Graph, node: u32, target: u32, seen: &mut Vec<u32>) -> Option<u64> {
    if node == target {
        return Some(0);
    }
    seen.push(node);
    let mut best: Option<u64> = None;
    for edge in &graph.nodes[node as usize].edges {
        if seen.contains(&edge.to) {
            continue;
        }
        if let Some(rest) = longest_by_enumeration(graph, edge.to, target, seen) {
            let total = rest + edge.cost;
            if best.map_or(true, |b| b < total) {
                best = Some(total);
            }
        }
    }
    seen.pop();
    best
}

#[test]
fn pruning_loses_nothing_where_edges_run_both_ways() {
    let graph = complete_graph(6);
    let square = square_with_diagonal();
    for (graph, n) in [(&graph, 6u32), (&square, 4u32)] {
        for root in 0..n {
            for target in 0..n {
                if root == target {
                    continue;
                }
                let expected = longest_by_enumeration(graph, root, target, &mut Vec::new());
                let path = graph.find_longest_path_to(root, target);
                assert_eq!(Some(path.distance_sum), expected);
            }
        }
    }
}

#[test]
fn parallel_search_finds_the_same_distance() {
    let graph = graph_of(
        &["A", "B", "C", "D"],
        &[(0, 1, 1), (1, 2, 2), (0, 2, 10), (2, 3, 4), (1, 3, 7), (0, 3, 1)],
        true,
    );
    let sequential = graph.find_longest_path_to(0, 3);
    let parallel = graph.find_longest_path_to_paralell(0, 3);
    assert_eq!(sequential.node_ids, vec![0, 2, 1, 3]);
    assert_eq!(sequential.distance_sum, 19);
    assert_eq!(parallel.distance_sum, sequential.distance_sum);
    assert_eq!(parallel.node_ids.first(), Some(&0));
    assert_eq!(parallel.node_ids.last(), Some(&3));
    assert_mirror_matches(&parallel);
}

#[test]
fn parallel_search_agrees_with_sequential_search_on_every_pair() {
    let graph = complete_graph(6);
    for _ in 0..3 {
        for root in 0..6 {
            for target in 0..6 {
                let sequential = graph.find_longest_path_to(root, target);
                let (parallel, rejected) = graph.find_longest_path_to_paralell_counting(root, target);
                assert_eq!(parallel.distance_sum, sequential.distance_sum);
                assert_mirror_matches(&parallel);
                if root != target {
                    assert_eq!(parallel.node_ids.first(), Some(&root));
                    assert_eq!(parallel.node_ids.last(), Some(&target));
                }
                // 5 further nodes in any order: at most 65 simple paths reach the target.
                assert!(rejected <= 65);
            }
        }
    }
}

fn path_of(node_ids: &[u32], distance_sum: u64) -> Path {
    Path {
        node_ids: node_ids.to_vec(),
        node_id_set: node_ids.iter().copied().collect(),
        distance_sum,
    }
}

#[test]
fn collector_keeps_the_first_of_the_longest() {
    let candidates = vec![
        path_of(&[0, 1], 3),
        path_of(&[0, 2], 5),
        path_of(&[0, 3], 5),
        path_of(&[0, 4], 2),
        path_of(&[0, 5], 7),
        path_of(&[0, 6], 7),
    ];
    let (kept, late) = longest_path_rs::parallel::collect_longest(candidates);
    assert_eq!(kept.node_ids, vec![0, 5]);
    assert_eq!(kept.distance_sum, 7);
    assert_eq!(late, 3);
}

#[test]
fn collector_keeps_nothing_of_distance_zero() {
    let (kept, late) = longest_path_rs::parallel::collect_longest(vec![path_of(&[4], 0)]);
    assert_is_empty(&kept);
    assert_eq!(late, 1);
    let (kept, late) = longest_path_rs::parallel::collect_longest(Vec::new());
    assert_is_empty(&kept);
    assert_eq!(late, 0);
}

#[test]
fn parallel_search_on_the_triangle_takes_the_detour() {
    let graph = graph_of(&["A", "B", "C"], &[(0, 1, 1), (1, 2, 2), (0, 2, 10)], true);
    for _ in 0..20 {
        let path = graph.find_longest_path_to_paralell(0, 1);
        assert_eq!(path.node_ids, vec![0, 2, 1]);
        assert_eq!(path.distance_sum, 12);
        assert_mirror_matches(&path);
    }
}

#[test]
fn parallel_search_finds_a_longest_among_equal_paths() {
    // A-B-D costs 1 + 2, A-C-D costs 2 + 1: either may be kept.
    let graph = graph_of(
        &["A", "B", "C", "D"],
        &[(0, 1, 1), (0, 2, 2), (1, 3, 2), (2, 3, 1)],
        true,
    );
    for _ in 0..20 {
        let (path, faults) = graph.find_longest_path_to_paralell_counting(0, 3);
        assert_eq!(path.distance_sum, 3);
        assert!(path.node_ids == vec![0, 1, 3] || path.node_ids == vec![0, 2, 3]);
        assert_eq!(faults, 0);
    }
}

#[test]
fn parallel_search_obeys_the_pruning_rule() {
    let graph = graph_of(&["R", "A", "T"], &[(0, 1, 1), (1, 2, 1)], false);
    assert_is_empty(&graph.find_longest_path_to_paralell(0, 2));
    let path = graph.find_longest_path_to_paralell(1, 2);
    assert_eq!(path.node_ids, vec![1, 2]);
    assert_eq!(path.distance_sum, 1);
}

fn branches_of(step: BranchStep) -> Vec<(u32, Vec<u32>, u64)> {
    match step {
        BranchStep::GoesOn(next) => {
            for (_, path) in &next {
                assert_mirror_matches(path);
            }
            next.into_iter().map(|(node, path)| (node, path.node_ids, path.distance_sum)).collect()
        }
        BranchStep::Arrived(_) => panic!("the branch has arrived"),
    }
}

#[test]
fn branch_goes_on_along_each_edge_to_a_fresh_node() {
    let graph = square_with_diagonal();
    let neighbors = graph.find_neighbor_id_set(2);
    let step = branch_step(&graph, 2, &neighbors, 0, Path::default());
    assert_eq!(
        branches_of(step),
        vec![(1, vec![0], 1), (3, vec![0], 4), (2, vec![0], 5)]
    );
    // From B, with A behind: A is on the path, C is fresh.
    let step = branch_step(&graph, 3, &graph.find_neighbor_id_set(3), 1, path_of(&[0], 1));
    assert_eq!(branches_of(step), vec![(2, vec![0, 1], 3)]);
}

#[test]
fn branch_goes_on_to_the_target_only_once_its_neighbours_are_touched() {
    let graph = square_with_diagonal();
    // The neighbours of D are C and A; in C, coming from A, both are touched.
    let neighbors = graph.find_neighbor_id_set(3);
    let step = branch_step(&graph, 3, &neighbors, 2, path_of(&[0], 5));
    assert_eq!(branches_of(step), vec![(3, vec![0, 2], 8)]);
    // In B, coming from A, C is not touched yet.
    let step = branch_step(&graph, 3, &neighbors, 1, path_of(&[0], 1));
    assert_eq!(branches_of(step), vec![(2, vec![0, 1], 3)]);
}

#[test]
fn branch_without_a_way_on_goes_on_in_no_branch() {
    let graph = graph_of(&["A", "B", "C"], &[(0, 1, 1)], true);
    let step = branch_step(&graph, 2, &graph.find_neighbor_id_set(2), 1, path_of(&[0], 1));
    assert_eq!(branches_of(step), vec![]);
}

#[test]
fn branch_arrives_at_the_target() {
    let graph = square_with_diagonal();
    let neighbors = graph.find_neighbor_id_set(2);
    match branch_step(&graph, 2, &neighbors, 2, path_of(&[0, 3], 7)) {
        BranchStep::Arrived(path) => {
            assert_eq!(path.node_ids, vec![0, 3, 2]);
            assert_eq!(path.distance_sum, 7);
            assert_mirror_matches(&path);
        }
        BranchStep::GoesOn(_) => panic!("the branch goes on"),
    }
}

#[test]
fn a_branch_sends_its_path_where_it_raised_the_shared_distance() {
    assert!(raises(0, 1));
    assert!(raises(4, 5));
    assert!(!raises(5, 5));
    assert!(!raises(6, 5));
    assert!(!raises(0, 0));
    assert!(raises(u64::MAX - 1, u64::MAX));
}
