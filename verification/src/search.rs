//! The sequential search engine: depth-first backtracking over the simple
//! paths from a root, with a table of the best path found into each node.

use crate::best::{
    is_first_longest, is_longest_ending_at, lemma_seen_at_target, lemma_seen_first_edge,
    lemma_table_after_all_edges, lemma_table_after_branch, lemma_table_after_skipped_edge,
    lemma_table_final, lemma_table_passes_by, lemma_table_visit, paths_after_visit,
    table_is_best, walks_after_visit,
};
use crate::graph::Graph;
use crate::path::{
    clone_id_set, ids_of_set, lemma_to_set_drop_last, lemma_to_set_push, Path, PathView,
};
use crate::walk::{
    admissible, costs_fit, edge_after, is_path_of_graph, lemma_admissible_in_graph,
    lemma_admissible_short, lemma_admissible_simple, lemma_walk_nodes,
    lemma_walk_path_is_path_of_graph, path_of_walk, seen, step_allowed, touches_all_neighbors,
    walk_cost, walk_end, walk_nodes, Goal,
};
use std::collections::HashSet;
use vstd::prelude::*;

verus! {

broadcast use vstd::std_specs::hash::group_hash_axioms;

/// What `find_longest_path` returns: the empty path where every simple path
/// from the root costs nothing; else the path of a costliest explored walk,
/// which ends in the lowest node that a costliest walk ends in and is the
/// first of the costliest walks into that node.
pub open spec fn is_longest_from(g: crate::graph::GraphView, root: nat, path: PathView) -> bool {
    if path.distance_sum == 0 {
        &&& path == PathView::empty()
        &&& forall|o: Seq<int>| #[trigger]
            admissible(g, root, Goal::Anywhere, o) ==> walk_cost(g, root, o) == 0
    } else {
        exists|w: Seq<int>|
            {
                &&& #[trigger] is_first_longest(g, root, Goal::Anywhere, walk_end(g, root, w), w)
                &&& path == path_of_walk(g, root, w)
                &&& forall|o: Seq<int>| #[trigger]
                    admissible(g, root, Goal::Anywhere, o) ==> {
                        &&& walk_cost(g, root, o) <= walk_cost(g, root, w)
                        &&& walk_cost(g, root, o) == walk_cost(g, root, w) ==> walk_end(g, root, w)
                            <= walk_end(g, root, o)
                    }
            }
    }
}

/// What `find_longest_path_to` returns: the empty path where every explored
/// walk into the target costs nothing (none may exist); else the path of the
/// first of the costliest explored walks into the target.
pub open spec fn is_longest_to(
    g: crate::graph::GraphView,
    root: nat,
    target: nat,
    path: PathView,
) -> bool {
    is_longest_ending_at(g, root, Goal::Target { node: target, pruned: true }, target, path)
}

/// The state of one search: the graph, the nodes on the path in progress,
/// and the best path found so far into each node.
struct LongestPathFinder<'a> {
    graph: &'a Graph,
    visited_nodes: HashSet<u32>,
    longest_paths: Vec<Path>,
    best_walks: Ghost<Seq<Seq<int>>>,
}

impl<'a> LongestPathFinder<'a> {
    /// The table of best paths, as values.
    spec fn table(&self) -> Seq<PathView> {
        Seq::new(self.longest_paths@.len(), |v: int| self.longest_paths@[v]@)
    }

    /// The finder as `new` makes it: nothing visited, every entry empty.
    spec fn is_fresh_for(&self, graph: &Graph) -> bool {
        &&& self.graph == graph
        &&& self.visited_nodes@ == Set::<u32>::empty()
        &&& self.table().len() == graph@.nodes.len()
        &&& self.best_walks@.len() == graph@.nodes.len()
        &&& forall|v: int| 0 <= v < self.table().len() ==> #[trigger] self.table()[v] == PathView::empty()
    }

    /// A finder with an empty entry for each node of the graph.
    fn new(graph: &'a Graph) -> (finder: LongestPathFinder<'a>)
        requires
            graph.wf(),
        ensures
            finder.is_fresh_for(graph),
    {
        let mut longest_paths: Vec<Path> = Vec::new();
        let mut v: usize = 0;
        while v < graph.node_count as usize
            invariant
                v <= graph.node_count,
                longest_paths@.len() == v,
                forall|u: int| 0 <= u < v ==> #[trigger] longest_paths@[u]@ == PathView::empty(),
            decreases graph.node_count - v,
        {
            longest_paths.push(Path::default());
            v += 1;
        }
        LongestPathFinder {
            graph,
            visited_nodes: HashSet::new(),
            longest_paths,
            best_walks: Ghost(Seq::new(graph@.nodes.len(), |v: int| Seq::<int>::empty())),
        }
    }

    /// A fresh table is right for a search that has seen nothing.
    proof fn lemma_fresh_table(&self, graph: &Graph, root: nat, goal: Goal)
        requires
            self.is_fresh_for(graph),
        ensures
            table_is_best(
                graph@,
                root,
                goal,
                Seq::empty(),
                false,
                self.table(),
                self.best_walks@,
            ),
    {
        let e = Seq::<int>::empty();
        assert forall|v: int| 0 <= v < graph@.nodes.len() implies #[trigger] crate::best::slot_holds(
            graph@,
            root,
            goal,
            e,
            false,
            v as nat,
            self.table()[v],
            self.best_walks@[v],
        ) by {
            assert(self.table()[v] == PathView::empty());
            assert forall|w: Seq<int>| !seen(w, e, false) by {}
        }
    }

    /// Weighs `path`, the path of `walk`, against the entry of the node it
    /// ends in, and replaces the entry where `path` is longer.
    fn record(&mut self, node_id: u32, path: &Path, Ghost(root): Ghost<nat>, Ghost(walk): Ghost<Seq<int>>)
        requires
            node_id < old(self).longest_paths@.len(),
            old(self).best_walks@.len() == old(self).longest_paths@.len(),
            walk_end(old(self).graph@, root, walk) == node_id,
            path@ == path_of_walk(old(self).graph@, root, walk),
        ensures
            final(self).graph == old(self).graph,
            final(self).visited_nodes == old(self).visited_nodes,
            final(self).table() == paths_after_visit(old(self).graph@, root, walk, old(self).table()),
            final(self).best_walks@ == walks_after_visit(
                old(self).graph@,
                root,
                walk,
                old(self).table(),
                old(self).best_walks@,
            ),
    {
        if self.longest_paths[node_id as usize].distance_sum < path.distance_sum {
            self.longest_paths.set(node_id as usize, path.clone());
            proof {
                self.best_walks = Ghost(self.best_walks@.update(node_id as int, walk));
            }
            assert(self.table() =~= old(self).table().update(node_id as int, path@));
        } else {
            assert(self.table() =~= old(self).table());
        }
    }

    /// Explores every simple path that goes on from `path` through
    /// `node_id`, and enters each into the table.
    fn calc_longest_path(
        &mut self,
        node_id: u32,
        path: Path,
        Ghost(root): Ghost<nat>,
        Ghost(walk): Ghost<Seq<int>>,
    )
        requires
            old(self).graph.wf(),
            admissible(old(self).graph@, root, Goal::Anywhere, walk),
            walk_end(old(self).graph@, root, walk) == node_id,
            path@ == PathView::of(
                walk_nodes(old(self).graph@, root, walk).drop_last(),
                walk_cost(old(self).graph@, root, walk),
            ),
            ids_of_set(old(self).visited_nodes@) == walk_nodes(
                old(self).graph@,
                root,
                walk,
            ).drop_last().to_set(),
            costs_fit(old(self).graph@, root, Goal::Anywhere),
            table_is_best(
                old(self).graph@,
                root,
                Goal::Anywhere,
                walk,
                false,
                old(self).table(),
                old(self).best_walks@,
            ),
        ensures
            final(self).graph == old(self).graph,
            ids_of_set(final(self).visited_nodes@) == ids_of_set(old(self).visited_nodes@),
            table_is_best(
                old(self).graph@,
                root,
                Goal::Anywhere,
                walk,
                true,
                final(self).table(),
                final(self).best_walks@,
            ),
        decreases old(self).graph@.nodes.len() - walk.len(),
    {
        let graph = self.graph;
        let ghost g = graph@;
        let ghost goal = Goal::Anywhere;
        let ghost nodes = walk_nodes(g, root, walk);
        proof {
            lemma_walk_nodes(g, root, walk);
            lemma_admissible_in_graph(g, root, goal, walk);
            lemma_admissible_simple(g, root, goal, walk);
            lemma_admissible_short(g, root, goal, walk);
            lemma_to_set_push(nodes.drop_last(), node_id as nat);
            lemma_to_set_drop_last(nodes);
            assert(nodes.drop_last().push(node_id as nat) =~= nodes);
        }
        let mut path = path;
        path.push_node(node_id);
        self.visited_nodes.insert(node_id);
        assert(ids_of_set(self.visited_nodes@) =~= nodes.to_set());
        assert(path@ == path_of_walk(g, root, walk));
        self.record(node_id, &path, Ghost(root), Ghost(walk));
        proof {
            assert forall|o: Seq<int>| #[trigger] admissible(g, root, goal, o) implies (seen(
                o,
                walk.push(0),
                false,
            ) <==> (seen(o, walk, false) || o == walk)) by {
                lemma_seen_first_edge(g, root, goal, walk, o);
            }
            lemma_table_visit(
                g,
                root,
                goal,
                walk,
                walk.push(0),
                false,
                old(self).table(),
                old(self).best_walks@,
            );
        }
        let node = &graph.nodes[node_id as usize];
        proof {
            graph.lemma_view_node(node_id as int);
        }
        let mut i: usize = 0;
        while i < node.edges.len()
            invariant
                i <= node.edges@.len(),
                self.graph == graph,
                old(self).graph == graph,
                g == graph@,
                g.wf(),
                goal == Goal::Anywhere,
                node == graph.nodes@[node_id as int],
                node_id < graph.nodes@.len(),
                g.nodes[node_id as int].edges.len() == node.edges@.len(),
                admissible(g, root, goal, walk),
                walk_end(g, root, walk) == node_id,
                nodes == walk_nodes(g, root, walk),
                path@ == path_of_walk(g, root, walk),
                ids_of_set(self.visited_nodes@) == nodes.to_set(),
                costs_fit(g, root, goal),
                walk.len() < g.nodes.len(),
                table_is_best(g, root, goal, walk.push(i as int), false, self.table(), self.best_walks@),
            decreases node.edges@.len() - i,
        {
            let edge = node.edges[i];
            let ghost next = walk.push(i as int);
            proof {
                graph.lemma_view_edge(node_id as int, i as int);
                assert(edge_after(g, root, walk, i as int) == edge@);
                assert(next.drop_last() =~= walk);
            }
            if !self.visited_nodes.contains(&edge.to) {
                proof {
                    assert(!ids_of_set(self.visited_nodes@).contains(edge.to as nat));
                    assert(!nodes.to_set().contains(edge.to as nat));
                    assert(!nodes.contains(edge.to as nat));
                    assert(step_allowed(g, root, goal, walk, i as int));
                    assert(admissible(g, root, goal, next));
                    lemma_walk_nodes(g, root, next);
                    lemma_admissible_short(g, root, goal, next);
                }
                let extended = Path {
                    node_ids: path.node_ids.clone(),
                    node_id_set: clone_id_set(&path.node_id_set),
                    distance_sum: path.distance_sum + edge.cost,
                };
                assert(extended@.node_ids =~= path@.node_ids);
                assert(extended@.node_id_set =~= path@.node_id_set);
                self.calc_longest_path(edge.to, extended, Ghost(root), Ghost(next));
                proof {
                    lemma_table_after_branch(
                        g,
                        root,
                        goal,
                        walk,
                        i as int,
                        self.table(),
                        self.best_walks@,
                    );
                }
            } else {
                proof {
                    assert(ids_of_set(self.visited_nodes@).contains(edge.to as nat));
                    assert(nodes.to_set().contains(edge.to as nat));
                    assert(!step_allowed(g, root, goal, walk, i as int));
                    lemma_table_after_skipped_edge(
                        g,
                        root,
                        goal,
                        walk,
                        i as int,
                        self.table(),
                        self.best_walks@,
                    );
                }
            }
            i += 1;
        }
        proof {
            lemma_table_after_all_edges(g, root, goal, walk, self.table(), self.best_walks@);
        }
        self.visited_nodes.remove(&node_id);
        assert(ids_of_set(self.visited_nodes@) =~= nodes.drop_last().to_set());
    }

    /// Explores the simple paths that go on from `path` through `node_id`
    /// towards `to_node_id`, enters those that arrive into the table, and
    /// hands `path` back as it was.
    fn calc_longest_path_to(
        &mut self,
        node_id: u32,
        to_node_id: u32,
        path: Path,
        target_neighbor_id_set: &HashSet<u32>,
        Ghost(root): Ghost<nat>,
        Ghost(walk): Ghost<Seq<int>>,
    ) -> (rest: Path)
        requires
            old(self).graph.wf(),
            admissible(
                old(self).graph@,
                root,
                Goal::Target { node: to_node_id as nat, pruned: true },
                walk,
            ),
            walk_end(old(self).graph@, root, walk) == node_id,
            to_node_id < old(self).graph@.nodes.len(),
            path@ == PathView::of(
                walk_nodes(old(self).graph@, root, walk).drop_last(),
                walk_cost(old(self).graph@, root, walk),
            ),
            ids_of_set(target_neighbor_id_set@) == old(self).graph@.neighbor_set(to_node_id as nat),
            costs_fit(
                old(self).graph@,
                root,
                Goal::Target { node: to_node_id as nat, pruned: true },
            ),
            table_is_best(
                old(self).graph@,
                root,
                Goal::Target { node: to_node_id as nat, pruned: true },
                walk,
                false,
                old(self).table(),
                old(self).best_walks@,
            ),
        ensures
            final(self).graph == old(self).graph,
            final(self).visited_nodes == old(self).visited_nodes,
            rest@ == path@,
            table_is_best(
                old(self).graph@,
                root,
                Goal::Target { node: to_node_id as nat, pruned: true },
                walk,
                true,
                final(self).table(),
                final(self).best_walks@,
            ),
        decreases old(self).graph@.nodes.len() - walk.len(),
    {
        let graph = self.graph;
        let ghost g = graph@;
        let ghost target = to_node_id as nat;
        let ghost goal = Goal::Target { node: target, pruned: true };
        let ghost nodes = walk_nodes(g, root, walk);
        proof {
            lemma_walk_nodes(g, root, walk);
            lemma_admissible_in_graph(g, root, goal, walk);
            lemma_admissible_simple(g, root, goal, walk);
            lemma_admissible_short(g, root, goal, walk);
            lemma_to_set_push(nodes.drop_last(), node_id as nat);
            lemma_to_set_drop_last(nodes);
            assert(nodes.drop_last().push(node_id as nat) =~= nodes);
        }
        let mut path = path;
        path.push_node(node_id);
        assert(path@ == path_of_walk(g, root, walk));

        let finished = path.covers(target_neighbor_id_set);
        assert(finished == touches_all_neighbors(g, target, nodes));

        if node_id == to_node_id {
            self.record(node_id, &path, Ghost(root), Ghost(walk));
            proof {
                assert forall|o: Seq<int>| #[trigger] admissible(g, root, goal, o) implies (seen(
                    o,
                    walk,
                    true,
                ) <==> (seen(o, walk, false) || o == walk)) by {
                    lemma_seen_at_target(g, root, target, true, walk, o);
                }
                lemma_table_visit(
                    g,
                    root,
                    goal,
                    walk,
                    walk,
                    true,
                    old(self).table(),
                    old(self).best_walks@,
                );
            }
        } else {
            proof {
                lemma_table_passes_by(g, root, goal, walk, self.table(), self.best_walks@);
                graph.lemma_view_node(node_id as int);
            }
            let node = &graph.nodes[node_id as usize];
            let mut i: usize = 0;
            while i < node.edges.len()
                invariant
                    i <= node.edges@.len(),
                    self.graph == graph,
                    old(self).graph == graph,
                    self.visited_nodes == old(self).visited_nodes,
                    g == graph@,
                    g.wf(),
                    target == to_node_id as nat,
                    goal == (Goal::Target { node: target, pruned: true }),
                    node == graph.nodes@[node_id as int],
                    node_id < graph.nodes@.len(),
                    node_id != to_node_id,
                    g.nodes[node_id as int].edges.len() == node.edges@.len(),
                    admissible(g, root, goal, walk),
                    walk_end(g, root, walk) == node_id,
                    nodes == walk_nodes(g, root, walk),
                    path@ == path_of_walk(g, root, walk),
                    finished == touches_all_neighbors(g, target, nodes),
                    ids_of_set(target_neighbor_id_set@) == g.neighbor_set(target),
                    to_node_id < g.nodes.len(),
                    costs_fit(g, root, goal),
                    walk.len() < g.nodes.len(),
                    table_is_best(
                        g,
                        root,
                        goal,
                        walk.push(i as int),
                        false,
                        self.table(),
                        self.best_walks@,
                    ),
                decreases node.edges@.len() - i,
            {
                let edge = node.edges[i];
                let ghost next = walk.push(i as int);
                proof {
                    graph.lemma_view_edge(node_id as int, i as int);
                    assert(edge_after(g, root, walk, i as int) == edge@);
                    assert(next.drop_last() =~= walk);
                }
                if (finished && edge.to != to_node_id) || path.visits(edge.to) {
                    proof {
                        if path@.node_id_set.contains(edge.to as nat) {
                            assert(nodes.to_set().contains(edge.to as nat));
                        }
                        assert(!step_allowed(g, root, goal, walk, i as int));
                        lemma_table_after_skipped_edge(
                        g,
                        root,
                        goal,
                        walk,
                        i as int,
                        self.table(),
                        self.best_walks@,
                    );
                    }
                } else {
                    proof {
                        assert(!nodes.contains(edge.to as nat));
                        assert(step_allowed(g, root, goal, walk, i as int));
                        assert(admissible(g, root, goal, next));
                        lemma_walk_nodes(g, root, next);
                        lemma_admissible_short(g, root, goal, next);
                    }
                    path.distance_sum = path.distance_sum + edge.cost;
                    assert(path@.node_ids =~= nodes);
                    path =
                    self.calc_longest_path_to(
                        edge.to,
                        to_node_id,
                        path,
                        target_neighbor_id_set,
                        Ghost(root),
                        Ghost(next),
                    );
                    path.distance_sum = path.distance_sum - edge.cost;
                    proof {
                        lemma_table_after_branch(
                        g,
                        root,
                        goal,
                        walk,
                        i as int,
                        self.table(),
                        self.best_walks@,
                    );
                    }
                }
                i += 1;
            }
            proof {
                lemma_table_after_all_edges(g, root, goal, walk, self.table(), self.best_walks@);
            }
        }

        path.pop_node(node_id);
        path
    }

    /// The longest path from `root` to any node: explores everything, then
    /// takes the first of the longest entries of the table.
    fn get_longest_path(&mut self, root: u32) -> (longest: Path)
        requires
            old(self).graph.wf(),
            old(self).is_fresh_for(old(self).graph),
            root < old(self).graph@.nodes.len(),
            costs_fit(old(self).graph@, root as nat, Goal::Anywhere),
        ensures
            is_longest_from(old(self).graph@, root as nat, longest@),
    {
        let ghost g = self.graph@;
        let ghost r = root as nat;
        let ghost goal = Goal::Anywhere;
        let ghost e = Seq::<int>::empty();
        proof {
            self.lemma_fresh_table(self.graph, r, goal);
            assert(walk_nodes(g, r, e).drop_last() =~= Seq::<nat>::empty());
            assert(Seq::<nat>::empty().to_set() =~= Set::<nat>::empty());
            assert(ids_of_set(self.visited_nodes@) =~= Set::<nat>::empty());
        }
        self.calc_longest_path(root, Path::default(), Ghost(r), Ghost(e));
        let mut longest_path = Path::default();
        let ghost mut at: int = -1;
        let mut v: usize = 0;
        while v < self.longest_paths.len()
            invariant
                v <= self.longest_paths@.len(),
                self.table().len() == self.longest_paths@.len(),
                -1 <= at < v,
                at == -1 ==> longest_path@ == PathView::empty(),
                at >= 0 ==> longest_path@ == self.table()[at] && longest_path@.distance_sum > 0,
                forall|u: int|
                    0 <= u < v ==> (#[trigger] self.table()[u]).distance_sum
                        <= longest_path@.distance_sum,
                forall|u: int|
                    0 <= u < at ==> (#[trigger] self.table()[u]).distance_sum
                        < longest_path@.distance_sum,
            decreases self.longest_paths@.len() - v,
        {
            if longest_path.distance_sum < self.longest_paths[v].distance_sum {
                longest_path = self.longest_paths[v].clone();
                proof {
                    at = v as int;
                }
            }
            v += 1;
        }
        proof {
            let paths = self.table();
            let walks = self.best_walks@;
            assert forall|o: Seq<int>| #[trigger] admissible(g, r, goal, o) implies {
                &&& walk_cost(g, r, o) <= longest_path@.distance_sum
                &&& walk_cost(g, r, o) == longest_path@.distance_sum && at >= 0 ==> at <= walk_end(
                    g,
                    r,
                    o,
                )
            } by {
                lemma_admissible_in_graph(g, r, goal, o);
                let u = walk_end(g, r, o) as int;
                lemma_table_final(g, r, goal, paths, walks, u);
                assert(paths[u].distance_sum <= longest_path@.distance_sum);
            }
            if at >= 0 {
                lemma_table_final(g, r, goal, paths, walks, at);
                let w = walks[at];
                assert(is_first_longest(g, r, goal, walk_end(g, r, w), w));
            }
        }
        longest_path
    }

    /// The longest path from `root` to `to_node_id`: explores towards the
    /// target, then takes the target's entry of the table.
    fn get_longest_path_to(&mut self, root: u32, to_node_id: u32) -> (longest: Path)
        requires
            old(self).graph.wf(),
            old(self).is_fresh_for(old(self).graph),
            root < old(self).graph@.nodes.len(),
            to_node_id < old(self).graph@.nodes.len(),
            costs_fit(
                old(self).graph@,
                root as nat,
                Goal::Target { node: to_node_id as nat, pruned: true },
            ),
        ensures
            is_longest_to(old(self).graph@, root as nat, to_node_id as nat, longest@),
    {
        let ghost g = self.graph@;
        let ghost r = root as nat;
        let ghost goal = Goal::Target { node: to_node_id as nat, pruned: true };
        let ghost e = Seq::<int>::empty();
        let target_neighbor_id_set = self.graph.find_neighbor_id_set(to_node_id);
        proof {
            self.lemma_fresh_table(self.graph, r, goal);
            assert(walk_nodes(g, r, e).drop_last() =~= Seq::<nat>::empty());
            assert(Seq::<nat>::empty().to_set() =~= Set::<nat>::empty());
        }
        self.calc_longest_path_to(
            root,
            to_node_id,
            Path::default(),
            &target_neighbor_id_set,
            Ghost(r),
            Ghost(e),
        );
        proof {
            lemma_table_final(g, r, goal, self.table(), self.best_walks@, to_node_id as int);
        }
        self.longest_paths[to_node_id as usize].clone()
    }
}

impl Graph {
    /// The longest simple path that starts in `root`, wherever it ends.
    ///
    /// Among paths of the same length the one into the lowest node wins,
    /// and among those the one that a depth-first search meets first. The
    /// result is empty where no path from `root` has a positive length.
    pub fn find_longest_path(&self, root: u32) -> (longest: Path)
        requires
            self.wf(),
            root < self@.nodes.len(),
            costs_fit(self@, root as nat, Goal::Anywhere),
        ensures
            is_longest_from(self@, root as nat, longest@),
            longest.wf(),
            is_path_of_graph(self@, longest@),
            longest@ == PathView::empty() || longest@.node_ids[0] == root,
    {
        let mut finder = LongestPathFinder::new(self);
        let longest = finder.get_longest_path(root);
        proof {
            lemma_found_path_wf(longest@);
            if longest@.distance_sum != 0 {
                let w = choose|w: Seq<int>| #[trigger]
                    is_first_longest(self@, root as nat, Goal::Anywhere, walk_end(self@, root as nat, w), w)
                        && longest@ == path_of_walk(self@, root as nat, w);
                lemma_walk_path_is_path_of_graph(self@, root as nat, Goal::Anywhere, w);
            }
        }
        longest
    }

    /// The longest simple path from `root` to `to_node_id` among those that
    /// the search explores: it stops at the target, and once a path has
    /// touched every neighbour of the target it goes on to the target only.
    ///
    /// Among paths of the same length the one that a depth-first search
    /// meets first wins. The result is empty where no explored path into the
    /// target has a positive length.
    pub fn find_longest_path_to(&self, root: u32, to_node_id: u32) -> (longest: Path)
        requires
            self.wf(),
            root < self@.nodes.len(),
            to_node_id < self@.nodes.len(),
            costs_fit(self@, root as nat, Goal::Target { node: to_node_id as nat, pruned: true }),
        ensures
            is_longest_to(self@, root as nat, to_node_id as nat, longest@),
            longest.wf(),
            is_path_of_graph(self@, longest@),
            longest@ == PathView::empty() || (longest@.node_ids[0] == root
                && longest@.node_ids.last() == to_node_id),
    {
        let mut finder = LongestPathFinder::new(self);
        let longest = finder.get_longest_path_to(root, to_node_id);
        proof {
            let goal = Goal::Target { node: to_node_id as nat, pruned: true };
            lemma_found_path_wf(longest@);
            if longest@.distance_sum != 0 {
                let w = choose|w: Seq<int>| #[trigger]
                    is_first_longest(self@, root as nat, goal, to_node_id as nat, w) && longest@
                        == path_of_walk(self@, root as nat, w);
                lemma_walk_path_is_path_of_graph(self@, root as nat, goal, w);
            }
        }
        longest
    }
}

/// A path that is empty or the path of a walk has the right set mirror.
pub proof fn lemma_found_path_wf(path: PathView)
    requires
        path == PathView::empty() || exists|nodes: Seq<nat>, cost: nat|
            path == #[trigger] PathView::of(nodes, cost),
    ensures
        path.wf(),
{
    if path == PathView::empty() {
        assert(Seq::<nat>::empty().to_set() =~= Set::<nat>::empty());
    }
}

} // verus!
