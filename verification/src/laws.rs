//! What holds of the results of the searches.

use crate::best::{is_first_longest, is_longest_ending_at};
use crate::graph::GraphView;
use crate::path::PathView;
use crate::parallel::{is_found_path_to, is_longest_found_to, longest_distance};
use crate::path::Path;
use crate::search::{is_longest_from, is_longest_to};
use crate::walk::{
    admissible, cost_of_edges, dfs_before, edge_after, follows_edges, is_simple_path,
    lemma_admissible_in_graph, lemma_admissible_prefix, lemma_admissible_simple,
    lemma_dfs_before_total, lemma_walk_is_path, lemma_walk_nodes, lemma_walk_nodes_take,
    path_of_walk, step_allowed, touches_all_neighbors, walk_cost, walk_end, walk_nodes, Goal,
};
use vstd::prelude::*;

verus! {

/// Every node with an edge into `target` is a neighbour of `target`, as in
/// a graph whose edges run both ways.
pub open spec fn entered_from_neighbors(g: GraphView, target: nat) -> bool {
    forall|u: int, j: int|
        0 <= u < g.nodes.len() && 0 <= j < g.nodes[u].edges.len() && (
        #[trigger] g.nodes[u].edges[j]).to == target ==> g.neighbor_set(target).contains(u as nat)
}

/// A walk explored for one goal is a simple walk from the root.
pub proof fn lemma_admissible_anywhere(g: GraphView, root: nat, goal: Goal, w: Seq<int>)
    requires
        admissible(g, root, goal, w),
    ensures
        admissible(g, root, Goal::Anywhere, w),
    decreases w.len(),
{
    if w.len() > 0 {
        lemma_admissible_anywhere(g, root, goal, w.drop_last());
    }
}

/// A walk explored under the pruning rule is explored without it.
pub proof fn lemma_pruned_is_explored(g: GraphView, root: nat, target: nat, w: Seq<int>)
    requires
        admissible(g, root, Goal::Target { node: target, pruned: true }, w),
    ensures
        admissible(g, root, Goal::Target { node: target, pruned: false }, w),
    decreases w.len(),
{
    if w.len() > 0 {
        lemma_pruned_is_explored(g, root, target, w.drop_last());
    }
}

/// A simple walk that ends in the target passes through it nowhere else, so
/// a search for the target without pruning explores each of its beginnings.
pub proof fn lemma_simple_walk_is_explored(
    g: GraphView,
    root: nat,
    target: nat,
    w: Seq<int>,
    k: int,
)
    requires
        admissible(g, root, Goal::Anywhere, w),
        walk_end(g, root, w) == target,
        0 <= k <= w.len(),
    ensures
        admissible(g, root, Goal::Target { node: target, pruned: false }, w.take(k)),
    decreases k,
{
    let full = Goal::Target { node: target, pruned: false };
    lemma_admissible_prefix(g, root, Goal::Anywhere, w, k);
    if k == 0 {
        assert(w.take(0) =~= Seq::<int>::empty());
    } else {
        lemma_simple_walk_is_explored(g, root, target, w, k - 1);
        lemma_admissible_prefix(g, root, Goal::Anywhere, w, k - 1);
        assert(w.take(k).drop_last() =~= w.take(k - 1));
        lemma_walk_nodes_take(g, root, w, k - 1);
        lemma_walk_nodes(g, root, w);
        lemma_admissible_simple(g, root, Goal::Anywhere, w);
        let ns = walk_nodes(g, root, w);
        assert(ns[k - 1] != ns[w.len() as int]);
        assert(step_allowed(g, root, full, w.take(k - 1), w[k - 1]));
    }
}

/// Where the target is entered from its neighbours only, the pruning rule
/// cuts off no walk that reaches the target: each beginning of such a walk
/// is explored under the rule.
pub proof fn lemma_explored_is_pruned(g: GraphView, root: nat, target: nat, w: Seq<int>, k: int)
    requires
        g.wf(),
        entered_from_neighbors(g, target),
        admissible(g, root, Goal::Target { node: target, pruned: false }, w),
        walk_end(g, root, w) == target,
        0 <= k <= w.len(),
    ensures
        admissible(g, root, Goal::Target { node: target, pruned: true }, w.take(k)),
    decreases k,
{
    let full = Goal::Target { node: target, pruned: false };
    let cut = Goal::Target { node: target, pruned: true };
    lemma_admissible_prefix(g, root, full, w, k);
    if k == 0 {
        assert(w.take(0) =~= Seq::<int>::empty());
    } else {
        lemma_explored_is_pruned(g, root, target, w, k - 1);
        lemma_admissible_prefix(g, root, full, w, k - 1);
        let p = w.take(k - 1);
        assert(w.take(k).drop_last() =~= p);
        let ns = walk_nodes(g, root, w);
        let m = w.len() - 1;
        lemma_walk_nodes(g, root, w);
        lemma_walk_nodes_take(g, root, w, k - 1);
        lemma_walk_nodes_take(g, root, w, k);
        lemma_admissible_simple(g, root, full, w);
        lemma_admissible_in_graph(g, root, full, w);
        lemma_walk_is_path(g, root, full, w);
        if touches_all_neighbors(g, target, walk_nodes(g, root, p)) && edge_after(
            g,
            root,
            p,
            w[k - 1],
        ).to != target {
            // The walk goes on after this step, and its last step enters the
            // target from a neighbour, which the beginning has touched.
            assert(walk_end(g, root, w.take(k)) == edge_after(g, root, p, w[k - 1]).to) by {
                assert(w.take(k).last() == w[k - 1]);
            }
            assert(k - 1 < m);
            let x = ns[m];
            assert(0 <= w[m] < g.nodes[x as int].edges.len());
            assert(g.nodes[x as int].edges[w[m]].to == target);
            assert(g.neighbor_set(target).contains(x));
            assert(walk_nodes(g, root, p).to_set().contains(x));
            let j = choose|j: int| 0 <= j < walk_nodes(g, root, p).len() && walk_nodes(g, root, p)[j]
                == x;
            assert(ns[j] == x);
            assert(false);
        }
        assert(step_allowed(g, root, cut, p, w[k - 1]));
    }
}

/// A path that a search returns visits no node twice.
pub proof fn lemma_longest_from_is_simple(g: GraphView, root: nat, path: PathView)
    requires
        is_longest_from(g, root, path),
    ensures
        path.node_ids.no_duplicates(),
        path.wf(),
{
    if path.distance_sum != 0 {
        let w = choose|w: Seq<int>| #[trigger]
            is_first_longest(g, root, Goal::Anywhere, walk_end(g, root, w), w) && path
                == path_of_walk(g, root, w);
        lemma_admissible_simple(g, root, Goal::Anywhere, w);
    } else {
        assert(Seq::<nat>::empty().to_set() =~= Set::<nat>::empty());
    }
}

/// A path that a search for a target returns visits no node twice.
pub proof fn lemma_longest_to_is_simple(g: GraphView, root: nat, target: nat, path: PathView)
    requires
        is_longest_to(g, root, target, path),
    ensures
        path.node_ids.no_duplicates(),
        path.wf(),
{
    let goal = Goal::Target { node: target, pruned: true };
    if path.distance_sum != 0 {
        let w = choose|w: Seq<int>| #[trigger]
            is_first_longest(g, root, goal, target, w) && path == path_of_walk(g, root, w);
        lemma_admissible_simple(g, root, goal, w);
    } else {
        assert(Seq::<nat>::empty().to_set() =~= Set::<nat>::empty());
    }
}

/// A path that a search from `root` returns is empty or starts in `root`.
pub proof fn lemma_longest_from_starts_in_root(g: GraphView, root: nat, path: PathView)
    requires
        is_longest_from(g, root, path),
    ensures
        path == PathView::empty() || path.node_ids[0] == root,
{
    if path.distance_sum != 0 {
        let w = choose|w: Seq<int>| #[trigger]
            is_first_longest(g, root, Goal::Anywhere, walk_end(g, root, w), w) && path
                == path_of_walk(g, root, w);
        lemma_walk_nodes(g, root, w);
    }
}

/// A path that a search for a target returns starts in the root and ends in
/// the target, or is empty; and it is empty where no simple path joins the
/// root to the target.
pub proof fn lemma_longest_to_joins_root_and_target(
    g: GraphView,
    root: nat,
    target: nat,
    path: PathView,
)
    requires
        is_longest_to(g, root, target, path),
    ensures
        path == PathView::empty() || (path.node_ids.len() > 0 && path.node_ids[0] == root
            && path.node_ids.last() == target),
        (forall|nodes: Seq<nat>, picks: Seq<int>|
            is_simple_path(g, root, nodes, picks) ==> nodes.last() != target) ==> path
            == PathView::empty(),
{
    let goal = Goal::Target { node: target, pruned: true };
    if path.distance_sum != 0 {
        let w = choose|w: Seq<int>| #[trigger]
            is_first_longest(g, root, goal, target, w) && path == path_of_walk(g, root, w);
        lemma_walk_nodes(g, root, w);
        lemma_walk_is_path(g, root, goal, w);
        assert(is_simple_path(g, root, walk_nodes(g, root, w), w));
    }
}

/// The distance of a returned path is the summed cost of edges that join
/// its nodes, each to the next.
pub proof fn lemma_longest_from_distance(g: GraphView, root: nat, path: PathView)
    requires
        is_longest_from(g, root, path),
    ensures
        path == PathView::empty() || exists|picks: Seq<int>|
            #![trigger follows_edges(g, path.node_ids, picks)]
            follows_edges(g, path.node_ids, picks) && path.distance_sum == cost_of_edges(
                g,
                path.node_ids,
                picks,
                picks.len() as int,
            ),
{
    if path.distance_sum != 0 {
        let w = choose|w: Seq<int>| #[trigger]
            is_first_longest(g, root, Goal::Anywhere, walk_end(g, root, w), w) && path
                == path_of_walk(g, root, w);
        lemma_walk_is_path(g, root, Goal::Anywhere, w);
        assert(follows_edges(g, path.node_ids, w));
    }
}

/// The distance of a path returned by a search for a target is the summed
/// cost of edges that join its nodes, each to the next.
pub proof fn lemma_longest_to_distance(g: GraphView, root: nat, target: nat, path: PathView)
    requires
        is_longest_to(g, root, target, path),
    ensures
        path == PathView::empty() || exists|picks: Seq<int>|
            #![trigger follows_edges(g, path.node_ids, picks)]
            follows_edges(g, path.node_ids, picks) && path.distance_sum == cost_of_edges(
                g,
                path.node_ids,
                picks,
                picks.len() as int,
            ),
{
    let goal = Goal::Target { node: target, pruned: true };
    if path.distance_sum != 0 {
        let w = choose|w: Seq<int>| #[trigger]
            is_first_longest(g, root, goal, target, w) && path == path_of_walk(g, root, w);
        lemma_walk_is_path(g, root, goal, w);
        assert(follows_edges(g, path.node_ids, w));
    }
}

/// The entry of a finished search for one node is determined by the graph,
/// the root and the goal.
pub proof fn lemma_longest_ending_at_unique(
    g: GraphView,
    root: nat,
    goal: Goal,
    v: nat,
    first: PathView,
    second: PathView,
)
    requires
        is_longest_ending_at(g, root, goal, v, first),
        is_longest_ending_at(g, root, goal, v, second),
    ensures
        first == second,
{
    if first.distance_sum != 0 && second.distance_sum != 0 {
        let w1 = choose|w: Seq<int>| #[trigger]
            is_first_longest(g, root, goal, v, w) && first == path_of_walk(g, root, w);
        let w2 = choose|w: Seq<int>| #[trigger]
            is_first_longest(g, root, goal, v, w) && second == path_of_walk(g, root, w);
        assert(w1.take(0) =~= w2.take(0));
        lemma_dfs_before_total(w1, w2, 0);
    } else if first.distance_sum != 0 {
        let w1 = choose|w: Seq<int>| #[trigger]
            is_first_longest(g, root, goal, v, w) && first == path_of_walk(g, root, w);
        assert(admissible(g, root, goal, w1));
    } else if second.distance_sum != 0 {
        let w2 = choose|w: Seq<int>| #[trigger]
            is_first_longest(g, root, goal, v, w) && second == path_of_walk(g, root, w);
        assert(admissible(g, root, goal, w2));
    }
}

/// Searching again, from the same root for the same target in the same
/// graph, gives the same path, so the same distance.
pub proof fn lemma_longest_to_unique(
    g: GraphView,
    root: nat,
    target: nat,
    first: PathView,
    second: PathView,
)
    requires
        is_longest_to(g, root, target, first),
        is_longest_to(g, root, target, second),
    ensures
        first == second,
{
    lemma_longest_ending_at_unique(
        g,
        root,
        Goal::Target { node: target, pruned: true },
        target,
        first,
        second,
    );
}

/// Searching again, from the same root in the same graph, gives the same
/// path, so the same distance.
pub proof fn lemma_longest_from_unique(g: GraphView, root: nat, first: PathView, second: PathView)
    requires
        is_longest_from(g, root, first),
        is_longest_from(g, root, second),
    ensures
        first == second,
{
    let goal = Goal::Anywhere;
    if first.distance_sum != 0 && second.distance_sum != 0 {
        let w1 = choose|w: Seq<int>|
            {
                &&& #[trigger] is_first_longest(g, root, goal, walk_end(g, root, w), w)
                &&& first == path_of_walk(g, root, w)
                &&& forall|o: Seq<int>| #[trigger]
                    admissible(g, root, goal, o) ==> {
                        &&& walk_cost(g, root, o) <= walk_cost(g, root, w)
                        &&& walk_cost(g, root, o) == walk_cost(g, root, w) ==> walk_end(g, root, w)
                            <= walk_end(g, root, o)
                    }
            };
        let w2 = choose|w: Seq<int>|
            {
                &&& #[trigger] is_first_longest(g, root, goal, walk_end(g, root, w), w)
                &&& second == path_of_walk(g, root, w)
                &&& forall|o: Seq<int>| #[trigger]
                    admissible(g, root, goal, o) ==> {
                        &&& walk_cost(g, root, o) <= walk_cost(g, root, w)
                        &&& walk_cost(g, root, o) == walk_cost(g, root, w) ==> walk_end(g, root, w)
                            <= walk_end(g, root, o)
                    }
            };
        assert(admissible(g, root, goal, w1) && admissible(g, root, goal, w2));
        assert(walk_cost(g, root, w1) == walk_cost(g, root, w2));
        assert(walk_end(g, root, w1) == walk_end(g, root, w2));
        assert(w1.take(0) =~= w2.take(0));
        lemma_dfs_before_total(w1, w2, 0);
    } else if first.distance_sum != 0 {
        let w1 = choose|w: Seq<int>| #[trigger]
            is_first_longest(g, root, goal, walk_end(g, root, w), w) && first == path_of_walk(
                g,
                root,
                w,
            );
        assert(admissible(g, root, goal, w1));
    } else if second.distance_sum != 0 {
        let w2 = choose|w: Seq<int>| #[trigger]
            is_first_longest(g, root, goal, walk_end(g, root, w), w) && second == path_of_walk(
                g,
                root,
                w,
            );
        assert(admissible(g, root, goal, w2));
    }
}

/// Where the target is entered from its neighbours only, a search for the
/// target explores the same walks into it with the pruning rule as without.
pub proof fn lemma_pruning_explores_the_same(g: GraphView, root: nat, target: nat, w: Seq<int>)
    requires
        g.wf(),
        entered_from_neighbors(g, target),
        walk_end(g, root, w) == target,
    ensures
        admissible(g, root, Goal::Target { node: target, pruned: true }, w) <==> admissible(
            g,
            root,
            Goal::Target { node: target, pruned: false },
            w,
        ),
{
    if admissible(g, root, Goal::Target { node: target, pruned: true }, w) {
        lemma_pruned_is_explored(g, root, target, w);
    }
    if admissible(g, root, Goal::Target { node: target, pruned: false }, w) {
        lemma_explored_is_pruned(g, root, target, w, w.len() as int);
        assert(w.take(w.len() as int) =~= w);
    }
}

/// Where the target is entered from its neighbours only, as in every graph
/// whose edges run both ways, the search returns with the pruning rule what
/// it would return without: the rule saves work and changes no result.
pub proof fn lemma_pruning_keeps_result(
    g: GraphView,
    root: nat,
    target: nat,
    pruned: PathView,
    full: PathView,
)
    requires
        g.wf(),
        entered_from_neighbors(g, target),
        is_longest_to(g, root, target, pruned),
        is_longest_ending_at(g, root, Goal::Target { node: target, pruned: false }, target, full),
    ensures
        pruned == full,
{
    let cut = Goal::Target { node: target, pruned: true };
    let all = Goal::Target { node: target, pruned: false };
    if pruned.distance_sum != 0 {
        let w = choose|w: Seq<int>| #[trigger]
            is_first_longest(g, root, cut, target, w) && pruned == path_of_walk(g, root, w);
        lemma_pruning_explores_the_same(g, root, target, w);
        assert forall|o: Seq<int>| #[trigger]
            admissible(g, root, all, o) && walk_end(g, root, o) == target implies {
            &&& walk_cost(g, root, o) <= walk_cost(g, root, w)
            &&& walk_cost(g, root, o) == walk_cost(g, root, w) ==> !dfs_before(o, w)
        } by {
            lemma_pruning_explores_the_same(g, root, target, o);
            assert(admissible(g, root, cut, o));
        }
        assert(is_first_longest(g, root, all, target, w));
    } else {
        assert forall|o: Seq<int>| #[trigger]
            admissible(g, root, all, o) && walk_end(g, root, o) == target implies walk_cost(
            g,
            root,
            o,
        ) == 0 by {
            lemma_pruning_explores_the_same(g, root, target, o);
            assert(admissible(g, root, cut, o));
        }
    }
    assert(is_longest_ending_at(g, root, all, target, pruned));
    lemma_longest_ending_at_unique(g, root, all, target, pruned, full);
}

/// A simple path of the graph is a walk that a search from its first node
/// explores, with the same nodes and the same cost.
pub proof fn lemma_path_is_walk(g: GraphView, root: nat, nodes: Seq<nat>, picks: Seq<int>, k: int)
    requires
        is_simple_path(g, root, nodes, picks),
        0 <= k <= picks.len(),
    ensures
        admissible(g, root, Goal::Anywhere, picks.take(k)),
        walk_nodes(g, root, picks.take(k)) == nodes.take(k + 1),
        walk_end(g, root, picks.take(k)) == nodes[k],
        walk_cost(g, root, picks.take(k)) == cost_of_edges(g, nodes, picks, k),
    decreases k,
{
    if k == 0 {
        assert(picks.take(0) =~= Seq::<int>::empty());
        assert(nodes.take(1) =~= seq![root]);
    } else {
        lemma_path_is_walk(g, root, nodes, picks, k - 1);
        let p = picks.take(k - 1);
        let w = picks.take(k);
        assert(w.drop_last() =~= p);
        assert(w.last() == picks[k - 1]);
        assert(walk_end(g, root, w) == nodes[k]);
        assert(nodes.take(k).push(nodes[k]) =~= nodes.take(k + 1));
        assert(!nodes.take(k).contains(nodes[k])) by {
            if nodes.take(k).contains(nodes[k]) {
                let j = choose|j: int| 0 <= j < k && nodes.take(k)[j] == nodes[k];
                assert(nodes[j] == nodes[k]);
            }
        }
        assert(step_allowed(g, root, Goal::Anywhere, p, picks[k - 1]));
    }
}

/// No simple path from the root costs more than the path that the search
/// from the root returns.
pub proof fn lemma_longest_from_is_longest(
    g: GraphView,
    root: nat,
    path: PathView,
    nodes: Seq<nat>,
    picks: Seq<int>,
)
    requires
        is_longest_from(g, root, path),
        is_simple_path(g, root, nodes, picks),
    ensures
        cost_of_edges(g, nodes, picks, picks.len() as int) <= path.distance_sum,
{
    lemma_path_is_walk(g, root, nodes, picks, picks.len() as int);
    assert(picks.take(picks.len() as int) =~= picks);
    assert(admissible(g, root, Goal::Anywhere, picks));
    if path.distance_sum != 0 {
        let b = choose|w: Seq<int>|
            {
                &&& #[trigger] is_first_longest(g, root, Goal::Anywhere, walk_end(g, root, w), w)
                &&& path == path_of_walk(g, root, w)
                &&& forall|o: Seq<int>| #[trigger]
                    admissible(g, root, Goal::Anywhere, o) ==> {
                        &&& walk_cost(g, root, o) <= walk_cost(g, root, w)
                        &&& walk_cost(g, root, o) == walk_cost(g, root, w) ==> walk_end(g, root, w)
                            <= walk_end(g, root, o)
                    }
            };
        assert(walk_cost(g, root, picks) <= walk_cost(g, root, b));
    }
}

/// Where the target is entered from its neighbours only, no simple path
/// from the root to the target costs more than the path that the search for
/// the target returns.
pub proof fn lemma_longest_to_is_longest(
    g: GraphView,
    root: nat,
    target: nat,
    path: PathView,
    nodes: Seq<nat>,
    picks: Seq<int>,
)
    requires
        g.wf(),
        entered_from_neighbors(g, target),
        is_longest_to(g, root, target, path),
        is_simple_path(g, root, nodes, picks),
        nodes.last() == target,
    ensures
        cost_of_edges(g, nodes, picks, picks.len() as int) <= path.distance_sum,
{
    let cut = Goal::Target { node: target, pruned: true };
    let w = picks;
    lemma_path_is_walk(g, root, nodes, picks, picks.len() as int);
    assert(picks.take(picks.len() as int) =~= picks);
    lemma_simple_walk_is_explored(g, root, target, w, w.len() as int);
    lemma_pruning_explores_the_same(g, root, target, w);
    assert(admissible(g, root, cut, w));
    if path.distance_sum != 0 {
        let b = choose|b: Seq<int>| #[trigger]
            is_first_longest(g, root, cut, target, b) && path == path_of_walk(g, root, b);
        assert(walk_cost(g, root, w) <= walk_cost(g, root, b));
    }
}

/// What the sequential search for a target returns is a path that the
/// parallel search may return.
pub proof fn lemma_longest_to_is_found(g: GraphView, root: nat, target: nat, path: PathView)
    requires
        is_longest_to(g, root, target, path),
    ensures
        is_found_path_to(g, root, target, path),
{
    let goal = Goal::Target { node: target, pruned: true };
    if path.distance_sum != 0 {
        let w = choose|w: Seq<int>| #[trigger]
            is_first_longest(g, root, goal, target, w) && path == path_of_walk(g, root, w);
        assert(admissible(g, root, goal, w));
    }
}

/// What the parallel search returns is a simple path from the root to the
/// target, or empty, and its distance is the summed cost of edges that join
/// its nodes.
pub proof fn lemma_found_path_is_simple_path(g: GraphView, root: nat, target: nat, path: PathView)
    requires
        is_found_path_to(g, root, target, path),
    ensures
        path.wf(),
        path.node_ids.no_duplicates(),
        path == PathView::empty() || (path.node_ids.len() > 0 && path.node_ids[0] == root
            && path.node_ids.last() == target),
        path == PathView::empty() || exists|picks: Seq<int>|
            #![trigger follows_edges(g, path.node_ids, picks)]
            follows_edges(g, path.node_ids, picks) && path.distance_sum == cost_of_edges(
                g,
                path.node_ids,
                picks,
                picks.len() as int,
            ),
{
    let goal = Goal::Target { node: target, pruned: true };
    if path == PathView::empty() {
        assert(Seq::<nat>::empty().to_set() =~= Set::<nat>::empty());
    } else {
        let w = choose|w: Seq<int>|
            #![trigger admissible(g, root, goal, w)]
            {
                &&& admissible(g, root, goal, w)
                &&& walk_end(g, root, w) == target
                &&& path == path_of_walk(g, root, w)
            };
        lemma_walk_nodes(g, root, w);
        lemma_walk_is_path(g, root, goal, w);
        assert(follows_edges(g, path.node_ids, w));
    }
}

/// The parallel search never returns a longer path than the sequential
/// search for the same target.
pub proof fn lemma_found_path_not_longer(
    g: GraphView,
    root: nat,
    target: nat,
    found: PathView,
    longest: PathView,
)
    requires
        is_found_path_to(g, root, target, found),
        is_longest_to(g, root, target, longest),
    ensures
        found.distance_sum <= longest.distance_sum,
{
    let goal = Goal::Target { node: target, pruned: true };
    if found != PathView::empty() {
        let w = choose|w: Seq<int>|
            #![trigger admissible(g, root, goal, w)]
            {
                &&& admissible(g, root, goal, w)
                &&& walk_end(g, root, w) == target
                &&& found == path_of_walk(g, root, w)
            };
        if longest.distance_sum != 0 {
            let b = choose|b: Seq<int>| #[trigger]
                is_first_longest(g, root, goal, target, b) && longest == path_of_walk(g, root, b);
            assert(walk_cost(g, root, w) <= walk_cost(g, root, b));
        }
    }
}

/// The longest path into one target is not longer than the longest path
/// from the same root to any node.
pub proof fn lemma_longest_to_not_longer_than_from(
    g: GraphView,
    root: nat,
    target: nat,
    to: PathView,
    from: PathView,
)
    requires
        is_longest_to(g, root, target, to),
        is_longest_from(g, root, from),
    ensures
        to.distance_sum <= from.distance_sum,
{
    let goal = Goal::Target { node: target, pruned: true };
    if to.distance_sum != 0 {
        let w = choose|w: Seq<int>| #[trigger]
            is_first_longest(g, root, goal, target, w) && to == path_of_walk(g, root, w);
        lemma_admissible_anywhere(g, root, goal, w);
        if from.distance_sum != 0 {
            let b = choose|b: Seq<int>|
                {
                    &&& #[trigger] is_first_longest(g, root, Goal::Anywhere, walk_end(g, root, b), b)
                    &&& from == path_of_walk(g, root, b)
                    &&& forall|o: Seq<int>| #[trigger]
                        admissible(g, root, Goal::Anywhere, o) ==> {
                            &&& walk_cost(g, root, o) <= walk_cost(g, root, b)
                            &&& walk_cost(g, root, o) == walk_cost(g, root, b) ==> walk_end(
                                g,
                                root,
                                b,
                            ) <= walk_end(g, root, o)
                        }
                };
            assert(walk_cost(g, root, w) <= walk_cost(g, root, b));
        }
    }
}

/// Two parallel searches, from the same root for the same target in the
/// same graph, give paths of the same distance, however their workers ran.
pub proof fn lemma_longest_found_same_distance(
    g: GraphView,
    root: nat,
    target: nat,
    first: PathView,
    second: PathView,
)
    requires
        is_longest_found_to(g, root, target, first),
        is_longest_found_to(g, root, target, second),
    ensures
        first.distance_sum == second.distance_sum,
{
    let goal = Goal::Target { node: target, pruned: true };
    if first != PathView::empty() {
        let w = choose|w: Seq<int>|
            #![trigger admissible(g, root, goal, w)]
            {
                &&& admissible(g, root, goal, w)
                &&& walk_end(g, root, w) == target
                &&& first == path_of_walk(g, root, w)
            };
        assert(admissible(g, root, goal, w));
    }
    if second != PathView::empty() {
        let w = choose|w: Seq<int>|
            #![trigger admissible(g, root, goal, w)]
            {
                &&& admissible(g, root, goal, w)
                &&& walk_end(g, root, w) == target
                &&& second == path_of_walk(g, root, w)
            };
        assert(admissible(g, root, goal, w));
    }
}

/// The distances of the candidates.
pub open spec fn candidate_distances(candidates: Seq<Path>) -> Seq<nat> {
    Seq::new(candidates.len(), |i: int| candidates[i]@.distance_sum)
}

/// The distance that the collector holds after `k` candidates is the
/// greatest among them, or zero where there are none.
pub proof fn lemma_collector_holds_greatest(candidates: Seq<Path>, k: int)
    requires
        0 <= k <= candidates.len(),
    ensures
        forall|i: int|
            0 <= i < k ==> (#[trigger] candidates[i])@.distance_sum <= longest_distance(
                candidates,
                k,
            ),
        longest_distance(candidates, k) == 0 || exists|i: int|
            0 <= i < k && (#[trigger] candidates[i])@.distance_sum == longest_distance(
                candidates,
                k,
            ),
    decreases k,
{
    if k > 0 {
        lemma_collector_holds_greatest(candidates, k - 1);
        if longest_distance(candidates, k) != 0 && longest_distance(candidates, k)
            == longest_distance(candidates, k - 1) {
            let i = choose|i: int|
                0 <= i < k - 1 && (#[trigger] candidates[i])@.distance_sum == longest_distance(
                    candidates,
                    k - 1,
                );
            assert(0 <= i < k && candidates[i]@.distance_sum == longest_distance(candidates, k));
        } else if longest_distance(candidates, k) != 0 {
            assert(candidates[k - 1]@.distance_sum == longest_distance(candidates, k));
        }
    }
}

/// The distance that the collector keeps does not depend on the order in
/// which the candidates arrive, nor on how often one arrives: two runs in
/// which paths of the same distances arrive end with the same distance.
pub proof fn lemma_collector_order_free(first: Seq<Path>, second: Seq<Path>)
    requires
        candidate_distances(first).to_set() == candidate_distances(second).to_set(),
    ensures
        longest_distance(first, first.len() as int) == longest_distance(
            second,
            second.len() as int,
        ),
{
    let d1 = candidate_distances(first);
    let d2 = candidate_distances(second);
    let l1 = longest_distance(first, first.len() as int);
    let l2 = longest_distance(second, second.len() as int);
    lemma_collector_holds_greatest(first, first.len() as int);
    lemma_collector_holds_greatest(second, second.len() as int);
    if l1 != 0 {
        let i = choose|i: int|
            0 <= i < first.len() && (#[trigger] first[i])@.distance_sum == l1;
        assert(d1[i] == l1);
        assert(d1.to_set().contains(l1));
        assert(d2.contains(l1));
        let j = choose|j: int| 0 <= j < d2.len() && d2[j] == l1;
        assert(second[j]@.distance_sum == l1);
    }
    if l2 != 0 {
        let i = choose|i: int|
            0 <= i < second.len() && (#[trigger] second[i])@.distance_sum == l2;
        assert(d2[i] == l2);
        assert(d2.to_set().contains(l2));
        assert(d1.contains(l2));
        let j = choose|j: int| 0 <= j < d1.len() && d1[j] == l2;
        assert(first[j]@.distance_sum == l2);
    }
}

} // verus!
