//! The table of best paths, and what it holds while a search runs.
//!
//! A search keeps, for each node, the costliest walk it has seen that ends
//! there, and replaces an entry only by a strictly costlier walk. So at each
//! moment an entry is the first, in depth-first order, of the costliest walks
//! seen so far that end in its node, or empty while all of them cost nothing.

use crate::graph::GraphView;
use crate::path::PathView;
use crate::walk::{
    admissible, dfs_before, lemma_dfs_before_asymmetric, lemma_step_beyond, path_of_walk,
    prefix_of, seen, step_allowed, turns_off_before, walk_cost, walk_end, Goal,
};
use vstd::prelude::*;

verus! {

/// Once a search is through with `w.push(i)`, it has seen what it has seen
/// on arriving at `w.push(i + 1)`.
pub proof fn lemma_seen_next_edge(w: Seq<int>, i: int, x: Seq<int>)
    ensures
        seen(x, w.push(i), true) <==> seen(x, w.push(i + 1), false),
{
    let a = w.push(i);
    let b = w.push(i + 1);
    let n = w.len() as int;
    if seen(x, a, true) {
        if x.len() < a.len() && prefix_of(x, a) {
            assert(b.take(x.len() as int) =~= a.take(x.len() as int));
            assert(prefix_of(x, b));
        } else if exists|k: int| #[trigger] turns_off_before(x, a, k) {
            let k = choose|k: int| #[trigger] turns_off_before(x, a, k);
            assert(b.take(k) =~= a.take(k));
            assert(turns_off_before(x, b, k));
        } else {
            assert(prefix_of(a, x));
            assert(x.take(n + 1)[n] == i);
            assert(x.take(n) =~= x.take(n + 1).take(n));
            assert(b.take(n) =~= w);
            assert(a.take(n) =~= w);
            assert(turns_off_before(x, b, n));
        }
    }
    if seen(x, b, false) {
        if x.len() < b.len() && prefix_of(x, b) {
            assert(a.take(x.len() as int) =~= b.take(x.len() as int));
            assert(prefix_of(x, a));
        } else {
            let k = choose|k: int| #[trigger] turns_off_before(x, b, k);
            assert(a.take(k) =~= b.take(k));
            if k < n || x[k] < i {
                assert(turns_off_before(x, a, k));
            } else {
                assert(b.take(n) =~= w);
                assert(x.take(n + 1) =~= x.take(n).push(x[n]));
                assert(prefix_of(a, x));
            }
        }
    }
}

/// An edge that the search does not follow from `w` leaves what it has seen
/// unchanged.
pub proof fn lemma_seen_skipped_edge(
    g: GraphView,
    root: nat,
    goal: Goal,
    w: Seq<int>,
    i: int,
    x: Seq<int>,
)
    requires
        admissible(g, root, goal, x),
        !step_allowed(g, root, goal, w, i),
    ensures
        seen(x, w.push(i), false) <==> seen(x, w.push(i + 1), false),
{
    lemma_seen_next_edge(w, i, x);
    let a = w.push(i);
    if prefix_of(a, x) {
        let n = w.len() as int;
        assert(x.take(n) =~= x.take(n + 1).take(n));
        assert(a.take(n) =~= w);
        assert(prefix_of(w, x));
        lemma_step_beyond(g, root, goal, x, w);
        assert(x.take(n + 1)[n] == i);
    }
}

/// When the search has dealt with every edge at the end of `w`, it is
/// through with `w`.
pub proof fn lemma_seen_all_edges(g: GraphView, root: nat, goal: Goal, w: Seq<int>, x: Seq<int>)
    requires
        admissible(g, root, goal, x),
    ensures
        seen(x, w.push(g.nodes[walk_end(g, root, w) as int].edges.len() as int), false) <==> seen(
            x,
            w,
            true,
        ),
{
    let d = g.nodes[walk_end(g, root, w) as int].edges.len() as int;
    let b = w.push(d);
    let n = w.len() as int;
    assert(b.take(n) =~= w);
    if seen(x, b, false) {
        if x.len() < b.len() && prefix_of(x, b) {
            if x.len() == n {
                assert(x.take(n) =~= x);
                assert(prefix_of(w, x));
            } else {
                assert(w.take(x.len() as int) =~= b.take(x.len() as int));
                assert(prefix_of(x, w));
            }
        } else {
            let k = choose|k: int| #[trigger] turns_off_before(x, b, k);
            if k < n {
                assert(w.take(k) =~= b.take(k));
                assert(turns_off_before(x, w, k));
            } else {
                assert(prefix_of(w, x));
            }
        }
    }
    if seen(x, w, true) {
        if x.len() < w.len() && prefix_of(x, w) {
            assert(b.take(x.len() as int) =~= w.take(x.len() as int));
            assert(prefix_of(x, b));
        } else if exists|k: int| #[trigger] turns_off_before(x, w, k) {
            let k = choose|k: int| #[trigger] turns_off_before(x, w, k);
            assert(b.take(k) =~= w.take(k));
            assert(turns_off_before(x, b, k));
        } else {
            assert(prefix_of(w, x));
            if x.len() == n {
                assert(x.take(n) =~= x);
                assert(prefix_of(x, b));
            } else {
                lemma_step_beyond(g, root, goal, x, w);
                assert(turns_off_before(x, b, n));
            }
        }
    }
}

/// On turning to the first edge at the end of `w`, the search has seen `w`
/// itself besides what it had seen on arriving there.
pub proof fn lemma_seen_first_edge(g: GraphView, root: nat, goal: Goal, w: Seq<int>, x: Seq<int>)
    requires
        admissible(g, root, goal, x),
    ensures
        seen(x, w.push(0), false) <==> (seen(x, w, false) || x == w),
{
    let b = w.push(0);
    let n = w.len() as int;
    assert(b.take(n) =~= w);
    if seen(x, b, false) {
        if x.len() < b.len() && prefix_of(x, b) {
            if x.len() == n {
                assert(x =~= w);
            } else {
                assert(w.take(x.len() as int) =~= b.take(x.len() as int));
                assert(prefix_of(x, w));
            }
        } else {
            let k = choose|k: int| #[trigger] turns_off_before(x, b, k);
            if k < n {
                assert(w.take(k) =~= b.take(k));
                assert(turns_off_before(x, w, k));
            } else {
                assert(prefix_of(w, x));
                lemma_step_beyond(g, root, goal, x, w);
            }
        }
    }
    if x == w {
        assert(prefix_of(x, b));
    }
    if seen(x, w, false) {
        if x.len() < w.len() && prefix_of(x, w) {
            assert(b.take(x.len() as int) =~= w.take(x.len() as int));
            assert(prefix_of(x, b));
        } else {
            let k = choose|k: int| #[trigger] turns_off_before(x, w, k);
            assert(b.take(k) =~= w.take(k));
            assert(turns_off_before(x, b, k));
        }
    }
}

/// A search for a target that is through with a walk into the target has
/// seen this walk besides what it had seen on arriving there: nothing lies
/// beyond the target.
pub proof fn lemma_seen_at_target(
    g: GraphView,
    root: nat,
    node: nat,
    pruned: bool,
    w: Seq<int>,
    x: Seq<int>,
)
    requires
        admissible(g, root, Goal::Target { node, pruned }, x),
        walk_end(g, root, w) == node,
    ensures
        seen(x, w, true) <==> (seen(x, w, false) || x == w),
{
    if prefix_of(w, x) {
        if x.len() == w.len() {
            assert(x.take(w.len() as int) =~= x);
        } else {
            lemma_step_beyond(g, root, Goal::Target { node, pruned }, x, w);
        }
    }
    if x == w {
        assert(x.take(w.len() as int) =~= x);
    }
}

/// The walk `w` is one of those that the entry for `v` has to match: the
/// search explores it, has seen it, and it ends in `v`.
pub open spec fn competes(
    g: GraphView,
    root: nat,
    goal: Goal,
    x: Seq<int>,
    through: bool,
    v: nat,
    w: Seq<int>,
) -> bool {
    admissible(g, root, goal, w) && seen(w, x, through) && walk_end(g, root, w) == v
}

/// The entry `path` for node `v`, found along `walk`, is right for a search
/// that stands at `x`: either every walk seen that ends in `v` costs nothing
/// and the entry is empty, or the entry is the path of `walk`, no such walk
/// costs more, and none that costs as much comes earlier.
pub open spec fn slot_is_best(
    g: GraphView,
    root: nat,
    goal: Goal,
    x: Seq<int>,
    through: bool,
    v: nat,
    path: PathView,
    walk: Seq<int>,
) -> bool {
    if path.distance_sum == 0 {
        &&& path == PathView::empty()
        &&& forall|w: Seq<int>| #[trigger]
            competes(g, root, goal, x, through, v, w) ==> walk_cost(g, root, w) == 0
    } else {
        &&& competes(g, root, goal, x, through, v, walk)
        &&& path == path_of_walk(g, root, walk)
        &&& forall|w: Seq<int>| #[trigger]
            competes(g, root, goal, x, through, v, w) ==> {
                &&& walk_cost(g, root, w) <= path.distance_sum
                &&& walk_cost(g, root, w) == path.distance_sum ==> !dfs_before(w, walk)
            }
    }
}

/// The entry for `v` is right: the best seen where the goal keeps an entry
/// for `v`, empty where it keeps none.
pub open spec fn slot_holds(
    g: GraphView,
    root: nat,
    goal: Goal,
    x: Seq<int>,
    through: bool,
    v: nat,
    path: PathView,
    walk: Seq<int>,
) -> bool {
    if goal.records(v) {
        slot_is_best(g, root, goal, x, through, v, path, walk)
    } else {
        path == PathView::empty()
    }
}

/// Every entry of the table is right for a search that stands at `x`.
pub open spec fn table_is_best(
    g: GraphView,
    root: nat,
    goal: Goal,
    x: Seq<int>,
    through: bool,
    paths: Seq<PathView>,
    walks: Seq<Seq<int>>,
) -> bool {
    &&& paths.len() == g.nodes.len()
    &&& walks.len() == g.nodes.len()
    &&& forall|v: int|
        0 <= v < g.nodes.len() ==> #[trigger] slot_holds(
            g,
            root,
            goal,
            x,
            through,
            v as nat,
            paths[v],
            walks[v],
        )
}

/// A table that is right at one place of the search is right at another
/// where the same walks have been seen.
pub proof fn lemma_table_moves(
    g: GraphView,
    root: nat,
    goal: Goal,
    x1: Seq<int>,
    through1: bool,
    x2: Seq<int>,
    through2: bool,
    paths: Seq<PathView>,
    walks: Seq<Seq<int>>,
)
    requires
        table_is_best(g, root, goal, x1, through1, paths, walks),
        forall|w: Seq<int>| #[trigger]
            admissible(g, root, goal, w) && goal.records(walk_end(g, root, w)) ==> (seen(
                w,
                x1,
                through1,
            ) <==> seen(w, x2, through2)),
    ensures
        table_is_best(g, root, goal, x2, through2, paths, walks),
{
    assert forall|v: int| 0 <= v < g.nodes.len() implies #[trigger] slot_holds(
        g,
        root,
        goal,
        x2,
        through2,
        v as nat,
        paths[v],
        walks[v],
    ) by {
        assert(slot_holds(g, root, goal, x1, through1, v as nat, paths[v], walks[v]));
        if goal.records(v as nat) {
            assert forall|w: Seq<int>| #[trigger]
                competes(g, root, goal, x2, through2, v as nat, w) implies competes(
                g,
                root,
                goal,
                x1,
                through1,
                v as nat,
                w,
            ) by {}
            if paths[v].distance_sum != 0 {
                assert(competes(g, root, goal, x1, through1, v as nat, walks[v]));
                assert(competes(g, root, goal, x2, through2, v as nat, walks[v]));
            }
        }
    }
}

/// A table that is right when the search is through with the branch along
/// edge `i` is right when the search turns to the next edge.
pub proof fn lemma_table_after_branch(
    g: GraphView,
    root: nat,
    goal: Goal,
    w: Seq<int>,
    i: int,
    paths: Seq<PathView>,
    walks: Seq<Seq<int>>,
)
    requires
        table_is_best(g, root, goal, w.push(i), true, paths, walks),
    ensures
        table_is_best(g, root, goal, w.push(i + 1), false, paths, walks),
{
    assert forall|o: Seq<int>| #[trigger]
        admissible(g, root, goal, o) && goal.records(walk_end(g, root, o)) implies (seen(
        o,
        w.push(i),
        true,
    ) <==> seen(o, w.push(i + 1), false)) by {
        lemma_seen_next_edge(w, i, o);
    }
    lemma_table_moves(g, root, goal, w.push(i), true, w.push(i + 1), false, paths, walks);
}

/// A table that is right when the search arrives at an edge that it does
/// not follow is right when the search turns to the next edge.
pub proof fn lemma_table_after_skipped_edge(
    g: GraphView,
    root: nat,
    goal: Goal,
    w: Seq<int>,
    i: int,
    paths: Seq<PathView>,
    walks: Seq<Seq<int>>,
)
    requires
        table_is_best(g, root, goal, w.push(i), false, paths, walks),
        !step_allowed(g, root, goal, w, i),
    ensures
        table_is_best(g, root, goal, w.push(i + 1), false, paths, walks),
{
    assert forall|o: Seq<int>| #[trigger]
        admissible(g, root, goal, o) && goal.records(walk_end(g, root, o)) implies (seen(
        o,
        w.push(i),
        false,
    ) <==> seen(o, w.push(i + 1), false)) by {
        lemma_seen_skipped_edge(g, root, goal, w, i, o);
    }
    lemma_table_moves(g, root, goal, w.push(i), false, w.push(i + 1), false, paths, walks);
}

/// A table that is right when the search has dealt with every edge at the
/// end of `w` is right for a search that is through with `w`.
pub proof fn lemma_table_after_all_edges(
    g: GraphView,
    root: nat,
    goal: Goal,
    w: Seq<int>,
    paths: Seq<PathView>,
    walks: Seq<Seq<int>>,
)
    requires
        table_is_best(
            g,
            root,
            goal,
            w.push(g.nodes[walk_end(g, root, w) as int].edges.len() as int),
            false,
            paths,
            walks,
        ),
    ensures
        table_is_best(g, root, goal, w, true, paths, walks),
{
    let last = w.push(g.nodes[walk_end(g, root, w) as int].edges.len() as int);
    assert forall|o: Seq<int>| #[trigger]
        admissible(g, root, goal, o) && goal.records(walk_end(g, root, o)) implies (seen(
        o,
        last,
        false,
    ) <==> seen(o, w, true)) by {
        lemma_seen_all_edges(g, root, goal, w, o);
    }
    lemma_table_moves(g, root, goal, last, false, w, true, paths, walks);
}

/// A table that is right when the search arrives at a walk for whose end
/// no entry is kept is right when the search turns to the first edge there.
pub proof fn lemma_table_passes_by(
    g: GraphView,
    root: nat,
    goal: Goal,
    w: Seq<int>,
    paths: Seq<PathView>,
    walks: Seq<Seq<int>>,
)
    requires
        table_is_best(g, root, goal, w, false, paths, walks),
        !goal.records(walk_end(g, root, w)),
    ensures
        table_is_best(g, root, goal, w.push(0), false, paths, walks),
{
    assert forall|o: Seq<int>| #[trigger]
        admissible(g, root, goal, o) && goal.records(walk_end(g, root, o)) implies (seen(
        o,
        w,
        false,
    ) <==> seen(o, w.push(0), false)) by {
        lemma_seen_first_edge(g, root, goal, w, o);
    }
    lemma_table_moves(g, root, goal, w, false, w.push(0), false, paths, walks);
}

/// The table after the search has weighed the walk `w` against the entry of
/// the node it ends in: the entry is replaced where `w` costs more.
pub open spec fn paths_after_visit(
    g: GraphView,
    root: nat,
    w: Seq<int>,
    paths: Seq<PathView>,
) -> Seq<PathView> {
    let v = walk_end(g, root, w) as int;
    if paths[v].distance_sum < walk_cost(g, root, w) {
        paths.update(v, path_of_walk(g, root, w))
    } else {
        paths
    }
}

/// The walks behind the entries after the search has weighed `w`.
pub open spec fn walks_after_visit(
    g: GraphView,
    root: nat,
    w: Seq<int>,
    paths: Seq<PathView>,
    walks: Seq<Seq<int>>,
) -> Seq<Seq<int>> {
    let v = walk_end(g, root, w) as int;
    if paths[v].distance_sum < walk_cost(g, root, w) {
        walks.update(v, w)
    } else {
        walks
    }
}

/// Weighing the walk at which the search has arrived keeps the table right,
/// for any place `x2` where the search has seen this walk and what it had
/// seen before.
pub proof fn lemma_table_visit(
    g: GraphView,
    root: nat,
    goal: Goal,
    w: Seq<int>,
    x2: Seq<int>,
    through2: bool,
    paths: Seq<PathView>,
    walks: Seq<Seq<int>>,
)
    requires
        table_is_best(g, root, goal, w, false, paths, walks),
        admissible(g, root, goal, w),
        walk_end(g, root, w) < g.nodes.len(),
        goal.records(walk_end(g, root, w)),
        forall|o: Seq<int>| #[trigger]
            admissible(g, root, goal, o) ==> (seen(o, x2, through2) <==> (seen(o, w, false) || o
                == w)),
    ensures
        table_is_best(
            g,
            root,
            goal,
            x2,
            through2,
            paths_after_visit(g, root, w, paths),
            walks_after_visit(g, root, w, paths, walks),
        ),
{
    let end = walk_end(g, root, w);
    let paths2 = paths_after_visit(g, root, w, paths);
    let walks2 = walks_after_visit(g, root, w, paths, walks);
    assert forall|v: int| 0 <= v < g.nodes.len() implies #[trigger] slot_holds(
        g,
        root,
        goal,
        x2,
        through2,
        v as nat,
        paths2[v],
        walks2[v],
    ) by {
        assert(slot_holds(g, root, goal, w, false, v as nat, paths[v], walks[v]));
        if goal.records(v as nat) {
            assert forall|o: Seq<int>| #[trigger]
                competes(g, root, goal, x2, through2, v as nat, o) implies competes(
                g,
                root,
                goal,
                w,
                false,
                v as nat,
                o,
            ) || o == w by {}
            if paths[v].distance_sum != 0 {
                assert(competes(g, root, goal, w, false, v as nat, walks[v]));
                assert(competes(g, root, goal, x2, through2, v as nat, walks[v]));
            }
            if v == end {
                assert(competes(g, root, goal, x2, through2, v as nat, w));
                if paths[v].distance_sum < walk_cost(g, root, w) {
                    assert(!dfs_before(w, w)) by {
                        if dfs_before(w, w) {
                            lemma_dfs_before_asymmetric(w, w);
                        }
                    }
                } else if paths[v].distance_sum != 0 {
                    lemma_dfs_before_asymmetric(walks[v], w);
                }
            }
        }
    }
}

/// The walk `w` is the answer among the explored walks that end in `v`: none
/// costs more, and none that costs as much comes earlier in depth-first
/// order.
pub open spec fn is_first_longest(g: GraphView, root: nat, goal: Goal, v: nat, w: Seq<int>) -> bool {
    &&& admissible(g, root, goal, w)
    &&& walk_end(g, root, w) == v
    &&& forall|o: Seq<int>| #[trigger]
        admissible(g, root, goal, o) && walk_end(g, root, o) == v ==> {
            &&& walk_cost(g, root, o) <= walk_cost(g, root, w)
            &&& walk_cost(g, root, o) == walk_cost(g, root, w) ==> !dfs_before(o, w)
        }
}

/// What a finished search holds for node `v`: the empty path where every
/// explored walk that ends in `v` costs nothing, else the path of the first
/// of the costliest such walks.
pub open spec fn is_longest_ending_at(
    g: GraphView,
    root: nat,
    goal: Goal,
    v: nat,
    path: PathView,
) -> bool {
    if path.distance_sum == 0 {
        &&& path == PathView::empty()
        &&& forall|o: Seq<int>| #[trigger]
            admissible(g, root, goal, o) && walk_end(g, root, o) == v ==> walk_cost(g, root, o)
                == 0
    } else {
        exists|w: Seq<int>| #[trigger]
            is_first_longest(g, root, goal, v, w) && path == path_of_walk(g, root, w)
    }
}

/// A table that is right when the search is through with the empty walk
/// holds the answer for each node.
pub proof fn lemma_table_final(
    g: GraphView,
    root: nat,
    goal: Goal,
    paths: Seq<PathView>,
    walks: Seq<Seq<int>>,
    v: int,
)
    requires
        table_is_best(g, root, goal, Seq::empty(), true, paths, walks),
        0 <= v < g.nodes.len(),
        goal.records(v as nat),
    ensures
        is_longest_ending_at(g, root, goal, v as nat, paths[v]),
        paths[v].distance_sum != 0 ==> is_first_longest(g, root, goal, v as nat, walks[v])
            && paths[v] == path_of_walk(g, root, walks[v]),
{
    let e = Seq::<int>::empty();
    assert(slot_holds(g, root, goal, e, true, v as nat, paths[v], walks[v]));
    assert forall|o: Seq<int>| #[trigger]
        admissible(g, root, goal, o) && walk_end(g, root, o) == v implies competes(
        g,
        root,
        goal,
        e,
        true,
        v as nat,
        o,
    ) by {
        assert(o.take(0) =~= e);
    }
    if paths[v].distance_sum != 0 {
        assert(is_first_longest(g, root, goal, v as nat, walks[v]));
    }
}

} // verus!
