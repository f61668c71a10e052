//! Walks through a graph, as the searches see them.
//!
//! A walk is the sequence of choices a depth-first search makes from its
//! root: entry `k` is the position, in the edge list of the node reached
//! after `k` steps, of the edge taken next. Two walks over the same nodes
//! differ where parallel edges exist, and may then differ in cost.

use crate::graph::{EdgeView, GraphView};
use crate::path::PathView;
use vstd::prelude::*;

verus! {

/// What a search looks for.
pub enum Goal {
    /// The longest simple path from the root to any node.
    Anywhere,
    /// The longest simple path from the root that ends in `node`. With
    /// `pruned`, a walk that has touched every neighbour of `node` may only
    /// step to `node` itself.
    Target { node: nat, pruned: bool },
}

impl Goal {
    /// Whether a walk that ends in `v` competes for a place in the table of
    /// best paths.
    pub open spec fn records(self, v: nat) -> bool {
        match self {
            Goal::Anywhere => true,
            Goal::Target { node, .. } => v == node,
        }
    }
}

/// The node reached by following `w` from `root`.
pub open spec fn walk_end(g: GraphView, root: nat, w: Seq<int>) -> nat
    decreases w.len(),
{
    if w.len() == 0 {
        root
    } else {
        g.nodes[walk_end(g, root, w.drop_last()) as int].edges[w.last()].to
    }
}

/// The nodes visited by `w`, the root first.
pub open spec fn walk_nodes(g: GraphView, root: nat, w: Seq<int>) -> Seq<nat>
    decreases w.len(),
{
    if w.len() == 0 {
        seq![root]
    } else {
        walk_nodes(g, root, w.drop_last()).push(walk_end(g, root, w))
    }
}

/// The summed cost of the edges that `w` takes.
pub open spec fn walk_cost(g: GraphView, root: nat, w: Seq<int>) -> nat
    decreases w.len(),
{
    if w.len() == 0 {
        0
    } else {
        walk_cost(g, root, w.drop_last()) + g.nodes[walk_end(
            g,
            root,
            w.drop_last(),
        ) as int].edges[w.last()].cost
    }
}

/// The edge with position `e` at the end of the walk `p`.
pub open spec fn edge_after(g: GraphView, root: nat, p: Seq<int>, e: int) -> EdgeView {
    g.nodes[walk_end(g, root, p) as int].edges[e]
}

/// Every neighbour of `target` is among `nodes`.
pub open spec fn touches_all_neighbors(g: GraphView, target: nat, nodes: Seq<nat>) -> bool {
    g.neighbor_set(target).subset_of(nodes.to_set())
}

/// Whether a search with this goal, standing at the end of the walk `p`,
/// follows the edge with position `e`: the edge exists, it leads to a node
/// that `p` has not visited, and, where a target is set, `p` has not reached
/// it yet and the pruning rule lets the edge through.
pub open spec fn step_allowed(g: GraphView, root: nat, goal: Goal, p: Seq<int>, e: int) -> bool {
    &&& 0 <= e < g.nodes[walk_end(g, root, p) as int].edges.len()
    &&& !walk_nodes(g, root, p).contains(edge_after(g, root, p, e).to)
    &&& match goal {
        Goal::Anywhere => true,
        Goal::Target { node, pruned } => {
            &&& walk_end(g, root, p) != node
            &&& pruned && touches_all_neighbors(g, node, walk_nodes(g, root, p)) ==> edge_after(
                g,
                root,
                p,
                e,
            ).to == node
        },
    }
}

/// The walks that a search with this goal explores from `root`: the empty
/// walk, and every explored walk extended by an allowed step.
pub open spec fn admissible(g: GraphView, root: nat, goal: Goal, w: Seq<int>) -> bool
    decreases w.len(),
{
    if w.len() == 0 {
        root < g.nodes.len()
    } else {
        admissible(g, root, goal, w.drop_last()) && step_allowed(
            g,
            root,
            goal,
            w.drop_last(),
            w.last(),
        )
    }
}

/// A walk as a path: its nodes, the same as a set, and its cost.
pub open spec fn path_of_walk(g: GraphView, root: nat, w: Seq<int>) -> PathView {
    PathView::of(walk_nodes(g, root, w), walk_cost(g, root, w))
}

/// No explored walk costs more than a `u64` holds.
pub open spec fn costs_fit(g: GraphView, root: nat, goal: Goal) -> bool {
    forall|w: Seq<int>| #[trigger] admissible(g, root, goal, w) ==> walk_cost(g, root, w) <= u64::MAX
}

/// `a` is a beginning of `b`.
pub open spec fn prefix_of(a: Seq<int>, b: Seq<int>) -> bool {
    a.len() <= b.len() && b.take(a.len() as int) =~= a
}

/// `a` and `b` agree on their first `k` choices, and at choice `k` the walk
/// `a` takes an earlier edge than `b`.
pub open spec fn turns_off_before(a: Seq<int>, b: Seq<int>, k: int) -> bool {
    0 <= k < a.len() && k < b.len() && a.take(k) =~= b.take(k) && a[k] < b[k]
}

/// Depth-first order: a search reaches `a` before `b` when `a` is a proper
/// beginning of `b`, or when at the first choice where they differ `a` takes
/// the earlier edge.
pub open spec fn dfs_before(a: Seq<int>, b: Seq<int>) -> bool {
    (a.len() < b.len() && prefix_of(a, b)) || exists|k: int| #[trigger] turns_off_before(a, b, k)
}

/// The walks already dealt with when a search arrives at the walk `x`
/// (`through` unset), or when it has finished with `x` and everything
/// beyond it (`through` set).
pub open spec fn seen(w: Seq<int>, x: Seq<int>, through: bool) -> bool {
    dfs_before(w, x) || (through && prefix_of(x, w))
}

/// A walk visits one node more than it takes steps, from the root to its
/// end.
pub proof fn lemma_walk_nodes(g: GraphView, root: nat, w: Seq<int>)
    ensures
        walk_nodes(g, root, w).len() == w.len() + 1,
        walk_nodes(g, root, w).last() == walk_end(g, root, w),
        walk_nodes(g, root, w)[0] == root,
        w.len() > 0 ==> walk_nodes(g, root, w).drop_last() == walk_nodes(g, root, w.drop_last()),
    decreases w.len(),
{
    if w.len() > 0 {
        lemma_walk_nodes(g, root, w.drop_last());
        assert(walk_nodes(g, root, w).drop_last() =~= walk_nodes(g, root, w.drop_last()));
    }
}

/// The nodes of a beginning of a walk are the beginning of its nodes.
pub proof fn lemma_walk_nodes_take(g: GraphView, root: nat, w: Seq<int>, k: int)
    requires
        0 <= k <= w.len(),
    ensures
        walk_nodes(g, root, w.take(k)) == walk_nodes(g, root, w).take(k + 1),
        walk_end(g, root, w.take(k)) == walk_nodes(g, root, w)[k],
    decreases w.len(),
{
    lemma_walk_nodes(g, root, w);
    if k == w.len() {
        assert(w.take(k) =~= w);
        assert(walk_nodes(g, root, w).take(k + 1) =~= walk_nodes(g, root, w));
    } else {
        lemma_walk_nodes_take(g, root, w.drop_last(), k);
        lemma_walk_nodes(g, root, w.drop_last());
        assert(w.drop_last().take(k) =~= w.take(k));
        assert(walk_nodes(g, root, w.drop_last()).take(k + 1) =~= walk_nodes(g, root, w).take(
            k + 1,
        ));
        lemma_walk_nodes(g, root, w.take(k));
    }
}

/// Every beginning of an explored walk is explored, and each step of an
/// explored walk is allowed where it is taken.
pub proof fn lemma_admissible_prefix(g: GraphView, root: nat, goal: Goal, w: Seq<int>, k: int)
    requires
        admissible(g, root, goal, w),
        0 <= k <= w.len(),
    ensures
        admissible(g, root, goal, w.take(k)),
        k < w.len() ==> step_allowed(g, root, goal, w.take(k), w[k]),
    decreases w.len(),
{
    if k == w.len() {
        assert(w.take(k) =~= w);
    } else if k == w.len() - 1 {
        assert(w.take(k) =~= w.drop_last());
    } else {
        lemma_admissible_prefix(g, root, goal, w.drop_last(), k);
        assert(w.drop_last().take(k) =~= w.take(k));
    }
}

/// An explored walk that goes on beyond its beginning `p` does so by a step
/// allowed at `p`.
pub proof fn lemma_step_beyond(g: GraphView, root: nat, goal: Goal, w: Seq<int>, p: Seq<int>)
    requires
        admissible(g, root, goal, w),
        prefix_of(p, w),
        p.len() < w.len(),
    ensures
        step_allowed(g, root, goal, p, w[p.len() as int]),
{
    lemma_admissible_prefix(g, root, goal, w, p.len() as int);
}

/// An explored walk stays inside the graph.
pub proof fn lemma_admissible_in_graph(g: GraphView, root: nat, goal: Goal, w: Seq<int>)
    requires
        g.wf(),
        admissible(g, root, goal, w),
    ensures
        walk_end(g, root, w) < g.nodes.len(),
        forall|k: int| 0 <= k <= w.len() ==> #[trigger] walk_nodes(g, root, w)[k] < g.nodes.len(),
    decreases w.len(),
{
    lemma_walk_nodes(g, root, w);
    if w.len() > 0 {
        lemma_admissible_in_graph(g, root, goal, w.drop_last());
        lemma_walk_nodes(g, root, w.drop_last());
        let v = walk_end(g, root, w.drop_last());
        assert(g.nodes[v as int].edges[w.last()].to < g.nodes.len());
        assert forall|k: int| 0 <= k <= w.len() implies #[trigger] walk_nodes(g, root, w)[k]
            < g.nodes.len() by {
            if k < w.len() {
                assert(walk_nodes(g, root, w)[k] == walk_nodes(g, root, w.drop_last())[k]);
            }
        }
    }
}

/// An explored walk visits no node twice.
pub proof fn lemma_admissible_simple(g: GraphView, root: nat, goal: Goal, w: Seq<int>)
    requires
        admissible(g, root, goal, w),
    ensures
        walk_nodes(g, root, w).no_duplicates(),
    decreases w.len(),
{
    if w.len() > 0 {
        let p = w.drop_last();
        lemma_admissible_simple(g, root, goal, p);
        lemma_walk_nodes(g, root, w);
        lemma_walk_nodes(g, root, p);
        let ns = walk_nodes(g, root, w);
        let ps = walk_nodes(g, root, p);
        assert(edge_after(g, root, p, w.last()).to == walk_end(g, root, w));
        assert forall|i: int, j: int| 0 <= i < ns.len() && 0 <= j < ns.len() && i != j implies ns[i]
            != ns[j] by {
            if i < ps.len() && j < ps.len() {
                assert(ns[i] == ps[i] && ns[j] == ps[j]);
            } else if i < ps.len() {
                assert(ps.contains(ps[i]));
            } else {
                assert(ps.contains(ps[j]));
            }
        }
    }
}

/// Distinct numbers below `n` are at most `n` many.
pub proof fn lemma_distinct_below(s: Seq<nat>, n: nat)
    requires
        s.no_duplicates(),
        forall|i: int| 0 <= i < s.len() ==> #[trigger] s[i] < n,
    ensures
        s.len() <= n,
    decreases n,
{
    if n == 0 {
        if s.len() > 0 {
            assert(s[0] < n);
        }
    } else {
        let top = (n - 1) as nat;
        if exists|k: int| 0 <= k < s.len() && s[k] == top {
            let k = choose|k: int| 0 <= k < s.len() && s[k] == top;
            let r = s.remove(k);
            assert forall|i: int| 0 <= i < r.len() implies #[trigger] r[i] < top by {
                if i < k {
                    assert(r[i] == s[i]);
                } else {
                    assert(r[i] == s[i + 1]);
                }
            }
            assert(r.no_duplicates()) by {
                assert forall|i: int, j: int| 0 <= i < r.len() && 0 <= j < r.len() && i != j implies r[i]
                    != r[j] by {
                    let i2 = if i < k { i } else { i + 1 };
                    let j2 = if j < k { j } else { j + 1 };
                    assert(r[i] == s[i2] && r[j] == s[j2]);
                }
            }
            lemma_distinct_below(r, top);
        } else {
            assert forall|i: int| 0 <= i < s.len() implies #[trigger] s[i] < top by {
                assert(s[i] < n);
            }
            lemma_distinct_below(s, top);
        }
    }
}

/// An explored walk has fewer steps than the graph has nodes.
pub proof fn lemma_admissible_short(g: GraphView, root: nat, goal: Goal, w: Seq<int>)
    requires
        g.wf(),
        admissible(g, root, goal, w),
    ensures
        w.len() < g.nodes.len(),
{
    lemma_walk_nodes(g, root, w);
    lemma_admissible_in_graph(g, root, goal, w);
    lemma_admissible_simple(g, root, goal, w);
    lemma_distinct_below(walk_nodes(g, root, w), g.nodes.len());
}

/// The nodes `nodes` are joined, each to the next, by the edges `picks`:
/// `picks[k]` is the position of an edge of `nodes[k]` that leads to
/// `nodes[k + 1]`.
pub open spec fn follows_edges(g: GraphView, nodes: Seq<nat>, picks: Seq<int>) -> bool {
    &&& nodes.len() == picks.len() + 1
    &&& forall|k: int|
        0 <= k < picks.len() ==> {
            &&& 0 <= #[trigger] picks[k] < g.nodes[nodes[k] as int].edges.len()
            &&& g.nodes[nodes[k] as int].edges[picks[k]].to == nodes[k + 1]
        }
}

/// The summed cost of the first `k` of the edges `picks` along `nodes`.
pub open spec fn cost_of_edges(g: GraphView, nodes: Seq<nat>, picks: Seq<int>, k: int) -> nat
    decreases k,
{
    if k <= 0 {
        0
    } else {
        cost_of_edges(g, nodes, picks, k - 1) + g.nodes[nodes[k - 1] as int].edges[picks[k
            - 1]].cost
    }
}

/// A simple path of the graph from `root` to the last of `nodes`.
pub open spec fn is_simple_path(g: GraphView, root: nat, nodes: Seq<nat>, picks: Seq<int>) -> bool {
    &&& root < g.nodes.len()
    &&& follows_edges(g, nodes, picks)
    &&& nodes[0] == root
    &&& nodes.no_duplicates()
}

/// The path is empty, or its nodes are a simple path of the graph and its
/// distance is the summed cost of edges that join them, each to the next.
pub open spec fn is_path_of_graph(g: GraphView, path: PathView) -> bool {
    ||| path == PathView::empty()
    ||| {
        &&& path.wf()
        &&& path.node_ids.no_duplicates()
        &&& exists|picks: Seq<int>|
            #![trigger follows_edges(g, path.node_ids, picks)]
            follows_edges(g, path.node_ids, picks) && path.distance_sum == cost_of_edges(
                g,
                path.node_ids,
                picks,
                picks.len() as int,
            )
    }
}

/// The cost of the first edges depends on these edges only.
proof fn lemma_cost_of_edges_agrees(
    g: GraphView,
    nodes_a: Seq<nat>,
    picks_a: Seq<int>,
    nodes_b: Seq<nat>,
    picks_b: Seq<int>,
    k: int,
)
    requires
        forall|j: int| 0 <= j < k ==> nodes_a[j] == nodes_b[j] && picks_a[j] == picks_b[j],
    ensures
        cost_of_edges(g, nodes_a, picks_a, k) == cost_of_edges(g, nodes_b, picks_b, k),
    decreases k,
{
    if k > 0 {
        lemma_cost_of_edges_agrees(g, nodes_a, picks_a, nodes_b, picks_b, k - 1);
    }
}

/// An explored walk is a path of the graph: its choices are edges that join
/// its nodes, and its cost is the sum of their costs.
pub proof fn lemma_walk_is_path(g: GraphView, root: nat, goal: Goal, w: Seq<int>)
    requires
        admissible(g, root, goal, w),
    ensures
        is_simple_path(g, root, walk_nodes(g, root, w), w),
        walk_cost(g, root, w) == cost_of_edges(g, walk_nodes(g, root, w), w, w.len() as int),
    decreases w.len(),
{
    lemma_walk_nodes(g, root, w);
    lemma_admissible_simple(g, root, goal, w);
    lemma_admissible_prefix(g, root, goal, w, 0);
    assert(w.take(0) =~= Seq::<int>::empty());
    if w.len() > 0 {
        let p = w.drop_last();
        lemma_walk_is_path(g, root, goal, p);
        lemma_walk_nodes(g, root, p);
        let ns = walk_nodes(g, root, w);
        let ps = walk_nodes(g, root, p);
        assert(edge_after(g, root, p, w.last()).to == walk_end(g, root, w));
        assert forall|k: int| 0 <= k < w.len() implies {
            &&& 0 <= #[trigger] w[k] < g.nodes[ns[k] as int].edges.len()
            &&& g.nodes[ns[k] as int].edges[w[k]].to == ns[k + 1]
        } by {
            if k < p.len() {
                assert(w[k] == p[k]);
                assert(ns[k] == ps[k] && ns[k + 1] == ps[k + 1]);
            }
        }
        lemma_cost_of_edges_agrees(g, ns, w, ps, p, p.len() as int);
    }
}

/// The path of an explored walk is a simple path of the graph from the
/// root to the end of the walk.
pub proof fn lemma_walk_path_is_path_of_graph(g: GraphView, root: nat, goal: Goal, w: Seq<int>)
    requires
        admissible(g, root, goal, w),
    ensures
        is_path_of_graph(g, path_of_walk(g, root, w)),
        path_of_walk(g, root, w).node_ids.len() == w.len() + 1,
        path_of_walk(g, root, w).node_ids[0] == root,
        path_of_walk(g, root, w).node_ids.last() == walk_end(g, root, w),
{
    lemma_walk_nodes(g, root, w);
    lemma_walk_is_path(g, root, goal, w);
    assert(follows_edges(g, path_of_walk(g, root, w).node_ids, w));
}

/// What a search does beyond a walk depends on the nodes of the walk only:
/// two explored walks over the same nodes are continued by the same steps,
/// to the same nodes and at the same further cost.
pub proof fn lemma_same_nodes_same_steps(
    g: GraphView,
    root: nat,
    goal: Goal,
    a: Seq<int>,
    b: Seq<int>,
    rest: Seq<int>,
)
    requires
        admissible(g, root, goal, b),
        walk_nodes(g, root, a) == walk_nodes(g, root, b),
        admissible(g, root, goal, a + rest),
    ensures
        admissible(g, root, goal, b + rest),
        walk_nodes(g, root, b + rest) == walk_nodes(g, root, a + rest),
        walk_end(g, root, b + rest) == walk_end(g, root, a + rest),
        walk_cost(g, root, b + rest) - walk_cost(g, root, b) == walk_cost(g, root, a + rest)
            - walk_cost(g, root, a),
    decreases rest.len(),
{
    if rest.len() == 0 {
        assert(a + rest =~= a);
        assert(b + rest =~= b);
        lemma_walk_nodes(g, root, a);
        lemma_walk_nodes(g, root, b);
    } else {
        let r = rest.drop_last();
        assert((a + rest).drop_last() =~= a + r);
        assert((b + rest).drop_last() =~= b + r);
        assert((a + rest).last() == rest.last());
        assert((b + rest).last() == rest.last());
        lemma_same_nodes_same_steps(g, root, goal, a, b, r);
        assert(step_allowed(g, root, goal, a + r, rest.last()));
        assert(step_allowed(g, root, goal, b + r, rest.last()));
    }
}

/// Depth-first order never puts two walks each before the other.
pub proof fn lemma_dfs_before_asymmetric(a: Seq<int>, b: Seq<int>)
    requires
        dfs_before(a, b),
    ensures
        !dfs_before(b, a),
{
    if dfs_before(b, a) {
        if a.len() < b.len() && prefix_of(a, b) {
            let k = choose|k: int| #[trigger] turns_off_before(b, a, k);
            assert(b.take(a.len() as int)[k] == a[k]);
        } else {
            let k1 = choose|k: int| #[trigger] turns_off_before(a, b, k);
            if b.len() < a.len() && prefix_of(b, a) {
                assert(a.take(b.len() as int)[k1] == b[k1]);
            } else {
                let k2 = choose|k: int| #[trigger] turns_off_before(b, a, k);
                if k1 < k2 {
                    assert(b.take(k2)[k1] == a.take(k2)[k1]);
                } else if k2 < k1 {
                    assert(a.take(k1)[k2] == b.take(k1)[k2]);
                }
            }
        }
    }
}

/// Of two different walks, depth-first order puts one before the other.
pub proof fn lemma_dfs_before_total(a: Seq<int>, b: Seq<int>, k: int)
    requires
        0 <= k <= a.len(),
        k <= b.len(),
        a.take(k) =~= b.take(k),
    ensures
        a == b || dfs_before(a, b) || dfs_before(b, a),
    decreases a.len() - k,
{
    if k == a.len() {
        assert(a.take(k) =~= a);
        if k == b.len() {
            assert(b.take(k) =~= b);
        } else {
            assert(prefix_of(a, b));
        }
    } else if k == b.len() {
        assert(b.take(k) =~= b);
        assert(prefix_of(b, a));
    } else if a[k] < b[k] {
        assert(turns_off_before(a, b, k));
    } else if b[k] < a[k] {
        assert(turns_off_before(b, a, k));
    } else {
        assert(a.take(k + 1) =~= a.take(k).push(a[k]));
        assert(b.take(k + 1) =~= b.take(k).push(b[k]));
        lemma_dfs_before_total(a, b, k + 1);
    }
}

} // verus!
