//! The summed cost of all edges, as a bound that keeps every distance a
//! search computes within a `u64`.

use crate::graph::{EdgeView, Graph, GraphView, NodeView};
use crate::walk::{
    admissible, costs_fit, lemma_admissible_in_graph, lemma_admissible_simple, lemma_walk_nodes,
    walk_cost, walk_end, walk_nodes, Goal,
};
use vstd::prelude::*;

verus! {

/// The summed cost of a list of edges.
pub open spec fn edges_cost(edges: Seq<EdgeView>) -> nat
    decreases edges.len(),
{
    if edges.len() == 0 {
        0
    } else {
        edges_cost(edges.drop_last()) + edges.last().cost
    }
}

/// The summed cost of the edges of a list of nodes.
pub open spec fn nodes_cost(nodes: Seq<NodeView>) -> nat
    decreases nodes.len(),
{
    if nodes.len() == 0 {
        0
    } else {
        nodes_cost(nodes.drop_last()) + edges_cost(nodes.last().edges)
    }
}

impl GraphView {
    /// The summed cost of all edges of the graph.
    pub open spec fn total_cost(self) -> nat {
        nodes_cost(self.nodes)
    }
}

/// The summed cost of the edges of the nodes `picked`, one term for each
/// entry.
pub open spec fn picked_cost(g: GraphView, picked: Seq<nat>) -> nat
    decreases picked.len(),
{
    if picked.len() == 0 {
        0
    } else {
        picked_cost(g, picked.drop_last()) + edges_cost(g.nodes[picked.last() as int].edges)
    }
}

/// The cost of the first edges of a list, one edge more at a time.
proof fn lemma_edges_cost_take(edges: Seq<EdgeView>, j: int)
    requires
        0 <= j <= edges.len(),
    ensures
        edges_cost(edges.take(j)) <= edges_cost(edges),
        j < edges.len() ==> edges_cost(edges.take(j + 1)) == edges_cost(edges.take(j))
            + edges[j].cost,
        j < edges.len() ==> edges[j].cost <= edges_cost(edges),
    decreases edges.len(),
{
    if j == edges.len() {
        assert(edges.take(j) =~= edges);
    } else {
        assert(edges.take(j + 1).drop_last() =~= edges.take(j));
        lemma_edges_cost_take(edges.drop_last(), j);
        assert(edges.drop_last().take(j) =~= edges.take(j));
        if j + 1 < edges.len() {
            assert(edges.drop_last().take(j + 1) =~= edges.take(j + 1));
        } else {
            assert(edges.take(j + 1) =~= edges);
        }
    }
}

/// The cost of the first nodes of a list, one node more at a time.
proof fn lemma_nodes_cost_take(nodes: Seq<NodeView>, i: int)
    requires
        0 <= i <= nodes.len(),
    ensures
        nodes_cost(nodes.take(i)) <= nodes_cost(nodes),
        i < nodes.len() ==> nodes_cost(nodes.take(i + 1)) == nodes_cost(nodes.take(i))
            + edges_cost(nodes[i].edges),
        i < nodes.len() ==> nodes_cost(nodes.take(i)) + edges_cost(nodes[i].edges) <= nodes_cost(
            nodes,
        ),
    decreases nodes.len(),
{
    if i == nodes.len() {
        assert(nodes.take(i) =~= nodes);
    } else {
        assert(nodes.take(i + 1).drop_last() =~= nodes.take(i));
        lemma_nodes_cost_take(nodes.drop_last(), i);
        assert(nodes.drop_last().take(i) =~= nodes.take(i));
        if i + 1 < nodes.len() {
            assert(nodes.drop_last().take(i + 1) =~= nodes.take(i + 1));
        } else {
            assert(nodes.take(i + 1) =~= nodes);
        }
    }
}

/// Leaving one entry out lowers the cost by the cost of its edges.
proof fn lemma_picked_cost_remove(g: GraphView, picked: Seq<nat>, k: int)
    requires
        0 <= k < picked.len(),
    ensures
        picked_cost(g, picked) == picked_cost(g, picked.remove(k)) + edges_cost(
            g.nodes[picked[k] as int].edges,
        ),
    decreases picked.len(),
{
    if k == picked.len() - 1 {
        assert(picked.remove(k) =~= picked.drop_last());
    } else {
        lemma_picked_cost_remove(g, picked.drop_last(), k);
        assert(picked.remove(k).drop_last() =~= picked.drop_last().remove(k));
        assert(picked.remove(k).last() == picked.last());
    }
}

/// Distinct nodes below `n` have edges of no more cost than the first `n`
/// nodes together.
proof fn lemma_picked_cost_bound(g: GraphView, picked: Seq<nat>, n: int)
    requires
        0 <= n <= g.nodes.len(),
        picked.no_duplicates(),
        forall|i: int| 0 <= i < picked.len() ==> #[trigger] picked[i] < n,
    ensures
        picked_cost(g, picked) <= nodes_cost(g.nodes.take(n)),
    decreases n,
{
    if n == 0 {
        if picked.len() > 0 {
            assert(picked[0] < n);
        }
    } else {
        let top = (n - 1) as nat;
        lemma_nodes_cost_take(g.nodes, n - 1);
        if exists|k: int| 0 <= k < picked.len() && picked[k] == top {
            let k = choose|k: int| 0 <= k < picked.len() && picked[k] == top;
            let rest = picked.remove(k);
            assert forall|i: int| 0 <= i < rest.len() implies #[trigger] rest[i] < n - 1 by {
                let i2 = if i < k { i } else { i + 1 };
                assert(rest[i] == picked[i2]);
                assert(picked[i2] < n);
            }
            assert(rest.no_duplicates()) by {
                assert forall|i: int, j: int|
                    0 <= i < rest.len() && 0 <= j < rest.len() && i != j implies rest[i]
                    != rest[j] by {
                    let i2 = if i < k { i } else { i + 1 };
                    let j2 = if j < k { j } else { j + 1 };
                    assert(rest[i] == picked[i2] && rest[j] == picked[j2]);
                }
            }
            lemma_picked_cost_bound(g, rest, n - 1);
            lemma_picked_cost_remove(g, picked, k);
        } else {
            assert forall|i: int| 0 <= i < picked.len() implies #[trigger] picked[i] < n - 1 by {
                assert(picked[i] < n);
            }
            lemma_picked_cost_bound(g, picked, n - 1);
        }
    }
}

/// A walk costs no more than the edges of the nodes it leaves.
proof fn lemma_walk_cost_picked(g: GraphView, root: nat, goal: Goal, w: Seq<int>)
    requires
        admissible(g, root, goal, w),
    ensures
        walk_cost(g, root, w) <= picked_cost(g, walk_nodes(g, root, w).drop_last()),
    decreases w.len(),
{
    lemma_walk_nodes(g, root, w);
    if w.len() > 0 {
        let p = w.drop_last();
        lemma_walk_cost_picked(g, root, goal, p);
        lemma_walk_nodes(g, root, p);
        let before = walk_nodes(g, root, p);
        assert(walk_nodes(g, root, w).drop_last() =~= before);
        assert(before.drop_last().push(walk_end(g, root, p)) =~= before);
        lemma_edges_cost_take(g.nodes[walk_end(g, root, p) as int].edges, w.last());
    }
}

/// No walk that a search explores costs more than all edges together: it
/// leaves each of its nodes by one edge at most.
pub proof fn lemma_walk_cost_bound(g: GraphView, root: nat, goal: Goal, w: Seq<int>)
    requires
        g.wf(),
        admissible(g, root, goal, w),
    ensures
        walk_cost(g, root, w) <= g.total_cost(),
{
    lemma_walk_cost_picked(g, root, goal, w);
    lemma_walk_nodes(g, root, w);
    lemma_admissible_simple(g, root, goal, w);
    lemma_admissible_in_graph(g, root, goal, w);
    let nodes = walk_nodes(g, root, w);
    let picked = nodes.drop_last();
    assert forall|i: int| 0 <= i < picked.len() implies #[trigger] picked[i] < g.nodes.len() by {
        assert(picked[i] == nodes[i]);
    }
    assert(picked.no_duplicates()) by {
        assert forall|i: int, j: int|
            0 <= i < picked.len() && 0 <= j < picked.len() && i != j implies picked[i]
            != picked[j] by {
            assert(picked[i] == nodes[i] && picked[j] == nodes[j]);
        }
    }
    lemma_picked_cost_bound(g, picked, g.nodes.len() as int);
    assert(g.nodes.take(g.nodes.len() as int) =~= g.nodes);
}

/// Where all edges together cost no more than a `u64` holds, every search
/// of the graph stays within a `u64`.
pub proof fn lemma_total_cost_fits(g: GraphView, root: nat, goal: Goal)
    requires
        g.wf(),
        g.total_cost() <= u64::MAX,
    ensures
        costs_fit(g, root, goal),
{
    assert forall|w: Seq<int>| #[trigger] admissible(g, root, goal, w) implies walk_cost(g, root, w)
        <= u64::MAX by {
        lemma_walk_cost_bound(g, root, goal, w);
    }
}

impl Graph {
    /// The summed cost of all edges, or `None` where it is more than a
    /// `u64` holds.
    pub fn total_cost(&self) -> (total: Option<u64>)
        ensures
            match total {
                Some(sum) => sum == self@.total_cost(),
                None => self@.total_cost() > u64::MAX,
            },
    {
        let ghost g = self@;
        let mut sum: u64 = 0;
        let mut i: usize = 0;
        assert(g.nodes.take(0) =~= Seq::empty());
        while i < self.nodes.len()
            invariant
                i <= self.nodes@.len(),
                g == self@,
                g.nodes.len() == self.nodes@.len(),
                sum == nodes_cost(g.nodes.take(i as int)),
            decreases self.nodes@.len() - i,
        {
            let node = &self.nodes[i];
            let ghost edges = g.nodes[i as int].edges;
            let ghost start = sum;
            let mut j: usize = 0;
            proof {
                self.lemma_view_node(i as int);
                lemma_nodes_cost_take(g.nodes, i as int);
                assert(edges.take(0) =~= Seq::empty());
            }
            while j < node.edges.len()
                invariant
                    j <= node.edges@.len(),
                    i < self.nodes@.len(),
                    g == self@,
                    node == self.nodes@[i as int],
                    edges == g.nodes[i as int].edges,
                    edges.len() == node.edges@.len(),
                    start + edges_cost(edges) <= g.total_cost(),
                    sum == start + edges_cost(edges.take(j as int)),
                decreases node.edges@.len() - j,
            {
                let cost = node.edges[j].cost;
                proof {
                    self.lemma_view_edge(i as int, j as int);
                    lemma_edges_cost_take(edges, j as int);
                    lemma_edges_cost_take(edges, j + 1);
                }
                if cost > u64::MAX - sum {
                    return None;
                }
                sum = sum + cost;
                j += 1;
            }
            assert(edges.take(j as int) =~= edges);
            i += 1;
        }
        assert(g.nodes.take(i as int) =~= g.nodes);
        Some(sum)
    }

    /// Whether the graph's invariant holds: the count is the number of
    /// nodes, each node carries its index, each edge leads to a node.
    pub fn is_well_formed(&self) -> (ok: bool)
        ensures
            ok == self.wf(),
    {
        if self.node_count as usize != self.nodes.len() {
            return false;
        }
        let ghost g = self@;
        let mut i: usize = 0;
        while i < self.nodes.len()
            invariant
                i <= self.nodes@.len(),
                g == self@,
                g.nodes.len() == self.nodes@.len(),
                g.node_count == g.nodes.len(),
                forall|v: int| 0 <= v < i ==> (#[trigger] g.nodes[v]).id == v,
                forall|v: int, e: int|
                    0 <= v < i && 0 <= e < g.nodes[v].edges.len() ==> (#[trigger] g.nodes[v].edges[e]).to
                        < g.nodes.len(),
            decreases self.nodes@.len() - i,
        {
            let node = &self.nodes[i];
            proof {
                self.lemma_view_node(i as int);
            }
            if node.id as usize != i {
                assert(g.nodes[i as int].id != i);
                return false;
            }
            let mut j: usize = 0;
            while j < node.edges.len()
                invariant
                    j <= node.edges@.len(),
                    i < self.nodes@.len(),
                    g == self@,
                    g.nodes.len() == self.nodes@.len(),
                    node == self.nodes@[i as int],
                    g.nodes[i as int].edges.len() == node.edges@.len(),
                    forall|e: int|
                        0 <= e < j ==> (#[trigger] g.nodes[i as int].edges[e]).to < g.nodes.len(),
                decreases node.edges@.len() - j,
            {
                proof {
                    self.lemma_view_edge(i as int, j as int);
                }
                if node.edges[j].to as usize >= self.nodes.len() {
                    assert(g.nodes[i as int].edges[j as int].to >= g.nodes.len());
                    return false;
                }
                j += 1;
            }
            i += 1;
        }
        true
    }
}

} // verus!
