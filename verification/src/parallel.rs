//! The parallel search engine: the search for a target, with the branches
//! of the search tree handed to a pool of workers.
//!
//! Two things travel between the branches. A shared number holds the
//! longest distance found so far: a branch that reaches the target raises
//! it, and where it was raised the branch sends its path to a channel. And
//! each branch hands back the greatest distance found beyond it, a number
//! only. When all branches are done, the longest of the paths sent is kept
//! and held against that number.

use crate::graph::{EdgeView, Graph, GraphView};
use crate::path::{clone_id_set, ids_of_set, lemma_to_set_push, Path, PathView};
use crate::search::{is_longest_to, lemma_found_path_wf};
use crate::walk::{
    admissible, costs_fit, edge_after, is_path_of_graph, lemma_admissible_prefix,
    lemma_same_nodes_same_steps, lemma_walk_nodes, lemma_walk_path_is_path_of_graph,
    path_of_walk, step_allowed, walk_cost, walk_end, walk_nodes, Goal,
};
use rayon::iter::{IntoParallelIterator, ParallelIterator};
use std::collections::HashSet;
use std::sync::atomic::AtomicU64;
use std::sync::atomic::Ordering;
use std::sync::mpsc::{Receiver, Sender};
use std::sync::Arc;
use vstd::prelude::*;

verus! {

broadcast use vstd::std_specs::hash::group_hash_axioms;

/// `std::sync::mpsc::Sender`, the sending end of a channel.
#[verifier::external_type_specification]
#[verifier::external_body]
#[verifier::reject_recursive_types(T)]
pub struct ExSender<T>(Sender<T>);

/// `std::sync::mpsc::Receiver`, the receiving end of a channel.
#[verifier::external_type_specification]
#[verifier::external_body]
#[verifier::reject_recursive_types(T)]
pub struct ExReceiver<T>(Receiver<T>);

/// What one branch of the search decides on entering a node.
pub enum BranchStep {
    /// The node is the target: the path into it is complete.
    Arrived(Path),
    /// The search goes on: one branch for each edge that it follows, each
    /// with the node the edge leads to and a path of its own.
    GoesOn(Vec<(u32, Path)>),
}

/// The path with one more node at its end, at the same distance.
pub open spec fn entered(path: PathView, node: nat) -> PathView {
    PathView {
        node_ids: path.node_ids.push(node),
        node_id_set: path.node_id_set.insert(node),
        distance_sum: path.distance_sum,
    }
}

/// Whether a search for `target` that stands at the end of the path `at`
/// follows the edge: it leads to a node that is not on the path, and to the
/// target where the path touches every neighbour of the target.
pub open spec fn edge_is_followed(g: GraphView, target: nat, at: PathView, edge: EdgeView) -> bool {
    &&& !at.node_id_set.contains(edge.to)
    &&& g.neighbor_set(target).subset_of(at.node_id_set) ==> edge.to == target
}

/// The positions, in order, of those among the first `k` edges of `node`
/// that the search follows.
pub open spec fn followed_edges(g: GraphView, target: nat, node: nat, at: PathView, k: int) -> Seq<
    int,
>
    decreases k,
{
    if k <= 0 {
        Seq::empty()
    } else if edge_is_followed(g, target, at, g.nodes[node as int].edges[k - 1]) {
        followed_edges(g, target, node, at, k - 1).push(k - 1)
    } else {
        followed_edges(g, target, node, at, k - 1)
    }
}

/// The branch along an edge: the node it leads to, and the path so far at
/// the distance with the cost of the edge added.
pub open spec fn branch_along(at: PathView, edge: EdgeView) -> (nat, PathView) {
    (
        edge.to,
        PathView {
            node_ids: at.node_ids,
            node_id_set: at.node_id_set,
            distance_sum: at.distance_sum + edge.cost,
        },
    )
}

/// The branches in which a search for `target` goes on from `node`, where
/// it stands at the end of the path `at`: one for each edge that it
/// follows, in the order of the edges.
pub open spec fn allowed_branches(g: GraphView, target: nat, node: nat, at: PathView) -> Seq<
    (nat, PathView),
> {
    let followed = followed_edges(
        g,
        target,
        node,
        at,
        g.nodes[node as int].edges.len() as int,
    );
    Seq::new(followed.len(), |i: int| branch_along(at, g.nodes[node as int].edges[followed[i]]))
}

/// The branches of a list, as values.
pub open spec fn branches(next: Seq<(u32, Path)>) -> Seq<(nat, PathView)> {
    Seq::new(next.len(), |i: int| (next[i].0 as nat, next[i].1@))
}

/// The followed edges are followed, come in order, and none is left out.
pub proof fn lemma_followed_edges(g: GraphView, target: nat, node: nat, at: PathView, k: int)
    ensures
        forall|i: int|
            0 <= i < followed_edges(g, target, node, at, k).len() ==> {
                &&& 0 <= #[trigger] followed_edges(g, target, node, at, k)[i] < k
                &&& edge_is_followed(
                    g,
                    target,
                    at,
                    g.nodes[node as int].edges[followed_edges(g, target, node, at, k)[i]],
                )
            },
        forall|j: int|
            0 <= j < k && edge_is_followed(g, target, at, #[trigger] g.nodes[node as int].edges[j])
                ==> followed_edges(g, target, node, at, k).contains(j),
    decreases k,
{
    if k > 0 {
        lemma_followed_edges(g, target, node, at, k - 1);
        let before = followed_edges(g, target, node, at, k - 1);
        let now = followed_edges(g, target, node, at, k);
        assert forall|j: int|
            0 <= j < k && edge_is_followed(
                g,
                target,
                at,
                #[trigger] g.nodes[node as int].edges[j],
            ) implies now.contains(j) by {
            if j < k - 1 {
                let i = choose|i: int| 0 <= i < before.len() && before[i] == j;
                assert(now[i] == j);
            } else {
                assert(now[now.len() - 1] == j);
            }
        }
    }
}

/// One step of a branch: enters `node_id`; at the target the path is
/// complete, elsewhere the search goes on along each edge that it follows.
pub fn branch_step(
    graph: &Graph,
    to_node_id: u32,
    target_neighbor_id_set: &HashSet<u32>,
    node_id: u32,
    path: Path,
) -> (step: BranchStep)
    requires
        node_id < graph.nodes@.len(),
        ids_of_set(target_neighbor_id_set@) == graph@.neighbor_set(to_node_id as nat),
        node_id != to_node_id ==> forall|j: int|
            0 <= j < graph@.nodes[node_id as int].edges.len() && edge_is_followed(
                graph@,
                to_node_id as nat,
                entered(path@, node_id as nat),
                #[trigger] graph@.nodes[node_id as int].edges[j],
            ) ==> path@.distance_sum + graph@.nodes[node_id as int].edges[j].cost <= u64::MAX,
    ensures
        match step {
            BranchStep::Arrived(complete) => node_id == to_node_id && complete@ == entered(
                path@,
                node_id as nat,
            ),
            BranchStep::GoesOn(next) => node_id != to_node_id && branches(next@)
                == allowed_branches(
                graph@,
                to_node_id as nat,
                node_id as nat,
                entered(path@, node_id as nat),
            ),
        },
{
    let ghost g = graph@;
    let ghost target = to_node_id as nat;
    let ghost at = entered(path@, node_id as nat);
    let mut path = path;
    path.push_node(node_id);
    assert(path@ == at);
    if node_id == to_node_id {
        return BranchStep::Arrived(path);
    }
    let finished = path.covers(target_neighbor_id_set);
    let node = &graph.nodes[node_id as usize];
    proof {
        graph.lemma_view_node(node_id as int);
    }
    let mut next: Vec<(u32, Path)> = Vec::new();
    let mut i: usize = 0;
    while i < node.edges.len()
        invariant
            i <= node.edges@.len(),
            g == graph@,
            target == to_node_id as nat,
            node_id < graph.nodes@.len(),
            node == graph.nodes@[node_id as int],
            g.nodes[node_id as int].edges.len() == node.edges@.len(),
            path@ == at,
            finished == g.neighbor_set(target).subset_of(at.node_id_set),
            forall|j: int|
                0 <= j < g.nodes[node_id as int].edges.len() && edge_is_followed(
                    g,
                    target,
                    at,
                    #[trigger] g.nodes[node_id as int].edges[j],
                ) ==> at.distance_sum + g.nodes[node_id as int].edges[j].cost <= u64::MAX,
            next@.len() == followed_edges(g, target, node_id as nat, at, i as int).len(),
            forall|t: int|
                0 <= t < next@.len() ==> (#[trigger] next@[t]).0 as nat == branch_along(
                    at,
                    g.nodes[node_id as int].edges[followed_edges(
                        g,
                        target,
                        node_id as nat,
                        at,
                        i as int,
                    )[t]],
                ).0 && next@[t].1@ == branch_along(
                    at,
                    g.nodes[node_id as int].edges[followed_edges(
                        g,
                        target,
                        node_id as nat,
                        at,
                        i as int,
                    )[t]],
                ).1,
        decreases node.edges@.len() - i,
    {
        let edge = node.edges[i];
        proof {
            graph.lemma_view_edge(node_id as int, i as int);
            assert(g.nodes[node_id as int].edges[i as int] == edge@);
        }
        if !(finished && edge.to != to_node_id) && !path.visits(edge.to) {
            assert(edge_is_followed(g, target, at, g.nodes[node_id as int].edges[i as int]));
            let extended = Path {
                node_ids: path.node_ids.clone(),
                node_id_set: clone_id_set(&path.node_id_set),
                distance_sum: path.distance_sum + edge.cost,
            };
            assert(extended@.node_ids =~= at.node_ids);
            assert(extended@.node_id_set =~= at.node_id_set);
            next.push((edge.to, extended));
        }
        i += 1;
    }
    assert(branches(next@) =~= allowed_branches(g, target, node_id as nat, at));
    BranchStep::GoesOn(next)
}

/// Whether a branch that has arrived with `distance` sends its path: it
/// does where the shared distance was less before the branch raised it.
pub fn raises(previous: u64, distance: u64) -> (send: bool)
    ensures
        send == (previous < distance),
{
    previous < distance
}

/// A branch that is about to enter `node` carries `path`: the path of a
/// walk that the search for `target` explores into `node`, short of its
/// last node.
pub open spec fn arrives_at(g: GraphView, root: nat, target: nat, node: nat, path: PathView) -> bool {
    exists|w: Seq<int>|
        #![trigger admissible(g, root, Goal::Target { node: target, pruned: true }, w)]
        {
            &&& admissible(g, root, Goal::Target { node: target, pruned: true }, w)
            &&& walk_end(g, root, w) == node
            &&& path == PathView::of(walk_nodes(g, root, w).drop_last(), walk_cost(g, root, w))
        }
}

/// The walk `w` comes by the branch that enters `node` with `path`: after
/// some of its steps it stands in `node`, over the nodes and at the
/// distance of `path`.
pub open spec fn comes_by(g: GraphView, root: nat, w: Seq<int>, node: nat, path: PathView) -> bool {
    exists|k: int|
        #![trigger w.take(k)]
        {
            &&& 0 <= k <= w.len()
            &&& walk_end(g, root, w.take(k)) == node
            &&& path == PathView::of(
                walk_nodes(g, root, w.take(k)).drop_last(),
                walk_cost(g, root, w.take(k)),
            )
        }
}

/// The walk `w` is explored by the search for `target`, ends in the target
/// and comes by the branch that enters `node` with `path`.
pub open spec fn arrives_by(
    g: GraphView,
    root: nat,
    target: nat,
    w: Seq<int>,
    node: nat,
    path: PathView,
) -> bool {
    &&& admissible(g, root, Goal::Target { node: target, pruned: true }, w)
    &&& walk_end(g, root, w) == target
    &&& comes_by(g, root, w, node, path)
}

/// `distance` is the greatest cost of a walk that arrives in the target by
/// the branch that enters `node` with `path`, or zero where none does.
pub open spec fn is_greatest_beyond(
    g: GraphView,
    root: nat,
    target: nat,
    node: nat,
    path: PathView,
    distance: nat,
) -> bool {
    &&& forall|w: Seq<int>| #[trigger]
        arrives_by(g, root, target, w, node, path) ==> walk_cost(g, root, w) <= distance
    &&& distance == 0 || exists|w: Seq<int>| #[trigger]
        arrives_by(g, root, target, w, node, path) && walk_cost(g, root, w) == distance
}

/// What `find_longest_path_to_paralell` returns whatever the order in which
/// the workers run: the empty path, or the path of a walk of positive cost
/// that the search for the target explores and that ends in the target.
pub open spec fn is_found_path_to(g: GraphView, root: nat, target: nat, path: PathView) -> bool {
    path == PathView::empty() || (path.distance_sum > 0 && exists|w: Seq<int>|
        #![trigger admissible(g, root, Goal::Target { node: target, pruned: true }, w)]
        {
            &&& admissible(g, root, Goal::Target { node: target, pruned: true }, w)
            &&& walk_end(g, root, w) == target
            &&& path == path_of_walk(g, root, w)
        })
}

/// The path is one that the search for the target finds, and no walk that
/// the search explores into the target costs more.
pub open spec fn is_longest_found_to(g: GraphView, root: nat, target: nat, path: PathView) -> bool {
    &&& is_found_path_to(g, root, target, path)
    &&& forall|w: Seq<int>| #[trigger]
        admissible(g, root, Goal::Target { node: target, pruned: true }, w) && walk_end(g, root, w)
            == target ==> walk_cost(g, root, w) <= path.distance_sum
}

/// A path that the search finds and that is as long as any is as long as
/// the path that the sequential search returns.
pub proof fn lemma_longest_found_is_as_long(
    g: GraphView,
    root: nat,
    target: nat,
    found: PathView,
    longest: PathView,
)
    requires
        is_longest_found_to(g, root, target, found),
        is_longest_to(g, root, target, longest),
    ensures
        found.distance_sum == longest.distance_sum,
{
    let goal = Goal::Target { node: target, pruned: true };
    if found != PathView::empty() {
        let w = choose|w: Seq<int>|
            #![trigger admissible(g, root, goal, w)]
            {
                &&& admissible(g, root, goal, w)
                &&& walk_end(g, root, w) == target
                &&& found == path_of_walk(g, root, w)
            };
        assert(admissible(g, root, goal, w));
    }
    if longest.distance_sum != 0 {
        let b = choose|b: Seq<int>| #[trigger]
            crate::best::is_first_longest(g, root, goal, target, b) && longest == path_of_walk(
                g,
                root,
                b,
            );
        assert(admissible(g, root, goal, b));
    }
}

/// On entering the node at which it arrives, a branch stands at the end of
/// the path of its walk.
proof fn lemma_entered_is_path_of_walk(
    g: GraphView,
    root: nat,
    w: Seq<int>,
    node: nat,
    path: PathView,
)
    requires
        walk_end(g, root, w) == node,
        path == PathView::of(walk_nodes(g, root, w).drop_last(), walk_cost(g, root, w)),
    ensures
        entered(path, node) == path_of_walk(g, root, w),
{
    let nodes = walk_nodes(g, root, w);
    lemma_walk_nodes(g, root, w);
    lemma_to_set_push(nodes.drop_last(), node);
    assert(nodes.drop_last().push(node) =~= nodes);
}

/// Where a branch in a node other than the target stands at the end of the
/// path of its walk, the edges it follows are the steps allowed there.
proof fn lemma_followed_is_allowed(g: GraphView, root: nat, target: nat, w: Seq<int>, j: int)
    requires
        walk_end(g, root, w) != target,
        0 <= j < g.nodes[walk_end(g, root, w) as int].edges.len(),
    ensures
        edge_is_followed(
            g,
            target,
            path_of_walk(g, root, w),
            g.nodes[walk_end(g, root, w) as int].edges[j],
        ) <==> step_allowed(g, root, Goal::Target { node: target, pruned: true }, w, j),
{
    let nodes = walk_nodes(g, root, w);
    assert(nodes.to_set().contains(edge_after(g, root, w, j).to) <==> nodes.contains(
        edge_after(g, root, w, j).to,
    ));
}

/// The walk that takes one more step along a followed edge arrives at the
/// branch along that edge.
proof fn lemma_branch_arrives(g: GraphView, root: nat, target: nat, w: Seq<int>, j: int)
    requires
        admissible(g, root, Goal::Target { node: target, pruned: true }, w),
        step_allowed(g, root, Goal::Target { node: target, pruned: true }, w, j),
    ensures
        admissible(g, root, Goal::Target { node: target, pruned: true }, w.push(j)),
        walk_end(g, root, w.push(j)) == edge_after(g, root, w, j).to,
        walk_cost(g, root, w.push(j)) == walk_cost(g, root, w) + edge_after(g, root, w, j).cost,
        walk_nodes(g, root, w.push(j)).drop_last() == walk_nodes(g, root, w),
        PathView::of(
            walk_nodes(g, root, w.push(j)).drop_last(),
            walk_cost(g, root, w.push(j)),
        ) == branch_along(path_of_walk(g, root, w), edge_after(g, root, w, j)).1,
{
    assert(w.push(j).drop_last() =~= w);
    lemma_walk_nodes(g, root, w.push(j));
}

/// The greatest distance found beyond a node that is not the target is the
/// greatest found beyond the branches in which the search goes on from it.
proof fn lemma_greatest_of_branches(
    g: GraphView,
    root: nat,
    target: nat,
    node: nat,
    path: PathView,
    next: Seq<(nat, PathView)>,
    found: Seq<u64>,
    greatest: nat,
)
    requires
        arrives_at(g, root, target, node, path),
        node != target,
        next == allowed_branches(g, target, node, entered(path, node)),
        found.len() == next.len(),
        forall|i: int|
            0 <= i < next.len() ==> is_greatest_beyond(
                g,
                root,
                target,
                next[i].0,
                next[i].1,
                #[trigger] found[i] as nat,
            ),
        forall|i: int| 0 <= i < found.len() ==> #[trigger] found[i] <= greatest,
        greatest == 0 || exists|i: int| 0 <= i < found.len() && #[trigger] found[i] == greatest,
    ensures
        is_greatest_beyond(g, root, target, node, path, greatest),
{
    let goal = Goal::Target { node: target, pruned: true };
    let at = entered(path, node);
    let edges = g.nodes[node as int].edges;
    let followed = followed_edges(g, target, node, at, edges.len() as int);
    lemma_followed_edges(g, target, node, at, edges.len() as int);
    assert forall|w: Seq<int>| #[trigger] arrives_by(g, root, target, w, node, path) implies walk_cost(
        g,
        root,
        w,
    ) <= greatest by {
        let k = choose|k: int|
            #![trigger w.take(k)]
            {
                &&& 0 <= k <= w.len()
                &&& walk_end(g, root, w.take(k)) == node
                &&& path == PathView::of(
                    walk_nodes(g, root, w.take(k)).drop_last(),
                    walk_cost(g, root, w.take(k)),
                )
            };
        let p = w.take(k);
        if k == w.len() {
            assert(p =~= w);
        }
        lemma_admissible_prefix(g, root, goal, w, k);
        lemma_entered_is_path_of_walk(g, root, p, node, path);
        let j = w[k];
        lemma_followed_is_allowed(g, root, target, p, j);
        assert(edge_is_followed(g, target, at, edges[j]));
        let i = choose|i: int| 0 <= i < followed.len() && followed[i] == j;
        lemma_branch_arrives(g, root, target, p, j);
        assert(w.take(k + 1) =~= p.push(j));
        assert(next[i] == branch_along(at, edges[j]));
        assert(comes_by(g, root, w, next[i].0, next[i].1));
        assert(arrives_by(g, root, target, w, next[i].0, next[i].1));
        assert(walk_cost(g, root, w) <= found[i]);
    }
    if greatest != 0 {
        let i = choose|i: int| 0 <= i < found.len() && #[trigger] found[i] == greatest;
        let j = followed[i];
        assert(next[i] == branch_along(at, edges[j]));
        let far = choose|w: Seq<int>| #[trigger]
            arrives_by(g, root, target, w, next[i].0, next[i].1) && walk_cost(g, root, w)
                == found[i];
        // The walk found beyond the branch may have come to it another way,
        // over the same nodes; what lies beyond goes on from this branch too.
        let k = choose|k: int|
            #![trigger far.take(k)]
            {
                &&& 0 <= k <= far.len()
                &&& walk_end(g, root, far.take(k)) == next[i].0
                &&& next[i].1 == PathView::of(
                    walk_nodes(g, root, far.take(k)).drop_last(),
                    walk_cost(g, root, far.take(k)),
                )
            };
        let other = far.take(k);
        let rest = far.skip(k);
        assert(other + rest =~= far);
        let here = choose|w: Seq<int>|
            #![trigger admissible(g, root, goal, w)]
            {
                &&& admissible(g, root, goal, w)
                &&& walk_end(g, root, w) == node
                &&& path == PathView::of(walk_nodes(g, root, w).drop_last(), walk_cost(g, root, w))
            };
        lemma_entered_is_path_of_walk(g, root, here, node, path);
        lemma_followed_is_allowed(g, root, target, here, j);
        lemma_branch_arrives(g, root, target, here, j);
        let mine = here.push(j);
        lemma_walk_nodes(g, root, other);
        lemma_walk_nodes(g, root, mine);
        assert(walk_nodes(g, root, other) =~= walk_nodes(g, root, other).drop_last().push(
            walk_end(g, root, other),
        ));
        assert(walk_nodes(g, root, mine) =~= walk_nodes(g, root, mine).drop_last().push(
            walk_end(g, root, mine),
        ));
        assert(walk_nodes(g, root, other) == walk_nodes(g, root, mine));
        lemma_same_nodes_same_steps(g, root, goal, other, mine, rest);
        let near = mine + rest;
        assert(near.take(here.len() as int) =~= here);
        assert(comes_by(g, root, near, node, path));
        assert(arrives_by(g, root, target, near, node, path));
        assert(walk_cost(g, root, near) == greatest);
    }
}

/// What the branches of one parallel search share.
struct LongestPathFinderParalell<'a> {
    graph: &'a Graph,
    from_node_id: u32,
    to_node_id: u32,
    longest_path_distance: AtomicU64,
    target_neighbor_id_set: HashSet<u32>,
}

/// A path into the target that a branch has found, with the search it
/// belongs to.
struct Candidate<'a> {
    finder: Arc<LongestPathFinderParalell<'a>>,
    path: Path,
}

impl<'a> Candidate<'a> {
    /// The path is one that its search explores, and ends in the target.
    #[verifier::type_invariant]
    spec fn inv(self) -> bool {
        self.finder.explores(self.path@)
    }
}

/// Raises the shared distance to `distance` where that is more, with
/// `AtomicU64::fetch_max`, and returns what it held before. What it held is
/// what the other branches have raised it to by then, so nothing is known of
/// the result here, and no caller relies on it for more than the choice
/// whether to send.
fn raise_longest(shared: &AtomicU64, distance: u64) -> u64 {
    shared.fetch_max(distance, Ordering::SeqCst)
}

/// Makes the channel on which the branches send what they find, with
/// `std::sync::mpsc::channel`.
#[verifier::external_body]
fn candidate_channel<'a>() -> (ends: (Sender<Candidate<'a>>, Receiver<Candidate<'a>>)) {
    std::sync::mpsc::channel()
}

/// Sends a candidate with `Sender::send`, and tells whether the channel
/// took it; it does while the receiving end exists.
#[verifier::external_body]
fn send_candidate<'a>(found_path_sender: &Sender<Candidate<'a>>, candidate: Candidate<'a>) -> (sent:
    bool) {
    found_path_sender.send(candidate).is_ok()
}

/// Takes from the channel, with `Receiver::try_iter`, the candidates that
/// have arrived, in the order of their arrival, without waiting for more.
#[verifier::external_body]
fn received<'a>(found_paths: &Receiver<Candidate<'a>>) -> (candidates: Vec<Candidate<'a>>) {
    found_paths.try_iter().collect()
}

/// Tells with `Arc::ptr_eq` whether two handles lead to one and the same
/// search; if they do, they hold the same value.
#[verifier::external_body]
fn same_search<'a>(
    first: &Arc<LongestPathFinderParalell<'a>>,
    second: &Arc<LongestPathFinderParalell<'a>>,
) -> (same: bool)
    ensures
        same ==> first == second,
{
    Arc::ptr_eq(first, second)
}

/// Runs `calc_longest_path_to` on each branch in rayon's pool, with a
/// parallel iterator over the branches, `map` and `collect`, and returns
/// what each run returned, in the order of the branches: for each branch
/// the greatest distance found beyond it.
#[verifier::external_body]
fn search_branches<'a>(
    finder: &Arc<LongestPathFinderParalell<'a>>,
    to_node_id: u32,
    next: Vec<(u32, Path)>,
    found_path_sender: &Sender<Candidate<'a>>,
) -> (found: Vec<u64>)
    requires
        to_node_id == finder.to_node_id,
        forall|i: int|
            0 <= i < next@.len() ==> finder.arrives_at((#[trigger] next@[i]).0 as nat, next@[i].1@),
    ensures
        found@.len() == next@.len(),
        forall|i: int|
            0 <= i < next@.len() ==> finder.is_greatest_beyond(
                next@[i].0 as nat,
                next@[i].1@,
                #[trigger] found@[i] as nat,
            ),
{
    next.into_par_iter().map(
        |(node_id, path)| finder.calc_longest_path_to(node_id, to_node_id, path, found_path_sender),
    ).collect()
}

/// The greatest of the numbers, zero for none.
fn greatest_of(found: &Vec<u64>) -> (greatest: u64)
    ensures
        forall|i: int| 0 <= i < found@.len() ==> #[trigger] found@[i] <= greatest,
        greatest == 0 || exists|i: int| 0 <= i < found@.len() && #[trigger] found@[i] == greatest,
{
    let mut greatest: u64 = 0;
    let mut i: usize = 0;
    while i < found.len()
        invariant
            i <= found@.len(),
            forall|j: int| 0 <= j < i ==> #[trigger] found@[j] <= greatest,
            greatest == 0 || exists|j: int| 0 <= j < i && #[trigger] found@[j] == greatest,
        decreases found@.len() - i,
    {
        if greatest < found[i] {
            greatest = found[i];
        }
        i += 1;
    }
    greatest
}

/// The longest of the candidates, as the collector keeps it: the first, in
/// the order of arrival, of those with the greatest distance, or the empty
/// path where none has a positive distance. Beside it, the number of
/// candidates that were not longer than the path held when they arrived.
pub fn collect_longest(candidates: Vec<Path>) -> (kept: (Path, usize))
    ensures
        forall|i: int|
            0 <= i < candidates@.len() ==> (#[trigger] candidates@[i])@.distance_sum
                <= kept.0@.distance_sum,
        kept.0@.distance_sum == 0 ==> kept.0@ == PathView::empty(),
        kept.0@.distance_sum > 0 ==> exists|i: int|
            #![trigger candidates@[i]]
            {
                &&& 0 <= i < candidates@.len()
                &&& kept.0@ == candidates@[i]@
                &&& forall|j: int|
                    0 <= j < i ==> (#[trigger] candidates@[j])@.distance_sum
                        < kept.0@.distance_sum
            },
        kept.0@.distance_sum == longest_distance(candidates@, candidates@.len() as int),
        kept.1 == late_arrivals(candidates@, candidates@.len() as int),
        kept.1 <= candidates@.len(),
{
    let mut longest_path = Path::default();
    let mut late: usize = 0;
    let ghost mut at: int = -1;
    let mut i: usize = 0;
    while i < candidates.len()
        invariant
            i <= candidates@.len(),
            -1 <= at < i,
            at == -1 ==> longest_path@ == PathView::empty(),
            at >= 0 ==> longest_path@ == candidates@[at]@ && longest_path@.distance_sum > 0,
            longest_path@.distance_sum == longest_distance(candidates@, i as int),
            forall|j: int|
                0 <= j < i ==> (#[trigger] candidates@[j])@.distance_sum
                    <= longest_path@.distance_sum,
            forall|j: int|
                0 <= j < at ==> (#[trigger] candidates@[j])@.distance_sum
                    < longest_path@.distance_sum,
            late == late_arrivals(candidates@, i as int),
            late <= i,
        decreases candidates@.len() - i,
    {
        if longest_path.distance_sum < candidates[i].distance_sum {
            longest_path = candidates[i].clone();
            proof {
                at = i as int;
            }
        } else {
            late = late + 1;
        }
        i += 1;
    }
    (longest_path, late)
}

/// The greatest distance among the first `k` candidates, zero for none.
pub open spec fn longest_distance(candidates: Seq<Path>, k: int) -> nat
    decreases k,
{
    if k <= 0 {
        0
    } else if longest_distance(candidates, k - 1) < candidates[k - 1]@.distance_sum {
        candidates[k - 1]@.distance_sum
    } else {
        longest_distance(candidates, k - 1)
    }
}

/// How many of the first `k` candidates were not longer than every
/// candidate before them, or had distance zero.
pub open spec fn late_arrivals(candidates: Seq<Path>, k: int) -> nat
    decreases k,
{
    if k <= 0 {
        0
    } else if longest_distance(candidates, k - 1) < candidates[k - 1]@.distance_sum {
        late_arrivals(candidates, k - 1)
    } else {
        late_arrivals(candidates, k - 1) + 1
    }
}

impl<'a> LongestPathFinderParalell<'a> {
    /// The path of a walk that the search explores into the target.
    spec fn explores(&self, path: PathView) -> bool {
        exists|w: Seq<int>|
            #![trigger admissible(
                self.graph@,
                self.from_node_id as nat,
                Goal::Target { node: self.to_node_id as nat, pruned: true },
                w,
            )]
            {
                &&& admissible(
                    self.graph@,
                    self.from_node_id as nat,
                    Goal::Target { node: self.to_node_id as nat, pruned: true },
                    w,
                )
                &&& walk_end(self.graph@, self.from_node_id as nat, w) == self.to_node_id
                &&& path == path_of_walk(self.graph@, self.from_node_id as nat, w)
            }
    }

    /// A branch of this search that is about to enter `node` carries `path`.
    spec fn arrives_at(&self, node: nat, path: PathView) -> bool {
        arrives_at(self.graph@, self.from_node_id as nat, self.to_node_id as nat, node, path)
    }

    /// `distance` is the greatest that this search finds beyond the branch
    /// that enters `node` with `path`.
    spec fn is_greatest_beyond(&self, node: nat, path: PathView, distance: nat) -> bool {
        is_greatest_beyond(
            self.graph@,
            self.from_node_id as nat,
            self.to_node_id as nat,
            node,
            path,
            distance,
        )
    }

    /// The graph keeps its invariant, root and target are nodes of it, the
    /// set holds the neighbours of the target, and every distance fits.
    #[verifier::type_invariant]
    spec fn inv(self) -> bool {
        &&& self.graph.wf()
        &&& self.from_node_id < self.graph@.nodes.len()
        &&& self.to_node_id < self.graph@.nodes.len()
        &&& ids_of_set(self.target_neighbor_id_set@) == self.graph@.neighbor_set(
            self.to_node_id as nat,
        )
        &&& costs_fit(
            self.graph@,
            self.from_node_id as nat,
            Goal::Target { node: self.to_node_id as nat, pruned: true },
        )
    }

    /// The shared state of a search that has found nothing yet.
    fn new(graph: &'a Graph, from_node_id: u32, to_node_id: u32) -> (finder: Arc<
        LongestPathFinderParalell<'a>,
    >)
        requires
            graph.wf(),
            from_node_id < graph@.nodes.len(),
            to_node_id < graph@.nodes.len(),
            costs_fit(
                graph@,
                from_node_id as nat,
                Goal::Target { node: to_node_id as nat, pruned: true },
            ),
        ensures
            finder.graph == graph,
            finder.from_node_id == from_node_id,
            finder.to_node_id == to_node_id,
    {
        Arc::new(
            LongestPathFinderParalell {
                graph,
                from_node_id,
                to_node_id,
                longest_path_distance: AtomicU64::new(0),
                target_neighbor_id_set: graph.find_neighbor_id_set(to_node_id),
            },
        )
    }

    /// One branch of the search: enters `node_id`. At the target, it raises
    /// the shared distance, sends the path where that raised it, and hands
    /// back the distance of the path. Elsewhere, it hands each edge that the
    /// search follows to the pool, and hands back the greatest distance
    /// found beyond them.
    fn calc_longest_path_to(
        self: &Arc<Self>,
        node_id: u32,
        to_node_id: u32,
        path: Path,
        found_path_sender: &Sender<Candidate<'a>>,
    ) -> (longest: u64)
        requires
            to_node_id == self.to_node_id,
            self.arrives_at(node_id as nat, path@),
        ensures
            self.is_greatest_beyond(node_id as nat, path@, longest as nat),
    {
        let graph = self.graph;
        let ghost g = graph@;
        let ghost root = self.from_node_id as nat;
        let ghost target = to_node_id as nat;
        let ghost goal = Goal::Target { node: target, pruned: true };
        let ghost at = entered(path@, node_id as nat);
        let ghost walk = choose|w: Seq<int>|
            #![trigger admissible(g, root, goal, w)]
            {
                &&& admissible(g, root, goal, w)
                &&& walk_end(g, root, w) == node_id
                &&& path@ == PathView::of(walk_nodes(g, root, w).drop_last(), walk_cost(g, root, w))
            };
        proof {
            use_type_invariant(&**self);
            crate::walk::lemma_admissible_in_graph(g, root, goal, walk);
            lemma_entered_is_path_of_walk(g, root, walk, node_id as nat, path@);
            assert forall|j: int|
                node_id != to_node_id && 0 <= j < g.nodes[node_id as int].edges.len()
                    && edge_is_followed(
                    g,
                    target,
                    at,
                    #[trigger] g.nodes[node_id as int].edges[j],
                ) implies path@.distance_sum + g.nodes[node_id as int].edges[j].cost
                <= u64::MAX by {
                lemma_followed_is_allowed(g, root, target, walk, j);
                lemma_branch_arrives(g, root, target, walk, j);
                assert(admissible(g, root, goal, walk.push(j)));
            }
        }
        match branch_step(graph, to_node_id, &self.target_neighbor_id_set, node_id, path) {
            BranchStep::Arrived(complete) => {
                let distance = complete.distance_sum;
                proof {
                    assert(walk.take(walk.len() as int) =~= walk);
                    assert(comes_by(g, root, walk, node_id as nat, path@));
                    assert(arrives_by(g, root, target, walk, node_id as nat, path@));
                    assert forall|w: Seq<int>| #[trigger]
                        arrives_by(g, root, target, w, node_id as nat, path@) implies walk_cost(
                        g,
                        root,
                        w,
                    ) <= distance by {
                        let k = choose|k: int|
                            #![trigger w.take(k)]
                            {
                                &&& 0 <= k <= w.len()
                                &&& walk_end(g, root, w.take(k)) == node_id
                                &&& path@ == PathView::of(
                                    walk_nodes(g, root, w.take(k)).drop_last(),
                                    walk_cost(g, root, w.take(k)),
                                )
                            };
                        lemma_admissible_prefix(g, root, goal, w, k);
                        if k == w.len() {
                            assert(w.take(k) =~= w);
                        }
                    }
                }
                let previous = raise_longest(&self.longest_path_distance, distance);
                if raises(previous, distance) {
                    // The receiving end outlives every branch, so the channel takes it.
                    let _ = send_candidate(
                        found_path_sender,
                        Candidate { finder: self.clone(), path: complete },
                    );
                }
                distance
            },
            BranchStep::GoesOn(next) => {
                proof {
                    let edges = g.nodes[node_id as int].edges;
                    let followed = followed_edges(g, target, node_id as nat, at, edges.len() as int);
                    lemma_followed_edges(g, target, node_id as nat, at, edges.len() as int);
                    assert(branches(next@).len() == next@.len());
                    assert(allowed_branches(g, target, node_id as nat, at).len() == followed.len());
                    assert forall|i: int| 0 <= i < next@.len() implies self.arrives_at(
                        (#[trigger] next@[i]).0 as nat,
                        next@[i].1@,
                    ) by {
                        let j = followed[i];
                        assert(branches(next@)[i] == branch_along(at, edges[j]));
                        lemma_followed_is_allowed(g, root, target, walk, j);
                        lemma_branch_arrives(g, root, target, walk, j);
                        assert(admissible(g, root, goal, walk.push(j)));
                    }
                }
                let ghost handed = branches(next@);
                let found = search_branches(self, to_node_id, next, found_path_sender);
                let greatest = greatest_of(&found);
                proof {
                    assert forall|i: int| 0 <= i < handed.len() implies is_greatest_beyond(
                        g,
                        root,
                        target,
                        handed[i].0,
                        handed[i].1,
                        #[trigger] found@[i] as nat,
                    ) by {}
                    lemma_greatest_of_branches(
                        g,
                        root,
                        target,
                        node_id as nat,
                        path@,
                        handed,
                        found@,
                        greatest as nat,
                    );
                }
                greatest
            },
        }
    }

    /// Runs the whole search in the pool, then keeps the longest of the
    /// paths that the branches have sent and holds it against the greatest
    /// distance that the branches have handed back. Where the two differ, a
    /// path has not arrived, and the path is searched for once more, by one
    /// worker. Beside the path, the number of such faults: the candidates
    /// that arrived without being longer than the path held, and one more
    /// where the longest did not arrive.
    fn get_longest_path_to(self: Arc<Self>) -> (kept: (Path, usize))
        ensures
            is_longest_found_to(
                self.graph@,
                self.from_node_id as nat,
                self.to_node_id as nat,
                kept.0@,
            ),
    {
        let finder = self;
        let root = finder.from_node_id;
        let to_node_id = finder.to_node_id;
        let ghost g = finder.graph@;
        let ghost goal = Goal::Target { node: to_node_id as nat, pruned: true };
        let (tx, rx) = candidate_channel();
        proof {
            use_type_invariant(&*finder);
            let e = Seq::<int>::empty();
            assert(admissible(g, root as nat, goal, e));
            assert(walk_nodes(g, root as nat, e).drop_last() =~= Seq::<nat>::empty());
            assert(Seq::<nat>::empty().to_set() =~= Set::<nat>::empty());
        }
        let greatest = finder.calc_longest_path_to(root, to_node_id, Path::default(), &tx);
        proof {
            assert forall|w: Seq<int>| #[trigger]
                admissible(g, root as nat, goal, w) && walk_end(g, root as nat, w)
                    == to_node_id implies walk_cost(g, root as nat, w) <= greatest by {
                assert(w.take(0) =~= Seq::<int>::empty());
                assert(walk_nodes(g, root as nat, w.take(0)).drop_last() =~= Seq::<nat>::empty());
                assert(comes_by(g, root as nat, w, root as nat, PathView::empty()));
                assert(arrives_by(g, root as nat, to_node_id as nat, w, root as nat, PathView::empty()));
            }
        }
        let candidates = received(&rx);
        let mut paths: Vec<Path> = Vec::new();
        let mut strays: usize = 0;
        let mut i: usize = 0;
        while i < candidates.len()
            invariant
                i <= candidates@.len(),
                paths@.len() + strays == i,
                forall|j: int| 0 <= j < paths@.len() ==> finder.explores((#[trigger] paths@[j])@),
            decreases candidates@.len() - i,
        {
            let candidate = &candidates[i];
            if same_search(&candidate.finder, &finder) {
                proof {
                    use_type_invariant(candidate);
                }
                paths.push(candidate.path.clone());
            } else {
                strays = strays + 1;
            }
            i += 1;
        }
        let (longest_path, late) = collect_longest(paths);
        if longest_path.distance_sum == greatest {
            (longest_path, late + strays)
        } else {
            let again = finder.graph.find_longest_path_to(root, to_node_id);
            proof {
                crate::laws::lemma_longest_to_is_found(g, root as nat, to_node_id as nat, again@);
                if again@.distance_sum != 0 {
                    let b = choose|b: Seq<int>| #[trigger]
                        crate::best::is_first_longest(g, root as nat, goal, to_node_id as nat, b)
                            && again@ == path_of_walk(g, root as nat, b);
                    assert(admissible(g, root as nat, goal, b));
                }
            }
            let faults = if late + strays < usize::MAX {
                late + strays + 1
            } else {
                usize::MAX
            };
            (again, faults)
        }
    }
}

impl Graph {
    /// The longest simple path from `root` to `to_node_id` among those that
    /// the search explores, searched for by many workers at once.
    ///
    /// The result is as long as that of `find_longest_path_to`. Which of
    /// the longest paths it is depends on the order in which the workers
    /// happen to run.
    pub fn find_longest_path_to_paralell(&self, root: u32, to_node_id: u32) -> (longest: Path)
        requires
            self.wf(),
            root < self@.nodes.len(),
            to_node_id < self@.nodes.len(),
            costs_fit(self@, root as nat, Goal::Target { node: to_node_id as nat, pruned: true }),
        ensures
            is_longest_found_to(self@, root as nat, to_node_id as nat, longest@),
            forall|sequential: PathView|
                is_longest_to(self@, root as nat, to_node_id as nat, sequential)
                    ==> longest@.distance_sum == sequential.distance_sum,
            longest.wf(),
            is_path_of_graph(self@, longest@),
            longest@ == PathView::empty() || (longest@.node_ids[0] == root
                && longest@.node_ids.last() == to_node_id),
    {
        let (longest, _) = self.find_longest_path_to_paralell_counting(root, to_node_id);
        longest
    }

    /// The same search, and beside its result the number of faults in the
    /// traffic between the branches and the collector: paths that reached
    /// the collector without being longer than the path it held, because
    /// they arrived in another order than their branches raised the shared
    /// distance, and one more where the longest path did not arrive.
    pub fn find_longest_path_to_paralell_counting(&self, root: u32, to_node_id: u32) -> (found: (
        Path,
        usize,
    ))
        requires
            self.wf(),
            root < self@.nodes.len(),
            to_node_id < self@.nodes.len(),
            costs_fit(self@, root as nat, Goal::Target { node: to_node_id as nat, pruned: true }),
        ensures
            is_longest_found_to(self@, root as nat, to_node_id as nat, found.0@),
            forall|sequential: PathView|
                is_longest_to(self@, root as nat, to_node_id as nat, sequential) ==> found.0@.distance_sum
                    == sequential.distance_sum,
            found.0.wf(),
            is_path_of_graph(self@, found.0@),
            found.0@ == PathView::empty() || (found.0@.node_ids[0] == root
                && found.0@.node_ids.last() == to_node_id),
    {
        let finder = LongestPathFinderParalell::new(self, root, to_node_id);
        let found = finder.get_longest_path_to();
        proof {
            let goal = Goal::Target { node: to_node_id as nat, pruned: true };
            lemma_found_path_wf(found.0@);
            if found.0@ != PathView::empty() {
                let w = choose|w: Seq<int>|
                    #![trigger admissible(self@, root as nat, goal, w)]
                    {
                        &&& admissible(self@, root as nat, goal, w)
                        &&& walk_end(self@, root as nat, w) == to_node_id
                        &&& found.0@ == path_of_walk(self@, root as nat, w)
                    };
                lemma_walk_path_is_path_of_graph(self@, root as nat, goal, w);
            }
            assert forall|sequential: PathView|
                is_longest_to(self@, root as nat, to_node_id as nat, sequential) implies found.0@.distance_sum
                == sequential.distance_sum by {
                lemma_longest_found_is_as_long(
                    self@,
                    root as nat,
                    to_node_id as nat,
                    found.0@,
                    sequential,
                );
            }
        }
        found
    }
}

} // verus!
