//! The path accumulator: the nodes of a simple path in visiting order, the
//! same nodes as a set for fast membership tests, and the summed edge costs.

use std::collections::HashSet;
use vstd::prelude::*;

verus! {

broadcast use vstd::std_specs::hash::group_hash_axioms;

/// A path in progress or a finished result.
///
/// The empty path with distance zero is both the starting value of every
/// search and the sign that a search found nothing.
#[derive(Debug)]
pub struct Path {
    pub node_ids: Vec<u32>,
    pub node_id_set: HashSet<u32>,
    pub distance_sum: u64,
}

/// What a path says: its nodes in order, the set mirror, and the distance.
pub struct PathView {
    pub node_ids: Seq<nat>,
    pub node_id_set: Set<nat>,
    pub distance_sum: nat,
}

impl PathView {
    /// The path without nodes and with distance zero.
    pub open spec fn empty() -> PathView {
        PathView { node_ids: Seq::empty(), node_id_set: Set::empty(), distance_sum: 0 }
    }

    /// The set mirror holds exactly the nodes of the sequence.
    pub open spec fn wf(self) -> bool {
        self.node_id_set == self.node_ids.to_set()
    }

    /// The path made of the given nodes, in order, with the given distance.
    pub open spec fn of(node_ids: Seq<nat>, distance_sum: nat) -> PathView {
        PathView { node_ids, node_id_set: node_ids.to_set(), distance_sum }
    }
}

/// The identifiers of a sequence as natural numbers.
pub open spec fn ids_of_seq(s: Seq<u32>) -> Seq<nat> {
    Seq::new(s.len(), |i: int| s[i] as nat)
}

/// The identifiers of a set as natural numbers.
pub open spec fn ids_of_set(s: Set<u32>) -> Set<nat> {
    Set::new(|x: nat| x <= u32::MAX && s.contains(x as u32))
}

impl View for Path {
    type V = PathView;

    open spec fn view(&self) -> PathView {
        PathView {
            node_ids: ids_of_seq(self.node_ids@),
            node_id_set: ids_of_set(self.node_id_set@),
            distance_sum: self.distance_sum as nat,
        }
    }
}

/// Appending a node to a sequence adds it to the set of its nodes.
pub proof fn lemma_to_set_push(s: Seq<nat>, x: nat)
    ensures
        s.push(x).to_set() == s.to_set().insert(x),
{
    let t = s.push(x);
    assert forall|y: nat| t.to_set().contains(y) <==> s.to_set().insert(x).contains(y) by {
        if t.contains(y) {
            let k = choose|k: int| 0 <= k < t.len() && t[k] == y;
            if k < s.len() {
                assert(s[k] == y);
            }
        }
        if s.contains(y) {
            let k = choose|k: int| 0 <= k < s.len() && s[k] == y;
            assert(t[k] == y);
        }
        if y == x {
            assert(t[s.len() as int] == y);
        }
    }
    assert(t.to_set() =~= s.to_set().insert(x));
}

/// Taking the last node off a sequence without repeats takes it out of the
/// set of its nodes.
pub proof fn lemma_to_set_drop_last(s: Seq<nat>)
    requires
        s.len() > 0,
        s.no_duplicates(),
    ensures
        s.drop_last().to_set() == s.to_set().remove(s.last()),
{
    let t = s.drop_last();
    assert forall|y: nat| t.to_set().contains(y) <==> s.to_set().remove(s.last()).contains(y) by {
        if t.contains(y) {
            let k = choose|k: int| 0 <= k < t.len() && t[k] == y;
            assert(s[k] == y);
        }
        if s.contains(y) && y != s.last() {
            let k = choose|k: int| 0 <= k < s.len() && s[k] == y;
            assert(t[k] == y);
        }
    }
    assert(t.to_set() =~= s.to_set().remove(s.last()));
}

/// Copies a set of identifiers with `HashSet::clone`: the copy holds the same
/// identifiers as `ids`.
#[verifier::external_body]
pub(crate) fn clone_id_set(ids: &HashSet<u32>) -> (copy: HashSet<u32>)
    ensures
        copy@ == ids@,
{
    ids.clone()
}

/// Asks `HashSet::is_superset` whether `ids` holds every identifier of `other`.
#[verifier::external_body]
pub(crate) fn id_set_is_superset(ids: &HashSet<u32>, other: &HashSet<u32>) -> (covers: bool)
    ensures
        covers == other@.subset_of(ids@),
{
    ids.is_superset(other)
}

impl Path {
    /// The set mirror agrees with the node sequence.
    pub open spec fn wf(&self) -> bool {
        self@.wf()
    }

    /// Appends a node to the sequence and records it in the set mirror.
    pub(crate) fn push_node(&mut self, node_id: u32)
        ensures
            final(self)@.node_ids == old(self)@.node_ids.push(node_id as nat),
            final(self)@.node_id_set == old(self)@.node_id_set.insert(node_id as nat),
            final(self)@.distance_sum == old(self)@.distance_sum,
    {
        self.node_ids.push(node_id);
        self.node_id_set.insert(node_id);
        assert(self@.node_ids =~= old(self)@.node_ids.push(node_id as nat));
        assert(self@.node_id_set =~= old(self)@.node_id_set.insert(node_id as nat));
    }

    /// Takes the last node off the sequence and out of the set mirror.
    pub(crate) fn pop_node(&mut self, node_id: u32)
        requires
            old(self)@.node_ids.len() > 0,
            old(self)@.node_ids.last() == node_id as nat,
        ensures
            final(self)@.node_ids == old(self)@.node_ids.drop_last(),
            final(self)@.node_id_set == old(self)@.node_id_set.remove(node_id as nat),
            final(self)@.distance_sum == old(self)@.distance_sum,
    {
        self.node_id_set.remove(&node_id);
        self.node_ids.pop();
        assert(self@.node_ids =~= old(self)@.node_ids.drop_last());
        assert(self@.node_id_set =~= old(self)@.node_id_set.remove(node_id as nat));
    }

    /// Whether the node is on the path, by the set mirror.
    pub(crate) fn visits(&self, node_id: u32) -> (found: bool)
        ensures
            found == self@.node_id_set.contains(node_id as nat),
    {
        self.node_id_set.contains(&node_id)
    }

    /// Whether the path touches every node of `ids`.
    pub(crate) fn covers(&self, ids: &HashSet<u32>) -> (all: bool)
        ensures
            all == ids_of_set(ids@).subset_of(self@.node_id_set),
    {
        let all = id_set_is_superset(&self.node_id_set, ids);
        proof {
            if all {
                assert(ids_of_set(ids@).subset_of(self@.node_id_set));
            } else {
                let x = choose|x: u32| ids@.contains(x) && !self.node_id_set@.contains(x);
                assert(ids_of_set(ids@).contains(x as nat));
                assert(!self@.node_id_set.contains(x as nat));
            }
        }
        all
    }
}

impl Default for Path {
    /// The empty path with distance zero.
    fn default() -> (path: Path)
        ensures
            path@ == PathView::empty(),
            path.wf(),
    {
        let path = Path { node_ids: Vec::new(), node_id_set: HashSet::new(), distance_sum: 0 };
        assert(path@.node_ids =~= PathView::empty().node_ids);
        assert(path@.node_id_set =~= PathView::empty().node_id_set);
        assert(Seq::<nat>::empty().to_set() =~= Set::<nat>::empty());
        path
    }
}

impl Clone for Path {
    /// A copy with the same nodes, the same set and the same distance.
    fn clone(&self) -> (copy: Path)
        ensures
            copy@ == self@,
    {
        Path {
            node_ids: self.node_ids.clone(),
            node_id_set: clone_id_set(&self.node_id_set),
            distance_sum: self.distance_sum,
        }
    }
}

} // verus!
