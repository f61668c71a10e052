//! The graph model: nodes addressed by dense identifiers, each with its
//! outgoing weighted edges.

use crate::path::ids_of_set;
use std::collections::HashSet;
use vstd::prelude::*;

verus! {

broadcast use vstd::std_specs::hash::group_hash_axioms;

/// A directed edge record, stored with its source node.
#[derive(Debug, Clone, Copy)]
pub struct Edge {
    pub to: u32,
    pub cost: u64,
}

/// A node with its identifier, its outgoing edges in insertion order and its label.
#[derive(Debug, Clone)]
pub struct Node {
    pub id: u32,
    pub edges: Vec<Edge>,
    pub label: String,
}

/// The whole graph: the nodes, indexed by identifier, and their number.
#[derive(Debug, Clone)]
pub struct Graph {
    pub node_count: u32,
    pub nodes: Vec<Node>,
}

/// What an edge says: destination and cost as mathematical integers.
pub struct EdgeView {
    pub to: nat,
    pub cost: nat,
}

/// What a node says.
pub struct NodeView {
    pub id: nat,
    pub edges: Seq<EdgeView>,
    pub label: Seq<char>,
}

/// What a graph says.
pub struct GraphView {
    pub node_count: nat,
    pub nodes: Seq<NodeView>,
}

impl View for Edge {
    type V = EdgeView;

    open spec fn view(&self) -> EdgeView {
        EdgeView { to: self.to as nat, cost: self.cost as nat }
    }
}

impl View for Node {
    type V = NodeView;

    open spec fn view(&self) -> NodeView {
        NodeView {
            id: self.id as nat,
            edges: Seq::new(self.edges@.len(), |j: int| self.edges@[j]@),
            label: self.label@,
        }
    }
}

impl View for Graph {
    type V = GraphView;

    open spec fn view(&self) -> GraphView {
        GraphView {
            node_count: self.node_count as nat,
            nodes: Seq::new(self.nodes@.len(), |i: int| self.nodes@[i]@),
        }
    }
}

impl GraphView {
    /// The graph's invariant: the count is the number of nodes, every node
    /// carries its own index as identifier, and every edge leads to a node
    /// of the graph.
    pub open spec fn wf(self) -> bool {
        &&& self.node_count == self.nodes.len()
        &&& forall|i: int| 0 <= i < self.nodes.len() ==> (#[trigger] self.nodes[i]).id == i
        &&& forall|i: int, j: int|
            0 <= i < self.nodes.len() && 0 <= j < self.nodes[i].edges.len() ==> (
            #[trigger] self.nodes[i].edges[j]).to < self.nodes.len()
    }

    /// The nodes that `v` has an edge to.
    pub open spec fn neighbor_set(self, v: nat) -> Set<nat> {
        Set::new(
            |u: nat|
                exists|j: int|
                    0 <= j < self.nodes[v as int].edges.len() && (
                    #[trigger] self.nodes[v as int].edges[j]).to == u,
        )
    }

    /// Node `i` is the earliest node that carries `label`.
    pub open spec fn is_first_with_label(self, i: int, label: Seq<char>) -> bool {
        &&& 0 <= i < self.nodes.len()
        &&& self.nodes[i].label == label
        &&& forall|j: int| 0 <= j < i ==> (#[trigger] self.nodes[j]).label != label
    }
}

/// Compares a node's label with a name by `String`'s `==` for `str`: true
/// exactly when both hold the same characters.
#[verifier::external_body]
fn label_is(label: &String, name: &str) -> (same: bool)
    ensures
        same == (label@ == name@),
{
    label == name
}

impl Graph {
    /// The graph's invariant, on the executable value.
    pub open spec fn wf(&self) -> bool {
        self@.wf()
    }

    /// The view of an edge is the edge at the same place in the view.
    pub proof fn lemma_view_edge(&self, v: int, j: int)
        requires
            0 <= v < self.nodes@.len(),
            0 <= j < self.nodes@[v].edges@.len(),
        ensures
            self@.nodes.len() == self.nodes@.len(),
            self@.nodes[v].edges.len() == self.nodes@[v].edges@.len(),
            self@.nodes[v].edges[j] == self.nodes@[v].edges@[j]@,
    {
    }

    /// The number of outgoing edges is the same in the view.
    pub proof fn lemma_view_node(&self, v: int)
        requires
            0 <= v < self.nodes@.len(),
        ensures
            self@.nodes.len() == self.nodes@.len(),
            self@.nodes[v].edges.len() == self.nodes@[v].edges@.len(),
            self@.nodes[v].label == self.nodes@[v].label@,
            self@.nodes[v].id == self.nodes@[v].id,
    {
    }

    /// The identifier of the earliest node that carries `label`, if any
    /// node does.
    pub fn find_node_id(&self, label: &str) -> (found: Option<u32>)
        ensures
            match found {
                Some(id) => exists|i: int|
                    #![trigger self@.nodes[i]]
                    self@.is_first_with_label(i, label@) && self@.nodes[i].id == id,
                None => forall|i: int|
                    0 <= i < self@.nodes.len() ==> (#[trigger] self@.nodes[i]).label != label@,
            },
    {
        let mut i: usize = 0;
        while i < self.nodes.len()
            invariant
                i <= self.nodes@.len(),
                forall|j: int| 0 <= j < i ==> (#[trigger] self@.nodes[j]).label != label@,
            decreases self.nodes@.len() - i,
        {
            let node = &self.nodes[i];
            proof {
                self.lemma_view_node(i as int);
            }
            if label_is(&node.label, label) {
                assert(self@.is_first_with_label(i as int, label@));
                return Some(node.id);
            }
            i += 1;
        }
        None
    }

    /// The set of nodes that `node_id` has an edge to.
    pub fn find_neighbor_id_set(&self, node_id: u32) -> (neighbors: HashSet<u32>)
        requires
            node_id < self.nodes@.len(),
        ensures
            ids_of_set(neighbors@) == self@.neighbor_set(node_id as nat),
    {
        let mut neighbor_id_set: HashSet<u32> = HashSet::new();
        let node = &self.nodes[node_id as usize];
        let mut i: usize = 0;
        while i < node.edges.len()
            invariant
                i <= node.edges@.len(),
                forall|x: u32|
                    neighbor_id_set@.contains(x) <==> exists|j: int|
                        0 <= j < i && (#[trigger] node.edges@[j]).to == x,
            decreases node.edges@.len() - i,
        {
            let ghost before = neighbor_id_set@;
            neighbor_id_set.insert(node.edges[i].to);
            proof {
                assert forall|x: u32|
                    neighbor_id_set@.contains(x) <==> exists|j: int|
                        0 <= j < i + 1 && (#[trigger] node.edges@[j]).to == x by {
                    if neighbor_id_set@.contains(x) {
                        if before.contains(x) {
                            let j = choose|j: int| 0 <= j < i && (#[trigger] node.edges@[j]).to == x;
                            assert(0 <= j < i + 1 && node.edges@[j].to == x);
                        } else {
                            assert(node.edges@[i as int].to == x);
                        }
                    }
                    if exists|j: int| 0 <= j < i + 1 && (#[trigger] node.edges@[j]).to == x {
                        let j = choose|j: int| 0 <= j < i + 1 && (#[trigger] node.edges@[j]).to == x;
                        if j < i {
                            assert(before.contains(x));
                        }
                    }
                }
            }
            i += 1;
        }
        proof {
            let v = node_id as int;
            let got = ids_of_set(neighbor_id_set@);
            let want = self@.neighbor_set(node_id as nat);
            assert forall|u: nat| got.contains(u) <==> want.contains(u) by {
                if got.contains(u) {
                    let j = choose|j: int|
                        0 <= j < node.edges@.len() && (#[trigger] node.edges@[j]).to == u as u32;
                    self.lemma_view_edge(v, j);
                    assert(self@.nodes[v].edges[j].to == u);
                }
                if want.contains(u) {
                    let j = choose|j: int|
                        0 <= j < self@.nodes[v].edges.len() && (
                        #[trigger] self@.nodes[v].edges[j]).to == u;
                    self.lemma_view_edge(v, j);
                    assert(node.edges@[j].to == u as u32);
                }
            }
            assert(got =~= want);
        }
        neighbor_id_set
    }
}

} // verus!
