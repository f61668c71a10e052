//! Building a graph from a list of edge records, each a source label, a
//! destination label and a cost, and reading such a list from JSON.
//!
//! Nodes get their identifiers in the order in which their labels first
//! occur: each label is looked up among the nodes entered so far, the source
//! of a record before its destination, and entered where it is not found.
//! So no two nodes carry the same label, and a record whose two labels are
//! the same joins a node to itself.

use crate::graph::{Edge, EdgeView, Graph, GraphView, Node, NodeView};
use vstd::prelude::*;

verus! {

/// `serde_json::Error`, what the reader reports of a text it cannot read.
#[verifier::external_type_specification]
#[verifier::external_body]
pub struct ExJsonError(serde_json::Error);

/// Why no graph was built.
#[derive(Debug)]
pub enum GraphError {
    /// The text is not a JSON array of `[label, label, cost]` records.
    Json(serde_json::Error),
    /// The records name more nodes than identifiers exist.
    TooManyNodes,
}

/// The edge records that `serde_json::from_str` reads from `text` as a list
/// of (string, string, unsigned 64-bit number), or `None` where it reports
/// an error.
pub uninterp spec fn json_edge_list(text: Seq<char>) -> Option<Seq<(Seq<char>, Seq<char>, u64)>>;

/// The records of a list, labels as character sequences.
pub open spec fn edge_records(edges: Seq<(String, String, u64)>) -> Seq<
    (Seq<char>, Seq<char>, u64),
> {
    Seq::new(edges.len(), |k: int| (edges[k].0@, edges[k].1@, edges[k].2))
}

/// Reads a list of edge records with `serde_json::from_str`.
#[verifier::external_body]
fn parse_edge_list(json: &str) -> (parsed: Result<Vec<(String, String, u64)>, serde_json::Error>)
    ensures
        match parsed {
            Ok(edges) => json_edge_list(json@) == Some(edge_records(edges@)),
            Err(_) => json_edge_list(json@) is None,
        },
{
    serde_json::from_str(json)
}

/// The nodes of a sequence, as values.
pub open spec fn nodes_view(nodes: Seq<Node>) -> Seq<NodeView> {
    Seq::new(nodes.len(), |i: int| nodes[i]@)
}

/// The earliest node that carries `label`, if any does.
pub open spec fn first_with_label(nodes: Seq<NodeView>, label: Seq<char>) -> Option<nat>
    decreases nodes.len(),
{
    if nodes.len() == 0 {
        None
    } else if first_with_label(nodes.drop_last(), label) is Some {
        first_with_label(nodes.drop_last(), label)
    } else if nodes.last().label == label {
        Some((nodes.len() - 1) as nat)
    } else {
        None
    }
}

/// The nodes with one more, without edges, under the next identifier.
pub open spec fn with_node(nodes: Seq<NodeView>, label: Seq<char>) -> Seq<NodeView> {
    nodes.push(NodeView { id: nodes.len(), edges: Seq::empty(), label })
}

/// The nodes with one more edge at the end of the edge list of `from`.
pub open spec fn with_edge(nodes: Seq<NodeView>, from: nat, to: nat, cost: nat) -> Seq<NodeView> {
    nodes.update(
        from as int,
        NodeView {
            id: nodes[from as int].id,
            edges: nodes[from as int].edges.push(EdgeView { to, cost }),
            label: nodes[from as int].label,
        },
    )
}

/// The nodes with the node for a label, entered where none carries it.
pub open spec fn with_label(nodes: Seq<NodeView>, label: Seq<char>) -> Seq<NodeView> {
    if first_with_label(nodes, label) is None {
        with_node(nodes, label)
    } else {
        nodes
    }
}

/// The nodes after one more record: the source is looked up and entered
/// where it is not found, then the destination likewise, among the nodes
/// with the source; then comes the edge, and for a graph whose edges run
/// both ways the edge back.
pub open spec fn after_record(
    nodes: Seq<NodeView>,
    record: (Seq<char>, Seq<char>, u64),
    undirected: bool,
) -> Seq<NodeView> {
    let nodes1 = with_label(nodes, record.0);
    let nodes2 = with_label(nodes1, record.1);
    let from = first_with_label(nodes2, record.0).unwrap();
    let to = first_with_label(nodes2, record.1).unwrap();
    let nodes3 = with_edge(nodes2, from, to, record.2 as nat);
    if undirected {
        with_edge(nodes3, to, from, record.2 as nat)
    } else {
        nodes3
    }
}

/// The nodes that a list of records describes.
pub open spec fn nodes_of_records(records: Seq<(Seq<char>, Seq<char>, u64)>, undirected: bool) -> Seq<
    NodeView,
>
    decreases records.len(),
{
    if records.len() == 0 {
        Seq::empty()
    } else {
        after_record(nodes_of_records(records.drop_last(), undirected), records.last(), undirected)
    }
}

/// The graph that a list of records describes.
pub open spec fn graph_of_records(
    records: Seq<(Seq<char>, Seq<char>, u64)>,
    undirected: bool,
) -> GraphView {
    GraphView {
        node_count: nodes_of_records(records, undirected).len(),
        nodes: nodes_of_records(records, undirected),
    }
}

/// Each node carries its index, no two nodes carry the same label, and
/// each edge leads to a node.
pub open spec fn nodes_ok(nodes: Seq<NodeView>) -> bool {
    &&& forall|i: int| 0 <= i < nodes.len() ==> (#[trigger] nodes[i]).id == i
    &&& forall|i: int, j: int|
        0 <= i < nodes.len() && 0 <= j < nodes.len() && i != j ==> (#[trigger] nodes[i]).label != (
        #[trigger] nodes[j]).label
    &&& forall|i: int, j: int|
        0 <= i < nodes.len() && 0 <= j < nodes[i].edges.len() ==> (#[trigger] nodes[i].edges[j]).to
            < nodes.len()
}

/// A lookup finds the earliest node that carries the label, or none does.
pub proof fn lemma_first_with_label(nodes: Seq<NodeView>, label: Seq<char>)
    ensures
        match first_with_label(nodes, label) {
            Some(i) => {
                &&& i < nodes.len()
                &&& nodes[i as int].label == label
                &&& forall|j: int| 0 <= j < i ==> (#[trigger] nodes[j]).label != label
            },
            None => forall|i: int| 0 <= i < nodes.len() ==> (#[trigger] nodes[i]).label != label,
        },
    decreases nodes.len(),
{
    if nodes.len() > 0 {
        let before = nodes.drop_last();
        lemma_first_with_label(before, label);
        match first_with_label(before, label) {
            Some(i) => {
                assert(before[i as int] == nodes[i as int]);
                assert forall|j: int| 0 <= j < i implies (#[trigger] nodes[j]).label != label by {
                    assert(before[j] == nodes[j]);
                }
            },
            None => {
                assert forall|j: int| 0 <= j < nodes.len() - 1 implies (#[trigger] nodes[j]).label
                    != label by {
                    assert(before[j] == nodes[j]);
                }
            },
        }
    }
}

/// Entering the node for a label keeps the nodes in order; then the node
/// is found, where it was found before, and so is every node found before.
pub proof fn lemma_with_label(nodes: Seq<NodeView>, label: Seq<char>, other: Seq<char>)
    requires
        nodes_ok(nodes),
    ensures
        nodes_ok(with_label(nodes, label)),
        with_label(nodes, label).len() == nodes.len() + if first_with_label(nodes, label)
            is None {
            1int
        } else {
            0int
        },
        first_with_label(with_label(nodes, label), label) == if first_with_label(nodes, label)
            is None {
            Some(nodes.len())
        } else {
            first_with_label(nodes, label)
        },
        first_with_label(nodes, other) is Some ==> first_with_label(with_label(nodes, label), other)
            == first_with_label(nodes, other),
{
    lemma_first_with_label(nodes, label);
    let more = with_label(nodes, label);
    if first_with_label(nodes, label) is None {
        assert(more.drop_last() =~= nodes);
        assert forall|i: int, j: int|
            0 <= i < more.len() && 0 <= j < more.len() && i != j implies (#[trigger] more[i]).label
            != (#[trigger] more[j]).label by {
            if i < nodes.len() {
                assert(more[i] == nodes[i]);
            }
            if j < nodes.len() {
                assert(more[j] == nodes[j]);
            }
        }
    }
}

/// One more record keeps the nodes in order and adds two at most.
pub proof fn lemma_after_record(
    nodes: Seq<NodeView>,
    record: (Seq<char>, Seq<char>, u64),
    undirected: bool,
)
    requires
        nodes_ok(nodes),
    ensures
        nodes_ok(after_record(nodes, record, undirected)),
        after_record(nodes, record, undirected).len() == with_label(
            with_label(nodes, record.0),
            record.1,
        ).len(),
        nodes.len() <= after_record(nodes, record, undirected).len() <= nodes.len() + 2,
{
    let nodes1 = with_label(nodes, record.0);
    let nodes2 = with_label(nodes1, record.1);
    lemma_with_label(nodes, record.0, record.0);
    lemma_with_label(nodes1, record.1, record.0);
    lemma_first_with_label(nodes2, record.0);
    lemma_first_with_label(nodes2, record.1);
}

/// The described nodes carry their indices and each a label of its own,
/// and their edges lead to nodes.
pub proof fn lemma_nodes_of_records_ok(
    records: Seq<(Seq<char>, Seq<char>, u64)>,
    undirected: bool,
)
    ensures
        nodes_ok(nodes_of_records(records, undirected)),
    decreases records.len(),
{
    if records.len() > 0 {
        lemma_nodes_of_records_ok(records.drop_last(), undirected);
        lemma_after_record(
            nodes_of_records(records.drop_last(), undirected),
            records.last(),
            undirected,
        );
    }
}

/// More records never describe fewer nodes.
pub proof fn lemma_nodes_of_records_grow(
    records: Seq<(Seq<char>, Seq<char>, u64)>,
    undirected: bool,
    k: int,
)
    requires
        0 <= k <= records.len(),
    ensures
        nodes_of_records(records.take(k), undirected).len() <= nodes_of_records(
            records,
            undirected,
        ).len(),
    decreases records.len(),
{
    if k == records.len() {
        assert(records.take(k) =~= records);
    } else {
        lemma_nodes_of_records_grow(records.drop_last(), undirected, k);
        assert(records.drop_last().take(k) =~= records.take(k));
        lemma_nodes_of_records_ok(records.drop_last(), undirected);
        lemma_after_record(
            nodes_of_records(records.drop_last(), undirected),
            records.last(),
            undirected,
        );
    }
}

/// The identifier found by a lookup, as an index.
pub open spec fn as_index(found: Option<u32>) -> Option<nat> {
    match found {
        Some(id) => Some(id as nat),
        None => None,
    }
}

/// The identifier of the earliest node that carries `label`, if any does.
fn lookup(nodes: &Vec<Node>, label: &String) -> (found: Option<u32>)
    requires
        nodes_ok(nodes_view(nodes@)),
        nodes@.len() <= u32::MAX,
    ensures
        as_index(found) == first_with_label(nodes_view(nodes@), label@),
{
    let ghost view = nodes_view(nodes@);
    let mut j: usize = 0;
    while j < nodes.len()
        invariant
            j <= nodes@.len(),
            view == nodes_view(nodes@),
            nodes_ok(view),
            forall|i: int| 0 <= i < j ==> (#[trigger] view[i]).label != label@,
        decreases nodes@.len() - j,
    {
        let node = &nodes[j];
        assert(view[j as int].label == node.label@ && view[j as int].id == node.id);
        if node.label == *label {
            proof {
                lemma_first_with_label(view, label@);
                assert(view[j as int].label == label@);
            }
            return Some(node.id);
        }
        j += 1;
    }
    proof {
        lemma_first_with_label(view, label@);
    }
    None
}

/// Appends an edge to the edge list of node `from`.
fn push_edge(nodes: &mut Vec<Node>, from: u32, to: u32, cost: u64)
    requires
        from < old(nodes)@.len(),
    ensures
        nodes_view(final(nodes)@) == with_edge(
            nodes_view(old(nodes)@),
            from as nat,
            to as nat,
            cost as nat,
        ),
{
    nodes[from as usize].edges.push(Edge { to, cost });
    proof {
        let got = nodes_view(nodes@);
        let want = with_edge(nodes_view(old(nodes)@), from as nat, to as nat, cost as nat);
        assert(got.len() == want.len());
        assert forall|i: int| 0 <= i < got.len() implies got[i] == want[i] by {
            if i == from {
                assert(got[i].edges =~= want[i].edges);
            }
        }
        assert(got =~= want);
    }
}

/// Appends a node without edges under the identifier `id`.
fn push_node(nodes: &mut Vec<Node>, id: u32, label: &String)
    requires
        id == old(nodes)@.len(),
    ensures
        nodes_view(final(nodes)@) == with_node(nodes_view(old(nodes)@), label@),
{
    nodes.push(Node { id, edges: Vec::new(), label: label.clone() });
    proof {
        let got = nodes_view(nodes@);
        let want = with_node(nodes_view(old(nodes)@), label@);
        assert(got.len() == want.len());
        assert forall|i: int| 0 <= i < got.len() implies got[i] == want[i] by {
            if i == id {
                assert(got[i].edges =~= want[i].edges);
            }
        }
        assert(got =~= want);
    }
}

/// Builds the graph that the records describe, or finds that they name
/// more nodes than identifiers exist.
fn build(edges: &Vec<(String, String, u64)>, undirected: bool) -> (built: Result<Graph, GraphError>)
    ensures
        match built {
            Ok(graph) => graph@ == graph_of_records(edge_records(edges@), undirected)
                && graph.wf(),
            Err(error) => error is TooManyNodes && nodes_of_records(
                edge_records(edges@),
                undirected,
            ).len() > u32::MAX,
        },
{
    let ghost records = edge_records(edges@);
    let mut nodes: Vec<Node> = Vec::new();
    let mut node_count: u32 = 0;
    let mut k: usize = 0;
    assert(records.take(0) =~= Seq::empty());
    assert(nodes_view(nodes@) =~= Seq::empty());
    while k < edges.len()
        invariant
            k <= edges@.len(),
            records == edge_records(edges@),
            node_count == nodes@.len(),
            nodes_view(nodes@) == nodes_of_records(records.take(k as int), undirected),
            nodes_ok(nodes_view(nodes@)),
        decreases edges@.len() - k,
    {
        let edge = &edges[k];
        let ghost before = nodes_view(nodes@);
        let ghost record = records[k as int];
        proof {
            assert(records.take(k + 1).drop_last() =~= records.take(k as int));
            assert(records.take(k + 1).last() == record);
            lemma_nodes_of_records_grow(records, undirected, k + 1);
            lemma_after_record(before, record, undirected);
            lemma_with_label(before, record.0, record.0);
            lemma_with_label(with_label(before, record.0), record.1, record.0);
            assert(record == (edge.0@, edge.1@, edge.2));
        }
        let from_id = match lookup(&nodes, &edge.0) {
            Some(id) => id,
            None => {
                if node_count == u32::MAX {
                    return Err(GraphError::TooManyNodes);
                }
                let id = node_count;
                push_node(&mut nodes, id, &edge.0);
                node_count += 1;
                id
            },
        };
        assert(nodes_view(nodes@) == with_label(before, record.0));
        assert(first_with_label(nodes_view(nodes@), record.0) == Some(from_id as nat));
        let to_id = match lookup(&nodes, &edge.1) {
            Some(id) => id,
            None => {
                if node_count == u32::MAX {
                    return Err(GraphError::TooManyNodes);
                }
                let id = node_count;
                push_node(&mut nodes, id, &edge.1);
                node_count += 1;
                id
            },
        };
        proof {
            let entered = with_label(with_label(before, record.0), record.1);
            assert(nodes_view(nodes@) == entered);
            assert(first_with_label(entered, record.0) == Some(from_id as nat));
            assert(first_with_label(entered, record.1) == Some(to_id as nat));
            lemma_first_with_label(entered, record.0);
            lemma_first_with_label(entered, record.1);
        }
        push_edge(&mut nodes, from_id, to_id, edge.2);
        if undirected {
            push_edge(&mut nodes, to_id, from_id, edge.2);
        }
        assert(nodes_view(nodes@) == after_record(before, record, undirected));
        k += 1;
    }
    assert(records.take(k as int) =~= records);
    let graph = Graph { node_count, nodes };
    assert(graph@.nodes =~= nodes_view(graph.nodes@));
    Ok(graph)
}

impl Graph {
    /// The graph with one edge for each record, from its first label to its
    /// second.
    pub fn from_edges_directed(edges: &Vec<(String, String, u64)>) -> (built: Result<
        Graph,
        GraphError,
    >)
        ensures
            match built {
                Ok(graph) => graph@ == graph_of_records(edge_records(edges@), false) && graph.wf(),
                Err(error) => error is TooManyNodes && nodes_of_records(
                    edge_records(edges@),
                    false,
                ).len() > u32::MAX,
            },
    {
        build(edges, false)
    }

    /// The graph with two edges for each record, one each way.
    pub fn from_edges_undirected(edges: &Vec<(String, String, u64)>) -> (built: Result<
        Graph,
        GraphError,
    >)
        ensures
            match built {
                Ok(graph) => graph@ == graph_of_records(edge_records(edges@), true) && graph.wf(),
                Err(error) => error is TooManyNodes && nodes_of_records(
                    edge_records(edges@),
                    true,
                ).len() > u32::MAX,
            },
    {
        build(edges, true)
    }

    /// Reads a JSON array of `[source, destination, cost]` records and
    /// builds the graph with one edge for each.
    pub fn from_json_directed(json: &str) -> (built: Result<Graph, GraphError>)
        ensures
            match built {
                Ok(graph) => json_edge_list(json@) matches Some(records) && graph@
                    == graph_of_records(records, false) && graph.wf(),
                Err(GraphError::Json(_)) => json_edge_list(json@) is None,
                Err(GraphError::TooManyNodes) => json_edge_list(json@) matches Some(records)
                    && nodes_of_records(records, false).len() > u32::MAX,
            },
    {
        match parse_edge_list(json) {
            Ok(edges) => build(&edges, false),
            Err(error) => Err(GraphError::Json(error)),
        }
    }

    /// Reads a JSON array of `[label, label, cost]` records and builds the
    /// graph with two edges for each, one each way.
    pub fn from_json_undirected(json: &str) -> (built: Result<Graph, GraphError>)
        ensures
            match built {
                Ok(graph) => json_edge_list(json@) matches Some(records) && graph@
                    == graph_of_records(records, true) && graph.wf(),
                Err(GraphError::Json(_)) => json_edge_list(json@) is None,
                Err(GraphError::TooManyNodes) => json_edge_list(json@) matches Some(records)
                    && nodes_of_records(records, true).len() > u32::MAX,
            },
    {
        match parse_edge_list(json) {
            Ok(edges) => build(&edges, true),
            Err(error) => Err(GraphError::Json(error)),
        }
    }
}

} // verus!
