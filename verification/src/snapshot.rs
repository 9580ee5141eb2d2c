//! Graphs as the node editor holds them.  The editor's container is read
//! once, into a [`Graph`]; everything after that works on the graph.

use crate::graph::{nodes_view, Graph, InPinId, NodeId, OutPinId, Wire};
use crate::linearize::Net;
use crate::scripting::{NodeView, ScriptNode};
use egui_snarl::Snarl;
use vstd::prelude::*;

verus! {

/// The editor's container of nodes and wires.  Nothing is known of what
/// is inside it but what [`snarl_nodes`] and [`snarl_wires`] name.
#[verifier::external_type_specification]
#[verifier::external_body]
#[verifier::reject_recursive_types(T)]
pub struct ExSnarl<T>(Snarl<T>);

/// The nodes that an editor graph holds, each with its number, in the
/// order of the numbers.
pub uninterp spec fn snarl_nodes(snarl: Snarl<ScriptNode>) -> Seq<(usize, NodeView)>;

/// The wires that an editor graph holds.
pub uninterp spec fn snarl_wires(snarl: Snarl<ScriptNode>) -> Set<Wire>;

/// Reads the nodes of an editor graph with `Snarl::node_ids`, which walks
/// the slots of the underlying slab from the first to the last: every node
/// comes once, and the numbers come in rising order.
#[verifier::external_body]
pub(crate) fn node_list(snarl: &Snarl<ScriptNode>) -> (nodes: Vec<(usize, &ScriptNode)>)
    ensures
        nodes@.len() == snarl_nodes(*snarl).len(),
        forall|i: int|
            0 <= i < nodes@.len() ==> (#[trigger] nodes@[i]).0 == snarl_nodes(*snarl)[i].0
                && nodes@[i].1@ == snarl_nodes(*snarl)[i].1,
        forall|i: int, j: int|
            0 <= i < j < nodes@.len() ==> (#[trigger] nodes@[i]).0 < (#[trigger] nodes@[j]).0,
{
    snarl.node_ids().map(|(id, node)| (id.0, node)).collect()
}

/// Reads the wires of an editor graph with `Snarl::wires`, which walks a
/// hash set: every wire comes once, in an order that nothing fixes.
#[verifier::external_body]
pub(crate) fn wire_list(snarl: &Snarl<ScriptNode>) -> (wires: Vec<Wire>)
    ensures
        wires@.to_set() == snarl_wires(*snarl),
        wires@.no_duplicates(),
{
    snarl.wires().map(
        |(from, to)|
            Wire {
                from: OutPinId { node: NodeId(from.node.0), output: from.output },
                to: InPinId { node: NodeId(to.node.0), input: to.input },
            },
    ).collect()
}

/// The models of a list of numbered nodes.
pub open spec fn parts_view(nodes: Seq<(usize, &ScriptNode)>) -> Seq<(usize, NodeView)> {
    Seq::new(nodes.len(), |i: int| (nodes[i].0, nodes[i].1@))
}

/// The place of the first of the first `k` nodes that has the number
/// `id`.
pub open spec fn position(nodes: Seq<(usize, NodeView)>, id: usize, k: int) -> Option<int>
    decreases k,
{
    if k <= 0 {
        None
    } else {
        match position(nodes, id, k - 1) {
            Some(i) => Some(i),
            None => if nodes[k - 1].0 == id {
                Some(k - 1)
            } else {
                None
            },
        }
    }
}

/// The wire between the places of the two nodes that `wire` joins, where
/// both are among `nodes`.
pub open spec fn renumbered(nodes: Seq<(usize, NodeView)>, wire: Wire) -> Option<Wire> {
    match (
        position(nodes, wire.from.node.0, nodes.len() as int),
        position(nodes, wire.to.node.0, nodes.len() as int),
    ) {
        (Some(from), Some(to)) => Some(
            Wire {
                from: OutPinId { node: NodeId(from as usize), output: wire.from.output },
                to: InPinId { node: NodeId(to as usize), input: wire.to.input },
            },
        ),
        _ => None,
    }
}

/// The wires of the graph made of the first `k` wires of `raw`: a wire is
/// taken over unless one of its nodes is missing or its input pin already
/// has a wire.
pub open spec fn accepted(nodes: Seq<(usize, NodeView)>, raw: Seq<Wire>, k: int) -> Seq<Wire>
    decreases k,
{
    if k <= 0 {
        Seq::empty()
    } else {
        let before = accepted(nodes, raw, k - 1);
        match renumbered(nodes, raw[k - 1]) {
            None => before,
            Some(wire) => if forall|i: int|
                0 <= i < before.len() ==> (#[trigger] before[i]).to != wire.to {
                before.push(wire)
            } else {
                before
            },
        }
    }
}

/// What the walk reads of the graph made of `nodes` and `raw`: the nodes
/// in the order of the list, numbered by their places, and the accepted
/// wires.
pub open spec fn snapshot_net(nodes: Seq<(usize, NodeView)>, raw: Seq<Wire>) -> Net {
    Net {
        kinds: Seq::new(nodes.len(), |i: int| nodes[i].1),
        wires: accepted(nodes, raw, raw.len() as int),
    }
}

proof fn lemma_position(nodes: Seq<(usize, NodeView)>, id: usize, k: int)
    requires
        0 <= k <= nodes.len(),
    ensures
        match position(nodes, id, k) {
            Some(i) => 0 <= i < k && nodes[i].0 == id,
            None => forall|i: int| 0 <= i < k ==> (#[trigger] nodes[i]).0 != id,
        },
    decreases k,
{
    if k > 0 {
        lemma_position(nodes, id, k - 1);
    }
}

proof fn lemma_position_stable(nodes: Seq<(usize, NodeView)>, id: usize, k: int, m: int)
    requires
        0 <= k <= m,
        position(nodes, id, k) is Some,
    ensures
        position(nodes, id, m) == position(nodes, id, k),
    decreases m - k,
{
    if k < m {
        lemma_position_stable(nodes, id, k, m - 1);
    }
}

/// The place of the first node with the number `id`.
#[verifier::loop_isolation(false)]
pub fn position_of(nodes: &Vec<(usize, &ScriptNode)>, id: usize) -> (found: Option<usize>)
    ensures
        match found {
            Some(i) => position(parts_view(nodes@), id, nodes@.len() as int) == Some(i as int)
                && i < nodes@.len(),
            None => position(parts_view(nodes@), id, nodes@.len() as int) is None,
        },
{
    let ghost parts = parts_view(nodes@);
    let mut i: usize = 0;
    while i < nodes.len()
        invariant
            i <= nodes.len(),
            position(parts, id, i as int) is None,
        decreases nodes.len() - i,
    {
        if nodes[i].0 == id {
            proof {
                assert(parts[i as int].0 == id);
                assert(position(parts, id, i + 1) == Some(i as int));
                lemma_position_stable(parts, id, i + 1, nodes@.len() as int);
            }
            return Some(i);
        }
        i += 1;
    }
    None
}

/// Builds the graph of a list of numbered nodes and a list of wires
/// between those numbers.  The nodes are copied in the order of the list
/// and numbered by their places; the wires are connected in the order of
/// their list.
#[verifier::loop_isolation(false)]
pub fn graph_from_parts(nodes: &Vec<(usize, &ScriptNode)>, wires: &Vec<Wire>) -> (graph: Graph)
    ensures
        graph.wf(),
        graph.net() == snapshot_net(parts_view(nodes@), wires@),
{
    let ghost parts = parts_view(nodes@);
    let mut graph = Graph::new();
    let mut i: usize = 0;
    while i < nodes.len()
        invariant
            i <= nodes.len(),
            graph.wf(),
            graph.wires() == Seq::<Wire>::empty(),
            graph.nodes().len() == i,
            forall|k: int| 0 <= k < i ==> (#[trigger] graph.nodes()[k])@ == parts[k].1,
        decreases nodes.len() - i,
    {
        let copy = nodes[i].1.clone();
        let _ = graph.insert_node(copy);
        i += 1;
    }
    let mut k: usize = 0;
    while k < wires.len()
        invariant
            k <= wires.len(),
            graph.wf(),
            graph.nodes().len() == nodes@.len(),
            forall|k: int| 0 <= k < nodes@.len() ==> (#[trigger] graph.nodes()[k])@ == parts[k].1,
            graph.wires() == accepted(parts, wires@, k as int),
        decreases wires.len() - k,
    {
        let wire = wires[k];
        proof {
            lemma_position(parts, wire.from.node.0, parts.len() as int);
            lemma_position(parts, wire.to.node.0, parts.len() as int);
        }
        match position_of(nodes, wire.from.node.0) {
            Some(from) => match position_of(nodes, wire.to.node.0) {
                Some(to) => {
                    let _ = graph.connect(
                        OutPinId { node: NodeId(from), output: wire.from.output },
                        InPinId { node: NodeId(to), input: wire.to.input },
                    );
                },
                None => {},
            },
            None => {},
        }
        k += 1;
    }
    assert(graph.kinds() =~= snapshot_net(parts, wires@).kinds);
    graph
}

} // verus!
