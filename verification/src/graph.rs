//! A script graph: nodes, and wires from output pins to input pins.  An
//! input pin has at most one incoming wire; an output pin may feed many
//! inputs.

use crate::scripting::{NodeView, ScriptNode};
use vstd::prelude::*;

verus! {

/// The place of a node in its graph.
#[derive(Clone, Copy, Debug, PartialEq, Eq, Structural)]
pub struct NodeId(pub usize);

/// An output pin: a node and the number of the pin among its outputs.
#[derive(Clone, Copy, Debug, PartialEq, Eq, Structural)]
pub struct OutPinId {
    pub node: NodeId,
    pub output: usize,
}

/// An input pin: a node and the number of the pin among its inputs.
#[derive(Clone, Copy, Debug, PartialEq, Eq, Structural)]
pub struct InPinId {
    pub node: NodeId,
    pub input: usize,
}

/// A connection from an output pin to an input pin.
#[derive(Clone, Copy, Debug, PartialEq, Eq, Structural)]
pub struct Wire {
    pub from: OutPinId,
    pub to: InPinId,
}

/// Every wire joins two of the `count` nodes, and no two wires end at the
/// same input pin.
pub open spec fn wires_wf(wires: Seq<Wire>, count: nat) -> bool {
    &&& forall|i: int|
        0 <= i < wires.len() ==> (#[trigger] wires[i]).from.node.0 < count && wires[i].to.node.0
            < count
    &&& forall|i: int, j: int|
        0 <= i < j < wires.len() ==> (#[trigger] wires[i]).to != (#[trigger] wires[j]).to
}

/// The models of a list of nodes.
pub open spec fn nodes_view(nodes: Seq<ScriptNode>) -> Seq<NodeView> {
    Seq::new(nodes.len(), |i: int| nodes[i]@)
}

/// A script graph.  Nodes are numbered in the order in which they were
/// inserted.
#[derive(Debug)]
pub struct Graph {
    nodes: Vec<ScriptNode>,
    wires: Vec<Wire>,
}

impl Graph {
    /// The nodes, by number.
    pub closed spec fn nodes(&self) -> Seq<ScriptNode> {
        self.nodes@
    }

    /// The wires, in the order in which they were connected.
    pub closed spec fn wires(&self) -> Seq<Wire> {
        self.wires@
    }

    /// The models of the nodes.
    pub open spec fn kinds(&self) -> Seq<NodeView> {
        nodes_view(self.nodes())
    }

    /// The invariant of a graph: see [`wires_wf`].
    pub open spec fn wf(&self) -> bool {
        wires_wf(self.wires(), self.nodes().len())
    }

    /// A graph without nodes.
    pub fn new() -> (graph: Self)
        ensures
            graph.wf(),
            graph.nodes() == Seq::<ScriptNode>::empty(),
            graph.wires() == Seq::<Wire>::empty(),
    {
        Graph { nodes: Vec::new(), wires: Vec::new() }
    }

    /// Adds a node and returns its number.
    pub fn insert_node(&mut self, node: ScriptNode) -> (id: NodeId)
        requires
            old(self).wf(),
        ensures
            final(self).wf(),
            id.0 == old(self).nodes().len(),
            final(self).nodes() == old(self).nodes().push(node),
            final(self).wires() == old(self).wires(),
    {
        let id = NodeId(self.nodes.len());
        self.nodes.push(node);
        id
    }

    /// Connects an output pin to an input pin.  Nothing is connected, and
    /// `false` is returned, where one of the two nodes does not exist or
    /// the input pin already has a wire.
    #[verifier::loop_isolation(false)]
    pub fn connect(&mut self, from: OutPinId, to: InPinId) -> (connected: bool)
        requires
            old(self).wf(),
        ensures
            final(self).wf(),
            final(self).nodes() == old(self).nodes(),
            connected == (from.node.0 < old(self).nodes().len() && to.node.0 < old(
                self,
            ).nodes().len() && forall|i: int|
                0 <= i < old(self).wires().len() ==> (#[trigger] old(self).wires()[i]).to != to),
            connected ==> final(self).wires() == old(self).wires().push(Wire { from, to }),
            !connected ==> final(self).wires() == old(self).wires(),
    {
        if from.node.0 >= self.nodes.len() || to.node.0 >= self.nodes.len() {
            return false;
        }
        let mut i: usize = 0;
        while i < self.wires.len()
            invariant
                i <= self.wires.len(),
                *self == *old(self),
                forall|k: int| 0 <= k < i ==> (#[trigger] self.wires@[k]).to != to,
            decreases self.wires.len() - i,
        {
            if self.wires[i].to == to {
                assert(old(self).wires()[i as int].to == to);
                return false;
            }
            i += 1;
        }
        self.wires.push(Wire { from, to });
        true
    }

    /// The number of nodes.
    pub fn node_count(&self) -> (count: usize)
        ensures
            count == self.nodes().len(),
    {
        self.nodes.len()
    }

    /// The node with the number `id`.
    pub fn node(&self, id: NodeId) -> (node: Option<&ScriptNode>)
        ensures
            match node {
                Some(n) => id.0 < self.nodes().len() && *n == self.nodes()[id.0 as int],
                None => id.0 >= self.nodes().len(),
            },
    {
        if id.0 < self.nodes.len() {
            Some(&self.nodes[id.0])
        } else {
            None
        }
    }

    /// The node with the number `id`, which the graph has.
    pub fn node_at(&self, id: NodeId) -> (node: &ScriptNode)
        requires
            id.0 < self.nodes().len(),
        ensures
            *node == self.nodes()[id.0 as int],
    {
        &self.nodes[id.0]
    }

    /// The wires, in the order in which they were connected.
    pub fn wire_list(&self) -> (wires: &Vec<Wire>)
        ensures
            wires@ == self.wires(),
    {
        &self.wires
    }
}

} // verus!
