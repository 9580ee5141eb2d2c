//! The order in which the nodes of a graph are compiled.  The walk starts
//! at the entry node and follows the flow wires; before a node is placed,
//! the nodes that feed its data inputs are placed, each node once.

use crate::error::CompileError;
use crate::graph::{Graph, InPinId, NodeId, OutPinId, Wire};
use crate::scripting::NodeView;
use crate::wiring::{
    first_target_of, into_pin, lemma_first_match, out_of_pin, source_of, WiringIndex,
};
use vstd::prelude::*;

verus! {

/// What the walk reads of a graph: the kinds of its nodes and its wires.
pub struct Net {
    pub kinds: Seq<NodeView>,
    pub wires: Seq<Wire>,
}

impl Graph {
    /// What the walk reads of this graph.
    pub open spec fn net(&self) -> Net {
        Net { kinds: self.kinds(), wires: self.wires() }
    }
}

/// The node that feeds the data input `j` of the node `n`, if it is wired.
pub open spec fn dependency(net: Net, n: int, j: nat) -> Option<usize> {
    match source_of(
        net.wires,
        InPinId { node: NodeId(n as usize), input: net.kinds[n].data_pin(j) as usize },
    ) {
        Some(source) => Some(source.node.0),
        None => None,
    }
}

/// The node at the end of the first wire from the flow output of `n`.
pub open spec fn flow_next(net: Net, n: int) -> Option<usize> {
    if net.kinds[n].can_flow() {
        match first_target_of(net.wires, OutPinId { node: NodeId(n as usize), output: 0 }) {
            Some(target) => Some(target.node.0),
            None => None,
        }
    } else {
        None
    }
}

/// The state of a walk: the nodes that were entered, the nodes that were
/// placed, and the placed nodes in the order of their placing.
pub struct Walk {
    pub visited: Seq<bool>,
    pub emitted: Seq<bool>,
    pub order: Seq<usize>,
}

/// The state before the walk over `count` nodes.
pub open spec fn fresh(count: nat) -> Walk {
    Walk {
        visited: Seq::new(count, |i: int| false),
        emitted: Seq::new(count, |i: int| false),
        order: Seq::empty(),
    }
}

/// Places the node `n`, which was not entered before: enters it, places
/// the nodes that feed its data inputs, then places `n` itself.  `fuel`
/// bounds the depth of the walk; the number of nodes not yet entered is
/// always enough.
pub open spec fn visit(net: Net, n: int, w: Walk, fuel: nat) -> Result<Walk, CompileError>
    decreases fuel, 0nat, 0nat,
{
    if fuel == 0 {
        Err(CompileError::DataCycle)
    } else {
        let entered = Walk { visited: w.visited.update(n, true), emitted: w.emitted, order: w.order };
        match visit_inputs(net, n, 0, entered, (fuel - 1) as nat) {
            Err(e) => Err(e),
            Ok(after) => Ok(
                Walk {
                    visited: after.visited,
                    emitted: after.emitted.update(n, true),
                    order: after.order.push(n as usize),
                },
            ),
        }
    }
}

/// Places the nodes that feed the data inputs `j`, `j + 1`, ... of `n`, in
/// that order.  A feeding node that was placed before is passed over; one
/// that was entered and not yet placed closes a cycle of data wires.
pub open spec fn visit_inputs(net: Net, n: int, j: nat, w: Walk, fuel: nat) -> Result<
    Walk,
    CompileError,
>
    decreases fuel, 1nat, net.kinds[n].data_inputs() - j,
{
    if j >= net.kinds[n].data_inputs() {
        Ok(w)
    } else {
        match dependency(net, n, j) {
            None => visit_inputs(net, n, j + 1, w, fuel),
            Some(d) => if w.emitted[d as int] {
                visit_inputs(net, n, j + 1, w, fuel)
            } else if w.visited[d as int] {
                Err(CompileError::DataCycle)
            } else {
                match visit(net, d as int, w, fuel) {
                    Err(e) => Err(e),
                    Ok(after) => visit_inputs(net, n, j + 1, after, fuel),
                }
            },
        }
    }
}

/// Places `n` and then follows the flow wires: the node at the end of the
/// flow output of `n` comes next, unless it was entered before.  `steps`
/// bounds the length of the chain; the number of nodes is always enough.
pub open spec fn walk(net: Net, n: int, w: Walk, steps: nat) -> Result<Walk, CompileError>
    decreases steps,
{
    match visit(net, n, w, net.kinds.len()) {
        Err(e) => Err(e),
        Ok(after) => match flow_next(net, n) {
            Some(m) => if after.visited[m as int] || steps == 0 {
                Ok(after)
            } else {
                walk(net, m as int, after, (steps - 1) as nat)
            },
            None => Ok(after),
        },
    }
}

/// The order in which the nodes reached from `entry` are compiled, or
/// `DataCycle` where a node depends on itself through data wires.
pub open spec fn linear_order(net: Net, entry: int) -> Result<Seq<usize>, CompileError> {
    match walk(net, entry, fresh(net.kinds.len()), net.kinds.len()) {
        Ok(w) => Ok(w.order),
        Err(e) => Err(e),
    }
}

/// The number of `false` among the first `k` flags.
pub open spec fn count_false(flags: Seq<bool>, k: int) -> nat
    decreases k,
{
    if k <= 0 {
        0
    } else if flags[k - 1] {
        count_false(flags, k - 1)
    } else {
        count_false(flags, k - 1) + 1
    }
}

/// The number of nodes that were not entered.
pub open spec fn unvisited(w: Walk) -> nat {
    count_false(w.visited, w.visited.len() as int)
}

/// There are at most `k` flags among the first `k`.
pub proof fn lemma_count_bound(flags: Seq<bool>, k: int)
    requires
        0 <= k <= flags.len(),
    ensures
        count_false(flags, k) <= k,
    decreases k,
{
    if k > 0 {
        lemma_count_bound(flags, k - 1);
    }
}

/// Setting flags does not raise the number of cleared flags.
pub proof fn lemma_count_monotone(a: Seq<bool>, b: Seq<bool>, k: int)
    requires
        0 <= k <= a.len(),
        a.len() == b.len(),
        forall|i: int| 0 <= i < a.len() && a[i] ==> b[i],
    ensures
        count_false(b, k) <= count_false(a, k),
    decreases k,
{
    if k > 0 {
        lemma_count_monotone(a, b, k - 1);
    }
}

/// Setting one cleared flag lowers the number of cleared flags by one.
pub proof fn lemma_count_set(flags: Seq<bool>, n: int, k: int)
    requires
        0 <= k <= flags.len(),
        0 <= n < flags.len(),
        !flags[n],
    ensures
        count_false(flags.update(n, true), k) + (if n < k {
            1nat
        } else {
            0nat
        }) == count_false(flags, k),
    decreases k,
{
    if k > 0 {
        lemma_count_set(flags, n, k - 1);
    }
}

/// The numbers of a list of nodes.
pub open spec fn node_numbers(nodes: Seq<NodeId>) -> Seq<usize> {
    Seq::new(nodes.len(), |i: int| nodes[i].0)
}

/// The state of a walk as the compiler holds it.
struct Walker {
    visited: Vec<bool>,
    emitted: Vec<bool>,
    order: Vec<NodeId>,
}

impl View for Walker {
    type V = Walk;

    closed spec fn view(&self) -> Walk {
        Walk {
            visited: self.visited@,
            emitted: self.emitted@,
            order: node_numbers(self.order@),
        }
    }
}

/// The source of a wired input pin is a node of the graph.
pub proof fn lemma_source_in_graph(wires: Seq<Wire>, count: nat, pin: InPinId)
    requires
        crate::graph::wires_wf(wires, count),
    ensures
        source_of(wires, pin) matches Some(source) ==> source.node.0 < count,
{
    lemma_first_match(wires, into_pin(pin), wires.len() as int);
}

/// The target of a wired output pin is a node of the graph.
pub proof fn lemma_target_in_graph(wires: Seq<Wire>, count: nat, pin: OutPinId)
    requires
        crate::graph::wires_wf(wires, count),
    ensures
        first_target_of(wires, pin) matches Some(target) ==> target.node.0 < count,
{
    lemma_first_match(wires, out_of_pin(pin), wires.len() as int);
}

/// Places the node `node` and, before it, the nodes that feed it.
#[verifier::loop_isolation(false)]
fn place(
    graph: &Graph,
    index: &WiringIndex,
    node: usize,
    walker: &mut Walker,
    Ghost(fuel): Ghost<nat>,
) -> (result: Result<(), CompileError>)
    requires
        graph.wf(),
        index.wf(),
        index.wires() == graph.wires(),
        index.node_count() == graph.nodes().len(),
        node < graph.nodes().len(),
        old(walker).visited@.len() == graph.nodes().len(),
        old(walker).emitted@.len() == graph.nodes().len(),
        !old(walker).visited@[node as int],
        fuel >= unvisited(old(walker)@),
        forall|i: int|
            0 <= i < old(walker).order@.len() ==> (#[trigger] old(walker).order@[i]).0
                < graph.nodes().len(),
    ensures
        result is Ok ==> forall|i: int|
            0 <= i < final(walker).order@.len() ==> (#[trigger] final(walker).order@[i]).0
                < graph.nodes().len(),
        match visit(graph.net(), node as int, old(walker)@, fuel) {
            Ok(after) => result is Ok && final(walker)@ == after,
            Err(e) => result == Err::<(), CompileError>(e),
        },
        result is Ok ==> final(walker).visited@.len() == graph.nodes().len(),
        result is Ok ==> final(walker).emitted@.len() == graph.nodes().len(),
        result is Ok ==> final(walker).visited@[node as int],
        result is Ok ==> forall|i: int|
            0 <= i < graph.nodes().len() && old(walker).visited@[i]
                ==> #[trigger] final(walker).visited@[i],
    decreases fuel, 0nat, 0nat,
{
    let ghost net = graph.net();
    let ghost count = graph.nodes().len();
    proof {
        lemma_count_set(walker.visited@, node as int, count as int);
        lemma_count_bound(walker.visited@, count as int);
    }
    walker.visited.set(node, true);
    let ghost entered = walker@;
    let kind = graph.node_at(NodeId(node));
    assert(kind@ == net.kinds[node as int]);
    let inputs = kind.data_inputs();
    let mut j: usize = 0;
    while j < inputs
        invariant
            j <= inputs,
            walker.visited@.len() == count,
            walker.emitted@.len() == count,
            walker.visited@[node as int],
            fuel - 1 >= unvisited(walker@),
            forall|i: int|
                0 <= i < walker.order@.len() ==> (#[trigger] walker.order@[i]).0 < count,
            forall|i: int|
                0 <= i < count && entered.visited[i] ==> #[trigger] walker.visited@[i],
            visit_inputs(net, node as int, 0, entered, (fuel - 1) as nat) == visit_inputs(
                net,
                node as int,
                j as nat,
                walker@,
                (fuel - 1) as nat,
            ),
        decreases inputs - j,
    {
        let pin = InPinId { node: NodeId(node), input: kind.data_pin(j) };
        proof {
            lemma_source_in_graph(graph.wires(), count, pin);
        }
        match index.source(pin) {
            None => {},
            Some(source) => {
                let d = source.node.0;
                if walker.emitted[d] {
                } else if walker.visited[d] {
                    return Err(CompileError::DataCycle);
                } else {
                    let ghost before = walker@;
                    match place(graph, index, d, walker, Ghost((fuel - 1) as nat)) {
                        Err(e) => {
                            return Err(e);
                        },
                        Ok(()) => {
                            proof {
                                lemma_count_monotone(
                                    before.visited,
                                    walker.visited@,
                                    count as int,
                                );
                            }
                        },
                    }
                }
            },
        }
        j += 1;
    }
    let ghost after = walker@;
    walker.emitted.set(node, true);
    walker.order.push(NodeId(node));
    assert(walker@.order =~= after.order.push(node));
    Ok(())
}

/// Walks the graph from `entry` and gives the order of the walk.
fn walk_order(graph: &Graph, index: &WiringIndex, entry: NodeId) -> (result: Result<
    Vec<NodeId>,
    CompileError,
>)
    requires
        graph.wf(),
        index.wf(),
        index.wires() == graph.wires(),
        index.node_count() == graph.nodes().len(),
        entry.0 < graph.nodes().len(),
    ensures
        match linear_order(graph.net(), entry.0 as int) {
            Ok(order) => result matches Ok(nodes) && order == node_numbers(nodes@),
            Err(e) => result == Err::<Vec<NodeId>, CompileError>(e),
        },
        result matches Ok(nodes) ==> forall|i: int|
            0 <= i < nodes@.len() ==> (#[trigger] nodes@[i]).0 < graph.nodes().len(),
{
    let ghost net = graph.net();
    let count = graph.node_count();
    let mut walker = Walker { visited: Vec::new(), emitted: Vec::new(), order: Vec::new() };
    let mut i: usize = 0;
    while i < count
        invariant
            i <= count,
            walker.visited@.len() == i,
            walker.emitted@.len() == i,
            walker.order@.len() == 0,
            forall|k: int| 0 <= k < i ==> !walker.visited@[k],
            forall|k: int| 0 <= k < i ==> !walker.emitted@[k],
        decreases count - i,
    {
        walker.visited.push(false);
        walker.emitted.push(false);
        i += 1;
    }
    assert(walker@.visited =~= fresh(count as nat).visited);
    assert(walker@.emitted =~= fresh(count as nat).emitted);
    assert(walker@.order =~= fresh(count as nat).order);
    proof {
        lemma_count_bound(walker.visited@, count as int);
    }
    let mut current = entry.0;
    let mut steps: usize = count;
    loop
        invariant
            graph.wf(),
            index.wf(),
            index.wires() == graph.wires(),
            index.node_count() == graph.nodes().len(),
            net == graph.net(),
            count == graph.nodes().len(),
            current < count,
            walker.visited@.len() == count,
            walker.emitted@.len() == count,
            !walker.visited@[current as int],
            steps >= unvisited(walker@),
            forall|i: int|
                0 <= i < walker.order@.len() ==> (#[trigger] walker.order@[i]).0 < count,
            walk(net, entry.0 as int, fresh(count as nat), count as nat) == walk(
                net,
                current as int,
                walker@,
                steps as nat,
            ),
        decreases steps,
    {
        let ghost before = walker@;
        proof {
            lemma_count_bound(before.visited, count as int);
            lemma_count_set(before.visited, current as int, count as int);
        }
        match place(graph, index, current, &mut walker, Ghost(count as nat)) {
            Err(e) => {
                return Err(e);
            },
            Ok(()) => {},
        }
        proof {
            lemma_count_monotone(
                before.visited.update(current as int, true),
                walker.visited@,
                count as int,
            );
        }
        if !graph.node_at(NodeId(current)).can_flow() {
            return Ok(walker.order);
        }
        let pin = OutPinId { node: NodeId(current), output: 0 };
        proof {
            lemma_target_in_graph(graph.wires(), count as nat, pin);
        }
        match index.first_target(pin) {
            None => {
                return Ok(walker.order);
            },
            Some(target) => {
                let next = target.node.0;
                if walker.visited[next] || steps == 0 {
                    return Ok(walker.order);
                }
                current = next;
                steps = steps - 1;
            },
        }
    }
}

/// Computes the order in which the nodes reached from `entry` are
/// compiled.  No node stands twice in the order, and whatever feeds a data
/// input of a node stands before that node.
pub fn linearize(graph: &Graph, index: &WiringIndex, entry: NodeId) -> (result: Result<
    Vec<NodeId>,
    CompileError,
>)
    requires
        graph.wf(),
        index.wf(),
        index.wires() == graph.wires(),
        index.node_count() == graph.nodes().len(),
        entry.0 < graph.nodes().len(),
    ensures
        match linear_order(graph.net(), entry.0 as int) {
            Ok(order) => result matches Ok(nodes) && order == node_numbers(nodes@),
            Err(e) => result == Err::<Vec<NodeId>, CompileError>(e),
        },
        result matches Ok(nodes) ==> forall|i: int|
            0 <= i < nodes@.len() ==> (#[trigger] nodes@[i]).0 < graph.nodes().len(),
        result matches Ok(nodes) ==> node_numbers(nodes@).no_duplicates(),
        result matches Ok(nodes) ==> forall|k: int, j: nat|
            0 <= k < nodes@.len() && j < graph.kinds()[nodes@[k].0 as int].data_inputs() && (
            #[trigger] dependency(graph.net(), nodes@[k].0 as int, j)) is Some
                ==> crate::order_laws::placed(
                node_numbers(nodes@),
                dependency(graph.net(), nodes@[k].0 as int, j).unwrap(),
                k,
            ),
{
    let ghost net = graph.net();
    let _ = graph.node_count();
    let result = walk_order(graph, index, entry);
    proof {
        match &result {
            Ok(nodes) => {
                let order = node_numbers(nodes@);
                crate::order_laws::law_each_node_once(net, entry.0);
                assert forall|k: int, j: nat|
                    0 <= k < nodes@.len() && j < net.kinds[nodes@[k].0 as int].data_inputs() && (
                    #[trigger] dependency(net, nodes@[k].0 as int, j)) is Some implies crate::order_laws::placed(
                    order,
                    dependency(net, nodes@[k].0 as int, j).unwrap(),
                    k,
                ) by {
                    assert(order[k] == nodes@[k].0);
                    crate::order_laws::law_dependencies_come_first(net, entry.0, k, j);
                }
            },
            Err(_) => {},
        }
    }
    result
}

/// The numbers of the nodes of an optional chain.
pub open spec fn rest_order(rest: Option<Box<TreeNode>>) -> Seq<usize> {
    match rest {
        None => Seq::empty(),
        Some(chain) => chain.order(),
    }
}

/// An order of nodes as a chain: a node, and the chain of the nodes that
/// come after it.
#[derive(Debug)]
pub struct TreeNode {
    pub node_id: NodeId,
    pub left: Option<Box<TreeNode>>,
}

impl TreeNode {
    /// The numbers of the nodes of the chain, from its head on.
    pub open spec fn order(self) -> Seq<usize>
        decreases self,
    {
        match self.left {
            None => seq![self.node_id.0],
            Some(rest) => seq![self.node_id.0] + rest.order(),
        }
    }

    /// A chain of one node.
    pub fn new(node_id: NodeId) -> (chain: Self)
        ensures
            chain.order() == seq![node_id.0],
    {
        TreeNode { node_id, left: None }
    }

    /// Hangs the chain `new_node` at the end of this chain.
    pub fn push_left(self, new_node: TreeNode) -> (chain: TreeNode)
        ensures
            chain.order() == self.order() + new_node.order(),
        decreases self,
    {
        let TreeNode { node_id, left } = self;
        match left {
            None => {
                TreeNode { node_id, left: Some(Box::new(new_node)) }
            },
            Some(rest) => {
                let joined = (*rest).push_left(new_node);
                assert(seq![node_id.0] + (rest.order() + new_node.order()) =~= (seq![node_id.0]
                    + rest.order()) + new_node.order());
                TreeNode { node_id, left: Some(Box::new(joined)) }
            },
        }
    }

    /// The nodes of the chain, from its head on.
    pub fn to_order(&self) -> (nodes: Vec<NodeId>)
        ensures
            node_numbers(nodes@) == self.order(),
    {
        let mut nodes: Vec<NodeId> = Vec::new();
        nodes.push(self.node_id);
        let mut current = &self.left;
        let ghost mut rest = rest_order(self.left);
        assert(node_numbers(nodes@) =~= seq![self.node_id.0]);
        assert(self.order() =~= node_numbers(nodes@) + rest);
        loop
            invariant
                self.order() == node_numbers(nodes@) + rest,
                rest == rest_order(*current),
            ensures
                self.order() == node_numbers(nodes@),
            decreases *current,
        {
            match current {
                None => {
                    assert(node_numbers(nodes@) + rest =~= node_numbers(nodes@));
                    break ;
                },
                Some(next) => {
                    let ghost before = node_numbers(nodes@);
                    nodes.push(next.node_id);
                    proof {
                        let tail = rest_order(next.left);
                        assert(node_numbers(nodes@) =~= before.push(next.node_id.0));
                        assert(next.order() =~= seq![next.node_id.0] + tail);
                        assert(before + (seq![next.node_id.0] + tail) =~= before.push(
                            next.node_id.0,
                        ) + tail);
                        rest = tail;
                    }
                    current = &next.left;
                },
            }
        }
        nodes
    }
}

} // verus!
