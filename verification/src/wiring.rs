//! Lookup structures over the wires of a graph: for each node the wires
//! that end at it and the wires that start at it, so that the source of an
//! input pin and the targets of an output pin are found without a walk over
//! all wires.

use crate::graph::{wires_wf, Graph, InPinId, NodeId, OutPinId, Wire};
use vstd::prelude::*;

verus! {

/// The first of the first `k` wires of `list` that satisfies `pred`.
pub open spec fn first_match(list: Seq<Wire>, pred: spec_fn(Wire) -> bool, k: int) -> Option<Wire>
    decreases k,
{
    if k <= 0 {
        None
    } else {
        match first_match(list, pred, k - 1) {
            Some(w) => Some(w),
            None => if pred(list[k - 1]) {
                Some(list[k - 1])
            } else {
                None
            },
        }
    }
}

/// Those of the first `k` wires of `wires` that satisfy `group`, in order.
pub open spec fn select(wires: Seq<Wire>, group: spec_fn(Wire) -> bool, k: int) -> Seq<Wire>
    decreases k,
{
    if k <= 0 {
        Seq::empty()
    } else if group(wires[k - 1]) {
        select(wires, group, k - 1).push(wires[k - 1])
    } else {
        select(wires, group, k - 1)
    }
}

/// "The wire ends at the node `node`."
pub open spec fn ends_at(node: usize) -> spec_fn(Wire) -> bool {
    |w: Wire| w.to.node.0 == node
}

/// "The wire starts at the node `node`."
pub open spec fn starts_at(node: usize) -> spec_fn(Wire) -> bool {
    |w: Wire| w.from.node.0 == node
}

/// "The wire ends at the pin `pin`."
pub open spec fn into_pin(pin: InPinId) -> spec_fn(Wire) -> bool {
    |w: Wire| w.to == pin
}

/// "The wire starts at the pin `pin`."
pub open spec fn out_of_pin(pin: OutPinId) -> spec_fn(Wire) -> bool {
    |w: Wire| w.from == pin
}

/// The output pin that feeds the input pin `pin`, if it is wired.
pub open spec fn source_of(wires: Seq<Wire>, pin: InPinId) -> Option<OutPinId> {
    match first_match(wires, into_pin(pin), wires.len() as int) {
        Some(w) => Some(w.from),
        None => None,
    }
}

/// The input pin at the end of the first wire from the output pin `pin`.
pub open spec fn first_target_of(wires: Seq<Wire>, pin: OutPinId) -> Option<InPinId> {
    match first_match(wires, out_of_pin(pin), wires.len() as int) {
        Some(w) => Some(w.to),
        None => None,
    }
}

/// The input pins that the output pin `pin` feeds, in the order of the
/// wires.
pub open spec fn targets_of(wires: Seq<Wire>, pin: OutPinId) -> Seq<InPinId> {
    let chosen = select(wires, out_of_pin(pin), wires.len() as int);
    Seq::new(chosen.len(), |i: int| chosen[i].to)
}

/// A match among the first `k` wires is one of them and satisfies the
/// predicate; no match means that none of them satisfies it.
pub proof fn lemma_first_match(list: Seq<Wire>, pred: spec_fn(Wire) -> bool, k: int)
    requires
        0 <= k <= list.len(),
    ensures
        match first_match(list, pred, k) {
            Some(w) => pred(w) && exists|i: int| 0 <= i < k && list[i] == w,
            None => forall|i: int| 0 <= i < k ==> !pred(#[trigger] list[i]),
        },
    decreases k,
{
    if k > 0 {
        lemma_first_match(list, pred, k - 1);
    }
}

/// A match among the first `k` wires is still the match among more.
pub proof fn lemma_first_match_stable(list: Seq<Wire>, pred: spec_fn(Wire) -> bool, k: int, m: int)
    requires
        0 <= k <= m,
        first_match(list, pred, k) is Some,
    ensures
        first_match(list, pred, m) == first_match(list, pred, k),
    decreases m - k,
{
    if k < m {
        lemma_first_match_stable(list, pred, k, m - 1);
    }
}

/// The match among the first `k` wires depends on those wires only.
pub proof fn lemma_first_match_prefix(
    a: Seq<Wire>,
    b: Seq<Wire>,
    pred: spec_fn(Wire) -> bool,
    k: int,
)
    requires
        0 <= k <= a.len(),
        k <= b.len(),
        forall|i: int| 0 <= i < k ==> a[i] == b[i],
    ensures
        first_match(a, pred, k) == first_match(b, pred, k),
    decreases k,
{
    if k > 0 {
        lemma_first_match_prefix(a, b, pred, k - 1);
    }
}

/// Searching the selected wires finds what searching all wires finds,
/// where everything searched for is selected.
pub proof fn lemma_first_match_select(
    wires: Seq<Wire>,
    group: spec_fn(Wire) -> bool,
    pred: spec_fn(Wire) -> bool,
    k: int,
)
    requires
        0 <= k <= wires.len(),
        forall|w: Wire| #[trigger] pred(w) ==> group(w),
    ensures
        first_match(select(wires, group, k), pred, select(wires, group, k).len() as int)
            == first_match(wires, pred, k),
    decreases k,
{
    if k > 0 {
        lemma_first_match_select(wires, group, pred, k - 1);
        let before = select(wires, group, k - 1);
        let w = wires[k - 1];
        if group(w) {
            let now = before.push(w);
            lemma_first_match_prefix(before, now, pred, before.len() as int);
        }
    }
}

/// The selection among the first `k` wires depends on those wires only.
pub proof fn lemma_select_prefix(a: Seq<Wire>, b: Seq<Wire>, group: spec_fn(Wire) -> bool, k: int)
    requires
        0 <= k <= a.len(),
        k <= b.len(),
        forall|i: int| 0 <= i < k ==> a[i] == b[i],
    ensures
        select(a, group, k) == select(b, group, k),
    decreases k,
{
    if k > 0 {
        lemma_select_prefix(a, b, group, k - 1);
    }
}

/// Selecting among the selected wires gives what selecting among all
/// wires gives, where everything selected the second time was selected
/// the first time.
pub proof fn lemma_select_select(
    wires: Seq<Wire>,
    group: spec_fn(Wire) -> bool,
    pred: spec_fn(Wire) -> bool,
    k: int,
)
    requires
        0 <= k <= wires.len(),
        forall|w: Wire| #[trigger] pred(w) ==> group(w),
    ensures
        select(select(wires, group, k), pred, select(wires, group, k).len() as int) == select(
            wires,
            pred,
            k,
        ),
    decreases k,
{
    if k > 0 {
        lemma_select_select(wires, group, pred, k - 1);
        let before = select(wires, group, k - 1);
        let w = wires[k - 1];
        if group(w) {
            let now = before.push(w);
            lemma_select_prefix(before, now, pred, before.len() as int);
        }
    }
}

/// No wire starts at a node that the graph does not have.
pub proof fn lemma_nothing_selected(wires: Seq<Wire>, pin: OutPinId, count: nat, k: int)
    requires
        wires_wf(wires, count),
        pin.node.0 >= count,
        0 <= k <= wires.len(),
    ensures
        select(wires, out_of_pin(pin), k).len() == 0,
    decreases k,
{
    if k > 0 {
        lemma_nothing_selected(wires, pin, count, k - 1);
        assert(wires[k - 1].from.node.0 < count);
    }
}

/// The wires of a graph, grouped by the node at which they end and by the
/// node at which they start.
pub struct WiringIndex {
    inputs: Vec<Vec<Wire>>,
    outputs: Vec<Vec<Wire>>,
    wires: Ghost<Seq<Wire>>,
}

impl WiringIndex {
    /// The wires that the index was built over.
    pub closed spec fn wires(&self) -> Seq<Wire> {
        self.wires@
    }

    /// The number of nodes that the index was built for.
    pub closed spec fn node_count(&self) -> nat {
        self.inputs@.len()
    }

    /// The groups hold exactly the wires of their nodes, in order.
    pub closed spec fn wf(&self) -> bool {
        &&& self.inputs@.len() == self.outputs@.len()
        &&& wires_wf(self.wires@, self.inputs@.len())
        &&& forall|n: int|
            0 <= n < self.inputs@.len() ==> (#[trigger] self.inputs@[n])@ == select(
                self.wires@,
                ends_at(n as usize),
                self.wires@.len() as int,
            )
        &&& forall|n: int|
            0 <= n < self.outputs@.len() ==> (#[trigger] self.outputs@[n])@ == select(
                self.wires@,
                starts_at(n as usize),
                self.wires@.len() as int,
            )
    }

    /// Builds the index of a graph in one pass over its wires.
    pub fn build(graph: &Graph) -> (index: Self)
        requires
            graph.wf(),
        ensures
            index.wf(),
            index.wires() == graph.wires(),
            index.node_count() == graph.nodes().len(),
    {
        let count = graph.node_count();
        let wires = graph.wire_list();
        let mut inputs: Vec<Vec<Wire>> = Vec::new();
        let mut outputs: Vec<Vec<Wire>> = Vec::new();
        let mut n: usize = 0;
        while n < count
            invariant
                n <= count,
                inputs.len() == n,
                outputs.len() == n,
                forall|m: int| 0 <= m < n ==> (#[trigger] inputs[m])@ == Seq::<Wire>::empty(),
                forall|m: int| 0 <= m < n ==> (#[trigger] outputs[m])@ == Seq::<Wire>::empty(),
            decreases count - n,
        {
            inputs.push(Vec::new());
            outputs.push(Vec::new());
            n += 1;
        }
        let mut k: usize = 0;
        while k < wires.len()
            invariant
                k <= wires.len(),
                inputs.len() == count,
                outputs.len() == count,
                wires_wf(wires@, count as nat),
                forall|m: int|
                    0 <= m < count ==> (#[trigger] inputs[m])@ == select(
                        wires@,
                        ends_at(m as usize),
                        k as int,
                    ),
                forall|m: int|
                    0 <= m < count ==> (#[trigger] outputs[m])@ == select(
                        wires@,
                        starts_at(m as usize),
                        k as int,
                    ),
            decreases wires.len() - k,
        {
            let wire = wires[k];
            inputs[wire.to.node.0].push(wire);
            outputs[wire.from.node.0].push(wire);
            k += 1;
        }
        WiringIndex { inputs, outputs, wires: Ghost(wires@) }
    }

    /// The wires that end at `node`, in order; none for a node that the
    /// graph does not have.
    pub fn incoming(&self, node: NodeId) -> (wires: Option<&Vec<Wire>>)
        requires
            self.wf(),
        ensures
            match wires {
                Some(list) => node.0 < self.node_count() && list@ == select(
                    self.wires(),
                    ends_at(node.0),
                    self.wires().len() as int,
                ),
                None => node.0 >= self.node_count(),
            },
    {
        if node.0 < self.inputs.len() {
            Some(&self.inputs[node.0])
        } else {
            None
        }
    }

    /// The wires that start at `node`, in order; none for a node that the
    /// graph does not have.
    pub fn outgoing(&self, node: NodeId) -> (wires: Option<&Vec<Wire>>)
        requires
            self.wf(),
        ensures
            match wires {
                Some(list) => node.0 < self.node_count() && list@ == select(
                    self.wires(),
                    starts_at(node.0),
                    self.wires().len() as int,
                ),
                None => node.0 >= self.node_count(),
            },
    {
        if node.0 < self.outputs.len() {
            Some(&self.outputs[node.0])
        } else {
            None
        }
    }

    /// The output pin that feeds the input pin `pin`.
    #[verifier::loop_isolation(false)]
    pub fn source(&self, pin: InPinId) -> (source: Option<OutPinId>)
        requires
            self.wf(),
        ensures
            source == source_of(self.wires(), pin),
    {
        let ghost all = self.wires();
        proof {
            lemma_first_match(all, into_pin(pin), all.len() as int);
        }
        if pin.node.0 >= self.inputs.len() {
            return None;
        }
        let list = &self.inputs[pin.node.0];
        proof {
            assert forall|w: Wire| #[trigger] into_pin(pin)(w) implies ends_at(pin.node.0)(w) by {}
            lemma_first_match_select(all, ends_at(pin.node.0), into_pin(pin), all.len() as int);
        }
        let mut i: usize = 0;
        while i < list.len()
            invariant
                i <= list.len(),
                first_match(list@, into_pin(pin), i as int) is None,
            decreases list.len() - i,
        {
            if list[i].to == pin {
                proof {
                    assert(into_pin(pin)(list@[i as int]));
                    assert(first_match(list@, into_pin(pin), i + 1) == Some(list@[i as int]));
                    lemma_first_match_stable(list@, into_pin(pin), i + 1, list.len() as int);
                }
                return Some(list[i].from);
            }
            i += 1;
        }
        None
    }

    /// The input pin at the end of the first wire from the output pin
    /// `pin`.
    #[verifier::loop_isolation(false)]
    pub fn first_target(&self, pin: OutPinId) -> (target: Option<InPinId>)
        requires
            self.wf(),
        ensures
            target == first_target_of(self.wires(), pin),
    {
        let ghost all = self.wires();
        proof {
            lemma_first_match(all, out_of_pin(pin), all.len() as int);
        }
        if pin.node.0 >= self.outputs.len() {
            return None;
        }
        let list = &self.outputs[pin.node.0];
        proof {
            assert forall|w: Wire| #[trigger] out_of_pin(pin)(w) implies starts_at(pin.node.0)(
                w,
            ) by {}
            lemma_first_match_select(all, starts_at(pin.node.0), out_of_pin(pin), all.len() as int);
        }
        let mut i: usize = 0;
        while i < list.len()
            invariant
                i <= list.len(),
                first_match(list@, out_of_pin(pin), i as int) is None,
            decreases list.len() - i,
        {
            if list[i].from == pin {
                proof {
                    assert(out_of_pin(pin)(list@[i as int]));
                    assert(first_match(list@, out_of_pin(pin), i + 1) == Some(list@[i as int]));
                    lemma_first_match_stable(list@, out_of_pin(pin), i + 1, list.len() as int);
                }
                return Some(list[i].to);
            }
            i += 1;
        }
        None
    }

    /// The number of nodes that the index was built for.
    pub fn node_total(&self) -> (count: usize)
        requires
            self.wf(),
        ensures
            count == self.node_count(),
    {
        self.inputs.len()
    }

    /// The wires join nodes of the graph, and no two end at one pin.
    pub proof fn lemma_wires_wf(&self)
        requires
            self.wf(),
        ensures
            wires_wf(self.wires(), self.node_count()),
    {
    }

    /// The input pins that the output pin `pin` feeds, in the order of the
    /// wires.
    #[verifier::loop_isolation(false)]
    pub fn targets(&self, pin: OutPinId) -> (targets: Vec<InPinId>)
        requires
            self.wf(),
        ensures
            targets@ == targets_of(self.wires(), pin),
    {
        let ghost all = self.wires();
        let mut targets: Vec<InPinId> = Vec::new();
        if pin.node.0 >= self.outputs.len() {
            proof {
                assert forall|k: int| 0 <= k <= all.len() implies select(
                    all,
                    out_of_pin(pin),
                    k,
                ).len() == 0 by {
                    lemma_nothing_selected(all, pin, self.inputs@.len(), k);
                }
                assert(targets@ =~= targets_of(all, pin));
            }
            return targets;
        }
        let list = &self.outputs[pin.node.0];
        proof {
            assert forall|w: Wire| #[trigger] out_of_pin(pin)(w) implies starts_at(pin.node.0)(
                w,
            ) by {}
            lemma_select_select(all, starts_at(pin.node.0), out_of_pin(pin), all.len() as int);
        }
        let mut i: usize = 0;
        while i < list.len()
            invariant
                i <= list.len(),
                targets@.len() == select(list@, out_of_pin(pin), i as int).len(),
                forall|k: int|
                    0 <= k < targets@.len() ==> #[trigger] targets@[k] == select(
                        list@,
                        out_of_pin(pin),
                        i as int,
                    )[k].to,
            decreases list.len() - i,
        {
            if list[i].from == pin {
                assert(out_of_pin(pin)(list@[i as int]));
                targets.push(list[i].to);
            } else {
                assert(!out_of_pin(pin)(list@[i as int]));
            }
            i += 1;
        }
        assert(targets@ =~= targets_of(all, pin));
        targets
    }
}

} // verus!
