//! The stack slot of each output pin.  A slot is given to an output pin
//! when the node that produces its value is compiled, and every consumer
//! of the pin reads the value from that slot.

use crate::graph::{InPinId, OutPinId};
use crate::wiring::{source_of, WiringIndex};
use vstd::prelude::*;

verus! {

/// An output pin of some node together with its slot.
#[derive(Clone, Copy, Debug)]
pub struct Assignment {
    pub output: usize,
    pub slot: usize,
}

/// The slot that the last of the first `k` assignments gives to `output`.
pub open spec fn assigned(row: Seq<Assignment>, output: usize, k: int) -> Option<usize>
    decreases k,
{
    if k <= 0 {
        None
    } else if row[k - 1].output == output {
        Some(row[k - 1].slot)
    } else {
        assigned(row, output, k - 1)
    }
}

proof fn lemma_assigned_prefix(a: Seq<Assignment>, b: Seq<Assignment>, output: usize, k: int)
    requires
        0 <= k <= a.len(),
        k <= b.len(),
        forall|i: int| 0 <= i < k ==> a[i] == b[i],
    ensures
        assigned(a, output, k) == assigned(b, output, k),
    decreases k,
{
    if k > 0 {
        lemma_assigned_prefix(a, b, output, k - 1);
    }
}

/// What a pin-to-slot table offers for pins of the kind `T`.
pub trait Pin<T>: Sized {
    /// The slot of `pin`, if it has one.
    spec fn slot(&self, pin: T) -> Option<usize>;

    /// The invariant of the table.
    spec fn table_wf(&self) -> bool;

    /// Whether a slot can be given to `pin`.
    spec fn settable(&self, pin: T) -> bool;

    /// The slot of `pin`.
    fn get_data_info(&self, pin: T) -> (slot: Option<usize>)
        requires
            self.table_wf(),
        ensures
            slot == self.slot(pin),
    ;

    /// Whether `pin` has a slot.
    fn has_data_info(&self, pin: T) -> (has: bool)
        requires
            self.table_wf(),
        ensures
            has == self.slot(pin).is_some(),
    ;

    /// Gives `pin` the slot `stack_position`.  Nothing changes where no
    /// slot can be given to `pin`.
    fn set_data_info(&mut self, pin: T, stack_position: usize)
        requires
            old(self).table_wf(),
        ensures
            final(self).table_wf(),
            old(self).settable(pin) ==> final(self).slot(pin) == Some(stack_position),
            !old(self).settable(pin) ==> *final(self) == *old(self),
    ;
}

/// The wiring of a graph together with the slots given so far.
pub struct PinSlots {
    index: WiringIndex,
    rows: Vec<Vec<Assignment>>,
}

impl PinSlots {
    /// The wiring that the table reads.
    pub closed spec fn index(&self) -> WiringIndex {
        self.index
    }

    /// The slots given so far.
    pub closed spec fn slots(&self) -> Map<OutPinId, usize> {
        Map::new(
            |pin: OutPinId|
                pin.node.0 < self.rows@.len() && assigned(
                    self.rows@[pin.node.0 as int]@,
                    pin.output,
                    self.rows@[pin.node.0 as int]@.len() as int,
                ) is Some,
            |pin: OutPinId|
                assigned(
                    self.rows@[pin.node.0 as int]@,
                    pin.output,
                    self.rows@[pin.node.0 as int]@.len() as int,
                ).unwrap(),
        )
    }

    /// The invariant: the wiring is well formed, and there is one row of
    /// assignments for each node.
    pub closed spec fn wf(&self) -> bool {
        self.index.wf() && self.rows@.len() == self.index.node_count()
    }

    /// A table over `index` in which no pin has a slot.
    pub fn new(index: WiringIndex) -> (table: Self)
        requires
            index.wf(),
        ensures
            table.wf(),
            table.index() == index,
            table.slots() == Map::<OutPinId, usize>::empty(),
    {
        let count = index.node_total();
        let mut rows: Vec<Vec<Assignment>> = Vec::new();
        let mut n: usize = 0;
        while n < count
            invariant
                n <= count,
                rows.len() == n,
                forall|m: int| 0 <= m < n ==> (#[trigger] rows[m])@.len() == 0,
            decreases count - n,
        {
            rows.push(Vec::new());
            n += 1;
        }
        let table = PinSlots { index, rows };
        assert(table.slots() =~= Map::<OutPinId, usize>::empty());
        table
    }

    /// The wiring that the table reads.
    pub fn wiring(&self) -> (index: &WiringIndex)
        ensures
            *index == self.index(),
    {
        &self.index
    }
}

impl Pin<OutPinId> for PinSlots {
    open spec fn slot(&self, pin: OutPinId) -> Option<usize> {
        if self.slots().contains_key(pin) {
            Some(self.slots()[pin])
        } else {
            None
        }
    }

    open spec fn table_wf(&self) -> bool {
        self.wf()
    }

    open spec fn settable(&self, pin: OutPinId) -> bool {
        pin.node.0 < self.index().node_count()
    }

    #[verifier::loop_isolation(false)]
    fn get_data_info(&self, pin: OutPinId) -> (slot: Option<usize>) {
        if pin.node.0 >= self.rows.len() {
            return None;
        }
        let row = &self.rows[pin.node.0];
        let mut k: usize = row.len();
        while k > 0
            invariant
                k <= row.len(),
                assigned(row@, pin.output, row@.len() as int) == assigned(
                    row@,
                    pin.output,
                    k as int,
                ),
            decreases k,
        {
            if row[k - 1].output == pin.output {
                return Some(row[k - 1].slot);
            }
            k -= 1;
        }
        None
    }

    fn has_data_info(&self, pin: OutPinId) -> (has: bool) {
        self.get_data_info(pin).is_some()
    }

    fn set_data_info(&mut self, pin: OutPinId, stack_position: usize)
        ensures
            final(self).index() == old(self).index(),
            old(self).settable(pin) ==> final(self).slots() == old(self).slots().insert(
                pin,
                stack_position,
            ),
    {
        if pin.node.0 >= self.rows.len() {
            return ;
        }
        let ghost before = self.rows@[pin.node.0 as int]@;
        self.rows[pin.node.0].push(Assignment { output: pin.output, slot: stack_position });
        proof {
            let after = self.rows@[pin.node.0 as int]@;
            assert forall|output: usize|
                assigned(after, output, after.len() as int) == if output == pin.output {
                    Some(stack_position)
                } else {
                    assigned(before, output, before.len() as int)
                } by {
                lemma_assigned_prefix(before, after, output, before.len() as int);
            }
            assert(self.slots() =~= old(self).slots().insert(pin, stack_position));
        }
    }
}

impl Pin<InPinId> for PinSlots {
    /// The slot of an input pin is the slot of the output pin that feeds
    /// it.
    open spec fn slot(&self, pin: InPinId) -> Option<usize> {
        match source_of(self.index().wires(), pin) {
            Some(source) => if self.slots().contains_key(source) {
                Some(self.slots()[source])
            } else {
                None
            },
            None => None,
        }
    }

    open spec fn table_wf(&self) -> bool {
        self.wf()
    }

    open spec fn settable(&self, pin: InPinId) -> bool {
        source_of(self.index().wires(), pin) is Some
    }

    fn get_data_info(&self, pin: InPinId) -> (slot: Option<usize>) {
        match self.index.source(pin) {
            Some(source) => self.get_data_info(source),
            None => None,
        }
    }

    fn has_data_info(&self, pin: InPinId) -> (has: bool) {
        match self.index.source(pin) {
            Some(source) => self.has_data_info(source),
            None => false,
        }
    }

    fn set_data_info(&mut self, pin: InPinId, stack_position: usize)
        ensures
            final(self).index() == old(self).index(),
            source_of(old(self).index().wires(), pin) matches Some(source) ==> final(self).slots()
                == old(self).slots().insert(source, stack_position),
    {
        proof {
            self.index.lemma_wires_wf();
            crate::linearize::lemma_source_in_graph(
                self.index.wires(),
                self.index.node_count(),
                pin,
            );
        }
        match self.index.source(pin) {
            Some(source) => {
                self.set_data_info(source, stack_position);
            },
            None => {},
        }
    }
}

} // verus!
