//! Compilation of a graph to bytecode.  The nodes are taken in the order
//! that the walk gives; each node emits its instructions and, where it
//! produces a value, gives the next stack slot to its output pin.

use crate::error::CompileError;
use crate::graph::{Graph, InPinId, NodeId, OutPinId, Wire};
use crate::linearize::{linear_order, linearize, node_numbers, Net};
use crate::scripting::{
    name_view, FieldNode, FunctionNode, NodeView, QueryNode, ScriptNode, SetNode, TypeCreationNode,
};
use crate::slots::{Pin, PinSlots};
use crate::snapshot::{
    graph_from_parts, node_list, parts_view, snapshot_net, snarl_nodes, snarl_wires, wire_list,
};
use crate::virtual_machine::{
    clone_components, code_view, components_view, is_program, Bytecode, ComponentView, Instr,
};
use crate::wiring::{source_of, WiringIndex};
use egui_snarl::Snarl;
use vstd::prelude::*;

verus! {

/// The state of the emission: the instructions so far, the slots given so
/// far, and the number of the next free slot.
pub struct Emit {
    pub code: Seq<Instr>,
    pub slots: Map<OutPinId, usize>,
    pub next: usize,
}

/// The slot from which the input `input` of the node `n` reads: the slot
/// of the output pin that feeds it.
pub open spec fn input_slot(wires: Seq<Wire>, slots: Map<OutPinId, usize>, n: usize, input: usize)
    -> Option<usize> {
    match source_of(wires, InPinId { node: NodeId(n), input }) {
        Some(source) => if slots.contains_key(source) {
            Some(slots[source])
        } else {
            None
        },
        None => None,
    }
}

/// The slots after the outputs 1 to `k` of the query node `n` have been
/// given the slots `base`, `base + 1`, ...
pub open spec fn query_slots(slots: Map<OutPinId, usize>, n: usize, base: usize, k: int) -> Map<
    OutPinId,
    usize,
>
    decreases k,
{
    if k <= 0 {
        slots
    } else {
        query_slots(slots, n, base, k - 1).insert(
            OutPinId { node: NodeId(n), output: k as usize },
            (base + k - 1) as usize,
        )
    }
}

/// A query emits one instruction and gives one slot to each field group.
pub open spec fn emit_query(n: usize, components: Seq<ComponentView>, st: Emit) -> Result<
    Emit,
    CompileError,
> {
    if st.next + components.len() > usize::MAX {
        Err(CompileError::SlotOverflow)
    } else {
        Ok(
            Emit {
                code: st.code.push(Instr::Query(components)),
                slots: query_slots(st.slots, n, st.next, components.len() as int),
                next: (st.next + components.len()) as usize,
            },
        )
    }
}

/// A type creation pushes its value and gives the next slot to its output.
pub open spec fn emit_type_creation(n: usize, value: crate::value::Tree, st: Emit) -> Result<
    Emit,
    CompileError,
> {
    if st.next + 1 > usize::MAX {
        Err(CompileError::SlotOverflow)
    } else {
        Ok(
            Emit {
                code: st.code.push(Instr::Push(value)),
                slots: st.slots.insert(OutPinId { node: NodeId(n), output: 0 }, st.next),
                next: (st.next + 1) as usize,
            },
        )
    }
}

/// A field emits one alias of the slot that its input reads, and gives
/// the next slot to its output.
pub open spec fn emit_field(wires: Seq<Wire>, n: usize, name: Option<Seq<char>>, st: Emit)
    -> Result<Emit, CompileError> {
    match input_slot(wires, st.slots, n, 0) {
        None => Err(CompileError::MissingInput),
        Some(parent) => match name {
            None => Err(CompileError::MissingName),
            Some(name) => if st.next + 1 > usize::MAX {
                Err(CompileError::SlotOverflow)
            } else {
                Ok(
                    Emit {
                        code: st.code.push(Instr::GetField(parent, name)),
                        slots: st.slots.insert(OutPinId { node: NodeId(n), output: 0 }, st.next),
                        next: (st.next + 1) as usize,
                    },
                )
            },
        },
    }
}

/// The copies of the first `k` arguments of the function node `n`, or
/// `None` where one of them cannot be read.
pub open spec fn argument_copies(
    wires: Seq<Wire>,
    slots: Map<OutPinId, usize>,
    n: usize,
    k: int,
) -> Option<Seq<Instr>>
    decreases k,
{
    if k <= 0 {
        Some(Seq::empty())
    } else {
        match argument_copies(wires, slots, n, k - 1) {
            None => None,
            Some(copies) => match input_slot(wires, slots, n, k as usize) {
                None => None,
                Some(slot) => Some(copies.push(Instr::Copy(slot))),
            },
        }
    }
}

/// A function copies its arguments in order and calls; the result, if
/// there is one, takes the next slot.
pub open spec fn emit_function(
    wires: Seq<Wire>,
    n: usize,
    name: Option<Seq<char>>,
    arg_count: usize,
    returns_value: bool,
    st: Emit,
) -> Result<Emit, CompileError> {
    match argument_copies(wires, st.slots, n, arg_count as int) {
        None => Err(CompileError::MissingInput),
        Some(copies) => match name {
            None => Err(CompileError::MissingName),
            Some(name) => {
                let code = (st.code + copies).push(Instr::Call(name));
                if !returns_value {
                    Ok(Emit { code, slots: st.slots, next: st.next })
                } else if st.next + 1 > usize::MAX {
                    Err(CompileError::SlotOverflow)
                } else {
                    Ok(
                        Emit {
                            code,
                            slots: st.slots.insert(
                                OutPinId { node: NodeId(n), output: 1 },
                                st.next,
                            ),
                            next: (st.next + 1) as usize,
                        },
                    )
                }
            },
        },
    }
}

/// A set copies the value of its input 2 and assigns it to what its
/// input 1 reads.  It takes no slot.
pub open spec fn emit_set(wires: Seq<Wire>, n: usize, st: Emit) -> Result<Emit, CompileError> {
    match input_slot(wires, st.slots, n, 2) {
        None => Err(CompileError::MissingInput),
        Some(source) => match input_slot(wires, st.slots, n, 1) {
            None => Err(CompileError::MissingInput),
            Some(target) => Ok(
                Emit {
                    code: st.code.push(Instr::Copy(source)).push(Instr::SetField(target)),
                    slots: st.slots,
                    next: st.next,
                },
            ),
        },
    }
}

/// What the node `n` emits.
pub open spec fn emit_node(net: Net, n: usize, st: Emit) -> Result<Emit, CompileError> {
    match net.kinds[n as int] {
        NodeView::SetField => emit_set(net.wires, n, st),
        NodeView::Field { name } => emit_field(net.wires, n, name, st),
        NodeView::Function { name, arg_count, returns_value } => emit_function(
            net.wires,
            n,
            name,
            arg_count,
            returns_value,
            st,
        ),
        NodeView::TypeCreation { value } => emit_type_creation(n, value, st),
        NodeView::Query { components } => emit_query(n, components, st),
    }
}

/// What the first `k` nodes of `order` emit, one after the other.
pub open spec fn emit_all(net: Net, order: Seq<usize>, k: int, start: Emit) -> Result<
    Emit,
    CompileError,
>
    decreases k,
{
    if k <= 0 {
        Ok(start)
    } else {
        match emit_all(net, order, k - 1, start) {
            Err(e) => Err(e),
            Ok(st) => emit_node(net, order[k - 1], st),
        }
    }
}

/// The first query node at or after `from`.
pub open spec fn first_query(kinds: Seq<NodeView>, from: int) -> Option<int>
    decreases kinds.len() - from,
{
    if from < 0 || from >= kinds.len() {
        None
    } else if kinds[from] is Query {
        Some(from)
    } else {
        first_query(kinds, from + 1)
    }
}

/// The entry node: the one query node of the graph.
pub open spec fn entry_of(kinds: Seq<NodeView>) -> Result<usize, CompileError> {
    match first_query(kinds, 0) {
        None => Err(CompileError::NoEntryPoint),
        Some(entry) => match first_query(kinds, entry + 1) {
            Some(_) => Err(CompileError::MultipleEntryPoints),
            None => Ok(entry as usize),
        },
    }
}

/// The state before anything is emitted.
pub open spec fn blank() -> Emit {
    Emit { code: Seq::empty(), slots: Map::empty(), next: 0 }
}

/// The program of a graph: the instructions that its nodes emit in the
/// order of the walk from its one query node, or the first error.
pub open spec fn compile_spec(net: Net) -> Result<Seq<Instr>, CompileError> {
    match entry_of(net.kinds) {
        Err(e) => Err(e),
        Ok(entry) => match linear_order(net, entry as int) {
            Err(e) => Err(e),
            Ok(order) => match emit_all(net, order, order.len() as int, blank()) {
                Err(e) => Err(e),
                Ok(st) => Ok(st.code),
            },
        },
    }
}

/// The state of the emission as the compiler holds it.
pub open spec fn emitted(pins: PinSlots, bytecode: Seq<Bytecode>, current_stack: usize)
    -> Emit {
    Emit { code: code_view(bytecode), slots: pins.slots(), next: current_stack }
}

/// Nothing of the state of the emission has changed.
pub open spec fn unchanged(
    before: (PinSlots, Seq<Bytecode>, usize),
    after: (PinSlots, Seq<Bytecode>, usize),
) -> bool {
    before.0 == after.0 && before.1 == after.1 && before.2 == after.2
}

/// Emits the instructions of a type creation node.  On an error nothing
/// is emitted and no slot is given.
pub fn type_creation_node(
    node_id: NodeId,
    creation: &TypeCreationNode,
    pins: &mut PinSlots,
    bytecode: &mut Vec<Bytecode>,
    current_stack: &mut usize,
) -> (result: Result<(), CompileError>)
    requires
        old(pins).wf(),
        node_id.0 < old(pins).index().node_count(),
    ensures
        final(pins).wf(),
        final(pins).index() == old(pins).index(),
        match emit_type_creation(
            node_id.0,
            creation.value@,
            emitted(*old(pins), old(bytecode)@, *old(current_stack)),
        ) {
            Ok(st) => result is Ok && emitted(
                *final(pins),
                final(bytecode)@,
                *final(current_stack),
            ) == st,
            Err(e) => result == Err::<(), CompileError>(e) && unchanged(
                (*old(pins), old(bytecode)@, *old(current_stack)),
                (*final(pins), final(bytecode)@, *final(current_stack)),
            ),
        },
{
    if *current_stack == usize::MAX {
        return Err(CompileError::SlotOverflow);
    }
    pins.set_data_info(OutPinId { node: node_id, output: 0 }, *current_stack);
    *current_stack = *current_stack + 1;
    bytecode.push(Bytecode::Push(creation.value.clone_value()));
    assert(code_view(bytecode@) =~= code_view(old(bytecode)@).push(
        Instr::Push(creation.value@),
    ));
    Ok(())
}

/// Emits the instruction of a field node: one `GetField`, and nothing
/// else.  On an error nothing is emitted and no slot is given.
pub fn field_node(
    node_id: NodeId,
    field: &FieldNode,
    pins: &mut PinSlots,
    bytecode: &mut Vec<Bytecode>,
    current_stack: &mut usize,
) -> (result: Result<(), CompileError>)
    requires
        old(pins).wf(),
        node_id.0 < old(pins).index().node_count(),
    ensures
        final(pins).wf(),
        final(pins).index() == old(pins).index(),
        match emit_field(
            old(pins).index().wires(),
            node_id.0,
            name_view(field.name),
            emitted(*old(pins), old(bytecode)@, *old(current_stack)),
        ) {
            Ok(st) => result is Ok && emitted(
                *final(pins),
                final(bytecode)@,
                *final(current_stack),
            ) == st,
            Err(e) => result == Err::<(), CompileError>(e) && unchanged(
                (*old(pins), old(bytecode)@, *old(current_stack)),
                (*final(pins), final(bytecode)@, *final(current_stack)),
            ),
        },
        result is Ok ==> code_view(final(bytecode)@).len() == code_view(old(bytecode)@).len() + 1
            && code_view(final(bytecode)@).last() is GetField && code_view(
            final(bytecode)@,
        ).drop_last() == code_view(old(bytecode)@),
{
    let struct_node = match pins.get_data_info(InPinId { node: node_id, input: 0 }) {
        Some(slot) => slot,
        None => {
            return Err(CompileError::MissingInput);
        },
    };
    let name = match &field.name {
        Some(name) => name.clone(),
        None => {
            return Err(CompileError::MissingName);
        },
    };
    if *current_stack == usize::MAX {
        return Err(CompileError::SlotOverflow);
    }
    pins.set_data_info(OutPinId { node: node_id, output: 0 }, *current_stack);
    bytecode.push(Bytecode::GetField(struct_node, name));
    *current_stack = *current_stack + 1;
    assert(code_view(bytecode@) =~= code_view(old(bytecode)@).push(
        Instr::GetField(struct_node, name@),
    ));
    assert(code_view(bytecode@).drop_last() =~= code_view(old(bytecode)@));
    Ok(())
}

/// Emits the instructions of a set node.  On an error nothing is
/// emitted.
pub fn set_node(
    node_id: NodeId,
    _set: &SetNode,
    pins: &mut PinSlots,
    bytecode: &mut Vec<Bytecode>,
    current_stack: &mut usize,
) -> (result: Result<(), CompileError>)
    requires
        old(pins).wf(),
    ensures
        final(pins).wf(),
        final(pins).index() == old(pins).index(),
        match emit_set(
            old(pins).index().wires(),
            node_id.0,
            emitted(*old(pins), old(bytecode)@, *old(current_stack)),
        ) {
            Ok(st) => result is Ok && emitted(
                *final(pins),
                final(bytecode)@,
                *final(current_stack),
            ) == st,
            Err(e) => result == Err::<(), CompileError>(e) && unchanged(
                (*old(pins), old(bytecode)@, *old(current_stack)),
                (*final(pins), final(bytecode)@, *final(current_stack)),
            ),
        },
{
    let field_set_id = InPinId { node: node_id, input: 1 };
    let field_get_id = InPinId { node: node_id, input: 2 };
    let source = match pins.get_data_info(field_get_id) {
        Some(slot) => slot,
        None => {
            return Err(CompileError::MissingInput);
        },
    };
    let target = match pins.get_data_info(field_set_id) {
        Some(slot) => slot,
        None => {
            return Err(CompileError::MissingInput);
        },
    };
    bytecode.push(Bytecode::Copy(source));
    bytecode.push(Bytecode::SetField(target));
    assert(code_view(bytecode@) =~= code_view(old(bytecode)@).push(Instr::Copy(source)).push(
        Instr::SetField(target),
    ));
    Ok(())
}

/// Once an argument cannot be read, no longer list of arguments can.
pub proof fn lemma_copies_none_stable(
    wires: Seq<Wire>,
    slots: Map<OutPinId, usize>,
    n: usize,
    k: int,
    m: int,
)
    requires
        0 <= k <= m,
        argument_copies(wires, slots, n, k) is None,
    ensures
        argument_copies(wires, slots, n, m) is None,
    decreases m - k,
{
    if k < m {
        lemma_copies_none_stable(wires, slots, n, k, m - 1);
    }
}

/// Emits the instructions of a function node: one copy for each argument,
/// in the order of the input pins, and the call.  On an error nothing is
/// emitted and no slot is given.
#[verifier::loop_isolation(false)]
pub fn function_node(
    node_id: NodeId,
    function: &FunctionNode,
    pins: &mut PinSlots,
    bytecode: &mut Vec<Bytecode>,
    current_stack: &mut usize,
) -> (result: Result<(), CompileError>)
    requires
        old(pins).wf(),
        node_id.0 < old(pins).index().node_count(),
    ensures
        final(pins).wf(),
        final(pins).index() == old(pins).index(),
        match emit_function(
            old(pins).index().wires(),
            node_id.0,
            name_view(function.function_info.name),
            function.function_info.arg_count,
            function.function_info.returns_value,
            emitted(*old(pins), old(bytecode)@, *old(current_stack)),
        ) {
            Ok(st) => result is Ok && emitted(
                *final(pins),
                final(bytecode)@,
                *final(current_stack),
            ) == st,
            Err(e) => result == Err::<(), CompileError>(e) && unchanged(
                (*old(pins), old(bytecode)@, *old(current_stack)),
                (*final(pins), final(bytecode)@, *final(current_stack)),
            ),
        },
{
    let ghost wires = pins.index().wires();
    let ghost slots = pins.slots();
    let ghost code = code_view(bytecode@);
    let count = function.function_info.arg_count;
    let mut emitted_copies: Vec<Bytecode> = Vec::new();
    assert(code_view(emitted_copies@) =~= Seq::<Instr>::empty());
    let mut i: usize = 0;
    while i < count
        invariant
            i <= count,
            argument_copies(wires, slots, node_id.0, i as int) == Some(
                code_view(emitted_copies@),
            ),
        decreases count - i,
    {
        match pins.get_data_info(InPinId { node: node_id, input: i + 1 }) {
            Some(slot) => {
                let ghost before = code_view(emitted_copies@);
                emitted_copies.push(Bytecode::Copy(slot));
                assert(code_view(emitted_copies@) =~= before.push(Instr::Copy(slot)));
            },
            None => {
                proof {
                    lemma_copies_none_stable(wires, slots, node_id.0, i + 1, count as int);
                }
                return Err(CompileError::MissingInput);
            },
        }
        i += 1;
    }
    let ghost copies = code_view(emitted_copies@);
    let name = match &function.function_info.name {
        Some(name) => name.clone(),
        None => {
            return Err(CompileError::MissingName);
        },
    };
    if function.function_info.returns_value {
        if *current_stack == usize::MAX {
            return Err(CompileError::SlotOverflow);
        }
        pins.set_data_info(OutPinId { node: node_id, output: 1 }, *current_stack);
        *current_stack = *current_stack + 1;
    }
    bytecode.append(&mut emitted_copies);
    assert(code_view(bytecode@) =~= code + copies);
    bytecode.push(Bytecode::Call(name));
    assert(code_view(bytecode@) =~= (code + copies).push(Instr::Call(name@)));
    Ok(())
}

/// Emits the instruction of the query node and gives the first slots to
/// its field groups, in the order in which the query lists them.  On an
/// error nothing is emitted and no slot is given.
#[verifier::loop_isolation(false)]
pub fn query_node(
    node_id: NodeId,
    query: &QueryNode,
    pins: &mut PinSlots,
    bytecode: &mut Vec<Bytecode>,
    current_stack: &mut usize,
) -> (result: Result<(), CompileError>)
    requires
        old(pins).wf(),
        node_id.0 < old(pins).index().node_count(),
    ensures
        final(pins).wf(),
        final(pins).index() == old(pins).index(),
        match emit_query(
            node_id.0,
            components_view(query.components@),
            emitted(*old(pins), old(bytecode)@, *old(current_stack)),
        ) {
            Ok(st) => result is Ok && emitted(
                *final(pins),
                final(bytecode)@,
                *final(current_stack),
            ) == st,
            Err(e) => result == Err::<(), CompileError>(e) && unchanged(
                (*old(pins), old(bytecode)@, *old(current_stack)),
                (*final(pins), final(bytecode)@, *final(current_stack)),
            ),
        },
{
    let ghost slots = pins.slots();
    let count = query.components.len();
    let base = *current_stack;
    if base > usize::MAX - count {
        return Err(CompileError::SlotOverflow);
    }
    let mut i: usize = 0;
    while i < count
        invariant
            i <= count,
            pins.wf(),
            pins.index() == old(pins).index(),
            pins.slots() == query_slots(slots, node_id.0, base, i as int),
        decreases count - i,
    {
        pins.set_data_info(OutPinId { node: node_id, output: i + 1 }, base + i);
        i += 1;
    }
    *current_stack = base + count;
    bytecode.push(Bytecode::Query { components: clone_components(&query.components) });
    assert(code_view(bytecode@) =~= code_view(old(bytecode)@).push(
        Instr::Query(components_view(query.components@)),
    ));
    Ok(())
}

/// The first error of the emission is the error of the whole emission.
pub proof fn lemma_emit_error_stable(net: Net, order: Seq<usize>, k: int, m: int, start: Emit)
    requires
        0 <= k <= m,
        emit_all(net, order, k, start) is Err,
    ensures
        emit_all(net, order, m, start) == emit_all(net, order, k, start),
    decreases m - k,
{
    if k < m {
        lemma_emit_error_stable(net, order, k, m - 1, start);
    }
}

/// Finds the entry node: the one query node of the graph.
#[verifier::loop_isolation(false)]
pub fn find_entry(graph: &Graph) -> (result: Result<NodeId, CompileError>)
    ensures
        match entry_of(graph.kinds()) {
            Ok(entry) => result == Ok::<NodeId, CompileError>(NodeId(entry)),
            Err(e) => result == Err::<NodeId, CompileError>(e),
        },
        result matches Ok(entry) ==> entry.0 < graph.nodes().len(),
{
    let ghost kinds = graph.kinds();
    let count = graph.node_count();
    let mut found: Option<usize> = None;
    let mut i: usize = 0;
    while i < count
        invariant
            i <= count,
            match found {
                None => first_query(kinds, 0) == first_query(kinds, i as int),
                Some(entry) => entry < i && first_query(kinds, 0) == Some(entry as int)
                    && first_query(kinds, entry + 1) == first_query(kinds, i as int),
            },
        decreases count - i,
    {
        let is_query = match graph.node_at(NodeId(i)) {
            ScriptNode::Query(_) => true,
            _ => false,
        };
        assert(is_query == (kinds[i as int] is Query));
        if is_query {
            if found.is_some() {
                return Err(CompileError::MultipleEntryPoints);
            }
            found = Some(i);
        }
        i += 1;
    }
    match found {
        Some(entry) => Ok(NodeId(entry)),
        None => Err(CompileError::NoEntryPoint),
    }
}

/// Compiles a graph to a program.
#[verifier::loop_isolation(false)]
pub fn compile_graph(graph: &Graph) -> (result: Result<Vec<Bytecode>, CompileError>)
    requires
        graph.wf(),
    ensures
        match compile_spec(graph.net()) {
            Ok(code) => result matches Ok(program) && code_view(program@) == code,
            Err(e) => result == Err::<Vec<Bytecode>, CompileError>(e),
        },
        result matches Ok(program) ==> is_program(code_view(program@)),
{
    let ghost net = graph.net();
    let _ = graph.node_count();
    proof {
        if compile_spec(net) is Ok {
            crate::compile_laws::law_compiled_code_is_program(net);
        }
    }
    let entry = match find_entry(graph) {
        Ok(entry) => entry,
        Err(e) => {
            return Err(e);
        },
    };
    let index = WiringIndex::build(graph);
    let order = match linearize(graph, &index, entry) {
        Ok(order) => order,
        Err(e) => {
            return Err(e);
        },
    };
    let ghost numbers = node_numbers(order@);
    let mut pins = PinSlots::new(index);
    let mut bytecode: Vec<Bytecode> = Vec::new();
    let mut current_stack: usize = 0;
    assert(emitted(pins, bytecode@, current_stack) == blank()) by {
        assert(code_view(bytecode@) =~= Seq::<Instr>::empty());
    }
    let mut k: usize = 0;
    while k < order.len()
        invariant
            k <= order.len(),
            pins.wf(),
            pins.index().wires() == graph.wires(),
            pins.index().node_count() == graph.nodes().len(),
            emit_all(net, numbers, k as int, blank()) == Ok::<Emit, CompileError>(
                emitted(pins, bytecode@, current_stack),
            ),
        decreases order.len() - k,
    {
        let node_id = order[k];
        assert(numbers[k as int] == node_id.0);
        let outcome = match graph.node_at(node_id) {
            ScriptNode::SetField(node) => set_node(
                node_id,
                node,
                &mut pins,
                &mut bytecode,
                &mut current_stack,
            ),
            ScriptNode::Field(node) => field_node(
                node_id,
                node,
                &mut pins,
                &mut bytecode,
                &mut current_stack,
            ),
            ScriptNode::Function(node) => function_node(
                node_id,
                node,
                &mut pins,
                &mut bytecode,
                &mut current_stack,
            ),
            ScriptNode::TypeCreation(node) => type_creation_node(
                node_id,
                node,
                &mut pins,
                &mut bytecode,
                &mut current_stack,
            ),
            ScriptNode::Query(node) => query_node(
                node_id,
                node,
                &mut pins,
                &mut bytecode,
                &mut current_stack,
            ),
        };
        match outcome {
            Ok(()) => {},
            Err(e) => {
                proof {
                    lemma_emit_error_stable(net, numbers, k + 1, order.len() as int, blank());
                }
                return Err(e);
            },
        }
        k += 1;
    }
    Ok(bytecode)
}

/// Whether `result` is what compiling the graph made of `nodes` and the
/// wires `raw` gives.
pub open spec fn compiles_to(
    nodes: Seq<(usize, NodeView)>,
    raw: Seq<Wire>,
    result: Result<Vec<Bytecode>, CompileError>,
) -> bool {
    match compile_spec(snapshot_net(nodes, raw)) {
        Ok(code) => result matches Ok(program) && code_view(program@) == code,
        Err(e) => result == Err::<Vec<Bytecode>, CompileError>(e),
    }
}

/// Compiles the graph that the editor holds.  The editor keeps its wires
/// without an order, so the program is that of the editor's nodes with
/// the editor's wires in some order: where an input pin has several wires,
/// or a flow output several targets, the order decides which one counts.
pub fn compile(snarl: &Snarl<ScriptNode>) -> (result: Result<Vec<Bytecode>, CompileError>)
    ensures
        exists|raw: Seq<Wire>|
            raw.to_set() == snarl_wires(*snarl) && raw.no_duplicates() && #[trigger] compiles_to(
                snarl_nodes(*snarl),
                raw,
                result,
            ),
        result matches Ok(program) ==> is_program(code_view(program@)),
{
    let nodes = node_list(snarl);
    let wires = wire_list(snarl);
    assert(parts_view(nodes@) =~= snarl_nodes(*snarl));
    let graph = graph_from_parts(&nodes, &wires);
    let result = compile_graph(&graph);
    assert(compiles_to(snarl_nodes(*snarl), wires@, result));
    result
}

} // verus!
