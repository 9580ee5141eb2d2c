//! What holds of every compiled program.

use crate::compiler::{
    argument_copies, blank, compile_spec, emit_all, emit_field, emit_node, entry_of, first_query,
    Emit,
};
use crate::error::CompileError;
use crate::graph::{wires_wf, OutPinId, Wire};
use crate::linearize::{linear_order, Net};
use crate::order_laws::law_each_node_once;
use crate::scripting::NodeView;
use crate::virtual_machine::{is_program, query_free, Instr};
use vstd::prelude::*;

verus! {

/// A field node emits one `GetField` and nothing else: no copy is made of
/// the value that it names a member of.
pub proof fn law_field_emits_one_alias(
    wires: Seq<Wire>,
    n: usize,
    name: Option<Seq<char>>,
    st: Emit,
)
    requires
        emit_field(wires, n, name, st) is Ok,
    ensures
        emit_field(wires, n, name, st).unwrap().code.len() == st.code.len() + 1,
        emit_field(wires, n, name, st).unwrap().code.last() is GetField,
        emit_field(wires, n, name, st).unwrap().code.drop_last() == st.code,
{
    let after = emit_field(wires, n, name, st).unwrap();
    assert(after.code.drop_last() =~= st.code);
}

/// A found query node is a query node, and none stands between `from` and
/// it; no query node found means that there is none from `from` on.
pub proof fn lemma_first_query(kinds: Seq<NodeView>, from: int)
    requires
        0 <= from,
    ensures
        match first_query(kinds, from) {
            Some(i) => from <= i < kinds.len() && kinds[i] is Query && forall|k: int|
                from <= k < i ==> !(#[trigger] kinds[k] is Query),
            None => forall|k: int| from <= k < kinds.len() ==> !(#[trigger] kinds[k] is Query),
        },
    decreases kinds.len() - from,
{
    if from < kinds.len() && !(kinds[from] is Query) {
        lemma_first_query(kinds, from + 1);
    }
}

/// The entry node is the only query node.
pub proof fn lemma_entry_is_only_query(kinds: Seq<NodeView>)
    requires
        kinds.len() <= usize::MAX,
        entry_of(kinds) is Ok,
    ensures
        entry_of(kinds).unwrap() < kinds.len(),
        forall|k: int|
            0 <= k < kinds.len() ==> ((#[trigger] kinds[k] is Query) <==> k == entry_of(
                kinds,
            ).unwrap()),
{
    lemma_first_query(kinds, 0);
    let entry = first_query(kinds, 0).unwrap();
    lemma_first_query(kinds, entry + 1);
}

proof fn lemma_copies_are_copies(
    wires: Seq<Wire>,
    slots: Map<OutPinId, usize>,
    n: usize,
    k: int,
)
    requires
        argument_copies(wires, slots, n, k) is Some,
    ensures
        forall|i: int|
            0 <= i < argument_copies(wires, slots, n, k).unwrap().len() ==> (
            #[trigger] argument_copies(wires, slots, n, k).unwrap()[i]) is Copy,
    decreases k,
{
    if k > 0 {
        lemma_copies_are_copies(wires, slots, n, k - 1);
    }
}

/// A node that is no query adds no query to the code; the query node adds
/// exactly one instruction, its query.
proof fn lemma_node_code(net: Net, n: usize, st: Emit)
    requires
        n < net.kinds.len(),
        emit_node(net, n, st) is Ok,
    ensures
        ({
            let after = emit_node(net, n, st).unwrap();
            &&& st.code.len() <= after.code.len()
            &&& forall|i: int| 0 <= i < st.code.len() ==> #[trigger] after.code[i] == st.code[i]
            &&& net.kinds[n as int] is Query ==> after.code.len() == st.code.len() + 1
                && after.code.last() is Query
            &&& !(net.kinds[n as int] is Query) ==> forall|i: int|
                st.code.len() <= i < after.code.len() ==> !(#[trigger] after.code[i] is Query)
        }),
{
    match net.kinds[n as int] {
        NodeView::Function { name, arg_count, returns_value } => {
            lemma_copies_are_copies(net.wires, st.slots, n, arg_count as int);
        },
        _ => {},
    }
}

proof fn lemma_code_of_order(net: Net, entry: usize, order: Seq<usize>, k: int)
    requires
        1 <= k <= order.len(),
        order[0] == entry,
        forall|i: int| 0 <= i < order.len() ==> #[trigger] order[i] < net.kinds.len(),
        forall|i: int| 1 <= i < order.len() ==> #[trigger] order[i] != entry,
        forall|i: int| 0 <= i < net.kinds.len() ==> ((#[trigger] net.kinds[i] is Query) <==> i == entry),
        emit_all(net, order, k, blank()) is Ok,
    ensures
        ({
            let code = emit_all(net, order, k, blank()).unwrap().code;
            &&& code.len() > 0
            &&& code[0] is Query
            &&& forall|i: int| 1 <= i < code.len() ==> !(#[trigger] code[i] is Query)
        }),
    decreases k,
{
    if k == 1 {
        assert(emit_all(net, order, 0, blank()) == Ok::<Emit, CompileError>(blank()));
        lemma_node_code(net, order[0], blank());
    } else {
        lemma_code_of_order(net, entry, order, k - 1);
        let st = emit_all(net, order, k - 1, blank()).unwrap();
        assert(order[k - 1] != entry);
        assert(!(net.kinds[order[k - 1] as int] is Query));
        lemma_node_code(net, order[k - 1], st);
    }
}

/// Every compiled program is one query followed by instructions that are
/// no queries: the engine can run whatever the compiler gives.
pub proof fn law_compiled_code_is_program(net: Net)
    requires
        wires_wf(net.wires, net.kinds.len()),
        net.kinds.len() <= usize::MAX,
        compile_spec(net) is Ok,
    ensures
        is_program(compile_spec(net).unwrap()),
{
    lemma_entry_is_only_query(net.kinds);
    let entry = entry_of(net.kinds).unwrap();
    let order = linear_order(net, entry as int).unwrap();
    law_each_node_once(net, entry);
    crate::order_laws::lemma_order_starts_at_entry(net, entry);
    assert forall|i: int| 1 <= i < order.len() implies #[trigger] order[i] != entry by {
        assert(order[0] != order[i]);
    }
    lemma_code_of_order(net, entry, order, order.len() as int);
    let code = compile_spec(net).unwrap();
    assert forall|i: int| 0 <= i < code.skip(1).len() implies !(#[trigger] code.skip(1)[i] is Query) by {
        assert(code.skip(1)[i] == code[i + 1]);
    }
}

} // verus!
