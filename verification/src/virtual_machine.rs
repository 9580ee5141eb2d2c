//! The instruction set and the execution engine.  A program starts with
//! one `Query` instruction; what follows it runs once per matched record,
//! on a fresh stack whose first slots stand for the record's field groups.

use crate::error::RuntimeError;
use crate::registry::{lookup, FunctionRegistry, SignatureView};
use crate::stack::{record_view, resolve, written, IndirectStack, Slot, StackValue};
use crate::value::{Tree, Value};
use vstd::prelude::*;

verus! {

/// A field group that a query asks for: the name under which the graph
/// shows it, the host's number for it, and the path of its type.
#[derive(Debug, PartialEq, Eq)]
pub struct Component {
    pub name: String,
    pub id: usize,
    pub type_path: String,
}

/// Mathematical model of a [`Component`].
pub struct ComponentView {
    pub name: Seq<char>,
    pub id: usize,
    pub type_path: Seq<char>,
}

impl View for Component {
    type V = ComponentView;

    open spec fn view(&self) -> ComponentView {
        ComponentView { name: self.name@, id: self.id, type_path: self.type_path@ }
    }
}

/// The models of a list of field groups.
pub open spec fn components_view(components: Seq<Component>) -> Seq<ComponentView> {
    Seq::new(components.len(), |i: int| components[i]@)
}

/// A deep copy of a list of field groups.
pub fn clone_components(components: &Vec<Component>) -> (copy: Vec<Component>)
    ensures
        components_view(copy@) == components_view(components@),
{
    let mut copy: Vec<Component> = Vec::new();
    let mut i: usize = 0;
    while i < components.len()
        invariant
            i <= components.len(),
            copy.len() == i,
            forall|j: int| 0 <= j < i ==> copy[j]@ == components[j]@,
        decreases components.len() - i,
    {
        copy.push(
            Component {
                name: components[i].name.clone(),
                id: components[i].id,
                type_path: components[i].type_path.clone(),
            },
        );
        i += 1;
    }
    assert(components_view(copy@) =~= components_view(components@));
    copy
}

/// One instruction.
#[derive(Debug, PartialEq, Eq)]
pub enum Bytecode {
    /// Pushes an owned value.
    Push(Value),
    /// Discards the top of the stack.
    Pop,
    /// Calls the named function on as many values from the top of the
    /// stack as it takes, and pushes what it returns.
    Call(String),
    /// Pushes an alias for the named member of what a slot leads to.
    GetField(usize, String),
    /// Pops a value and assigns it onto what a slot leads to.
    SetField(usize),
    /// Names the field groups that a record must have to be matched.
    Query { components: Vec<Component> },
    /// Pushes an owned copy of what a slot leads to.
    Copy(usize),
}

/// Mathematical model of a [`Bytecode`].
pub enum Instr {
    Push(Tree),
    Pop,
    Call(Seq<char>),
    GetField(usize, Seq<char>),
    SetField(usize),
    Query(Seq<ComponentView>),
    Copy(usize),
}

impl View for Bytecode {
    type V = Instr;

    open spec fn view(&self) -> Instr {
        match self {
            Bytecode::Push(v) => Instr::Push(v@),
            Bytecode::Pop => Instr::Pop,
            Bytecode::Call(name) => Instr::Call(name@),
            Bytecode::GetField(slot, name) => Instr::GetField(*slot, name@),
            Bytecode::SetField(slot) => Instr::SetField(*slot),
            Bytecode::Query { components } => Instr::Query(components_view(components@)),
            Bytecode::Copy(slot) => Instr::Copy(*slot),
        }
    }
}

/// The models of a list of instructions.
pub open spec fn code_view(code: Seq<Bytecode>) -> Seq<Instr> {
    Seq::new(code.len(), |i: int| code[i]@)
}

impl Clone for Bytecode {
    fn clone(&self) -> (copy: Self)
        ensures
            copy@ == self@,
    {
        match self {
            Bytecode::Push(v) => Bytecode::Push(v.clone_value()),
            Bytecode::Pop => Bytecode::Pop,
            Bytecode::Call(name) => Bytecode::Call(name.clone()),
            Bytecode::GetField(slot, name) => Bytecode::GetField(*slot, name.clone()),
            Bytecode::SetField(slot) => Bytecode::SetField(*slot),
            Bytecode::Query { components } => Bytecode::Query {
                components: clone_components(components),
            },
            Bytecode::Copy(slot) => Bytecode::Copy(*slot),
        }
    }
}

/// Stack and record after one instruction that is neither a call nor a
/// query, or the reason why it cannot run.
pub open spec fn step(instr: Instr, stack: Seq<Slot>, record: Seq<Tree>) -> Result<
    (Seq<Slot>, Seq<Tree>),
    RuntimeError,
> {
    match instr {
        Instr::Push(v) => Ok((stack.push(Slot::Owned(v)), record)),
        Instr::Pop => if stack.len() > 0 {
            Ok((stack.drop_last(), record))
        } else {
            Ok((stack, record))
        },
        Instr::GetField(slot, name) => Ok((stack.push(Slot::Alias { name, parent: slot }), record)),
        Instr::Copy(slot) => match resolve(stack, record, slot as int) {
            Some(t) => Ok((stack.push(Slot::Owned(t)), record)),
            None => Err(RuntimeError::Unresolved),
        },
        Instr::SetField(slot) => if stack.len() == 0 {
            Err(RuntimeError::StackUnderflow)
        } else {
            match resolve(stack, record, stack.len() - 1) {
                None => Err(RuntimeError::Unresolved),
                Some(source) => written(
                    stack.drop_last(),
                    record,
                    slot as int,
                    Seq::empty(),
                    source,
                ),
            }
        },
        Instr::Call(_) => Ok((stack, record)),
        Instr::Query(_) => Ok((stack, record)),
    }
}

/// Runs one instruction that is neither a call nor a query.  On an error
/// neither the stack nor the record is changed.
pub fn execute(instruction: &Bytecode, stack: &mut IndirectStack, record: &mut Vec<Value>) -> (result:
    Result<(), RuntimeError>)
    requires
        !(instruction is Call),
        !(instruction is Query),
    ensures
        match step(instruction@, old(stack)@, record_view(old(record)@)) {
            Ok(after) => result is Ok && final(stack)@ == after.0 && record_view(final(record)@)
                == after.1,
            Err(e) => result == Err::<(), RuntimeError>(e) && *final(record) == *old(record)
                && final(stack)@ == old(stack)@,
        },
{
    match instruction {
        Bytecode::Push(v) => {
            stack.push_owned(v.clone_value());
            Ok(())
        },
        Bytecode::Pop => {
            let _ = stack.pop();
            Ok(())
        },
        Bytecode::GetField(slot, name) => {
            stack.push_internal_ref(name.clone(), *slot);
            Ok(())
        },
        Bytecode::Copy(slot) => {
            let copy = match stack.get_ref_internal(record, *slot) {
                Some(v) => v.clone_value(),
                None => {
                    return Err(RuntimeError::Unresolved);
                },
            };
            stack.push_owned(copy);
            Ok(())
        },
        Bytecode::SetField(slot) => {
            if stack.len() == 0 {
                return Err(RuntimeError::StackUnderflow);
            }
            let source = match stack.get_ref_internal(record, stack.len() - 1) {
                Some(v) => v.clone_value(),
                None => {
                    return Err(RuntimeError::Unresolved);
                },
            };
            let top = match stack.pop() {
                Some(top) => top,
                None => {
                    return Err(RuntimeError::StackUnderflow);
                },
            };
            match stack.get_mut_internal(record, *slot, &source) {
                Ok(()) => Ok(()),
                Err(e) => {
                    stack.push(top);
                    assert(stack@ =~= old(stack)@);
                    Err(e)
                },
            }
        },
        Bytecode::Call(_) => Ok(()),
        Bytecode::Query { .. } => Ok(()),
    }
}

/// The values that a call of `arity` takes from the stack: what the top
/// slots lead to, the last pushed first.
pub open spec fn call_arguments(stack: Seq<Slot>, record: Seq<Tree>, arity: nat) -> Result<
    Seq<Tree>,
    RuntimeError,
> {
    if stack.len() < arity {
        Err(RuntimeError::StackUnderflow)
    } else if exists|k: int|
        0 <= k < arity && (#[trigger] resolve(stack, record, stack.len() - 1 - k)) is None {
        Err(RuntimeError::Unresolved)
    } else {
        Ok(Seq::new(arity, |k: int| resolve(stack, record, stack.len() - 1 - k).unwrap()))
    }
}

/// The models of a list of values.
pub open spec fn values_view(values: Seq<Value>) -> Seq<Tree> {
    Seq::new(values.len(), |i: int| values[i]@)
}

/// Takes the arguments of a call from the stack: copies of what the top
/// `arity` slots lead to, the last pushed first, and drops those slots.
/// On an error the stack is unchanged.
pub fn take_arguments(stack: &mut IndirectStack, record: &Vec<Value>, arity: usize) -> (result:
    Result<Vec<Value>, RuntimeError>)
    ensures
        match call_arguments(old(stack)@, record_view(record@), arity as nat) {
            Ok(args) => result matches Ok(taken) && values_view(taken@) == args && final(stack)@
                == old(stack)@.take(old(stack)@.len() - arity),
            Err(e) => result == Err::<Vec<Value>, RuntimeError>(e) && final(stack)@ == old(
                stack,
            )@,
        },
{
    let height = stack.len();
    if height < arity {
        return Err(RuntimeError::StackUnderflow);
    }
    let mut taken: Vec<Value> = Vec::new();
    let mut k: usize = 0;
    while k < arity
        invariant
            k <= arity <= height,
            height == stack@.len(),
            stack@ == old(stack)@,
            taken.len() == k,
            forall|j: int|
                0 <= j < k ==> (#[trigger] resolve(stack@, record_view(record@), height - 1 - j))
                    == Some(taken[j]@),
        decreases arity - k,
    {
        match stack.get_ref_internal(record, height - 1 - k) {
            Some(v) => {
                taken.push(v.clone_value());
            },
            None => {
                return Err(RuntimeError::Unresolved);
            },
        }
        k += 1;
    }
    stack.truncate(height - arity);
    assert(values_view(taken@) =~= call_arguments(
        old(stack)@,
        record_view(record@),
        arity as nat,
    ).unwrap());
    Ok(taken)
}

/// Whether no instruction is a call.
pub open spec fn call_free(code: Seq<Instr>) -> bool {
    forall|i: int| 0 <= i < code.len() ==> !(#[trigger] code[i] is Call)
}

/// Whether no instruction is a query.
pub open spec fn query_free(code: Seq<Instr>) -> bool {
    forall|i: int| 0 <= i < code.len() ==> !(#[trigger] code[i] is Query)
}

/// A program is one query followed by instructions that are no queries.
pub open spec fn is_program(code: Seq<Instr>) -> bool {
    code.len() > 0 && code[0] is Query && query_free(code.skip(1))
}

/// The stack at the start of a record's execution: one borrowed slot for
/// each of the `handles` field groups, in order.
pub open spec fn seeded(handles: nat) -> Seq<Slot> {
    Seq::new(handles, |i: int| Slot::Mut(i as usize))
}

/// How the instructions `code[pc..]`, none of them a call or a query,
/// end on one record: with the first error if there is one, and with the
/// record as the instructions before it left it.
pub open spec fn run_from(code: Seq<Instr>, pc: int, stack: Seq<Slot>, record: Seq<Tree>) -> (
    Result<(), RuntimeError>,
    Seq<Tree>,
)
    decreases code.len() - pc,
{
    if pc < 0 || pc >= code.len() {
        (Ok(()), record)
    } else {
        match step(code[pc], stack, record) {
            Ok(after) => run_from(code, pc + 1, after.0, after.1),
            Err(e) => (Err(e), record),
        }
    }
}

/// The number of field groups that a program's query asks for.
pub open spec fn handles_of(code: Seq<Instr>) -> nat {
    if code.len() > 0 && code[0] is Query {
        code[0]->Query_0.len()
    } else {
        0
    }
}

/// The model of an optional value.
pub open spec fn option_view(value: Option<Value>) -> Option<Tree> {
    match value {
        Some(v) => Some(v@),
        None => None,
    }
}

/// Whether the host may answer the call of the function at `index` on
/// the arguments `args` with `ret`.
pub open spec fn host_answers<F: Fn(usize, Vec<Value>) -> Option<Value>>(
    invoke: F,
    index: usize,
    args: Seq<Tree>,
    ret: Option<Tree>,
) -> bool {
    exists|given: Vec<Value>, back: Option<Value>|
        values_view(given@) == args && option_view(back) == ret && #[trigger] invoke.ensures(
            (index, given),
            back,
        )
}

/// The stack after a call that took `arity` values and gave `ret` back.
pub open spec fn after_call(stack: Seq<Slot>, arity: nat, ret: Option<Tree>) -> Seq<Slot> {
    let rest = stack.take(stack.len() - arity);
    match ret {
        Some(t) => rest.push(Slot::Owned(t)),
        None => rest,
    }
}

/// Whether the instructions `code[pc..]`, none of them a query, can end
/// on one record with `outcome`: the first error if there is one, and the
/// record as the instructions before it left it.  A call of a name that
/// the registry lacks ends with `UnknownFunction`; a call that the stack
/// cannot feed ends with the error of [`call_arguments`]; any other call
/// goes on with whatever the host answers.
pub open spec fn runs<F: Fn(usize, Vec<Value>) -> Option<Value>>(
    code: Seq<Instr>,
    registry: Seq<SignatureView>,
    invoke: F,
    pc: int,
    stack: Seq<Slot>,
    record: Seq<Tree>,
    outcome: (Result<(), RuntimeError>, Seq<Tree>),
) -> bool
    decreases code.len() - pc,
{
    if pc < 0 || pc >= code.len() {
        outcome == (Ok::<(), RuntimeError>(()), record)
    } else {
        match code[pc] {
            Instr::Call(name) => match lookup(registry, name, 0) {
                None => outcome == (Err::<(), RuntimeError>(RuntimeError::UnknownFunction), record),
                Some(index) => match call_arguments(stack, record, registry[index].arity as nat) {
                    Err(e) => outcome == (Err::<(), RuntimeError>(e), record),
                    Ok(args) => exists|ret: Option<Tree>| #[trigger]
                        host_answers(invoke, index as usize, args, ret) && runs(
                            code,
                            registry,
                            invoke,
                            pc + 1,
                            after_call(stack, registry[index].arity as nat, ret),
                            record,
                            outcome,
                        ),
                },
            },
            instr => match step(instr, stack, record) {
                Ok(after) => runs(code, registry, invoke, pc + 1, after.0, after.1, outcome),
                Err(e) => outcome == (Err::<(), RuntimeError>(e), record),
            },
        }
    }
}

/// An instruction leaves the number of field groups of the record as it
/// was.
pub proof fn lemma_step_keeps_groups(instr: Instr, stack: Seq<Slot>, record: Seq<Tree>)
    ensures
        step(instr, stack, record) matches Ok(after) ==> after.1.len() == record.len(),
{
}

/// Runs the instructions of `code` from `first` on, none of them a query,
/// on one record, on a fresh stack with one borrowed slot for each of the
/// `handles` field groups.  A call resolves its name in `registry`, takes
/// its arguments from the stack, hands them to `invoke` together with the
/// place of the name in the registry, and pushes what comes back.  The
/// first error ends the execution; the record keeps what was assigned
/// before it.
pub fn run_record<F: Fn(usize, Vec<Value>) -> Option<Value>>(
    code: &Vec<Bytecode>,
    first: usize,
    handles: usize,
    record: &mut Vec<Value>,
    registry: &FunctionRegistry,
    invoke: &F,
) -> (result: Result<(), RuntimeError>)
    requires
        first <= code.len(),
        query_free(code_view(code@).skip(first as int)),
        forall|index: usize, args: Vec<Value>| invoke.requires((index, args)),
    ensures
        final(record).len() == old(record).len(),
        runs(
            code_view(code@).skip(first as int),
            registry@,
            *invoke,
            0,
            seeded(handles as nat),
            record_view(old(record)@),
            (result, record_view(final(record)@)),
        ),
        call_free(code_view(code@).skip(first as int)) ==> (result, record_view(final(record)@))
            == run_from(
            code_view(code@).skip(first as int),
            0,
            seeded(handles as nat),
            record_view(old(record)@),
        ),
{
    let ghost rest = code_view(code@).skip(first as int);
    let ghost start = record_view(record@);
    let ghost table = registry@;
    let mut stack = IndirectStack::new();
    let mut h: usize = 0;
    while h < handles
        invariant
            h <= handles,
            stack@ == seeded(h as nat),
        decreases handles - h,
    {
        stack.push_mut(h);
        assert(stack@ =~= seeded((h + 1) as nat));
        h += 1;
    }
    let count = code.len() - first;
    let mut k: usize = 0;
    while k < count
        invariant
            k <= count,
            count == code.len() - first,
            rest == code_view(code@).skip(first as int),
            table == registry@,
            query_free(rest),
            start == record_view(old(record)@),
            record.len() == old(record).len(),
            forall|index: usize, args: Vec<Value>| invoke.requires((index, args)),
            forall|outcome: (Result<(), RuntimeError>, Seq<Tree>)| #[trigger]
                runs(rest, table, *invoke, k as int, stack@, record_view(record@), outcome)
                    ==> runs(rest, table, *invoke, 0, seeded(handles as nat), start, outcome),
            call_free(rest) ==> run_from(rest, 0, seeded(handles as nat), start) == run_from(
                rest,
                k as int,
                stack@,
                record_view(record@),
            ),
        decreases count - k,
    {
        assert(rest[k as int] == code[first + k]@);
        let ghost before = stack@;
        let ghost groups = record_view(record@);
        match &code[first + k] {
            Bytecode::Call(name) => {
                let (index, arity) = match registry.resolve(name) {
                    Some(found) => found,
                    None => {
                        assert(runs(
                            rest,
                            table,
                            *invoke,
                            k as int,
                            before,
                            groups,
                            (Err::<(), RuntimeError>(RuntimeError::UnknownFunction), groups),
                        ));
                        return Err(RuntimeError::UnknownFunction);
                    },
                };
                let args = match take_arguments(&mut stack, record, arity) {
                    Ok(args) => args,
                    Err(e) => {
                        assert(runs(
                            rest,
                            table,
                            *invoke,
                            k as int,
                            before,
                            groups,
                            (Err::<(), RuntimeError>(e), groups),
                        ));
                        return Err(e);
                    },
                };
                let ghost given = args;
                let back = invoke(index, args);
                let ghost ret = option_view(back);
                match back {
                    Some(value) => {
                        stack.push_owned(value);
                    },
                    None => {},
                }
                proof {
                    assert(invoke.ensures((index, given), back));
                    assert(host_answers(*invoke, index, values_view(given@), ret));
                    assert(stack@ == after_call(before, arity as nat, ret));
                    assert forall|outcome: (Result<(), RuntimeError>, Seq<Tree>)| #[trigger]
                        runs(rest, table, *invoke, k + 1, stack@, groups, outcome) implies runs(
                        rest,
                        table,
                        *invoke,
                        0,
                        seeded(handles as nat),
                        start,
                        outcome,
                    ) by {
                        assert(rest[k as int] == Instr::Call(name@));
                        assert(lookup(table, name@, 0) == Some(index as int));
                        assert(table[index as int].arity == arity);
                        assert(call_arguments(before, groups, arity as nat) == Ok::<
                            Seq<Tree>,
                            RuntimeError,
                        >(values_view(given@)));
                        assert(host_answers(
                            *invoke,
                            (index as int) as usize,
                            values_view(given@),
                            ret,
                        ));
                        assert(runs(rest, table, *invoke, k as int, before, groups, outcome));
                    }
                }
            },
            instruction => {
                proof {
                    lemma_step_keeps_groups(instruction@, before, groups);
                }
                match execute(instruction, &mut stack, record) {
                    Ok(()) => {
                        proof {
                            assert forall|outcome: (Result<(), RuntimeError>, Seq<Tree>)| #[trigger]
                                runs(
                                    rest,
                                    table,
                                    *invoke,
                                    k + 1,
                                    stack@,
                                    record_view(record@),
                                    outcome,
                                ) implies runs(
                                rest,
                                table,
                                *invoke,
                                0,
                                seeded(handles as nat),
                                start,
                                outcome,
                            ) by {
                                assert(runs(
                                    rest,
                                    table,
                                    *invoke,
                                    k as int,
                                    before,
                                    groups,
                                    outcome,
                                ));
                            }
                        }
                    },
                    Err(e) => {
                        assert(step(rest[k as int], before, groups) is Err);
                        assert(runs(
                            rest,
                            table,
                            *invoke,
                            k as int,
                            before,
                            groups,
                            (Err::<(), RuntimeError>(e), groups),
                        ));
                        assert(call_free(rest) ==> run_from(rest, k as int, before, groups) == (
                            Err::<(), RuntimeError>(e),
                            groups,
                        ));
                        return Err(e);
                    },
                }
            },
        }
        k += 1;
    }
    assert(runs(
        rest,
        table,
        *invoke,
        k as int,
        stack@,
        record_view(record@),
        (Ok::<(), RuntimeError>(()), record_view(record@)),
    ));
    Ok(())
}

/// Whether `code` is a program: one query, followed by instructions that
/// are no queries.
pub fn is_well_formed(code: &Vec<Bytecode>) -> (well_formed: bool)
    ensures
        well_formed == is_program(code_view(code@)),
{
    if code.len() == 0 {
        return false;
    }
    match &code[0] {
        Bytecode::Query { .. } => {},
        _ => {
            return false;
        },
    }
    let ghost rest = code_view(code@).skip(1);
    let mut i: usize = 1;
    while i < code.len()
        invariant
            1 <= i <= code.len(),
            rest == code_view(code@).skip(1),
            forall|k: int| 0 <= k < i - 1 ==> !(#[trigger] rest[k] is Query),
        decreases code.len() - i,
    {
        match &code[i] {
            Bytecode::Query { .. } => {
                assert(rest[i - 1] is Query);
                return false;
            },
            _ => {
                assert(!(rest[i - 1] is Query));
            },
        }
        i += 1;
    }
    true
}

/// Runs a program on every matched record, each on a stack of its own,
/// and returns how each execution ended, in the order of the records.  An
/// error ends the execution on that record only.  Without records nothing
/// happens.
pub fn run<F: Fn(usize, Vec<Value>) -> Option<Value>>(
    instructions: Vec<Bytecode>,
    records: &mut Vec<Vec<Value>>,
    registry: &FunctionRegistry,
    invoke: &F,
) -> (outcomes: Vec<Result<(), RuntimeError>>)
    requires
        is_program(code_view(instructions@)),
        forall|index: usize, args: Vec<Value>| invoke.requires((index, args)),
    ensures
        outcomes.len() == old(records).len(),
        final(records).len() == old(records).len(),
        old(records).len() == 0 ==> final(records)@ == old(records)@,
        forall|i: int|
            0 <= i < old(records).len() ==> (#[trigger] final(records)[i]).len() == old(
                records,
            )[i].len(),
        forall|i: int|
            0 <= i < old(records).len() ==> runs(
                code_view(instructions@).skip(1),
                registry@,
                *invoke,
                0,
                seeded(handles_of(code_view(instructions@))),
                record_view(old(records)[i]@),
                (#[trigger] outcomes[i], record_view(final(records)[i]@)),
            ),
        call_free(code_view(instructions@).skip(1)) ==> forall|i: int|
            0 <= i < old(records).len() ==> (#[trigger] outcomes[i], record_view(
                final(records)[i]@,
            )) == run_from(
                code_view(instructions@).skip(1),
                0,
                seeded(handles_of(code_view(instructions@))),
                record_view(old(records)[i]@),
            ),
{
    let ghost rest = code_view(instructions@).skip(1);
    let handles = match &instructions[0] {
        Bytecode::Query { components } => components.len(),
        _ => 0,
    };
    assert(handles == handles_of(code_view(instructions@)));
    let mut outcomes: Vec<Result<(), RuntimeError>> = Vec::new();
    let mut i: usize = 0;
    while i < records.len()
        invariant
            i <= records.len(),
            records.len() == old(records).len(),
            outcomes.len() == i,
            instructions.len() > 0,
            rest == code_view(instructions@).skip(1),
            query_free(rest),
            handles == handles_of(code_view(instructions@)),
            forall|index: usize, args: Vec<Value>| invoke.requires((index, args)),
            forall|j: int| i <= j < records.len() ==> records[j] == old(records)[j],
            forall|j: int|
                0 <= j < records.len() ==> (#[trigger] records[j]).len() == old(records)[j].len(),
            forall|j: int|
                0 <= j < i ==> runs(
                    rest,
                    registry@,
                    *invoke,
                    0,
                    seeded(handles as nat),
                    record_view(old(records)[j]@),
                    (#[trigger] outcomes[j], record_view(records[j]@)),
                ),
            call_free(rest) ==> forall|j: int|
                0 <= j < i ==> (#[trigger] outcomes[j], record_view(records[j]@)) == run_from(
                    rest,
                    0,
                    seeded(handles as nat),
                    record_view(old(records)[j]@),
                ),
        decreases records.len() - i,
    {
        let outcome = run_record(&instructions, 1, handles, &mut records[i], registry, invoke);
        outcomes.push(outcome);
        i += 1;
    }
    outcomes
}

} // verus!
