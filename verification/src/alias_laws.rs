//! What holds of reads and writes through the slots of a stack.

use crate::error::RuntimeError;
use crate::stack::{
    lemma_resolve_located, lemma_root_is_root, lemma_stored_keeps_chains, lemma_write_then_read,
    located, path_of, resolve, root_of, root_value, stored, written, Slot,
};
use crate::value::{lemma_set_diverging, tree_apply, tree_set, Tree};
use crate::virtual_machine::{step, Instr};
use vstd::prelude::*;

verus! {

/// What a slot leads to depends on the slots up to it only.
pub proof fn lemma_resolve_prefix(a: Seq<Slot>, b: Seq<Slot>, record: Seq<Tree>, i: int)
    requires
        i < a.len(),
        i < b.len(),
        forall|k: int| 0 <= k <= i ==> a[k] == b[k],
    ensures
        resolve(a, record, i) == resolve(b, record, i),
    decreases i,
{
    if 0 <= i {
        match a[i] {
            Slot::Alias { name, parent } => {
                if parent < i {
                    lemma_resolve_prefix(a, b, record, parent as int);
                }
            },
            _ => {},
        }
    }
}

/// A `SetField` through a slot is seen by the next read of that slot: a
/// `Copy` of the slot then pushes the value that the assignment made.
pub proof fn law_set_field_is_seen(stack: Seq<Slot>, record: Seq<Tree>, slot: usize)
    requires
        step(Instr::SetField(slot), stack, record) is Ok,
    ensures
        ({
            let after = step(Instr::SetField(slot), stack, record).unwrap();
            let source = resolve(stack, record, stack.len() - 1).unwrap();
            let target = resolve(stack.drop_last(), record, slot as int);
            &&& target is Some
            &&& resolve(after.0, after.1, slot as int) == tree_apply(target.unwrap(), source)
            &&& resolve(after.0, after.1, slot as int) matches Some(seen) && step(
                Instr::Copy(slot),
                after.0,
                after.1,
            ) == Ok::<(Seq<Slot>, Seq<Tree>), RuntimeError>(
                (after.0.push(Slot::Owned(seen)), after.1),
            )
        }),
{
    let source = resolve(stack, record, stack.len() - 1).unwrap();
    lemma_resolve_located(stack.drop_last(), record, slot as int);
    lemma_write_then_read(stack.drop_last(), record, slot as int, source);
}

/// A copy shares nothing with what it was copied from: assigning through
/// the copy leaves the copied slot as it was, and assigning through the
/// copied slot leaves the copy as it was.
pub proof fn law_copy_is_independent(
    stack: Seq<Slot>,
    record: Seq<Tree>,
    slot: usize,
    source: Tree,
)
    requires
        step(Instr::Copy(slot), stack, record) is Ok,
    ensures
        ({
            let copied = step(Instr::Copy(slot), stack, record).unwrap();
            let top = stack.len() as int;
            &&& written(copied.0, copied.1, top, Seq::empty(), source) matches Ok(after)
                ==> resolve(after.0, after.1, slot as int) == resolve(stack, record, slot as int)
            &&& written(copied.0, copied.1, slot as int, Seq::empty(), source) matches Ok(after)
                ==> resolve(after.0, after.1, top) == resolve(copied.0, copied.1, top)
        }),
{
    let copied = step(Instr::Copy(slot), stack, record).unwrap();
    let top = stack.len() as int;
    let empty = Seq::<Seq<char>>::empty();
    lemma_resolve_prefix(stack, copied.0, record, slot as int);
    match written(copied.0, copied.1, top, empty, source) {
        Ok(after) => {
            lemma_resolve_prefix(copied.0, after.0, record, slot as int);
        },
        Err(_) => {},
    }
    match written(copied.0, copied.1, slot as int, empty, source) {
        Ok(after) => {
            lemma_root_is_root(copied.0, slot as int);
        },
        Err(_) => {},
    }
}

/// Two aliases of different members of one parent do not disturb each
/// other: an assignment through one leaves what the other leads to as it
/// was.
pub proof fn law_sibling_aliases_are_independent(
    stack: Seq<Slot>,
    record: Seq<Tree>,
    one: int,
    other: int,
    source: Tree,
)
    requires
        0 <= one < stack.len(),
        0 <= other < stack.len(),
        stack[one] is Alias,
        stack[other] is Alias,
        stack[one]->Alias_parent == stack[other]->Alias_parent,
        stack[one]->Alias_name != stack[other]->Alias_name,
        stack[one]->Alias_parent < one,
        stack[other]->Alias_parent < other,
        written(stack, record, one, Seq::empty(), source) is Ok,
    ensures
        ({
            let after = written(stack, record, one, Seq::empty(), source).unwrap();
            resolve(after.0, after.1, other) == resolve(stack, record, other)
        }),
{
    let empty = Seq::<Seq<char>>::empty();
    let after = written(stack, record, one, empty, source).unwrap();
    let parent = stack[one]->Alias_parent as int;
    let changed = stack[one]->Alias_name;
    let kept = stack[other]->Alias_name;
    lemma_resolve_located(stack, record, other);
    lemma_resolve_located(after.0, after.1, other);
    lemma_root_is_root(stack, one);
    let r = root_of(stack, one).unwrap();
    let v = root_value(stack, record, r).unwrap();
    let prefix = path_of(stack, parent);
    assert(path_of(stack, one) + empty =~= prefix.push(changed));
    assert(path_of(stack, other) + empty =~= prefix.push(kept));
    crate::value::lemma_set_then_get(v, prefix.push(changed), source);
    let new = tree_set(v, prefix.push(changed), source).unwrap();
    lemma_set_diverging(v, prefix, changed, kept, source);
    lemma_stored_keeps_chains(stack, record, r, new, other);
    assert(root_value(after.0, after.1, r) == Some(new));
}

} // verus!
