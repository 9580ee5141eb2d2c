//! The value stack of one record's execution.  A slot holds an owned
//! value, the number of one of the record's borrowed field groups, or an
//! alias: the name of a member of whatever another slot leads to.  An alias
//! is never turned into a stored reference; it is followed anew each time.

use crate::error::RuntimeError;
use crate::value::{names_view, tree_apply, tree_field, tree_get, tree_set, Tree, Value};
use vstd::prelude::*;

verus! {

/// One slot of the stack.
#[derive(Debug, PartialEq, Eq)]
pub enum StackValue {
    /// A value that the stack owns.
    Owned(Value),
    /// The field group of the current record with this number.
    Mut(usize),
    /// The member `name` of what the slot `parent` leads to.
    InternalReference { name: String, parent: usize },
}

/// Mathematical model of a [`StackValue`].
pub enum Slot {
    Owned(Tree),
    Mut(usize),
    Alias { name: Seq<char>, parent: usize },
}

impl View for StackValue {
    type V = Slot;

    open spec fn view(&self) -> Slot {
        match self {
            StackValue::Owned(v) => Slot::Owned(v@),
            StackValue::Mut(h) => Slot::Mut(*h),
            StackValue::InternalReference { name, parent } => Slot::Alias {
                name: name@,
                parent: *parent,
            },
        }
    }
}

/// The models of the field groups of a record.
pub open spec fn record_view(record: Seq<Value>) -> Seq<Tree> {
    Seq::new(record.len(), |i: int| record[i]@)
}

/// The models of the slots of a stack.
pub open spec fn slots_view(values: Seq<StackValue>) -> Seq<Slot> {
    Seq::new(values.len(), |i: int| values[i]@)
}

/// The value that slot `i` leads to.  An owned slot leads to its value, a
/// borrowed slot to the record's field group, an alias to the named member
/// of what its parent leads to.  An alias is valid only if its parent lies
/// below it, so that every chain of aliases ends.
pub open spec fn resolve(stack: Seq<Slot>, record: Seq<Tree>, i: int) -> Option<Tree>
    decreases i,
{
    if i < 0 || i >= stack.len() {
        None
    } else {
        match stack[i] {
            Slot::Owned(t) => Some(t),
            Slot::Mut(h) => if h < record.len() {
                Some(record[h as int])
            } else {
                None
            },
            Slot::Alias { name, parent } => if parent < i {
                match resolve(stack, record, parent as int) {
                    Some(t) => tree_field(t, name),
                    None => None,
                }
            } else {
                None
            },
        }
    }
}

/// The slot at which the chain of aliases from slot `i` ends.
pub open spec fn root_of(stack: Seq<Slot>, i: int) -> Option<int>
    decreases i,
{
    if i < 0 || i >= stack.len() {
        None
    } else {
        match stack[i] {
            Slot::Alias { name, parent } => if parent < i {
                root_of(stack, parent as int)
            } else {
                None
            },
            _ => Some(i),
        }
    }
}

/// The member names from the end of the chain down to slot `i`.
pub open spec fn path_of(stack: Seq<Slot>, i: int) -> Seq<Seq<char>>
    decreases i,
{
    if i < 0 || i >= stack.len() {
        Seq::empty()
    } else {
        match stack[i] {
            Slot::Alias { name, parent } => if parent < i {
                path_of(stack, parent as int).push(name)
            } else {
                Seq::empty()
            },
            _ => Seq::empty(),
        }
    }
}

/// The value held at slot `r`, where `r` is no alias.
pub open spec fn root_value(stack: Seq<Slot>, record: Seq<Tree>, r: int) -> Option<Tree> {
    if r < 0 || r >= stack.len() {
        None
    } else {
        match stack[r] {
            Slot::Owned(t) => Some(t),
            Slot::Mut(h) => if h < record.len() {
                Some(record[h as int])
            } else {
                None
            },
            Slot::Alias { .. } => None,
        }
    }
}

/// Stack and record after `t` has replaced the value held at slot `r`: an
/// owned slot changes on the stack, a borrowed one in the record.
pub open spec fn stored(stack: Seq<Slot>, record: Seq<Tree>, r: int, t: Tree) -> (
    Seq<Slot>,
    Seq<Tree>,
) {
    match stack[r] {
        Slot::Owned(_) => (stack.update(r, Slot::Owned(t)), record),
        Slot::Mut(h) => (stack, record.update(h as int, t)),
        Slot::Alias { .. } => (stack, record),
    }
}

/// The value found by following the names `extra` from what slot `i`
/// leads to.
pub open spec fn located(stack: Seq<Slot>, record: Seq<Tree>, i: int, extra: Seq<Seq<char>>)
    -> Option<Tree> {
    match root_of(stack, i) {
        Some(r) => match root_value(stack, record, r) {
            Some(v) => tree_get(v, path_of(stack, i) + extra),
            None => None,
        },
        None => None,
    }
}

/// Stack and record after `source` has been assigned onto the value that
/// the names `extra` lead to from slot `i`, or the reason why it cannot be.
pub open spec fn written(
    stack: Seq<Slot>,
    record: Seq<Tree>,
    i: int,
    extra: Seq<Seq<char>>,
    source: Tree,
) -> Result<(Seq<Slot>, Seq<Tree>), RuntimeError> {
    match located(stack, record, i, extra) {
        None => Err(RuntimeError::Unresolved),
        Some(target) => match tree_apply(target, source) {
            None => Err(RuntimeError::IncompatibleShape),
            Some(_) => {
                let r = root_of(stack, i).unwrap();
                let v = root_value(stack, record, r).unwrap();
                Ok(
                    stored(
                        stack,
                        record,
                        r,
                        tree_set(v, path_of(stack, i) + extra, source).unwrap(),
                    ),
                )
            },
        },
    }
}

/// What a slot leads to is what its chain of names leads to from the slot
/// at which the chain ends.
pub proof fn lemma_resolve_located(stack: Seq<Slot>, record: Seq<Tree>, i: int)
    ensures
        resolve(stack, record, i) == located(stack, record, i, Seq::empty()),
    decreases i,
{
    assert(path_of(stack, i) + Seq::<Seq<char>>::empty() =~= path_of(stack, i));
    if 0 <= i < stack.len() {
        match stack[i] {
            Slot::Alias { name, parent } => {
                if parent < i {
                    let p = parent as int;
                    lemma_resolve_located(stack, record, p);
                    assert(path_of(stack, p) + Seq::<Seq<char>>::empty() =~= path_of(stack, p));
                    match root_of(stack, p) {
                        Some(r) => match root_value(stack, record, r) {
                            Some(v) => {
                                crate::value::lemma_get_push(v, path_of(stack, p), name);
                            },
                            None => {},
                        },
                        None => {},
                    }
                }
            },
            _ => {},
        }
    }
}

/// The chain of a valid slot ends at a slot that is no alias and lies at
/// or below it.
pub proof fn lemma_root_is_root(stack: Seq<Slot>, i: int)
    ensures
        root_of(stack, i) matches Some(r) ==> 0 <= r <= i && i < stack.len() && !(stack[r] is Alias),
    decreases i,
{
    if 0 <= i < stack.len() {
        match stack[i] {
            Slot::Alias { name, parent } => {
                if parent < i {
                    lemma_root_is_root(stack, parent as int);
                }
            },
            _ => {},
        }
    }
}

/// Replacing the value held at a slot changes no chain of aliases.
pub proof fn lemma_stored_keeps_chains(
    stack: Seq<Slot>,
    record: Seq<Tree>,
    r: int,
    t: Tree,
    i: int,
)
    requires
        0 <= r < stack.len(),
    ensures
        root_of(stored(stack, record, r, t).0, i) == root_of(stack, i),
        path_of(stored(stack, record, r, t).0, i) == path_of(stack, i),
    decreases i,
{
    let after = stored(stack, record, r, t).0;
    if 0 <= i < stack.len() {
        match stack[i] {
            Slot::Alias { name, parent } => {
                if parent < i {
                    lemma_stored_keeps_chains(stack, record, r, t, parent as int);
                }
            },
            _ => {},
        }
    }
}

/// A successful assignment through a slot is seen by the next read of
/// that slot: the slot then leads to the result of assigning the source
/// onto what it led to before.
pub proof fn lemma_write_then_read(stack: Seq<Slot>, record: Seq<Tree>, i: int, source: Tree)
    requires
        written(stack, record, i, Seq::empty(), source) is Ok,
    ensures
        resolve(stack, record, i) is Some,
        ({
            let after = written(stack, record, i, Seq::empty(), source).unwrap();
            resolve(after.0, after.1, i) == tree_apply(
                resolve(stack, record, i).unwrap(),
                source,
            )
        }),
{
    let empty = Seq::<Seq<char>>::empty();
    let after = written(stack, record, i, empty, source).unwrap();
    lemma_resolve_located(stack, record, i);
    lemma_resolve_located(after.0, after.1, i);
    lemma_root_is_root(stack, i);
    let r = root_of(stack, i).unwrap();
    let v = root_value(stack, record, r).unwrap();
    let path = path_of(stack, i) + empty;
    let new = tree_set(v, path, source).unwrap();
    crate::value::lemma_set_then_get(v, path, source);
    lemma_stored_keeps_chains(stack, record, r, new, i);
    assert(root_value(after.0, after.1, r) == Some(new));
}

/// Following one more name from a slot is taking that member of what the
/// slot leads to.
pub proof fn lemma_located_extended(stack: Seq<Slot>, record: Seq<Tree>, i: int, name: Seq<char>)
    ensures
        located(stack, record, i, seq![name]) == match resolve(stack, record, i) {
            Some(t) => tree_field(t, name),
            None => None,
        },
{
    lemma_resolve_located(stack, record, i);
    let empty = Seq::<Seq<char>>::empty();
    assert(path_of(stack, i) + empty =~= path_of(stack, i));
    assert(path_of(stack, i) + seq![name] =~= path_of(stack, i).push(name));
    match root_of(stack, i) {
        Some(r) => match root_value(stack, record, r) {
            Some(v) => {
                crate::value::lemma_get_push(v, path_of(stack, i), name);
            },
            None => {},
        },
        None => {},
    }
}

/// The value stack of one record's execution.
#[derive(Debug)]
pub struct IndirectStack {
    values: Vec<StackValue>,
}

impl View for IndirectStack {
    type V = Seq<Slot>;

    closed spec fn view(&self) -> Seq<Slot> {
        slots_view(self.values@)
    }
}

impl IndirectStack {
    /// An empty stack.
    pub fn new() -> (stack: Self)
        ensures
            stack@ == Seq::<Slot>::empty(),
    {
        let stack = IndirectStack { values: Vec::new() };
        assert(stack@ =~= Seq::<Slot>::empty());
        stack
    }

    /// Pushes a slot.
    pub fn push(&mut self, stack_value: StackValue)
        ensures
            final(self)@ == old(self)@.push(stack_value@),
    {
        self.values.push(stack_value);
        assert(self@ =~= old(self)@.push(stack_value@));
    }

    /// Pushes a value that the stack owns from now on.
    pub fn push_owned(&mut self, owned: Value)
        ensures
            final(self)@ == old(self)@.push(Slot::Owned(owned@)),
    {
        self.push(StackValue::Owned(owned));
    }

    /// Pushes an alias for the member `name` of what slot `parent` leads
    /// to.  Nothing is read: the alias is followed when it is used.
    pub fn push_internal_ref(&mut self, name: String, parent: usize)
        ensures
            final(self)@ == old(self)@.push(Slot::Alias { name: name@, parent }),
    {
        self.push(StackValue::InternalReference { name, parent });
    }

    /// Pushes a slot that stands for the field group `handle` of the
    /// record.
    pub fn push_mut(&mut self, handle: usize)
        ensures
            final(self)@ == old(self)@.push(Slot::Mut(handle)),
    {
        self.push(StackValue::Mut(handle));
    }

    /// The number of slots.
    pub fn len(&self) -> (n: usize)
        ensures
            n == self@.len(),
    {
        self.values.len()
    }

    /// Takes the top slot off the stack.
    pub fn pop(&mut self) -> (top: Option<StackValue>)
        ensures
            match top {
                Some(v) => old(self)@.len() > 0 && v@ == old(self)@.last() && final(self)@
                    == old(self)@.drop_last(),
                None => old(self)@.len() == 0 && final(self)@ == old(self)@,
            },
    {
        let top = self.values.pop();
        assert(top is Some ==> self@ =~= old(self)@.drop_last());
        top
    }

    /// The value that slot `index` leads to, borrowed from the stack or
    /// from the record.
    pub fn get_ref_internal<'a>(&'a self, record: &'a Vec<Value>, index: usize) -> (found: Option<
        &'a Value,
    >)
        ensures
            match found {
                Some(v) => resolve(self@, record_view(record@), index as int) == Some(v@),
                None => resolve(self@, record_view(record@), index as int) is None,
            },
        decreases index, 0nat,
    {
        if index >= self.values.len() {
            return None;
        }
        match &self.values[index] {
            StackValue::Owned(v) => Some(v),
            StackValue::Mut(h) => if *h < record.len() {
                Some(&record[*h])
            } else {
                None
            },
            StackValue::InternalReference { name, parent } => if *parent < index {
                proof {
                    lemma_located_extended(self@, record_view(record@), *parent as int, name@);
                }
                self.get_internal_from_ref(record, *parent, name.clone())
            } else {
                None
            },
        }
    }

    /// The member `name` of what slot `parent` leads to.
    pub fn get_internal_from_ref<'a>(
        &'a self,
        record: &'a Vec<Value>,
        parent: usize,
        name: String,
    ) -> (found: Option<&'a Value>)
        ensures
            match found {
                Some(v) => located(self@, record_view(record@), parent as int, seq![name@])
                    == Some(v@),
                None => located(self@, record_view(record@), parent as int, seq![name@]) is None,
            },
        decreases parent, 1nat,
    {
        proof {
            lemma_located_extended(self@, record_view(record@), parent as int, name@);
        }
        match self.get_ref_internal(record, parent) {
            Some(p) => p.field(&name),
            None => None,
        }
    }

    /// Assigns `source` onto the value that the names of `names` lead to
    /// from slot `start`.  The chain of aliases is walked down to the slot
    /// that holds a value, that value is rebuilt with the assignment made,
    /// and it is put back where it was held: on the stack or in the record.
    #[verifier::loop_isolation(false)]
    fn write_through(
        &mut self,
        record: &mut Vec<Value>,
        start: usize,
        names: Vec<String>,
        source: &Value,
    ) -> (result: Result<(), RuntimeError>)
        ensures
            match written(
                old(self)@,
                record_view(old(record)@),
                start as int,
                names_view(names@),
                source@,
            ) {
                Ok(after) => result is Ok && final(self)@ == after.0 && record_view(final(record)@)
                    == after.1,
                Err(e) => result == Err::<(), RuntimeError>(e) && final(self)@ == old(self)@
                    && *final(record) == *old(record),
            },
    {
        let ghost stack = self@;
        let ghost rec = record_view(record@);
        let ghost extra = names_view(names@);
        if start >= self.values.len() {
            return Err(RuntimeError::Unresolved);
        }
        let mut path = names;
        let mut cur = start;
        loop
            invariant
                cur < self.values.len(),
                self@ == stack,
                *record == *old(record),
                root_of(stack, start as int) == root_of(stack, cur as int),
                path_of(stack, start as int) + extra == path_of(stack, cur as int) + names_view(
                    path@,
                ),
            decreases cur,
        {
            match &self.values[cur] {
                StackValue::InternalReference { name, parent } => {
                    if *parent < cur {
                        let ghost shorter = names_view(path@);
                        path.insert(0, name.clone());
                        assert(path_of(stack, cur as int) + shorter =~= path_of(
                            stack,
                            *parent as int,
                        ) + names_view(path@));
                        cur = *parent;
                    } else {
                        return Err(RuntimeError::Unresolved);
                    }
                },
                _ => {
                    break ;
                },
            }
        }
        let handle: Option<usize> = match &self.values[cur] {
            StackValue::Mut(h) => Some(*h),
            _ => None,
        };
        let outcome = match handle {
            Some(h) => {
                if h >= record.len() {
                    return Err(RuntimeError::Unresolved);
                }
                record[h].assigned_along(&path, source)
            },
            None => match &self.values[cur] {
                StackValue::Owned(v) => v.assigned_along(&path, source),
                _ => {
                    return Err(RuntimeError::Unresolved);
                },
            },
        };
        match outcome {
            Err(e) => Err(e),
            Ok(new) => {
                match handle {
                    Some(h) => {
                        record.set(h, new);
                        assert(record_view(record@) =~= rec.update(h as int, new@));
                    },
                    None => {
                        self.values.set(cur, StackValue::Owned(new));
                        assert(self@ =~= stack.update(cur as int, Slot::Owned(new@)));
                    },
                }
                Ok(())
            },
        }
    }

    /// Assigns `source` structurally onto what slot `index` leads to.  The
    /// value is changed where it is held: an owned value on the stack, a
    /// borrowed one in the record.  On an error nothing is changed.
    pub fn get_mut_internal(&mut self, record: &mut Vec<Value>, index: usize, source: &Value) -> (result:
        Result<(), RuntimeError>)
        ensures
            match written(
                old(self)@,
                record_view(old(record)@),
                index as int,
                Seq::empty(),
                source@,
            ) {
                Ok(after) => result is Ok && final(self)@ == after.0 && record_view(final(record)@)
                    == after.1,
                Err(e) => result == Err::<(), RuntimeError>(e) && final(self)@ == old(self)@
                    && *final(record) == *old(record),
            },
    {
        let names: Vec<String> = Vec::new();
        assert(names_view(names@) =~= Seq::<Seq<char>>::empty());
        self.write_through(record, index, names, source)
    }

    /// Assigns `source` structurally onto the member `name` of what slot
    /// `parent` leads to.  On an error nothing is changed.
    pub fn get_mut_internal_from_ref(
        &mut self,
        record: &mut Vec<Value>,
        parent: usize,
        name: String,
        source: &Value,
    ) -> (result: Result<(), RuntimeError>)
        ensures
            match written(
                old(self)@,
                record_view(old(record)@),
                parent as int,
                seq![name@],
                source@,
            ) {
                Ok(after) => result is Ok && final(self)@ == after.0 && record_view(final(record)@)
                    == after.1,
                Err(e) => result == Err::<(), RuntimeError>(e) && final(self)@ == old(self)@
                    && *final(record) == *old(record),
            },
    {
        let mut names: Vec<String> = Vec::new();
        names.push(name);
        assert(names_view(names@) =~= seq![name@]);
        self.write_through(record, parent, names, source)
    }

    /// Drops every slot at or above `len`.
    pub fn truncate(&mut self, len: usize)
        ensures
            final(self)@ == if len <= old(self)@.len() {
                old(self)@.take(len as int)
            } else {
                old(self)@
            },
    {
        self.values.truncate(len);
        proof {
            if len <= old(self)@.len() {
                assert(self@ =~= old(self)@.take(len as int));
            } else {
                assert(self@ =~= old(self)@);
            }
        }
    }
}

impl Default for IndirectStack {
    fn default() -> (stack: Self)
        ensures
            stack@ == Seq::<Slot>::empty(),
    {
        IndirectStack::new()
    }
}

impl Clone for StackValue {
    fn clone(&self) -> (copy: Self)
        ensures
            copy@ == self@,
    {
        match self {
            StackValue::Owned(v) => StackValue::Owned(v.clone_value()),
            StackValue::Mut(h) => StackValue::Mut(*h),
            StackValue::InternalReference { name, parent } => StackValue::InternalReference {
                name: name.clone(),
                parent: *parent,
            },
        }
    }
}

} // verus!
