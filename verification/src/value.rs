//! Structured values: scalars and records of named fields, with the
//! structural operations the execution engine needs (field lookup, deep
//! copy, structural assignment).

use crate::error::RuntimeError;
use vstd::prelude::*;

verus! {

/// One named member of a record value.
#[derive(Debug, PartialEq, Eq)]
pub struct Field {
    pub name: String,
    pub value: Value,
}

/// A structured value.  `Real` carries the bit pattern of a double so that
/// the value can be moved, copied and compared without arithmetic.
#[derive(Debug, PartialEq, Eq)]
pub enum Value {
    Bool(bool),
    Int(i64),
    Real(u64),
    Text(String),
    Struct(Vec<Field>),
}

/// Mathematical model of one record member.
pub struct TreeField {
    pub name: Seq<char>,
    pub value: Tree,
}

/// Mathematical model of a [`Value`].
pub enum Tree {
    Bool(bool),
    Int(i64),
    Real(u64),
    Text(Seq<char>),
    Struct(Seq<TreeField>),
}

/// The model of a list of record members.
pub open spec fn fields_view(fields: Seq<Field>) -> Seq<TreeField>
    decreases fields, 0nat,
{
    Seq::new(
        fields.len(),
        |i: int|
            if 0 <= i < fields.len() {
                TreeField { name: fields[i].name@, value: value_view(fields[i].value) }
            } else {
                TreeField { name: Seq::empty(), value: Tree::Bool(false) }
            },
    )
}

/// The model of a value.
pub open spec fn value_view(v: Value) -> Tree
    decreases v, 1nat,
{
    match v {
        Value::Bool(b) => Tree::Bool(b),
        Value::Int(i) => Tree::Int(i),
        Value::Real(r) => Tree::Real(r),
        Value::Text(s) => Tree::Text(s@),
        Value::Struct(fields) => Tree::Struct(fields_view(fields@)),
    }
}

impl View for Value {
    type V = Tree;

    open spec fn view(&self) -> Tree {
        value_view(*self)
    }
}

impl View for Field {
    type V = TreeField;

    open spec fn view(&self) -> TreeField {
        TreeField { name: self.name@, value: self.value@ }
    }
}

/// Index of the first member called `name` at or after `from`, if any.
pub open spec fn first_index(fields: Seq<TreeField>, name: Seq<char>, from: int) -> Option<int>
    decreases fields.len() - from,
{
    if from < 0 || from >= fields.len() {
        None
    } else if fields[from].name == name {
        Some(from)
    } else {
        first_index(fields, name, from + 1)
    }
}

/// The member called `name` of a record; `None` for scalars and for
/// records without such a member.
pub open spec fn tree_field(t: Tree, name: Seq<char>) -> Option<Tree> {
    match t {
        Tree::Struct(fields) => match first_index(fields, name, 0) {
            Some(i) => Some(fields[i].value),
            None => None,
        },
        _ => None,
    }
}

/// Member-by-member assignment of the members `source[k..]` onto `target`.
/// Members of the source that the target lacks are skipped; a member whose
/// shapes disagree makes the whole assignment fail.
pub open spec fn apply_fields(target: Seq<TreeField>, source: Seq<TreeField>, k: int) -> Option<
    Seq<TreeField>,
>
    decreases source, source.len() - k,
{
    if k < 0 || k >= source.len() {
        Some(target)
    } else {
        match first_index(target, source[k].name, 0) {
            None => apply_fields(target, source, k + 1),
            Some(j) => match tree_apply(target[j].value, source[k].value) {
                None => None,
                Some(child) => apply_fields(
                    target.update(j, TreeField { name: target[j].name, value: child }),
                    source,
                    k + 1,
                ),
            },
        }
    }
}

/// Structural assignment of `source` onto `target`: a scalar replaces a
/// scalar of the same kind, a record is assigned member by member, and any
/// other pairing of shapes fails.
pub open spec fn tree_apply(target: Tree, source: Tree) -> Option<Tree>
    decreases source, 0nat,
{
    match (target, source) {
        (Tree::Bool(_), Tree::Bool(b)) => Some(Tree::Bool(b)),
        (Tree::Int(_), Tree::Int(i)) => Some(Tree::Int(i)),
        (Tree::Real(_), Tree::Real(r)) => Some(Tree::Real(r)),
        (Tree::Text(_), Tree::Text(s)) => Some(Tree::Text(s)),
        (Tree::Struct(tf), Tree::Struct(sf)) => match apply_fields(tf, sf, 0) {
            Some(fields) => Some(Tree::Struct(fields)),
            None => None,
        },
        _ => None,
    }
}

/// The models of a list of names.
pub open spec fn names_view(names: Seq<String>) -> Seq<Seq<char>> {
    Seq::new(names.len(), |i: int| names[i]@)
}

/// The value reached from `t` by following the member names of `path` in
/// turn; `None` as soon as a name is missing.
pub open spec fn tree_get(t: Tree, path: Seq<Seq<char>>) -> Option<Tree>
    decreases path.len(),
{
    if path.len() == 0 {
        Some(t)
    } else {
        match tree_field(t, path[0]) {
            Some(child) => tree_get(child, path.skip(1)),
            None => None,
        }
    }
}

/// `t` with `source` assigned structurally onto the value that `path`
/// leads to, everything off the path kept as it was.
pub open spec fn tree_set(t: Tree, path: Seq<Seq<char>>, source: Tree) -> Option<Tree>
    decreases path.len(),
{
    if path.len() == 0 {
        tree_apply(t, source)
    } else {
        match t {
            Tree::Struct(fields) => match first_index(fields, path[0], 0) {
                Some(j) => match tree_set(fields[j].value, path.skip(1), source) {
                    Some(child) => Some(
                        Tree::Struct(
                            fields.update(j, TreeField { name: fields[j].name, value: child }),
                        ),
                    ),
                    None => None,
                },
                None => None,
            },
            _ => None,
        }
    }
}

/// A found index lies in range, names the member, and no earlier member
/// at or after `from` has the name.
pub proof fn lemma_first_index(fields: Seq<TreeField>, name: Seq<char>, from: int)
    requires
        0 <= from,
    ensures
        match first_index(fields, name, from) {
            Some(i) => from <= i < fields.len() && fields[i].name == name && forall|k: int|
                from <= k < i ==> fields[k].name != name,
            None => forall|k: int| from <= k < fields.len() ==> fields[k].name != name,
        },
    decreases fields.len() - from,
{
    if from < fields.len() && fields[from].name != name {
        lemma_first_index(fields, name, from + 1);
    }
}

/// Two member lists with the same names in the same places find the same
/// index for every name.
pub proof fn lemma_first_index_same_names(
    a: Seq<TreeField>,
    b: Seq<TreeField>,
    name: Seq<char>,
    from: int,
)
    requires
        0 <= from,
        a.len() == b.len(),
        forall|k: int| 0 <= k < a.len() ==> a[k].name == b[k].name,
    ensures
        first_index(a, name, from) == first_index(b, name, from),
    decreases a.len() - from,
{
    if from < a.len() && a[from].name != name {
        lemma_first_index_same_names(a, b, name, from + 1);
    }
}

/// Following a path and then one more name is following the longer path.
pub proof fn lemma_get_push(t: Tree, path: Seq<Seq<char>>, name: Seq<char>)
    ensures
        tree_get(t, path.push(name)) == match tree_get(t, path) {
            Some(x) => tree_field(x, name),
            None => None,
        },
    decreases path.len(),
{
    let longer = path.push(name);
    if path.len() == 0 {
        assert(longer.skip(1) =~= Seq::<Seq<char>>::empty());
        match tree_field(t, name) {
            Some(child) => {
                assert(tree_get(child, longer.skip(1)) == Some(child));
            },
            None => {},
        }
    } else {
        assert(longer[0] == path[0]);
        assert(longer.skip(1) =~= path.skip(1).push(name));
        match tree_field(t, path[0]) {
            Some(child) => {
                lemma_get_push(child, path.skip(1), name);
            },
            None => {},
        }
    }
}

/// An assignment along a path succeeds exactly when the path leads to a
/// value and the source can be assigned onto that value; the value then
/// found at the end of the path is the result of that assignment.
pub proof fn lemma_set_then_get(t: Tree, path: Seq<Seq<char>>, source: Tree)
    ensures
        tree_set(t, path, source) is Some <==> (tree_get(t, path) matches Some(x) && tree_apply(
            x,
            source,
        ) is Some),
        tree_set(t, path, source) matches Some(t2) ==> tree_get(t2, path) == tree_apply(
            tree_get(t, path).unwrap(),
            source,
        ),
    decreases path.len(),
{
    if path.len() > 0 {
        match t {
            Tree::Struct(fields) => {
                lemma_first_index(fields, path[0], 0);
                match first_index(fields, path[0], 0) {
                    Some(j) => {
                        lemma_set_then_get(fields[j].value, path.skip(1), source);
                        match tree_set(fields[j].value, path.skip(1), source) {
                            Some(child) => {
                                let updated = fields.update(
                                    j,
                                    TreeField { name: fields[j].name, value: child },
                                );
                                lemma_first_index_same_names(fields, updated, path[0], 0);
                            },
                            None => {},
                        }
                    },
                    None => {},
                }
            },
            _ => {},
        }
    }
}

/// An assignment along one path leaves what another path leads to
/// untouched when the two part ways at their first names.
pub proof fn lemma_set_other_member(
    t: Tree,
    path: Seq<Seq<char>>,
    source: Tree,
    other: Seq<Seq<char>>,
)
    requires
        path.len() > 0,
        other.len() > 0,
        path[0] != other[0],
    ensures
        tree_set(t, path, source) matches Some(t2) ==> tree_get(t2, other) == tree_get(t, other),
{
    match t {
        Tree::Struct(fields) => {
            lemma_first_index(fields, path[0], 0);
            lemma_first_index(fields, other[0], 0);
            match first_index(fields, path[0], 0) {
                Some(j) => {
                    match tree_set(fields[j].value, path.skip(1), source) {
                        Some(child) => {
                            let updated = fields.update(
                                j,
                                TreeField { name: fields[j].name, value: child },
                            );
                            lemma_first_index_same_names(fields, updated, other[0], 0);
                        },
                        None => {},
                    }
                },
                None => {},
            }
        },
        _ => {},
    }
}

/// An assignment along one path leaves what another path leads to
/// untouched when the two share a prefix and then go on with different
/// names.
pub proof fn lemma_set_diverging(
    t: Tree,
    prefix: Seq<Seq<char>>,
    changed: Seq<char>,
    kept: Seq<char>,
    source: Tree,
)
    requires
        changed != kept,
    ensures
        tree_set(t, prefix.push(changed), source) matches Some(t2) ==> tree_get(
            t2,
            prefix.push(kept),
        ) == tree_get(t, prefix.push(kept)),
    decreases prefix.len(),
{
    let one = prefix.push(changed);
    let other = prefix.push(kept);
    if prefix.len() == 0 {
        lemma_set_other_member(t, one, source, other);
    } else {
        assert(one[0] == prefix[0] && other[0] == prefix[0]);
        assert(one.skip(1) =~= prefix.skip(1).push(changed));
        assert(other.skip(1) =~= prefix.skip(1).push(kept));
        match t {
            Tree::Struct(fields) => {
                lemma_first_index(fields, prefix[0], 0);
                match first_index(fields, prefix[0], 0) {
                    Some(j) => {
                        lemma_set_diverging(
                            fields[j].value,
                            prefix.skip(1),
                            changed,
                            kept,
                            source,
                        );
                        match tree_set(fields[j].value, one.skip(1), source) {
                            Some(child) => {
                                let updated = fields.update(
                                    j,
                                    TreeField { name: fields[j].name, value: child },
                                );
                                lemma_first_index_same_names(fields, updated, prefix[0], 0);
                            },
                            None => {},
                        }
                    },
                    None => {},
                }
            },
            _ => {},
        }
    }
}

/// Position of the first member called `name`.
pub fn find_field(fields: &Vec<Field>, name: &String) -> (found: Option<usize>)
    ensures
        match found {
            Some(i) => first_index(fields_view(fields@), name@, 0) == Some(i as int),
            None => first_index(fields_view(fields@), name@, 0) is None,
        },
        found matches Some(i) ==> i < fields.len(),
{
    let mut i: usize = 0;
    while i < fields.len()
        invariant
            i <= fields.len(),
            first_index(fields_view(fields@), name@, 0) == first_index(
                fields_view(fields@),
                name@,
                i as int,
            ),
        decreases fields.len() - i,
    {
        if fields[i].name == *name {
            return Some(i);
        }
        i += 1;
    }
    None
}

/// A deep copy of a list of members.
pub fn clone_fields(fields: &Vec<Field>) -> (copy: Vec<Field>)
    ensures
        fields_view(copy@) == fields_view(fields@),
    decreases fields, 0nat,
{
    let mut copy: Vec<Field> = Vec::new();
    let mut i: usize = 0;
    while i < fields.len()
        invariant
            i <= fields.len(),
            copy.len() == i,
            forall|j: int| 0 <= j < i ==> copy[j]@ == fields[j]@,
        decreases fields.len() - i,
    {
        let value = fields[i].value.clone_value();
        copy.push(Field { name: fields[i].name.clone(), value });
        i += 1;
    }
    assert(fields_view(copy@) =~= fields_view(fields@));
    copy
}

impl Value {
    /// A deep copy: equal to this value and sharing nothing with it.
    pub fn clone_value(&self) -> (copy: Value)
        ensures
            copy@ == self@,
        decreases self, 1nat,
    {
        match self {
            Value::Bool(b) => Value::Bool(*b),
            Value::Int(i) => Value::Int(*i),
            Value::Real(r) => Value::Real(*r),
            Value::Text(s) => Value::Text(s.clone()),
            Value::Struct(fields) => Value::Struct(clone_fields(fields)),
        }
    }

    /// The member called `name`, borrowed from this value.
    pub fn field(&self, name: &String) -> (member: Option<&Value>)
        ensures
            match member {
                Some(v) => tree_field(self@, name@) == Some(v@),
                None => tree_field(self@, name@) is None,
            },
    {
        match self {
            Value::Struct(fields) => match find_field(fields, name) {
                Some(i) => Some(&fields[i].value),
                None => None,
            },
            _ => None,
        }
    }

    /// The result of assigning `source` onto this value structurally, or
    /// `None` where the shapes disagree.  Neither operand is changed.
    #[verifier::loop_isolation(false)]
    pub fn applied(&self, source: &Value) -> (result: Option<Value>)
        ensures
            match result {
                Some(v) => tree_apply(self@, source@) == Some(v@),
                None => tree_apply(self@, source@) is None,
            },
        decreases source,
    {
        match (self, source) {
            (Value::Bool(_), Value::Bool(b)) => Some(Value::Bool(*b)),
            (Value::Int(_), Value::Int(i)) => Some(Value::Int(*i)),
            (Value::Real(_), Value::Real(r)) => Some(Value::Real(*r)),
            (Value::Text(_), Value::Text(s)) => Some(Value::Text(s.clone())),
            (Value::Struct(tf), Value::Struct(sf)) => {
                let mut fields = clone_fields(tf);
                let mut k: usize = 0;
                while k < sf.len()
                    invariant
                        k <= sf.len(),
                        apply_fields(fields_view(tf@), fields_view(sf@), 0) == apply_fields(
                            fields_view(fields@),
                            fields_view(sf@),
                            k as int,
                        ),
                    decreases sf.len() - k,
                {
                    match find_field(&fields, &sf[k].name) {
                        None => {},
                        Some(j) => {
                            match fields[j].value.applied(&sf[k].value) {
                                None => {
                                    return None;
                                },
                                Some(child) => {
                                    let ghost before = fields_view(fields@);
                                    let name = fields[j].name.clone();
                                    fields.set(j, Field { name, value: child });
                                    assert(fields_view(fields@) =~= before.update(
                                        j as int,
                                        TreeField { name: before[j as int].name, value: child@ },
                                    ));
                                },
                            }
                        },
                    }
                    k += 1;
                }
                Some(Value::Struct(fields))
            },
            _ => None,
        }
    }

    /// The result of assigning `source` onto the value that the names
    /// `path[from..]` lead to, or `None` where a name is missing or the
    /// shapes disagree.  Neither operand is changed.
    pub fn applied_at(&self, path: &Vec<String>, from: usize, source: &Value) -> (result: Option<
        Value,
    >)
        requires
            from <= path.len(),
        ensures
            match result {
                Some(v) => tree_set(self@, names_view(path@).skip(from as int), source@) == Some(
                    v@,
                ),
                None => tree_set(self@, names_view(path@).skip(from as int), source@) is None,
            },
        decreases path.len() - from,
    {
        let ghost rest = names_view(path@).skip(from as int);
        if from == path.len() {
            return self.applied(source);
        }
        assert(rest[0] == path[from as int]@);
        assert(rest.skip(1) =~= names_view(path@).skip(from + 1));
        match self {
            Value::Struct(fields) => match find_field(fields, &path[from]) {
                Some(j) => match fields[j].value.applied_at(path, from + 1, source) {
                    Some(child) => {
                        let mut updated = clone_fields(fields);
                        let ghost before = fields_view(updated@);
                        let name = fields[j].name.clone();
                        updated.set(j, Field { name, value: child });
                        assert(fields_view(updated@) =~= before.update(
                            j as int,
                            TreeField { name: before[j as int].name, value: child@ },
                        ));
                        Some(Value::Struct(updated))
                    },
                    None => None,
                },
                None => None,
            },
            _ => None,
        }
    }

    /// The value that the names `path[from..]` lead to, borrowed from this
    /// value.
    pub fn get_path(&self, path: &Vec<String>, from: usize) -> (found: Option<&Value>)
        requires
            from <= path.len(),
        ensures
            match found {
                Some(v) => tree_get(self@, names_view(path@).skip(from as int)) == Some(v@),
                None => tree_get(self@, names_view(path@).skip(from as int)) is None,
            },
        decreases path.len() - from,
    {
        let ghost rest = names_view(path@).skip(from as int);
        if from == path.len() {
            return Some(self);
        }
        assert(rest[0] == path[from as int]@);
        assert(rest.skip(1) =~= names_view(path@).skip(from + 1));
        match self.field(&path[from]) {
            Some(child) => child.get_path(path, from + 1),
            None => None,
        }
    }

    /// The result of assigning `source` onto the value that the names of
    /// `path` lead to: `Unresolved` where a name is missing,
    /// `IncompatibleShape` where the value found cannot take the source.
    pub fn assigned_along(&self, path: &Vec<String>, source: &Value) -> (result: Result<
        Value,
        RuntimeError,
    >)
        ensures
            match tree_get(self@, names_view(path@)) {
                None => result == Err::<Value, RuntimeError>(RuntimeError::Unresolved),
                Some(target) => match tree_apply(target, source@) {
                    None => result == Err::<Value, RuntimeError>(RuntimeError::IncompatibleShape),
                    Some(_) => result matches Ok(v) && tree_set(
                        self@,
                        names_view(path@),
                        source@,
                    ) == Some(v@),
                },
            },
    {
        proof {
            lemma_set_then_get(self@, names_view(path@), source@);
            assert(names_view(path@).skip(0) =~= names_view(path@));
        }
        match self.applied_at(path, 0, source) {
            Some(v) => Ok(v),
            None => match self.get_path(path, 0) {
                Some(_) => Err(RuntimeError::IncompatibleShape),
                None => Err(RuntimeError::Unresolved),
            },
        }
    }
}

impl Clone for Value {
    fn clone(&self) -> (copy: Self)
        ensures
            copy@ == self@,
    {
        self.clone_value()
    }
}

impl Clone for Field {
    fn clone(&self) -> (copy: Self)
        ensures
            copy@ == self@,
    {
        Field { name: self.name.clone(), value: self.value.clone_value() }
    }
}

} // verus!