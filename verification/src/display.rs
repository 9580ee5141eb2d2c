//! The texts under which the editor shows a field and its type.

use crate::scripting::{name_view, FieldNode};
use vstd::prelude::*;
use vstd::string::StringExecFns;

verus! {

/// Whether a separator `::` starts at the place `i` of `s`.
pub open spec fn separator_at(s: Seq<char>, i: int) -> bool {
    0 <= i && i + 1 < s.len() && s[i] == ':' && s[i + 1] == ':'
}

/// The place of the last separator that starts before `k`, or -1.
pub open spec fn last_separator(s: Seq<char>, k: int) -> int
    decreases k,
{
    if k <= 0 {
        -1
    } else if separator_at(s, k - 1) {
        k - 1
    } else {
        last_separator(s, k - 1)
    }
}

/// What follows the last separator `::` of `s`; all of `s` where it has
/// none.
pub open spec fn short_name(s: Seq<char>) -> Seq<char> {
    let at = last_separator(s, s.len() as int);
    if at < 0 {
        s
    } else {
        s.subrange(at + 2, s.len() as int)
    }
}

proof fn lemma_last_separator(s: Seq<char>, k: int)
    requires
        0 <= k <= s.len(),
    ensures
        -1 <= last_separator(s, k) < k,
        last_separator(s, k) >= 0 ==> separator_at(s, last_separator(s, k)),
        forall|i: int| last_separator(s, k) < i < k ==> !separator_at(s, i),
    decreases k,
{
    if k > 0 && !separator_at(s, k - 1) {
        lemma_last_separator(s, k - 1);
    }
}

/// The last segment of a path: what follows its last `::`.
pub fn remove_before_double_colon(s: &str) -> (short: String)
    ensures
        short@ == short_name(s@),
{
    let len = s.unicode_len();
    let mut k: usize = len;
    while k > 0
        invariant
            k <= len,
            len == s@.len(),
            last_separator(s@, len as int) == last_separator(s@, k as int),
        decreases k,
    {
        if k < len && s.get_char(k - 1) == ':' && s.get_char(k) == ':' {
            proof {
                lemma_last_separator(s@, len as int);
            }
            return s.substring_char(k + 1, len).to_owned();
        }
        k -= 1;
    }
    proof {
        assert(s@.subrange(0, len as int) =~= s@);
    }
    s.substring_char(0, len).to_owned()
}

/// The text of a type path and an optional member name: the short name of
/// the type, followed by `": "` and the member name where there is one.
pub open spec fn label(type_path: Seq<char>, name: Option<Seq<char>>) -> Seq<char> {
    match name {
        Some(n) => short_name(type_path) + ": "@ + n,
        None => short_name(type_path),
    }
}

/// See [`label`].
pub fn make_label(type_path: &String, name: &Option<String>) -> (text: String)
    ensures
        text@ == label(type_path@, name_view(*name)),
{
    let short = remove_before_double_colon(type_path.as_str());
    match name {
        Some(n) => short.concat(": ").concat(n.as_str()),
        None => short,
    }
}

impl FieldNode {
    /// The text under which the editor shows the field.
    pub fn convert_string(&self) -> (text: String)
        requires
            self.field is Some,
        ensures
            text@ == label(self.field->0@, name_view(self.name)),
    {
        match &self.field {
            Some(path) => make_label(path, &self.name),
            None => String::new(),
        }
    }
}

/// A type and an optional member name, as the editor offers them for
/// selection.
#[derive(Debug)]
pub struct TypeInfoWrapper {
    type_path: String,
    name: Option<String>,
}

impl TypeInfoWrapper {
    /// The path of the type.
    pub closed spec fn type_path(&self) -> Seq<char> {
        self.type_path@
    }

    /// The member name.
    pub closed spec fn name(&self) -> Option<Seq<char>> {
        name_view(self.name)
    }

    pub fn new(type_path: String, name: Option<String>) -> (wrapper: Self)
        ensures
            wrapper.type_path() == type_path@,
            wrapper.name() == name_view(name),
    {
        TypeInfoWrapper { type_path, name }
    }

    /// A copy of the entry.
    pub fn duplicate(&self) -> (copy: Self)
        ensures
            copy.type_path() == self.type_path(),
            copy.name() == self.name(),
    {
        TypeInfoWrapper {
            type_path: self.type_path.clone(),
            name: crate::scripting::clone_name(&self.name),
        }
    }

    /// The path of the type and the member name.
    pub fn into_parts(self) -> (parts: (String, Option<String>))
        ensures
            parts.0@ == self.type_path(),
            name_view(parts.1) == self.name(),
    {
        (self.type_path, self.name)
    }

    /// The text under which the editor shows the entry.
    pub fn convert_string(&self) -> (text: String)
        ensures
            text@ == label(self.type_path(), self.name()),
    {
        make_label(&self.type_path, &self.name)
    }

    /// Whether two entries stand for the same type and the same member.
    pub fn same_as(&self, other: &Self) -> (same: bool)
        ensures
            same == (self.type_path() == other.type_path() && self.name() == other.name()),
    {
        if !(self.type_path == other.type_path) {
            return false;
        }
        match (&self.name, &other.name) {
            (Some(a), Some(b)) => *a == *b,
            (None, None) => true,
            _ => false,
        }
    }
}

impl PartialEq for TypeInfoWrapper {
    fn eq(&self, other: &Self) -> (same: bool) {
        self.same_as(other)
    }
}

impl vstd::std_specs::cmp::PartialEqSpecImpl for TypeInfoWrapper {
    open spec fn obeys_eq_spec() -> bool {
        true
    }

    open spec fn eq_spec(&self, other: &Self) -> bool {
        self.type_path() == other.type_path() && self.name() == other.name()
    }
}

} // verus!
