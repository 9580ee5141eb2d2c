//! The table of callable names.  The functions themselves belong to the
//! host; the engine only needs to know how many values each one takes.

use vstd::prelude::*;

verus! {

/// A callable name and the number of values it takes.
#[derive(Debug, PartialEq, Eq)]
pub struct Signature {
    pub name: String,
    pub arity: usize,
}

/// Mathematical model of a [`Signature`].
pub struct SignatureView {
    pub name: Seq<char>,
    pub arity: usize,
}

impl View for Signature {
    type V = SignatureView;

    open spec fn view(&self) -> SignatureView {
        SignatureView { name: self.name@, arity: self.arity }
    }
}

/// Index of the first signature called `name` at or after `from`.
pub open spec fn lookup(table: Seq<SignatureView>, name: Seq<char>, from: int) -> Option<int>
    decreases table.len() - from,
{
    if from < 0 || from >= table.len() {
        None
    } else if table[from].name == name {
        Some(from)
    } else {
        lookup(table, name, from + 1)
    }
}

/// A found index lies in range and names the signature.
pub proof fn lemma_lookup(table: Seq<SignatureView>, name: Seq<char>, from: int)
    requires
        0 <= from,
    ensures
        match lookup(table, name, from) {
            Some(i) => from <= i < table.len() && table[i].name == name && forall|k: int|
                from <= k < i ==> table[k].name != name,
            None => forall|k: int| from <= k < table.len() ==> table[k].name != name,
        },
    decreases table.len() - from,
{
    if from < table.len() && table[from].name != name {
        lemma_lookup(table, name, from + 1);
    }
}

/// The callable names known to the engine, each name at most once.
#[derive(Debug)]
pub struct FunctionRegistry {
    signatures: Vec<Signature>,
}

impl View for FunctionRegistry {
    type V = Seq<SignatureView>;

    closed spec fn view(&self) -> Seq<SignatureView> {
        Seq::new(self.signatures@.len(), |i: int| self.signatures@[i]@)
    }
}

impl FunctionRegistry {
    /// A registry without names.
    pub fn new() -> (registry: Self)
        ensures
            registry@ == Seq::<SignatureView>::empty(),
    {
        let registry = FunctionRegistry { signatures: Vec::new() };
        assert(registry@ =~= Seq::<SignatureView>::empty());
        registry
    }

    /// The number of registered names.
    pub fn len(&self) -> (n: usize)
        ensures
            n == self@.len(),
    {
        self.signatures.len()
    }

    /// The place and the arity of `name`.
    pub fn resolve(&self, name: &String) -> (found: Option<(usize, usize)>)
        ensures
            match found {
                Some((index, arity)) => lookup(self@, name@, 0) == Some(index as int)
                    && index < self@.len() && arity == self@[index as int].arity,
                None => lookup(self@, name@, 0) is None,
            },
    {
        let mut i: usize = 0;
        while i < self.signatures.len()
            invariant
                i <= self.signatures.len(),
                lookup(self@, name@, 0) == lookup(self@, name@, i as int),
            decreases self.signatures.len() - i,
        {
            if self.signatures[i].name == *name {
                return Some((i, self.signatures[i].arity));
            }
            i += 1;
        }
        None
    }

    /// Registers `name` with `arity` and returns its place.  A name that
    /// is already registered keeps its place and takes the new arity.
    pub fn register_function(&mut self, name: String, arity: usize) -> (index: usize)
        ensures
            match lookup(old(self)@, name@, 0) {
                Some(i) => index == i && final(self)@ == old(self)@.update(
                    i,
                    SignatureView { name: name@, arity },
                ),
                None => index == old(self)@.len() && final(self)@ == old(self)@.push(
                    SignatureView { name: name@, arity },
                ),
            },
    {
        proof {
            lemma_lookup(self@, name@, 0);
        }
        match self.resolve(&name) {
            Some((i, _)) => {
                self.signatures.set(i, Signature { name, arity });
                assert(self@ =~= old(self)@.update(
                    i as int,
                    SignatureView { name: name@, arity },
                ));
                i
            },
            None => {
                let index = self.signatures.len();
                self.signatures.push(Signature { name, arity });
                assert(self@ =~= old(self)@.push(SignatureView { name: name@, arity }));
                index
            },
        }
    }
}

} // verus!
