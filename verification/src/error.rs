//! Error values of compilation and execution.

use vstd::prelude::*;

verus! {

/// Why a graph could not be compiled.
#[derive(Debug, Clone, Copy, PartialEq, Eq)]
pub enum CompileError {
    /// The graph holds no query node.
    NoEntryPoint,
    /// The graph holds more than one query node.
    MultipleEntryPoints,
    /// A data input that a node needs has no wired source, or its source
    /// produces no value.
    MissingInput,
    /// A node that depends on its own output through data wires.
    DataCycle,
    /// A field node without a field name, or a function node without a
    /// function name.
    MissingName,
    /// The program would need more stack slots than can be numbered.
    SlotOverflow,
}

/// Why the execution of a program on one record stopped.
#[derive(Debug, Clone, Copy, PartialEq, Eq)]
pub enum RuntimeError {
    /// A slot is out of range, an alias does not lead to a live value, or a
    /// field name is unknown.
    Unresolved,
    /// A value was assigned onto a value of another shape.
    IncompatibleShape,
    /// An instruction needed more values than the stack holds.
    StackUnderflow,
    /// A called name is not in the function registry.
    UnknownFunction,
}

} // verus!
