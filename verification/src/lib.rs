//! A small scripting system that is programmed with a graph.  The nodes of
//! a graph produce values, name members of values, call functions and
//! assign to fields; one query node is the entry point.  A graph is
//! compiled to a linear program, and the program runs once on every record
//! that the query matches.
//!
//! - [`value`]: structured values, with lookup, copy and assignment.
//! - [`scripting`], [`graph`]: the kinds of node, and graphs of them.
//! - [`snapshot`]: graphs as the node editor holds them.
//! - [`wiring`]: lookup structures over the wires of a graph.
//! - [`linearize`], [`order_laws`]: the order in which nodes are compiled.
//! - [`slots`], [`compiler`], [`compile_laws`]: from a graph to a program.
//! - [`stack`], [`alias_laws`]: the value stack and its aliases.
//! - [`registry`], [`virtual_machine`]: the instruction set and its engine.
//! - [`display`]: the texts that the editor shows.

pub mod alias_laws;
pub mod compile_laws;
pub mod compiler;
pub mod display;
pub mod error;
pub mod graph;
pub mod linearize;
pub mod order_laws;
pub mod registry;
pub mod scripting;
pub mod slots;
pub mod snapshot;
pub mod stack;
pub mod value;
pub mod virtual_machine;
pub mod wiring;
