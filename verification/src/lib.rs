//! Control-flow and dataflow analysis core of a compiler middle-end.
//!
//! The crate works on a simple, explicitly typed intermediate representation:
//! labeled basic blocks of constant/value/effect instructions with
//! jump/branch/return terminators.  It splits a function's flat instruction
//! stream into basic blocks, builds the control-flow graph, solves forward and
//! backward dataflow problems with a generic worklist engine, computes
//! dominator sets, the dominance frontier and the dominator tree, and uses the
//! frontier to place SSA phi-nodes.
//!
//! Parsing, serialization and pretty-printing are outside this crate: every
//! function here consumes and produces typed in-memory structures.

pub mod ir;
pub mod block;
pub mod cfg;
pub mod df;
pub mod dom;
pub mod error;
pub mod live_variables;
pub mod reaching;
pub mod ssa;
