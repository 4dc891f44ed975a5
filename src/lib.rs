//! A small regular-expression engine: patterns are parsed into a syntax tree,
//! compiled to a flat instruction program, and run against an input either by
//! depth-first backtracking or by breadth-first state simulation.
use vstd::prelude::*;

pub mod parser;
pub mod codegen;
pub mod evaluator;
pub mod engine;
pub mod listing;

pub use engine::{do_matching, dump, Error};
pub use codegen::Instruction;

verus! {

} // verus!
