//! A small ML-like language: a parser, a type checker, a desugaring pass into
//! an intermediate representation, a compiler to code for an abstract
//! machine with closures, and that machine.
use vstd::prelude::*;

pub mod machine;
pub mod syntax;
pub mod ir;
pub mod compile;
pub mod context;
pub mod typecheck;
pub mod safety;
pub mod recursion;

verus! {

} // verus!
