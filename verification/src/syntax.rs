//! The abstract syntax of the language, its parser, and its printed form.
use vstd::prelude::*;

pub mod ident;
pub mod types;
pub mod exprs;
pub mod parser_util;
pub mod show;
pub mod grammar;
pub mod parser;
pub mod reading;
pub mod padding;
pub mod operators;

verus! {

} // verus!
