//! A small compiler from a statement/expression language to RISC-style
//! stack-machine assembly: lexer, recursive-descent parser and code generator.
use vstd::prelude::*;

pub mod tokenizer;
pub mod parser;
pub mod generator;
pub mod parse_facts;

verus! {

} // verus!
