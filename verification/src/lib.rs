use vstd::prelude::*;

pub mod bytecode;
pub mod compiler;
pub mod files;
pub mod formatter;
pub mod lex;
pub mod mir;
pub mod parse;
pub mod report;
pub mod text;

verus! {

} // verus!
