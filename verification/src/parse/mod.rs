pub mod ast;
pub mod grammar;
pub mod number;
pub mod parser;

pub use parser::{Delim, Parser, ParserResult};
