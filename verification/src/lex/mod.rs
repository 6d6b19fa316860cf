pub mod lexer;
pub mod token;

pub use lexer::{contains_comments, LexError, Lexer};
pub use token::Token;
