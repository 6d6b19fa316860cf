
pub mod builder;
pub mod op;

pub mod pretty;
pub mod program;


pub use builder::{ByteCodeBuilder, ThenBuilder};
pub use op::OpCode;
pub use program::{CodeLocOffset, CodePos, Expr, ExprId, ExprLoc, Lambda, LambdaId, Program, StrId};
