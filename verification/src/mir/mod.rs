pub mod analysis;
pub mod ast;
pub mod lowerer;
pub mod lowering;
pub mod naming;

pub use ast::{
    AttrPath, AttrPathPart, AttrPattern, AttrSet, BinOp, DynamicAttr, Expr, Lambda, LetBinding, Num, Pattern,
    PatternDestructKind, PatternListKind, StaticAttr, Type, TypeAttr, UnOp,
};
pub use lowerer::MirLowerer;
