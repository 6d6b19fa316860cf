use vstd::prelude::*;

use super::program::{CodeLocOffset, CodePos, LambdaId, StrId};

verus! {

/// One instruction of the bytecode. Jumps are relative: an offset counts
/// the instructions skipped after the jumping one.
#[derive(Clone, Copy, Debug, PartialEq, Eq, Structural)]
pub enum OpCode {
    Add,
    Sub,
    Mul,
    Div,
    Rem,
    Eq,
    Ne,
    Lt,
    Lte,
    Gt,
    Gte,
    Not,
    Neg,
    CreateThunk(CodePos),
    BeginThunk(CodePos),
    FinalizeThunk,
    And(CodeLocOffset),
    Or(CodeLocOffset),
    LogImp(CodeLocOffset),
    If(CodeLocOffset),
    CreateAttrSet,
    SetAttr,
    FinalizeAttrSetRec,
    CreateList(usize),
    AppendList,
    Apply,
    LoadLambda(LambdaId),
    LoadStr(StrId),
    LoadInt(i64),
    /// A float, by the interned text of its literal.
    LoadFloat(StrId),
    LoadBool(bool),
    LoadScope,
    HasAttr,
    GetAttr,
    GetAttrOr(CodeLocOffset),
    EvalThunk,
    UnEvalValue,
    EnterScope,
    LeaveScope,
    BindThunkScope,
    BindValueScope,
    Branch(CodeLocOffset),
    PopV,
    DupV,
    PopT,
    DupT,
    Ret,
}

} // verus!
