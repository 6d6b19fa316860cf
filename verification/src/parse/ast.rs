use vstd::prelude::*;

pub use crate::files::{ByteRange, Node, Span};

verus! {

#[derive(Debug)]
pub struct Pattern<'a> {
    pub binding: Option<Node<&'a str>>,
    pub destruct: Option<Node<PatternDestructKind<'a>>>,
    pub ty: Option<Node<Type<'a>>>,
}

#[derive(Debug)]
pub enum PatternDestructKind<'a> {
    AttrSet { fields: Vec<Node<AttrPattern<'a>>>, strict: bool },
    List { elements: Vec<Node<Pattern<'a>>>, kind: PatternListKind },
}

/// Where `..` stands in a list pattern.
#[derive(Clone, Copy, Debug, PartialEq, Eq, Structural)]
pub enum PatternListKind {
    Strict,
    TrailLeft,
    TrailRight,
}

#[derive(Debug)]
pub struct AttrPattern<'a> {
    pub attr: Node<&'a str>,
    pub pattern: Node<Pattern<'a>>,
}

#[derive(Debug)]
pub enum Type<'a> {
    Named(Node<&'a str>),
    Lambda { arg: Box<Node<Type<'a>>>, ret: Box<Node<Type<'a>>> },
    List(Box<Node<Type<'a>>>),
    Tuple(Vec<Node<Type<'a>>>),
    AttrSet { name: Option<Node<&'a str>>, fields: Vec<Node<TypeAttr<'a>>> },
    Union(Vec<Node<Type<'a>>>),
}

#[derive(Debug)]
pub struct TypeAttr<'a> {
    pub name: Node<&'a str>,
    pub ty: Node<Type<'a>>,
}

#[derive(Clone, Copy, Debug, PartialEq, Eq, Structural)]
pub enum BinOp {
    Rem,
    Div,
    Mul,
    Sub,
    Add,
    Lt,
    Lte,
    Gt,
    Gte,
    Eq,
    Ne,
    And,
    Or,
    PipeL,
    PipeR,
    LogImp,
}

#[derive(Clone, Copy, PartialEq, Eq, Debug, Structural)]
pub enum Associativity {
    Left,
    NonAssociative,
    Right,
}

pub open spec fn spec_precedence(op: BinOp) -> u32 {
    match op {
        BinOp::Add => 16,
        BinOp::Sub => 16,
        BinOp::Mul => 17,
        BinOp::Div => 17,
        BinOp::Rem => 17,
        BinOp::Lt => 14,
        BinOp::Lte => 14,
        BinOp::Gt => 14,
        BinOp::Gte => 14,
        BinOp::Eq => 13,
        BinOp::Ne => 13,
        BinOp::And => 12,
        BinOp::Or => 10,
        BinOp::LogImp => 6,
        BinOp::PipeL => 5,
        BinOp::PipeR => 5,
    }
}

pub open spec fn spec_associativity(op: BinOp) -> Associativity {
    match op {
        BinOp::Add | BinOp::Sub | BinOp::Mul | BinOp::Div | BinOp::Rem => Associativity::Left,
        BinOp::Lt | BinOp::Lte | BinOp::Gt | BinOp::Gte | BinOp::Eq | BinOp::Ne => Associativity::NonAssociative,
        BinOp::And | BinOp::Or => Associativity::Left,
        BinOp::LogImp => Associativity::Right,
        BinOp::PipeL => Associativity::Right,
        BinOp::PipeR => Associativity::Left,
    }
}

/// How operators group, from tightest to loosest: `* / %`, then `+ -`, then
/// `< <= > >=`, then `== !=`, then `&&`, then `||`, then `->`, then the pipes
/// `<|` and `|>`; operators of one tier bind equally.
pub proof fn law_precedence_order()
    ensures
        spec_precedence(BinOp::Mul) == spec_precedence(BinOp::Div),
        spec_precedence(BinOp::Mul) == spec_precedence(BinOp::Rem),
        spec_precedence(BinOp::Add) == spec_precedence(BinOp::Sub),
        spec_precedence(BinOp::Lt) == spec_precedence(BinOp::Lte),
        spec_precedence(BinOp::Lt) == spec_precedence(BinOp::Gt),
        spec_precedence(BinOp::Lt) == spec_precedence(BinOp::Gte),
        spec_precedence(BinOp::Eq) == spec_precedence(BinOp::Ne),
        spec_precedence(BinOp::PipeL) == spec_precedence(BinOp::PipeR),
        spec_precedence(BinOp::Mul) > spec_precedence(BinOp::Add),
        spec_precedence(BinOp::Add) > spec_precedence(BinOp::Lt),
        spec_precedence(BinOp::Lt) > spec_precedence(BinOp::Eq),
        spec_precedence(BinOp::Eq) > spec_precedence(BinOp::And),
        spec_precedence(BinOp::And) > spec_precedence(BinOp::Or),
        spec_precedence(BinOp::Or) > spec_precedence(BinOp::LogImp),
        spec_precedence(BinOp::LogImp) > spec_precedence(BinOp::PipeL),
{
}

/// Which way chains of one operator group: arithmetic, `&&`, `||` and `|>`
/// to the left, `->` and `<|` to the right, and comparisons not at all.
pub proof fn law_associativity()
    ensures
        forall|op: BinOp| #![auto] (op == BinOp::Add || op == BinOp::Sub || op == BinOp::Mul || op == BinOp::Div || op == BinOp::Rem
            || op == BinOp::And || op == BinOp::Or || op == BinOp::PipeR) <==> spec_associativity(op) == Associativity::Left,
        forall|op: BinOp| #![auto] (op == BinOp::LogImp || op == BinOp::PipeL) <==> spec_associativity(op) == Associativity::Right,
        forall|op: BinOp| #![auto] (op == BinOp::Lt || op == BinOp::Lte || op == BinOp::Gt || op == BinOp::Gte || op == BinOp::Eq
            || op == BinOp::Ne) <==> spec_associativity(op) == Associativity::NonAssociative,
{
}

impl BinOp {
    /// How tightly the operator binds: higher binds tighter.
    pub fn precedence(&self) -> (p: u32)
        ensures
            p == spec_precedence(*self),
    {
        match self {
            BinOp::Add => 20 - 4,
            BinOp::Sub => 20 - 4,
            BinOp::Mul => 20 - 3,
            BinOp::Div => 20 - 3,
            BinOp::Rem => 20 - 3,
            BinOp::Lt => 20 - 6,
            BinOp::Lte => 20 - 6,
            BinOp::Gt => 20 - 6,
            BinOp::Gte => 20 - 6,
            BinOp::Eq => 20 - 7,
            BinOp::Ne => 20 - 7,
            BinOp::And => 20 - 8,
            BinOp::Or => 20 - 10,
            BinOp::LogImp => 20 - 14,
            BinOp::PipeL => 20 - 15,
            BinOp::PipeR => 20 - 15,
        }
    }

    pub fn associativity(&self) -> (a: Associativity)
        ensures
            a == spec_associativity(*self),
    {
        match self {
            BinOp::Add => Associativity::Left,
            BinOp::Sub => Associativity::Left,
            BinOp::Mul => Associativity::Left,
            BinOp::Div => Associativity::Left,
            BinOp::Rem => Associativity::Left,
            BinOp::Lt => Associativity::NonAssociative,
            BinOp::Lte => Associativity::NonAssociative,
            BinOp::Gt => Associativity::NonAssociative,
            BinOp::Gte => Associativity::NonAssociative,
            BinOp::Eq => Associativity::NonAssociative,
            BinOp::Ne => Associativity::NonAssociative,
            BinOp::And => Associativity::Left,
            BinOp::Or => Associativity::Left,
            BinOp::LogImp => Associativity::Right,
            BinOp::PipeL => Associativity::Right,
            BinOp::PipeR => Associativity::Left,
        }
    }
}

#[derive(Clone, Copy, Debug, PartialEq, Eq, Structural)]
pub enum UnOp {
    Neg,
    Not,
}

#[derive(Debug)]
pub struct Lambda<'a> {
    pub arg: Node<Pattern<'a>>,
    pub body: Box<Node<Expr<'a>>>,
}

/// A number literal. A float keeps its digits as written, `int.frac`
/// (either part may be empty, not both).
#[derive(Clone, Debug)]
pub enum Num {
    Float(String),
    Int(i64),
}

#[derive(Debug)]
pub enum Expr<'a> {
    Lambda(Lambda<'a>),
    FuncApp { func: Box<Node<Expr<'a>>>, arg: Box<Node<Expr<'a>>> },
    IfThenElse {
        cond: Box<Node<Expr<'a>>>,
        then_expr: Box<Node<Expr<'a>>>,
        else_expr: Box<Node<Expr<'a>>>,
    },
    BinOp { lhs: Box<Node<Expr<'a>>>, op: Node<BinOp>, rhs: Box<Node<Expr<'a>>> },
    UnOp { expr: Box<Node<Expr<'a>>>, op: Node<UnOp> },
    Let { bindings: Vec<LetBinding<'a>>, expr: Box<Node<Expr<'a>>> },
    AttrSet { attrs: Vec<Node<Attr<'a>>> },
    List { elements: Vec<Node<Expr<'a>>> },
    AccessAttr { expr: Box<Node<Expr<'a>>>, path: Node<AttrPath<'a>>, or: Option<Box<Node<Expr<'a>>>> },
    HasAttr { expr: Box<Node<Expr<'a>>>, path: Node<AttrPath<'a>> },
    Paren(Box<Node<Expr<'a>>>),
    Ident(&'a str),
    Num(Num),
    Str(&'a str),
}

#[derive(Debug)]
pub struct LetBinding<'a> {
    pub id: Node<Pattern<'a>>,
    pub value: Node<Expr<'a>>,
}

#[derive(Debug)]
pub struct AttrPath<'a> {
    pub parts: Vec<Node<AttrPathPart<'a>>>,
}

#[derive(Debug)]
pub enum AttrPathPart<'a> {
    Ident(&'a str),
    Str(&'a str),
    Num(i64),
    Expr(Expr<'a>),
}

#[derive(Debug)]
pub struct Attr<'a> {
    pub path: Node<AttrPath<'a>>,
    pub value: Option<Node<Expr<'a>>>,
}

} // verus!
