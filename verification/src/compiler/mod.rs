pub mod jumps;

use vstd::prelude::*;

use crate::bytecode::builder::{attr_or_code, views_of, ByteCodeBuilder};
use crate::bytecode::program::{
    grows, lemma_grows_refl, lemma_grows_trans, lemma_with_code_grows, lemma_with_str_grows, with_expr,
    with_lambda, with_str, ProgramView,
};
use crate::bytecode::{CodeLocOffset, CodePos, LambdaId, OpCode, Program, StrId};
use crate::text::str_eq;
use crate::files::{Node, Span};
use crate::mir::ast as mir;
use crate::parse::ast::{AttrPattern, Num, Pattern, PatternDestructKind};

verus! {

/// Compiles MIR expressions to bytecode. It holds no state of its own: what
/// it builds goes into the program it is given.
pub struct Compiler {}

/// A program and the code emitted into the expression being built.
pub type Emitted = (ProgramView, Seq<OpCode>);

/// Interns `s` and loads it.
pub open spec fn load_str(p: ProgramView, s: Seq<char>) -> Emitted {
    let q = with_str(p, s);
    (q, seq![OpCode::LoadStr(StrId::from_id(q.strings.len() as usize))])
}

/// Whether every `let` in `e` binds a name in each of its bindings, as
/// compiling requires.
pub open spec fn lets_named(e: mir::Expr) -> bool
    decreases e, 0nat,
{
    match e {
        mir::Expr::Lambda(l) => lets_named(l.body.0),
        mir::Expr::FuncApp { func, arg } => lets_named(func.0) && lets_named(arg.0),
        mir::Expr::IfThenElse { cond, then_expr, else_expr } => lets_named(cond.0) && lets_named(then_expr.0) && lets_named(else_expr.0),
        mir::Expr::BinOp { lhs, rhs, .. } => lets_named(lhs.0) && lets_named(rhs.0),
        mir::Expr::UnOp { expr, .. } => lets_named(expr.0),
        mir::Expr::Let { bindings, expr } => lets_named(expr.0) && forall|i: int| 0 <= i < bindings.len() ==> (#[trigger] bindings@[i]).id.0.binding is Some && lets_named(bindings@[i].value.0),
        mir::Expr::AttrSet(set) => (forall|i: int| 0 <= i < set.static_attrs.len() ==> ((#[trigger] set.static_attrs@[i]).0.value matches Some(v) ==> lets_named(v.0)))
            && (forall|i: int| 0 <= i < set.dynamic_attrs.len() ==> part_lets_named((#[trigger] set.dynamic_attrs@[i]).0.part) && (set.dynamic_attrs@[i].0.value matches Some(v) ==> lets_named(v.0))),
        mir::Expr::List { elements } => forall|i: int| 0 <= i < elements.len() ==> lets_named((#[trigger] elements@[i]).0),
        mir::Expr::AccessAttr { expr, path, or } => lets_named(expr.0) && (forall|i: int| 0 <= i < path.0.parts.len() ==> part_lets_named(#[trigger] path.0.parts@[i]))
            && (or matches Some(o) ==> lets_named(o.0)),
        mir::Expr::HasAttr { expr, path } => lets_named(expr.0) && forall|i: int| 0 <= i < path.0.parts.len() ==> part_lets_named(#[trigger] path.0.parts@[i]),
        _ => true,
    }
}

pub open spec fn part_lets_named(part: Node<mir::AttrPathPart>) -> bool
    decreases part, 0nat,
{
    match part.0 {
        mir::AttrPathPart::Expr(e) => lets_named(e),
        _ => true,
    }
}

/// The instruction of an operator that does not short-circuit.
pub open spec fn binop_op(op: mir::BinOp) -> OpCode {
    match op {
        mir::BinOp::Rem => OpCode::Rem,
        mir::BinOp::Div => OpCode::Div,
        mir::BinOp::Mul => OpCode::Mul,
        mir::BinOp::Sub => OpCode::Sub,
        mir::BinOp::Add => OpCode::Add,
        mir::BinOp::Lt => OpCode::Lt,
        mir::BinOp::Lte => OpCode::Lte,
        mir::BinOp::Gt => OpCode::Gt,
        mir::BinOp::Gte => OpCode::Gte,
        mir::BinOp::Eq => OpCode::Eq,
        mir::BinOp::Ne => OpCode::Ne,
        mir::BinOp::And => OpCode::And(CodeLocOffset(0)),
        mir::BinOp::Or => OpCode::Or(CodeLocOffset(0)),
        mir::BinOp::LogImp => OpCode::LogImp(CodeLocOffset(0)),
    }
}

/// The jump of a short-circuiting operator over `len` instructions.
pub open spec fn short_circuit_op(op: mir::BinOp, len: nat) -> OpCode {
    match op {
        mir::BinOp::And => OpCode::And(CodeLocOffset(len as usize)),
        mir::BinOp::Or => OpCode::Or(CodeLocOffset(len as usize)),
        _ => OpCode::LogImp(CodeLocOffset(len as usize)),
    }
}

pub open spec fn short_circuits(op: mir::BinOp) -> bool {
    op == mir::BinOp::And || op == mir::BinOp::Or || op == mir::BinOp::LogImp
}

/// `count` times `FinalizeThunk` then `PopT`.
pub open spec fn finalize_ops(count: nat) -> Seq<OpCode>
    decreases count,
{
    if count == 0 {
        Seq::empty()
    } else {
        finalize_ops((count - 1) as nat) + seq![OpCode::FinalizeThunk, OpCode::PopT]
    }
}

/// The code that binds the argument of a function to its pattern.
pub open spec fn pattern_code(p: ProgramView, pat: Pattern) -> Emitted
    decreases pat, 0nat,
{
    let eval = pat.destruct is Some || pat.ty is Some;
    let c0 = if eval { seq![OpCode::EvalThunk] } else { Seq::empty() };
    let (p1, c1): Emitted = match pat.binding {
        Some(b) => if b.0@ != "_"@ {
            let (q, c) = load_str(p, b.0@);
            (q, (if eval { seq![OpCode::DupV] } else { Seq::empty() }) + c + seq![if eval { OpCode::BindValueScope } else { OpCode::BindThunkScope }])
        } else {
            (p, Seq::empty())
        },
        None => (p, Seq::empty()),
    };
    let (p2, c2): Emitted = match pat.destruct {
        Some(d) => match d.0 {
            PatternDestructKind::AttrSet { fields, .. } => fields_code(p1, fields@, fields.len() as int),
            PatternDestructKind::List { .. } => (p1, Seq::empty()),
        },
        None => (p1, Seq::empty()),
    };
    (p2, c0 + c1 + c2 + (if pat.ty is Some { seq![OpCode::PopV] } else { Seq::empty() }))
}

/// The code that binds the first `n` fields of an attribute pattern.
pub open spec fn fields_code(p: ProgramView, fields: Seq<Node<AttrPattern>>, n: int) -> Emitted
    decreases fields, n,
{
    if n <= 0 || n > fields.len() {
        (p, Seq::empty())
    } else {
        let (p1, c1) = fields_code(p, fields, n - 1);
        let field = fields[n - 1].0;
        let dup = if n - 1 != fields.len() - 1 { seq![OpCode::DupV] } else { Seq::empty() };
        let (p2, c2) = load_str(p1, field.attr.0@);
        let (p3, c3) = pattern_code(p2, field.pattern.0);
        (p3, c1 + dup + c2 + seq![OpCode::GetAttr] + c3)
    }
}

/// An operand that may stay unevaluated: the code that pushes it, and, when
/// it needs a thunk, where the code of the thunk starts.
pub open spec fn thunk_code(p: ProgramView, e: Node<mir::Expr>) -> (ProgramView, Seq<OpCode>, Option<CodePos>)
    decreases e, 0nat,
{
    match e.0 {
        mir::Expr::Ident(x) => {
            let (q, c) = load_str(p, x@);
            (q, c + seq![OpCode::LoadScope], None)
        },
        mir::Expr::Num(_) | mir::Expr::Str(_) | mir::Expr::List { .. } => {
            let (q, c) = expr_code(p, e.0, e.1);
            (q, c + seq![OpCode::UnEvalValue], None)
        },
        mir::Expr::AttrSet(set) => if set.dynamic_attrs.len() == 0 {
            let (q, c) = expr_code(p, e.0, e.1);
            (q, c + seq![OpCode::UnEvalValue], None)
        } else {
            let (q, c) = expr_code(p, e.0, e.1);
            (with_expr(q, e.1, c), Seq::empty(), Some(CodePos::from_index_spec(q.code.len() as usize)))
        },
        _ => {
            let (q, c) = expr_code(p, e.0, e.1);
            (with_expr(q, e.1, c), Seq::empty(), Some(CodePos::from_index_spec(q.code.len() as usize)))
        },
    }
}

/// The code of an operand pushed as a value or as a thunk.
pub open spec fn thunk_ops(t: (ProgramView, Seq<OpCode>, Option<CodePos>)) -> Seq<OpCode> {
    t.1 + match t.2 {
        Some(loc) => seq![OpCode::CreateThunk(loc)],
        None => Seq::empty(),
    }
}

/// The code that pushes the key of a path part.
pub open spec fn part_code(p: ProgramView, part: Node<mir::AttrPathPart>) -> Emitted
    decreases part, 0nat,
{
    match part.0 {
        mir::AttrPathPart::Ident(x) => load_str(p, x@),
        mir::AttrPathPart::Expr(e) => expr_code(p, e, part.1),
        mir::AttrPathPart::Num(n) => (p, seq![OpCode::LoadInt(n)]),
    }
}

/// The codes of the first `n` parts, each on its own.
pub open spec fn parts_codes(p: ProgramView, parts: Seq<Node<mir::AttrPathPart>>, n: int) -> (ProgramView, Seq<Seq<OpCode>>)
    decreases parts, n,
{
    if n <= 0 || n > parts.len() {
        (p, Seq::empty())
    } else {
        let (p1, cs) = parts_codes(p, parts, n - 1);
        let (p2, c) = part_code(p1, parts[n - 1]);
        (p2, cs.push(c))
    }
}

/// Looking up the first `n` parts one after the other.
pub open spec fn access_code(p: ProgramView, parts: Seq<Node<mir::AttrPathPart>>, n: int) -> Emitted
    decreases parts, n,
{
    if n <= 0 || n > parts.len() {
        (p, Seq::empty())
    } else {
        let (p1, c1) = access_code(p, parts, n - 1);
        let (p2, c2) = part_code(p1, parts[n - 1]);
        (p2, c1 + c2 + seq![OpCode::GetAttr, OpCode::EvalThunk])
    }
}

/// The first `n` bindings of a `let`, and how many of them start a thunk.
pub open spec fn let_code(p: ProgramView, bindings: Seq<mir::LetBinding>, n: int) -> (ProgramView, Seq<OpCode>, nat)
    decreases bindings, n,
{
    if n <= 0 || n > bindings.len() {
        (p, Seq::empty(), 0)
    } else {
        let (p1, c1, count) = let_code(p, bindings, n - 1);
        let b = bindings[n - 1];
        let t = thunk_code(p1, b.value);
        let (begin, count2): (Seq<OpCode>, nat) = match t.2 {
            Some(loc) => (t.1 + seq![OpCode::BeginThunk(loc), OpCode::DupT], count + 1),
            None => (t.1, count),
        };
        let (p3, c3) = load_str(t.0, b.id.0.binding.unwrap().0@);
        (p3, c1 + begin + c3 + seq![OpCode::BindThunkScope], count2)
    }
}

/// The statically named attributes among the first `n` that have a value.
pub open spec fn static_values_code(p: ProgramView, attrs: Seq<Node<mir::StaticAttr>>, n: int) -> Emitted
    decreases attrs, n,
{
    if n <= 0 || n > attrs.len() {
        (p, Seq::empty())
    } else {
        let (p1, c1) = static_values_code(p, attrs, n - 1);
        match attrs[n - 1].0.value {
            Some(v) => {
                let (p2, c2) = load_str(p1, attrs[n - 1].0.name.0@);
                let t = thunk_code(p2, v);
                (t.0, c1 + c2 + thunk_ops(t) + seq![OpCode::SetAttr])
            },
            None => (p1, c1),
        }
    }
}

/// The computed attributes among the first `n` that have a value.
pub open spec fn dynamic_values_code(p: ProgramView, attrs: Seq<Node<mir::DynamicAttr>>, n: int) -> Emitted
    decreases attrs, n,
{
    if n <= 0 || n > attrs.len() {
        (p, Seq::empty())
    } else {
        let (p1, c1) = dynamic_values_code(p, attrs, n - 1);
        match attrs[n - 1].0.value {
            Some(v) => {
                let (p2, c2) = part_code(p1, attrs[n - 1].0.part);
                let t = thunk_code(p2, v);
                (t.0, c1 + c2 + thunk_ops(t) + seq![OpCode::SetAttr])
            },
            None => (p1, c1),
        }
    }
}

/// The statically named attributes among the first `n` that are inherited
/// from the scope.
pub open spec fn static_inherits_code(p: ProgramView, attrs: Seq<Node<mir::StaticAttr>>, n: int) -> Emitted
    decreases n,
{
    if n <= 0 || n > attrs.len() {
        (p, Seq::empty())
    } else {
        let (p1, c1) = static_inherits_code(p, attrs, n - 1);
        if attrs[n - 1].0.value is None {
            let (p2, c2) = load_str(p1, attrs[n - 1].0.name.0@);
            (p2, c1 + c2 + seq![OpCode::DupV, OpCode::LoadScope, OpCode::SetAttr])
        } else {
            (p1, c1)
        }
    }
}

/// The computed attributes among the first `n` that are inherited from the
/// scope.
pub open spec fn dynamic_inherits_code(p: ProgramView, attrs: Seq<Node<mir::DynamicAttr>>, n: int) -> Emitted
    decreases attrs, n,
{
    if n <= 0 || n > attrs.len() {
        (p, Seq::empty())
    } else {
        let (p1, c1) = dynamic_inherits_code(p, attrs, n - 1);
        if attrs[n - 1].0.value is None {
            let (p2, c2) = part_code(p1, attrs[n - 1].0.part);
            (p2, c1 + c2 + seq![OpCode::DupV, OpCode::LoadScope, OpCode::SetAttr])
        } else {
            (p1, c1)
        }
    }
}

/// The first `n` elements of a list, each appended as a value or a thunk.
pub open spec fn list_code(p: ProgramView, elements: Seq<Node<mir::Expr>>, n: int) -> Emitted
    decreases elements, n,
{
    if n <= 0 || n > elements.len() {
        (p, Seq::empty())
    } else {
        let (p1, c1) = list_code(p, elements, n - 1);
        let t = thunk_code(p1, elements[n - 1]);
        (t.0, c1 + thunk_ops(t) + seq![OpCode::AppendList])
    }
}

pub open spec fn node_code(p: ProgramView, e: Node<mir::Expr>) -> Emitted
    decreases e, 1nat,
{
    expr_code(p, e.0, e.1)
}

/// The code of an expression with span `span`, and the program after the
/// functions and thunks it needs were added.
pub open spec fn expr_code(p: ProgramView, e: mir::Expr, span: Span) -> Emitted
    decreases e, 0nat,
{
    match e {
        mir::Expr::Lambda(l) => {
            let (p1, c1) = pattern_code(p, l.arg.0);
            let (p2, c2) = node_code(p1, *l.body);
            let p3 = with_lambda(p2, span, c1 + c2);
            (p3, seq![OpCode::LoadLambda(LambdaId::from_id(p3.lambdas.len() as usize))])
        },
        mir::Expr::FuncApp { func, arg } => {
            let (p1, c1) = node_code(p, *func);
            let t = thunk_code(p1, *arg);
            (t.0, c1 + thunk_ops(t) + seq![OpCode::Apply])
        },
        mir::Expr::IfThenElse { cond, then_expr, else_expr } => {
            let (p1, c1) = node_code(p, *cond);
            let (p2, c2) = node_code(p1, *then_expr);
            let (p3, c3) = node_code(p2, *else_expr);
            (p3, c1 + seq![OpCode::If(CodeLocOffset((c2.len() + 1) as usize))] + c2 + seq![OpCode::Branch(CodeLocOffset(c3.len() as usize))] + c3)
        },
        mir::Expr::BinOp { lhs, op, rhs } => {
            let (p1, c1) = node_code(p, *lhs);
            let (p2, c2) = node_code(p1, *rhs);
            if short_circuits(op.0) {
                (p2, c1 + seq![short_circuit_op(op.0, c2.len())] + c2)
            } else {
                (p2, c1 + c2 + seq![binop_op(op.0)])
            }
        },
        mir::Expr::UnOp { expr, op } => {
            let (p1, c1) = node_code(p, *expr);
            (p1, c1 + seq![if op.0 == mir::UnOp::Neg { OpCode::Neg } else { OpCode::Not }])
        },
        mir::Expr::Let { bindings, expr } => {
            let (p1, c1, count) = let_code(p, bindings@, bindings.len() as int);
            let (p2, c2) = node_code(p1, *expr);
            (p2, seq![OpCode::EnterScope] + c1 + finalize_ops(count) + c2 + seq![OpCode::LeaveScope])
        },
        mir::Expr::AttrSet(set) => {
            let (p1, c1) = static_values_code(p, set.static_attrs@, set.static_attrs.len() as int);
            let (p2, c2) = dynamic_values_code(p1, set.dynamic_attrs@, set.dynamic_attrs.len() as int);
            let (p3, c3) = static_inherits_code(p2, set.static_attrs@, set.static_attrs.len() as int);
            let (p4, c4) = dynamic_inherits_code(p3, set.dynamic_attrs@, set.dynamic_attrs.len() as int);
            (p4, seq![OpCode::CreateAttrSet] + c1 + c2 + c3 + c4)
        },
        mir::Expr::List { elements } => {
            let (p1, c1) = list_code(p, elements@, elements.len() as int);
            (p1, seq![OpCode::CreateList(elements.len())] + c1)
        },
        mir::Expr::AccessAttr { expr, path, or } => {
            let (p1, c1) = node_code(p, *expr);
            match or {
                Some(o) => {
                    let (p2, codes) = parts_codes(p1, path.0.parts@, path.0.parts.len() as int);
                    let (p3, c3) = node_code(p2, *o);
                    (p3, c1 + attr_or_code(codes, seq![OpCode::EvalThunk], c3))
                },
                None => {
                    let (p2, c2) = access_code(p1, path.0.parts@, path.0.parts.len() as int);
                    (p2, c1 + c2)
                },
            }
        },
        mir::Expr::HasAttr { expr, path } => {
            let (p1, c1) = node_code(p, *expr);
            let (p2, codes) = parts_codes(p1, path.0.parts@, path.0.parts.len() as int);
            (p2, c1 + attr_or_code(codes, seq![OpCode::PopT, OpCode::LoadBool(true)], seq![OpCode::LoadBool(false)]))
        },
        mir::Expr::Ident(x) => if x@ == "true"@ {
            (p, seq![OpCode::LoadBool(true)])
        } else if x@ == "false"@ {
            (p, seq![OpCode::LoadBool(false)])
        } else {
            let (q, c) = load_str(p, x@);
            (q, c + seq![OpCode::LoadScope, OpCode::EvalThunk])
        },
        mir::Expr::Num(Num::Int(v)) => (p, seq![OpCode::LoadInt(v)]),
        mir::Expr::Num(Num::Float(t)) => {
            let q = with_str(p, t@);
            (q, seq![OpCode::LoadFloat(StrId::from_id(q.strings.len() as usize))])
        },
        mir::Expr::Str(s) => load_str(p, s@),
    }
}

/// The program after compiling a whole program's expression, and where its
/// code starts.
pub open spec fn top_level_code(p: ProgramView, e: Node<mir::Expr>) -> (ProgramView, CodePos) {
    let (q, c) = node_code(p, e);
    (with_expr(q, e.1, c), CodePos::from_index_spec(q.code.len() as usize))
}

/// Compiling an expression adds to a program and changes nothing that was
/// already in it: its code, functions, expressions and strings stay where
/// they were.
pub proof fn law_compiling_keeps_program(p: ProgramView, e: Node<mir::Expr>)
    ensures
        grows(p, top_level_code(p, e).0),
{
    lemma_node_code_grows(p, e);
    let (q, c) = node_code(p, e);
    lemma_with_code_grows(q, e.1, c);
    lemma_grows_trans(p, q, top_level_code(p, e).0);
}

/// An operator that does not short-circuit is computed after both of its
/// operands by the instruction of the same operator: the code of `lhs op rhs`
/// ends with `Add` for `+`, `Lt` for `<`, `Ne` for `!=`, and so on.
pub proof fn law_operator_instruction(p: ProgramView, lhs: Node<mir::Expr>, op: Node<mir::BinOp>, rhs: Node<mir::Expr>, span: Span)
    requires
        !short_circuits(op.0),
    ensures
        ({
            let c = expr_code(p, mir::Expr::BinOp { lhs: Box::new(lhs), op, rhs: Box::new(rhs) }, span).1;
            let (p1, c1) = node_code(p, lhs);
            let c2 = node_code(p1, rhs).1;
            &&& c == c1 + c2 + seq![c.last()]
            &&& op.0 == mir::BinOp::Add ==> c.last() == OpCode::Add
            &&& op.0 == mir::BinOp::Sub ==> c.last() == OpCode::Sub
            &&& op.0 == mir::BinOp::Mul ==> c.last() == OpCode::Mul
            &&& op.0 == mir::BinOp::Div ==> c.last() == OpCode::Div
            &&& op.0 == mir::BinOp::Rem ==> c.last() == OpCode::Rem
            &&& op.0 == mir::BinOp::Lt ==> c.last() == OpCode::Lt
            &&& op.0 == mir::BinOp::Lte ==> c.last() == OpCode::Lte
            &&& op.0 == mir::BinOp::Gt ==> c.last() == OpCode::Gt
            &&& op.0 == mir::BinOp::Gte ==> c.last() == OpCode::Gte
            &&& op.0 == mir::BinOp::Eq ==> c.last() == OpCode::Eq
            &&& op.0 == mir::BinOp::Ne ==> c.last() == OpCode::Ne
        }),
{
    let c = expr_code(p, mir::Expr::BinOp { lhs: Box::new(lhs), op, rhs: Box::new(rhs) }, span).1;
    let (p1, c1) = node_code(p, lhs);
    let c2 = node_code(p1, rhs).1;
    assert(c =~= c1 + c2 + seq![c.last()]);
}

/// `&&`, `||` and `->` test their left operand and then jump over the code
/// of their right operand with the instruction of the same operator.
pub proof fn law_short_circuit_instruction(p: ProgramView, lhs: Node<mir::Expr>, op: Node<mir::BinOp>, rhs: Node<mir::Expr>, span: Span)
    requires
        short_circuits(op.0),
    ensures
        ({
            let c = expr_code(p, mir::Expr::BinOp { lhs: Box::new(lhs), op, rhs: Box::new(rhs) }, span).1;
            let (p1, c1) = node_code(p, lhs);
            let c2 = node_code(p1, rhs).1;
            let over = CodeLocOffset(c2.len() as usize);
            &&& c == c1 + seq![c[c1.len() as int]] + c2
            &&& op.0 == mir::BinOp::And ==> c[c1.len() as int] == OpCode::And(over)
            &&& op.0 == mir::BinOp::Or ==> c[c1.len() as int] == OpCode::Or(over)
            &&& op.0 == mir::BinOp::LogImp ==> c[c1.len() as int] == OpCode::LogImp(over)
        }),
{
    let c = expr_code(p, mir::Expr::BinOp { lhs: Box::new(lhs), op, rhs: Box::new(rhs) }, span).1;
    let (p1, c1) = node_code(p, lhs);
    let c2 = node_code(p1, rhs).1;
    assert(c =~= c1 + seq![c[c1.len() as int]] + c2);
}

/// A prefix operator is computed after its operand by the instruction of
/// the same operator: `Neg` for `-`, `Not` for `!`.
pub proof fn law_prefix_instruction(p: ProgramView, expr: Node<mir::Expr>, op: Node<mir::UnOp>, span: Span)
    ensures
        ({
            let c = expr_code(p, mir::Expr::UnOp { expr: Box::new(expr), op }, span).1;
            &&& c == node_code(p, expr).1 + seq![c.last()]
            &&& op.0 == mir::UnOp::Neg ==> c.last() == OpCode::Neg
            &&& op.0 == mir::UnOp::Not ==> c.last() == OpCode::Not
        }),
{
    let c = expr_code(p, mir::Expr::UnOp { expr: Box::new(expr), op }, span).1;
    assert(c =~= node_code(p, expr).1 + seq![c.last()]);
}

/// Literals load themselves: an integer by its value, `true` and `false` as
/// booleans.
pub proof fn law_literal_instructions(p: ProgramView, v: i64, x: &str, span: Span)
    ensures
        expr_code(p, mir::Expr::Num(Num::Int(v)), span).1 == seq![OpCode::LoadInt(v)],
        x@ == "true"@ ==> expr_code(p, mir::Expr::Ident(x), span).1 == seq![OpCode::LoadBool(true)],
        x@ == "false"@ ==> expr_code(p, mir::Expr::Ident(x), span).1 == seq![OpCode::LoadBool(false)],
{
    reveal_strlit("true");
    reveal_strlit("false");
    assert("false"@ != "true"@) by {
        assert("false"@.len() != "true"@.len());
    }
}

/// A conditional tests its condition, and on false jumps to the first
/// instruction of the else branch; the then branch ends with a jump to just
/// past the else branch.
pub proof fn law_conditional_targets(p: ProgramView, cond: Node<mir::Expr>, then_expr: Node<mir::Expr>, else_expr: Node<mir::Expr>, span: Span)
    requires
        expr_code(p, mir::Expr::IfThenElse { cond: Box::new(cond), then_expr: Box::new(then_expr), else_expr: Box::new(else_expr) }, span).1.len() <= usize::MAX,
    ensures
        ({
            let c = expr_code(p, mir::Expr::IfThenElse { cond: Box::new(cond), then_expr: Box::new(then_expr), else_expr: Box::new(else_expr) }, span).1;
            let (p1, c1) = node_code(p, cond);
            let (p2, c2) = node_code(p1, then_expr);
            let c3 = node_code(p2, else_expr).1;
            let at_if = c1.len() as int;
            let at_branch: int = c1.len() + 1 + c2.len() as int;
            &&& c.len() == c1.len() + c2.len() + c3.len() + 2
            &&& c.subrange(0, at_if) == c1
            &&& c[at_if] matches OpCode::If(o) && at_if + 1 + o.len() == at_branch + 1
            &&& c.subrange(at_if + 1, at_branch) == c2
            &&& c[at_branch] matches OpCode::Branch(o) && at_branch + 1 + o.len() == c.len()
            &&& c.subrange(at_branch + 1, c.len() as int) == c3
        }),
{
    let c = expr_code(p, mir::Expr::IfThenElse { cond: Box::new(cond), then_expr: Box::new(then_expr), else_expr: Box::new(else_expr) }, span).1;
    let (p1, c1) = node_code(p, cond);
    let (p2, c2) = node_code(p1, then_expr);
    let c3 = node_code(p2, else_expr).1;
    let at_if = c1.len() as int;
    let at_branch: int = c1.len() + 1 + c2.len() as int;
    assert(c.subrange(0, at_if) =~= c1);
    assert(c.subrange(at_if + 1, at_branch) =~= c2);
    assert(c.subrange(at_branch + 1, c.len() as int) =~= c3);
}

proof fn lemma_load_str_grows(p: ProgramView, s: Seq<char>)
    ensures
        grows(p, load_str(p, s).0),
{
    lemma_with_str_grows(p, s);
}

proof fn lemma_pattern_code_grows(p: ProgramView, pat: Pattern)
    ensures
        grows(p, pattern_code(p, pat).0),
    decreases pat, 0nat,
{
    lemma_grows_refl(p);
    let p1 = match pat.binding {
        Some(b) => if b.0@ != "_"@ {
            lemma_load_str_grows(p, b.0@);
            load_str(p, b.0@).0
        } else {
            p
        },
        None => p,
    };
    match pat.destruct {
        Some(d) => match d.0 {
            PatternDestructKind::AttrSet { fields, .. } => {
                lemma_fields_code_grows(p1, fields@, fields.len() as int);
                lemma_grows_trans(p, p1, pattern_code(p, pat).0);
            },
            PatternDestructKind::List { .. } => {},
        },
        None => {},
    }
}

proof fn lemma_fields_code_grows(p: ProgramView, fields: Seq<Node<AttrPattern>>, n: int)
    ensures
        grows(p, fields_code(p, fields, n).0),
    decreases fields, n,
{
    if n <= 0 || n > fields.len() {
        lemma_grows_refl(p);
    } else {
        lemma_fields_code_grows(p, fields, n - 1);
        let (p1, _) = fields_code(p, fields, n - 1);
        let field = fields[n - 1].0;
        lemma_load_str_grows(p1, field.attr.0@);
        let (p2, _) = load_str(p1, field.attr.0@);
        lemma_pattern_code_grows(p2, field.pattern.0);
        lemma_grows_trans(p, p1, p2);
        lemma_grows_trans(p, p2, pattern_code(p2, field.pattern.0).0);
    }
}

proof fn lemma_thunk_code_grows(p: ProgramView, e: Node<mir::Expr>)
    ensures
        grows(p, thunk_code(p, e).0),
    decreases e, 0nat,
{
    match e.0 {
        mir::Expr::Ident(x) => lemma_load_str_grows(p, x@),
        mir::Expr::Num(_) | mir::Expr::Str(_) | mir::Expr::List { .. } => lemma_expr_code_grows(p, e.0, e.1),
        _ => {
            lemma_expr_code_grows(p, e.0, e.1);
            let (q, c) = expr_code(p, e.0, e.1);
            lemma_with_code_grows(q, e.1, c);
            lemma_grows_trans(p, q, with_expr(q, e.1, c));
        },
    }
}

proof fn lemma_part_code_grows(p: ProgramView, part: Node<mir::AttrPathPart>)
    ensures
        grows(p, part_code(p, part).0),
    decreases part, 0nat,
{
    match part.0 {
        mir::AttrPathPart::Ident(x) => lemma_load_str_grows(p, x@),
        mir::AttrPathPart::Expr(e) => lemma_expr_code_grows(p, e, part.1),
        mir::AttrPathPart::Num(_) => lemma_grows_refl(p),
    }
}

proof fn lemma_parts_codes_grows(p: ProgramView, parts: Seq<Node<mir::AttrPathPart>>, n: int)
    ensures
        grows(p, parts_codes(p, parts, n).0),
    decreases parts, n,
{
    if n <= 0 || n > parts.len() {
        lemma_grows_refl(p);
    } else {
        lemma_parts_codes_grows(p, parts, n - 1);
        let (p1, _) = parts_codes(p, parts, n - 1);
        lemma_part_code_grows(p1, parts[n - 1]);
        lemma_grows_trans(p, p1, part_code(p1, parts[n - 1]).0);
    }
}

proof fn lemma_access_code_grows(p: ProgramView, parts: Seq<Node<mir::AttrPathPart>>, n: int)
    ensures
        grows(p, access_code(p, parts, n).0),
    decreases parts, n,
{
    if n <= 0 || n > parts.len() {
        lemma_grows_refl(p);
    } else {
        lemma_access_code_grows(p, parts, n - 1);
        let (p1, _) = access_code(p, parts, n - 1);
        lemma_part_code_grows(p1, parts[n - 1]);
        lemma_grows_trans(p, p1, part_code(p1, parts[n - 1]).0);
    }
}

proof fn lemma_let_code_grows(p: ProgramView, bindings: Seq<mir::LetBinding>, n: int)
    ensures
        grows(p, let_code(p, bindings, n).0),
    decreases bindings, n,
{
    if n <= 0 || n > bindings.len() {
        lemma_grows_refl(p);
    } else {
        lemma_let_code_grows(p, bindings, n - 1);
        let (p1, _, _) = let_code(p, bindings, n - 1);
        let b = bindings[n - 1];
        lemma_thunk_code_grows(p1, b.value);
        let t = thunk_code(p1, b.value);
        lemma_load_str_grows(t.0, b.id.0.binding.unwrap().0@);
        lemma_grows_trans(p, p1, t.0);
        lemma_grows_trans(p, t.0, load_str(t.0, b.id.0.binding.unwrap().0@).0);
    }
}

proof fn lemma_static_values_code_grows(p: ProgramView, attrs: Seq<Node<mir::StaticAttr>>, n: int)
    ensures
        grows(p, static_values_code(p, attrs, n).0),
    decreases attrs, n,
{
    if n <= 0 || n > attrs.len() {
        lemma_grows_refl(p);
    } else {
        lemma_static_values_code_grows(p, attrs, n - 1);
        let (p1, _) = static_values_code(p, attrs, n - 1);
        match attrs[n - 1].0.value {
            Some(v) => {
                lemma_load_str_grows(p1, attrs[n - 1].0.name.0@);
                let (p2, _) = load_str(p1, attrs[n - 1].0.name.0@);
                lemma_thunk_code_grows(p2, v);
                lemma_grows_trans(p, p1, p2);
                lemma_grows_trans(p, p2, thunk_code(p2, v).0);
            },
            None => {},
        }
    }
}

proof fn lemma_dynamic_values_code_grows(p: ProgramView, attrs: Seq<Node<mir::DynamicAttr>>, n: int)
    ensures
        grows(p, dynamic_values_code(p, attrs, n).0),
    decreases attrs, n,
{
    if n <= 0 || n > attrs.len() {
        lemma_grows_refl(p);
    } else {
        lemma_dynamic_values_code_grows(p, attrs, n - 1);
        let (p1, _) = dynamic_values_code(p, attrs, n - 1);
        match attrs[n - 1].0.value {
            Some(v) => {
                lemma_part_code_grows(p1, attrs[n - 1].0.part);
                let (p2, _) = part_code(p1, attrs[n - 1].0.part);
                lemma_thunk_code_grows(p2, v);
                lemma_grows_trans(p, p1, p2);
                lemma_grows_trans(p, p2, thunk_code(p2, v).0);
            },
            None => {},
        }
    }
}

proof fn lemma_static_inherits_code_grows(p: ProgramView, attrs: Seq<Node<mir::StaticAttr>>, n: int)
    ensures
        grows(p, static_inherits_code(p, attrs, n).0),
    decreases n,
{
    if n <= 0 || n > attrs.len() {
        lemma_grows_refl(p);
    } else {
        lemma_static_inherits_code_grows(p, attrs, n - 1);
        let (p1, _) = static_inherits_code(p, attrs, n - 1);
        if attrs[n - 1].0.value is None {
            lemma_load_str_grows(p1, attrs[n - 1].0.name.0@);
            lemma_grows_trans(p, p1, load_str(p1, attrs[n - 1].0.name.0@).0);
        }
    }
}

proof fn lemma_dynamic_inherits_code_grows(p: ProgramView, attrs: Seq<Node<mir::DynamicAttr>>, n: int)
    ensures
        grows(p, dynamic_inherits_code(p, attrs, n).0),
    decreases attrs, n,
{
    if n <= 0 || n > attrs.len() {
        lemma_grows_refl(p);
    } else {
        lemma_dynamic_inherits_code_grows(p, attrs, n - 1);
        let (p1, _) = dynamic_inherits_code(p, attrs, n - 1);
        if attrs[n - 1].0.value is None {
            lemma_part_code_grows(p1, attrs[n - 1].0.part);
            lemma_grows_trans(p, p1, part_code(p1, attrs[n - 1].0.part).0);
        }
    }
}

proof fn lemma_list_code_grows(p: ProgramView, elements: Seq<Node<mir::Expr>>, n: int)
    ensures
        grows(p, list_code(p, elements, n).0),
    decreases elements, n,
{
    if n <= 0 || n > elements.len() {
        lemma_grows_refl(p);
    } else {
        lemma_list_code_grows(p, elements, n - 1);
        let (p1, _) = list_code(p, elements, n - 1);
        lemma_thunk_code_grows(p1, elements[n - 1]);
        lemma_grows_trans(p, p1, thunk_code(p1, elements[n - 1]).0);
    }
}

proof fn lemma_node_code_grows(p: ProgramView, e: Node<mir::Expr>)
    ensures
        grows(p, node_code(p, e).0),
    decreases e, 1nat,
{
    lemma_expr_code_grows(p, e.0, e.1);
}

proof fn lemma_expr_code_grows(p: ProgramView, e: mir::Expr, span: Span)
    ensures
        grows(p, expr_code(p, e, span).0),
    decreases e, 0nat,
{
    lemma_grows_refl(p);
    match e {
        mir::Expr::Lambda(l) => {
            lemma_pattern_code_grows(p, l.arg.0);
            let (p1, c1) = pattern_code(p, l.arg.0);
            lemma_node_code_grows(p1, *l.body);
            let (p2, c2) = node_code(p1, *l.body);
            lemma_with_code_grows(p2, span, c1 + c2);
            lemma_grows_trans(p, p1, p2);
            lemma_grows_trans(p, p2, with_lambda(p2, span, c1 + c2));
        },
        mir::Expr::FuncApp { func, arg } => {
            lemma_node_code_grows(p, *func);
            let (p1, _) = node_code(p, *func);
            lemma_thunk_code_grows(p1, *arg);
            lemma_grows_trans(p, p1, thunk_code(p1, *arg).0);
        },
        mir::Expr::IfThenElse { cond, then_expr, else_expr } => {
            lemma_node_code_grows(p, *cond);
            let (p1, _) = node_code(p, *cond);
            lemma_node_code_grows(p1, *then_expr);
            let (p2, _) = node_code(p1, *then_expr);
            lemma_node_code_grows(p2, *else_expr);
            lemma_grows_trans(p, p1, p2);
            lemma_grows_trans(p, p2, node_code(p2, *else_expr).0);
        },
        mir::Expr::BinOp { lhs, rhs, .. } => {
            lemma_node_code_grows(p, *lhs);
            let (p1, _) = node_code(p, *lhs);
            lemma_node_code_grows(p1, *rhs);
            lemma_grows_trans(p, p1, node_code(p1, *rhs).0);
        },
        mir::Expr::UnOp { expr, .. } => lemma_node_code_grows(p, *expr),
        mir::Expr::Let { bindings, expr } => {
            lemma_let_code_grows(p, bindings@, bindings.len() as int);
            let (p1, _, _) = let_code(p, bindings@, bindings.len() as int);
            lemma_node_code_grows(p1, *expr);
            lemma_grows_trans(p, p1, node_code(p1, *expr).0);
        },
        mir::Expr::AttrSet(set) => {
            lemma_static_values_code_grows(p, set.static_attrs@, set.static_attrs.len() as int);
            let (p1, _) = static_values_code(p, set.static_attrs@, set.static_attrs.len() as int);
            lemma_dynamic_values_code_grows(p1, set.dynamic_attrs@, set.dynamic_attrs.len() as int);
            let (p2, _) = dynamic_values_code(p1, set.dynamic_attrs@, set.dynamic_attrs.len() as int);
            lemma_static_inherits_code_grows(p2, set.static_attrs@, set.static_attrs.len() as int);
            let (p3, _) = static_inherits_code(p2, set.static_attrs@, set.static_attrs.len() as int);
            lemma_dynamic_inherits_code_grows(p3, set.dynamic_attrs@, set.dynamic_attrs.len() as int);
            lemma_grows_trans(p, p1, p2);
            lemma_grows_trans(p, p2, p3);
            lemma_grows_trans(p, p3, dynamic_inherits_code(p3, set.dynamic_attrs@, set.dynamic_attrs.len() as int).0);
        },
        mir::Expr::List { elements } => lemma_list_code_grows(p, elements@, elements.len() as int),
        mir::Expr::AccessAttr { expr, path, or } => {
            lemma_node_code_grows(p, *expr);
            let (p1, _) = node_code(p, *expr);
            match or {
                Some(o) => {
                    lemma_parts_codes_grows(p1, path.0.parts@, path.0.parts.len() as int);
                    let (p2, _) = parts_codes(p1, path.0.parts@, path.0.parts.len() as int);
                    lemma_node_code_grows(p2, *o);
                    lemma_grows_trans(p, p1, p2);
                    lemma_grows_trans(p, p2, node_code(p2, *o).0);
                },
                None => {
                    lemma_access_code_grows(p1, path.0.parts@, path.0.parts.len() as int);
                    lemma_grows_trans(p, p1, access_code(p1, path.0.parts@, path.0.parts.len() as int).0);
                },
            }
        },
        mir::Expr::HasAttr { expr, path } => {
            lemma_node_code_grows(p, *expr);
            let (p1, _) = node_code(p, *expr);
            lemma_parts_codes_grows(p1, path.0.parts@, path.0.parts.len() as int);
            lemma_grows_trans(p, p1, parts_codes(p1, path.0.parts@, path.0.parts.len() as int).0);
        },
        mir::Expr::Ident(x) => {
            if x@ != "true"@ && x@ != "false"@ {
                lemma_load_str_grows(p, x@);
            }
        },
        mir::Expr::Num(Num::Int(_)) => {},
        mir::Expr::Num(Num::Float(t)) => lemma_with_str_grows(p, t@),
        mir::Expr::Str(s) => lemma_load_str_grows(p, s@),
    }
}

impl Compiler {
    pub fn new() -> (c: Self)
        ensures
            c == (Compiler {}),
    {
        Compiler {}
    }

    /// Compiles a program's expression into `program`, ended by `Ret`, and
    /// returns where its code starts.
    pub fn compile_top_level(&self, program: &mut Program, expr: &Node<mir::Expr<'_>>) -> (r: CodePos)
        requires
            lets_named(expr.0),
        ensures
            (final(program)@, r) == top_level_code(old(program)@, *expr),
    {
        let mut builder = ByteCodeBuilder::new();
        self.compile_expr(program, &mut builder, expr);
        let code = builder.finish();
        let (_, loc) = program.emit_expr(expr.1, code);
        loc
    }

    fn compile_lambda_pattern(&self, program: &mut Program, builder: &mut ByteCodeBuilder, pattern: &Node<Pattern<'_>>)
        ensures
            final(program)@ == pattern_code(old(program)@, pattern.0).0,
            final(builder).code() == old(builder).code() + pattern_code(old(program)@, pattern.0).1,
    {
        self.compile_lambda_pattern_rec(program, builder, pattern);
    }

    fn compile_lambda_pattern_rec(&self, program: &mut Program, builder: &mut ByteCodeBuilder, pattern: &Node<Pattern<'_>>)
        ensures
            final(program)@ == pattern_code(old(program)@, pattern.0).0,
            final(builder).code() == old(builder).code() + pattern_code(old(program)@, pattern.0).1,
        decreases pattern,
    {
        let ghost p0 = program@;
        let ghost b0 = builder.code();
        let eval = pattern.0.destruct.is_some() || pattern.0.ty.is_some();
        if eval {
            builder.emit(OpCode::EvalThunk);
        }
        match pattern.0.binding {
            Some(binding) => {
                if !str_eq(binding.0, "_") {
                    if eval {
                        builder.emit(OpCode::DupV);
                    }
                    builder.emit_load_str(program, binding.0);
                    if eval {
                        builder.emit(OpCode::BindValueScope);
                    } else {
                        builder.emit(OpCode::BindThunkScope);
                    }
                }
            },
            None => {},
        }
        let ghost p1 = program@;
        let ghost b1 = builder.code();
        match &pattern.0.destruct {
            Some(destruct) => match &destruct.0 {
                PatternDestructKind::AttrSet { fields, .. } => {
                    let mut i: usize = 0;
                    assert(b1 + fields_code(p1, fields@, 0).1 =~= b1);
                    while i < fields.len()
                        invariant
                            pattern.0.destruct == Some(*destruct),
                            destruct.0 is AttrSet,
                            destruct.0->AttrSet_fields == *fields,
                            i <= fields@.len(),
                            program@ == fields_code(p1, fields@, i as int).0,
                            builder.code() == b1 + fields_code(p1, fields@, i as int).1,
                        decreases fields@.len() - i,
                    {
                        let ghost bi = builder.code();
                        let field = &fields[i].0;
                        if i != fields.len() - 1 {
                            builder.emit(OpCode::DupV);
                        }
                        builder.emit_load_str(program, field.attr.0);
                        builder.emit(OpCode::GetAttr);
                        proof {
                            let dd = pattern.0.destruct->0;
                            assert(decreases_to!(pattern.0 => pattern.0.destruct));
                            assert(decreases_to!(pattern.0.destruct => dd));
                            assert(decreases_to!(dd => dd.0));
                            assert(decreases_to!(dd.0 => dd.0->AttrSet_fields));
                            assert(decreases_to!(dd.0->AttrSet_fields => fields@));
                            assert(decreases_to!(fields@ => fields@[i as int]));
                            assert(decreases_to!(fields@[i as int] => fields@[i as int].0));
                            assert(decreases_to!(fields@[i as int].0 => fields@[i as int].0.pattern));
                        }
                        self.compile_lambda_pattern_rec(program, builder, &field.pattern);
                        i = i + 1;
                        assert(builder.code() =~= b1 + fields_code(p1, fields@, i as int).1);
                    }
                },
                PatternDestructKind::List { .. } => {},
            },
            None => {},
        }
        if pattern.0.ty.is_some() {
            builder.emit(OpCode::PopV);
        }
        assert(builder.code() =~= b0 + pattern_code(p0, pattern.0).1);
    }

    /// Pushes an operand that may stay unevaluated: a name is looked up in
    /// the scope, a literal, a list or a set without computed names is
    /// pushed as a value, and anything else becomes an expression of the
    /// program whose start is returned.
    fn compile_maybe_thunk(&self, program: &mut Program, builder: &mut ByteCodeBuilder, expr: &Node<mir::Expr<'_>>) -> (r: Option<CodePos>)
        requires
            lets_named(expr.0),
        ensures
            final(program)@ == thunk_code(old(program)@, *expr).0,
            final(builder).code() == old(builder).code() + thunk_code(old(program)@, *expr).1,
            r == thunk_code(old(program)@, *expr).2,
        decreases expr,
    {
        let ghost b0 = builder.code();
        let as_value = match &expr.0 {
            mir::Expr::Ident(_) | mir::Expr::Num(_) | mir::Expr::Str(_) | mir::Expr::List { .. } => true,
            mir::Expr::AttrSet(set) => set.dynamic_attrs.len() == 0,
            _ => false,
        };
        if let mir::Expr::Ident(ident) = &expr.0 {
            builder.emit_load_str(program, ident);
            builder.emit(OpCode::LoadScope);
            assert(builder.code() =~= b0 + thunk_code(old(program)@, *expr).1);
            None
        } else if as_value {
            self.compile_kind(program, builder, &expr.0, expr.1);
            builder.emit(OpCode::UnEvalValue);
            assert(builder.code() =~= b0 + thunk_code(old(program)@, *expr).1);
            None
        } else {
            let mut inner = ByteCodeBuilder::new();
            self.compile_kind(program, &mut inner, &expr.0, expr.1);
            let code = inner.finish();
            let (_, loc) = program.emit_expr(expr.1, code);
            assert(builder.code() =~= b0 + thunk_code(old(program)@, *expr).1);
            Some(loc)
        }
    }

    fn compile_expr(&self, program: &mut Program, builder: &mut ByteCodeBuilder, expr: &Node<mir::Expr<'_>>)
        requires
            lets_named(expr.0),
        ensures
            final(program)@ == node_code(old(program)@, *expr).0,
            final(builder).code() == old(builder).code() + node_code(old(program)@, *expr).1,
        decreases expr,
    {
        self.compile_kind(program, builder, &expr.0, expr.1);
    }

    fn compile_attr_part(&self, program: &mut Program, builder: &mut ByteCodeBuilder, part: &Node<mir::AttrPathPart<'_>>)
        requires
            part_lets_named(*part),
        ensures
            final(program)@ == part_code(old(program)@, *part).0,
            final(builder).code() == old(builder).code() + part_code(old(program)@, *part).1,
        decreases part,
    {
        match &part.0 {
            mir::AttrPathPart::Ident(ident) => builder.emit_load_str(program, ident),
            mir::AttrPathPart::Expr(e) => self.compile_kind(program, builder, e, part.1),
            mir::AttrPathPart::Num(n) => builder.emit_load_int(*n),
        }
    }
}

impl Compiler {
    #[verifier::rlimit(60)]
    #[verifier::spinoff_prover]
    fn compile_kind(&self, program: &mut Program, builder: &mut ByteCodeBuilder, e: &mir::Expr<'_>, span: Span)
        requires
            lets_named(*e),
        ensures
            final(program)@ == expr_code(old(program)@, *e, span).0,
            final(builder).code() == old(builder).code() + expr_code(old(program)@, *e, span).1,
        decreases e,
    {
        let ghost p0 = program@;
        let ghost b0 = builder.code();
        match e {
            mir::Expr::Lambda(lambda) => {
                let mut body = ByteCodeBuilder::new();
                self.compile_lambda_pattern(program, &mut body, &lambda.arg);
                self.compile_expr(program, &mut body, &lambda.body);
                let code = body.finish();
                builder.emit_load_lambda(program, span, code);
            },
            mir::Expr::FuncApp { func, arg } => {
                self.compile_expr(program, builder, func);
                let loc = self.compile_maybe_thunk(program, builder, arg);
                builder.maybe_emit_create_thunk(loc);
                builder.emit(OpCode::Apply);
            },
            mir::Expr::IfThenElse { cond, then_expr, else_expr } => {
                self.compile_expr(program, builder, cond);
                let mut then_builder = ByteCodeBuilder::new();
                self.compile_expr(program, &mut then_builder, then_expr);
                let then_branch = builder.emit_if_then(then_builder.finish());
                let mut else_builder = ByteCodeBuilder::new();
                self.compile_expr(program, &mut else_builder, else_expr);
                then_branch.emit_else(builder, else_builder.finish());
            },
            mir::Expr::BinOp { lhs, op, rhs } => {
                self.compile_expr(program, builder, lhs);
                match op.0 {
                    mir::BinOp::And | mir::BinOp::Or | mir::BinOp::LogImp => {
                        let mut second = ByteCodeBuilder::new();
                        self.compile_expr(program, &mut second, rhs);
                        let code = second.finish();
                        match op.0 {
                            mir::BinOp::And => builder.emit_and(code),
                            mir::BinOp::Or => builder.emit_or(code),
                            _ => builder.emit_log_imp(code),
                        }
                    },
                    kind => {
                        self.compile_expr(program, builder, rhs);
                        let instr = match kind {
                            mir::BinOp::Rem => OpCode::Rem,
                            mir::BinOp::Div => OpCode::Div,
                            mir::BinOp::Mul => OpCode::Mul,
                            mir::BinOp::Sub => OpCode::Sub,
                            mir::BinOp::Add => OpCode::Add,
                            mir::BinOp::Lt => OpCode::Lt,
                            mir::BinOp::Lte => OpCode::Lte,
                            mir::BinOp::Gt => OpCode::Gt,
                            mir::BinOp::Gte => OpCode::Gte,
                            mir::BinOp::Eq => OpCode::Eq,
                            _ => OpCode::Ne,
                        };
                        builder.emit(instr);
                    },
                }
            },
            mir::Expr::UnOp { expr, op } => {
                self.compile_expr(program, builder, expr);
                match op.0 {
                    mir::UnOp::Neg => builder.emit(OpCode::Neg),
                    mir::UnOp::Not => builder.emit(OpCode::Not),
                }
            },
            mir::Expr::Let { bindings, expr } => {
                builder.emit(OpCode::EnterScope);
                let ghost b1 = builder.code();
                let mut to_finalize: usize = 0;
                let mut i: usize = 0;
                while i < bindings.len()
                    invariant
                        *e is Let,
                        e->Let_bindings == *bindings,
                        lets_named(*e),
                        i <= bindings@.len(),
                        to_finalize <= i,
                        program@ == let_code(p0, bindings@, i as int).0,
                        builder.code() == b1 + let_code(p0, bindings@, i as int).1,
                        to_finalize == let_code(p0, bindings@, i as int).2,
                    decreases bindings@.len() - i,
                {
                    let binding = &bindings[i];
                    assert(binding.id.0.binding is Some && lets_named(binding.value.0));
                    proof {
                        assert(decreases_to!(*e => e->Let_bindings));
                        assert(decreases_to!(e->Let_bindings => bindings@));
                        assert(decreases_to!(bindings@ => bindings@[i as int]));
                        assert(decreases_to!(bindings@[i as int] => bindings@[i as int].value));
                    }
                    let loc = self.compile_maybe_thunk(program, builder, &binding.value);
                    match loc {
                        Some(l) => {
                            builder.emit(OpCode::BeginThunk(l));
                            to_finalize = to_finalize + 1;
                            builder.emit(OpCode::DupT);
                        },
                        None => {},
                    }
                    let name = binding.id.0.binding.unwrap();
                    builder.emit_load_str(program, name.0);
                    builder.emit(OpCode::BindThunkScope);
                    i = i + 1;
                    assert(builder.code() =~= b1 + let_code(p0, bindings@, i as int).1);
                }
                let ghost b2 = builder.code();
                let mut k: usize = 0;
                assert(b2 + finalize_ops(0) =~= b2);
                while k < to_finalize
                    invariant
                        k <= to_finalize,
                        builder.code() == b2 + finalize_ops(k as nat),
                    decreases to_finalize - k,
                {
                    builder.emit(OpCode::FinalizeThunk);
                    builder.emit(OpCode::PopT);
                    k = k + 1;
                    assert(builder.code() =~= b2 + finalize_ops(k as nat));
                }
                self.compile_expr(program, builder, expr);
                builder.emit(OpCode::LeaveScope);
            },
            mir::Expr::AttrSet(set) => {
                builder.emit(OpCode::CreateAttrSet);
                self.compile_attr_set_values(program, builder, e, set);
            },
            mir::Expr::List { elements } => {
                builder.emit_create_list(elements.len());
                let ghost b1 = builder.code();
                let mut i: usize = 0;
                assert(b1 + list_code(p0, elements@, 0).1 =~= b1);
                while i < elements.len()
                    invariant
                        *e is List,
                        e->List_elements == *elements,
                        lets_named(*e),
                        i <= elements@.len(),
                        program@ == list_code(p0, elements@, i as int).0,
                        builder.code() == b1 + list_code(p0, elements@, i as int).1,
                    decreases elements@.len() - i,
                {
                    assert(lets_named(elements@[i as int].0));
                    proof {
                        assert(decreases_to!(*e => e->List_elements));
                        assert(decreases_to!(e->List_elements => elements@));
                        assert(decreases_to!(elements@ => elements@[i as int]));
                    }
                    let loc = self.compile_maybe_thunk(program, builder, &elements[i]);
                    builder.maybe_emit_create_thunk(loc);
                    builder.emit(OpCode::AppendList);
                    i = i + 1;
                    assert(builder.code() =~= b1 + list_code(p0, elements@, i as int).1);
                }
            },
            mir::Expr::AccessAttr { expr, path, or } => {
                self.compile_expr(program, builder, expr);
                match or {
                    Some(fallback_expr) => {
                        let ghost p1 = program@;
                        let parts = self.compile_parts(program, e, &path.0);
                        let success = vec_of(OpCode::EvalThunk);
                        let mut fallback = ByteCodeBuilder::new();
                        self.compile_expr(program, &mut fallback, fallback_expr);
                        builder.emit_get_attr_or(parts, success, fallback.finish());
                    },
                    None => {
                        let ghost p1 = program@;
                        let ghost b1 = builder.code();
                        let mut i: usize = 0;
                        assert(b1 + access_code(p1, path.0.parts@, 0).1 =~= b1);
                        while i < path.0.parts.len()
                            invariant
                                *e is AccessAttr,
                                e->AccessAttr_path == *path,
                                lets_named(*e),
                                i <= path.0.parts@.len(),
                                program@ == access_code(p1, path.0.parts@, i as int).0,
                                builder.code() == b1 + access_code(p1, path.0.parts@, i as int).1,
                            decreases path.0.parts@.len() - i,
                        {
                            assert(part_lets_named(path.0.parts@[i as int]));
                            proof {
                                assert(decreases_to!(*e => e->AccessAttr_path));
                                assert(decreases_to!(e->AccessAttr_path => path.0));
                                assert(decreases_to!(path.0 => path.0.parts));
                                assert(decreases_to!(path.0.parts => path.0.parts@));
                                assert(decreases_to!(path.0.parts@ => path.0.parts@[i as int]));
                            }
                            self.compile_attr_part(program, builder, &path.0.parts[i]);
                            builder.emit(OpCode::GetAttr);
                            builder.emit(OpCode::EvalThunk);
                            i = i + 1;
                            assert(builder.code() =~= b1 + access_code(p1, path.0.parts@, i as int).1);
                        }
                    },
                }
            },
            mir::Expr::HasAttr { expr, path } => {
                self.compile_expr(program, builder, expr);
                let parts = self.compile_parts(program, e, &path.0);
                let mut success = vec_of(OpCode::PopT);
                success.push(OpCode::LoadBool(true));
                let fallback = vec_of(OpCode::LoadBool(false));
                assert(success@ =~= seq![OpCode::PopT, OpCode::LoadBool(true)]);
                builder.emit_get_attr_or(parts, success, fallback);
            },
            mir::Expr::Ident(ident) => {
                if str_eq(ident, "true") {
                    builder.emit_load_bool(true);
                } else if str_eq(ident, "false") {
                    builder.emit_load_bool(false);
                } else {
                    builder.emit_load_str(program, ident);
                    builder.emit(OpCode::LoadScope);
                    builder.emit(OpCode::EvalThunk);
                }
            },
            mir::Expr::Num(Num::Float(text)) => builder.emit_load_float(program, text.as_str()),
            mir::Expr::Num(Num::Int(value)) => builder.emit_load_int(*value),
            mir::Expr::Str(s) => builder.emit_load_str(program, s),
        }
        assert(builder.code() =~= b0 + expr_code(p0, *e, span).1);
    }

    /// The code of each part of a path, each on its own.
    fn compile_parts(&self, program: &mut Program, e: &mir::Expr<'_>, path: &mir::AttrPath<'_>) -> (r: Vec<Vec<OpCode>>)
        requires
            lets_named(*e),
            (*e is AccessAttr && e->AccessAttr_path.0 == *path) || (*e is HasAttr && e->HasAttr_path.0 == *path),
        ensures
            final(program)@ == parts_codes(old(program)@, path.parts@, path.parts@.len() as int).0,
            views_of(r@) == parts_codes(old(program)@, path.parts@, path.parts@.len() as int).1,
        decreases e, 0nat,
    {
        let ghost p0 = program@;
        let mut parts: Vec<Vec<OpCode>> = Vec::new();
        let mut i: usize = 0;
        assert(views_of(parts@) =~= Seq::<Seq<OpCode>>::empty());
        while i < path.parts.len()
            invariant
                lets_named(*e),
                (*e is AccessAttr && e->AccessAttr_path.0 == *path) || (*e is HasAttr && e->HasAttr_path.0 == *path),
                i <= path.parts@.len(),
                program@ == parts_codes(p0, path.parts@, i as int).0,
                views_of(parts@) == parts_codes(p0, path.parts@, i as int).1,
            decreases path.parts@.len() - i,
        {
            assert(part_lets_named(path.parts@[i as int]));
            let mut part = ByteCodeBuilder::new();
            proof {
                if *e is AccessAttr {
                    assert(decreases_to!(*e => e->AccessAttr_path));
                    assert(decreases_to!(e->AccessAttr_path => e->AccessAttr_path.0));
                } else {
                    assert(decreases_to!(*e => e->HasAttr_path));
                    assert(decreases_to!(e->HasAttr_path => e->HasAttr_path.0));
                }
                assert(decreases_to!(*path => path.parts));
                assert(decreases_to!(path.parts => path.parts@));
                assert(decreases_to!(path.parts@ => path.parts@[i as int]));
            }
            self.compile_attr_part(program, &mut part, &path.parts[i]);
            let code = part.finish();
            parts.push(code);
            i = i + 1;
            assert(views_of(parts@) =~= parts_codes(p0, path.parts@, i as int).1);
        }
        parts
    }

    /// The attributes of a set, after `CreateAttrSet`: those with a value,
    /// named then computed, then those inherited, named then computed.
    fn compile_attr_set_values(&self, program: &mut Program, builder: &mut ByteCodeBuilder, e: &mir::Expr<'_>, set: &mir::AttrSet<'_>)
        requires
            lets_named(*e),
            *e is AttrSet,
            e->AttrSet_0 == *set,
        ensures
            ({
                let (p1, c1) = static_values_code(old(program)@, set.static_attrs@, set.static_attrs.len() as int);
                let (p2, c2) = dynamic_values_code(p1, set.dynamic_attrs@, set.dynamic_attrs.len() as int);
                let (p3, c3) = static_inherits_code(p2, set.static_attrs@, set.static_attrs.len() as int);
                let (p4, c4) = dynamic_inherits_code(p3, set.dynamic_attrs@, set.dynamic_attrs.len() as int);
                final(program)@ == p4 && final(builder).code() == old(builder).code() + c1 + c2 + c3 + c4
            }),
        decreases e, 0nat,
    {
        let ghost p0 = program@;
        let ghost b0 = builder.code();
        let statics = &set.static_attrs;
        let dynamics = &set.dynamic_attrs;
        let mut i: usize = 0;
        assert(b0 + static_values_code(p0, statics@, 0).1 =~= b0);
        while i < statics.len()
            invariant
                lets_named(*e),
                *e is AttrSet,
                e->AttrSet_0 == *set,
                *statics == set.static_attrs,
                i <= statics@.len(),
                program@ == static_values_code(p0, statics@, i as int).0,
                builder.code() == b0 + static_values_code(p0, statics@, i as int).1,
            decreases statics@.len() - i,
        {
            let attr = &statics[i].0;
            match &attr.value {
                Some(value) => {
                    assert(lets_named(value.0));
                    builder.emit_load_str(program, attr.name.0);
                    proof {
                        assert(decreases_to!(*e => e->AttrSet_0));
                        assert(decreases_to!(e->AttrSet_0 => set.static_attrs));
                        assert(decreases_to!(set.static_attrs => statics@));
                        assert(decreases_to!(statics@ => statics@[i as int]));
                        assert(decreases_to!(statics@[i as int] => statics@[i as int].0));
                        assert(decreases_to!(statics@[i as int].0 => statics@[i as int].0.value));
                    }
                    let loc = self.compile_maybe_thunk(program, builder, value);
                    builder.maybe_emit_create_thunk(loc);
                    builder.emit(OpCode::SetAttr);
                },
                None => {},
            }
            i = i + 1;
            assert(builder.code() =~= b0 + static_values_code(p0, statics@, i as int).1);
        }
        let ghost p1 = program@;
        let ghost b1 = builder.code();
        let mut i: usize = 0;
        assert(b1 + dynamic_values_code(p1, dynamics@, 0).1 =~= b1);
        while i < dynamics.len()
            invariant
                lets_named(*e),
                *e is AttrSet,
                e->AttrSet_0 == *set,
                *dynamics == set.dynamic_attrs,
                i <= dynamics@.len(),
                program@ == dynamic_values_code(p1, dynamics@, i as int).0,
                builder.code() == b1 + dynamic_values_code(p1, dynamics@, i as int).1,
            decreases dynamics@.len() - i,
        {
            let attr = &dynamics[i].0;
            match &attr.value {
                Some(value) => {
                    assert(lets_named(value.0) && part_lets_named(attr.part));
                    proof {
                        assert(decreases_to!(*e => e->AttrSet_0));
                        assert(decreases_to!(e->AttrSet_0 => set.dynamic_attrs));
                        assert(decreases_to!(set.dynamic_attrs => dynamics@));
                        assert(decreases_to!(dynamics@ => dynamics@[i as int]));
                        assert(decreases_to!(dynamics@[i as int] => dynamics@[i as int].0));
                        assert(decreases_to!(dynamics@[i as int].0 => dynamics@[i as int].0.value));
                        assert(decreases_to!(dynamics@[i as int].0 => dynamics@[i as int].0.part));
                    }
                    self.compile_attr_part(program, builder, &attr.part);
                    let loc = self.compile_maybe_thunk(program, builder, value);
                    builder.maybe_emit_create_thunk(loc);
                    builder.emit(OpCode::SetAttr);
                },
                None => {},
            }
            i = i + 1;
            assert(builder.code() =~= b1 + dynamic_values_code(p1, dynamics@, i as int).1);
        }
        let ghost p2 = program@;
        let ghost b2 = builder.code();
        let mut i: usize = 0;
        assert(b2 + static_inherits_code(p2, statics@, 0).1 =~= b2);
        while i < statics.len()
            invariant
                *statics == set.static_attrs,
                i <= statics@.len(),
                program@ == static_inherits_code(p2, statics@, i as int).0,
                builder.code() == b2 + static_inherits_code(p2, statics@, i as int).1,
            decreases statics@.len() - i,
        {
            let attr = &statics[i].0;
            if attr.value.is_none() {
                builder.emit_load_str(program, attr.name.0);
                builder.emit(OpCode::DupV);
                builder.emit(OpCode::LoadScope);
                builder.emit(OpCode::SetAttr);
            }
            i = i + 1;
            assert(builder.code() =~= b2 + static_inherits_code(p2, statics@, i as int).1);
        }
        let ghost p3 = program@;
        let ghost b3 = builder.code();
        let mut i: usize = 0;
        assert(b3 + dynamic_inherits_code(p3, dynamics@, 0).1 =~= b3);
        while i < dynamics.len()
            invariant
                lets_named(*e),
                *e is AttrSet,
                e->AttrSet_0 == *set,
                *dynamics == set.dynamic_attrs,
                i <= dynamics@.len(),
                program@ == dynamic_inherits_code(p3, dynamics@, i as int).0,
                builder.code() == b3 + dynamic_inherits_code(p3, dynamics@, i as int).1,
            decreases dynamics@.len() - i,
        {
            let attr = &dynamics[i].0;
            if attr.value.is_none() {
                assert(part_lets_named(attr.part));
                proof {
                    assert(decreases_to!(*e => e->AttrSet_0));
                    assert(decreases_to!(e->AttrSet_0 => set.dynamic_attrs));
                    assert(decreases_to!(set.dynamic_attrs => dynamics@));
                    assert(decreases_to!(dynamics@ => dynamics@[i as int]));
                    assert(decreases_to!(dynamics@[i as int] => dynamics@[i as int].0));
                    assert(decreases_to!(dynamics@[i as int].0 => dynamics@[i as int].0.part));
                }
                self.compile_attr_part(program, builder, &attr.part);
                builder.emit(OpCode::DupV);
                builder.emit(OpCode::LoadScope);
                builder.emit(OpCode::SetAttr);
            }
            i = i + 1;
            assert(builder.code() =~= b3 + dynamic_inherits_code(p3, dynamics@, i as int).1);
        }
        assert(builder.code() =~= b0 + static_values_code(p0, statics@, statics@.len() as int).1
            + dynamic_values_code(p1, dynamics@, dynamics@.len() as int).1
            + static_inherits_code(p2, statics@, statics@.len() as int).1
            + dynamic_inherits_code(p3, dynamics@, dynamics@.len() as int).1);
    }
}

impl Default for Compiler {
    fn default() -> (c: Self)
        ensures
            c == (Compiler {}),
    {
        Compiler {}
    }
}

/// Whether every `let` in `e` binds a name in each binding, so that `e` can be
/// compiled.
pub fn lets_are_named(e: &mir::Expr<'_>) -> (r: bool)
    ensures
        r == lets_named(*e),
    decreases e, 1nat,
{
    match e {
        mir::Expr::Lambda(l) => lets_are_named(&l.body.0),
        mir::Expr::FuncApp { func, arg } => lets_are_named(&func.0) && lets_are_named(&arg.0),
        mir::Expr::IfThenElse { cond, then_expr, else_expr } => {
            lets_are_named(&cond.0) && lets_are_named(&then_expr.0) && lets_are_named(&else_expr.0)
        },
        mir::Expr::BinOp { lhs, rhs, .. } => lets_are_named(&lhs.0) && lets_are_named(&rhs.0),
        mir::Expr::UnOp { expr, .. } => lets_are_named(&expr.0),
        mir::Expr::Let { bindings, expr } => {
            let mut i: usize = 0;
            while i < bindings.len()
                invariant
                    *e is Let,
                    e->Let_bindings == *bindings,
                    i <= bindings@.len(),
                    forall|k: int| 0 <= k < i ==> (#[trigger] bindings@[k]).id.0.binding is Some && lets_named(bindings@[k].value.0),
                decreases bindings@.len() - i,
            {
                proof {
                    assert(decreases_to!(*e => e->Let_bindings));
                    assert(decreases_to!(e->Let_bindings => bindings@));
                    assert(decreases_to!(bindings@ => bindings@[i as int]));
                    assert(decreases_to!(bindings@[i as int] => bindings@[i as int].value));
                }
                if bindings[i].id.0.binding.is_none() || !lets_are_named(&bindings[i].value.0) {
                    return false;
                }
                i = i + 1;
            }
            lets_are_named(&expr.0)
        },
        mir::Expr::AttrSet(set) => {
            let mut i: usize = 0;
            while i < set.static_attrs.len()
                invariant
                    *e is AttrSet,
                    e->AttrSet_0 == *set,
                    i <= set.static_attrs@.len(),
                    forall|k: int| 0 <= k < i ==> ((#[trigger] set.static_attrs@[k]).0.value matches Some(v) ==> lets_named(v.0)),
                decreases set.static_attrs@.len() - i,
            {
                match &set.static_attrs[i].0.value {
                    Some(v) => {
                        proof {
                            assert(decreases_to!(*e => e->AttrSet_0));
                            assert(decreases_to!(e->AttrSet_0 => set.static_attrs));
                            assert(decreases_to!(set.static_attrs => set.static_attrs@));
                            assert(decreases_to!(set.static_attrs@ => set.static_attrs@[i as int]));
                            assert(decreases_to!(set.static_attrs@[i as int] => set.static_attrs@[i as int].0));
                            assert(decreases_to!(set.static_attrs@[i as int].0 => set.static_attrs@[i as int].0.value));
                        }
                        if !lets_are_named(&v.0) {
                            return false;
                        }
                    },
                    None => {},
                }
                i = i + 1;
            }
            let mut j: usize = 0;
            while j < set.dynamic_attrs.len()
                invariant
                    *e is AttrSet,
                    e->AttrSet_0 == *set,
                    j <= set.dynamic_attrs@.len(),
                    forall|k: int| 0 <= k < set.static_attrs@.len() ==> ((#[trigger] set.static_attrs@[k]).0.value matches Some(v) ==> lets_named(v.0)),
                    forall|k: int| 0 <= k < j ==> part_lets_named((#[trigger] set.dynamic_attrs@[k]).0.part) && (set.dynamic_attrs@[k].0.value matches Some(v) ==> lets_named(v.0)),
                decreases set.dynamic_attrs@.len() - j,
            {
                let attr = &set.dynamic_attrs[j].0;
                proof {
                    assert(decreases_to!(*e => e->AttrSet_0));
                    assert(decreases_to!(e->AttrSet_0 => set.dynamic_attrs));
                    assert(decreases_to!(set.dynamic_attrs => set.dynamic_attrs@));
                    assert(decreases_to!(set.dynamic_attrs@ => set.dynamic_attrs@[j as int]));
                    assert(decreases_to!(set.dynamic_attrs@[j as int] => set.dynamic_attrs@[j as int].0));
                    assert(decreases_to!(set.dynamic_attrs@[j as int].0 => set.dynamic_attrs@[j as int].0.part));
                    assert(decreases_to!(set.dynamic_attrs@[j as int].0 => set.dynamic_attrs@[j as int].0.value));
                }
                if !part_lets_are_named(&attr.part) {
                    return false;
                }
                match &attr.value {
                    Some(v) => {
                        if !lets_are_named(&v.0) {
                            return false;
                        }
                    },
                    None => {},
                }
                j = j + 1;
            }
            true
        },
        mir::Expr::List { elements } => {
            let mut i: usize = 0;
            while i < elements.len()
                invariant
                    *e is List,
                    e->List_elements == *elements,
                    i <= elements@.len(),
                    forall|k: int| 0 <= k < i ==> lets_named((#[trigger] elements@[k]).0),
                decreases elements@.len() - i,
            {
                proof {
                    assert(decreases_to!(*e => e->List_elements));
                    assert(decreases_to!(e->List_elements => elements@));
                    assert(decreases_to!(elements@ => elements@[i as int]));
                }
                if !lets_are_named(&elements[i].0) {
                    return false;
                }
                i = i + 1;
            }
            true
        },
        mir::Expr::AccessAttr { expr, path, or } => {
            if !lets_are_named(&expr.0) || !path_lets_are_named(e, &path.0) {
                return false;
            }
            match or {
                Some(o) => lets_are_named(&o.0),
                None => true,
            }
        },
        mir::Expr::HasAttr { expr, path } => lets_are_named(&expr.0) && path_lets_are_named(e, &path.0),
        _ => true,
    }
}

fn part_lets_are_named(part: &Node<mir::AttrPathPart<'_>>) -> (r: bool)
    ensures
        r == part_lets_named(*part),
    decreases part, 0nat,
{
    match &part.0 {
        mir::AttrPathPart::Expr(e) => lets_are_named(e),
        _ => true,
    }
}

fn path_lets_are_named(e: &mir::Expr<'_>, path: &mir::AttrPath<'_>) -> (r: bool)
    requires
        (*e is AccessAttr && e->AccessAttr_path.0 == *path) || (*e is HasAttr && e->HasAttr_path.0 == *path),
    ensures
        r == forall|i: int| 0 <= i < path.parts.len() ==> part_lets_named(#[trigger] path.parts@[i]),
    decreases e, 0nat,
{
    let mut i: usize = 0;
    while i < path.parts.len()
        invariant
            (*e is AccessAttr && e->AccessAttr_path.0 == *path) || (*e is HasAttr && e->HasAttr_path.0 == *path),
            i <= path.parts@.len(),
            forall|k: int| 0 <= k < i ==> part_lets_named(#[trigger] path.parts@[k]),
        decreases path.parts@.len() - i,
    {
        proof {
            if *e is AccessAttr {
                assert(decreases_to!(*e => e->AccessAttr_path));
                assert(decreases_to!(e->AccessAttr_path => e->AccessAttr_path.0));
            } else {
                assert(decreases_to!(*e => e->HasAttr_path));
                assert(decreases_to!(e->HasAttr_path => e->HasAttr_path.0));
            }
            assert(decreases_to!(*path => path.parts));
            assert(decreases_to!(path.parts => path.parts@));
            assert(decreases_to!(path.parts@ => path.parts@[i as int]));
        }
        if !part_lets_are_named(&path.parts[i]) {
            return false;
        }
        i = i + 1;
    }
    true
}

/// A code of one instruction.
fn vec_of(op: OpCode) -> (v: Vec<OpCode>)
    ensures
        v@ == seq![op],
{
    let mut v = Vec::new();
    v.push(op);
    assert(v@ =~= seq![op]);
    v
}

} // verus!
