//! Where the jumps of compiled code land.

use vstd::prelude::*;

use super::{
    access_code, dynamic_inherits_code, dynamic_values_code, expr_code, fields_code, finalize_ops, let_code, list_code,
    load_str, node_code, part_code, parts_codes, pattern_code, short_circuit_op, short_circuits, static_inherits_code,
    static_values_code, thunk_code, thunk_ops, binop_op,
};
use crate::bytecode::builder::{attr_or_code, lemma_lookup_chain_len, lookup_chain_len, lookup_chain_patched};
use crate::bytecode::pretty::jump_offset;
use crate::bytecode::{CodeLocOffset, OpCode};
use crate::files::{Node, Span};
use crate::mir::ast as mir;
use crate::parse::ast::{AttrPattern, Num, Pattern, PatternDestructKind};
use crate::bytecode::program::ProgramView;

verus! {

/// Every jump in `c` lands at most at `bound`: the jump at `i` with offset
/// `k` goes to `i + k + 1`.
pub open spec fn jumps_below(c: Seq<OpCode>, bound: int) -> bool {
    forall|i: int| 0 <= i < c.len() ==> (#[trigger] jump_offset(c[i]) matches Some(o) ==> i + 1 + o.len() <= bound)
}

/// No jump of `c` leaves it: each lands inside `c` or just after its end.
pub open spec fn jumps_within(c: Seq<OpCode>) -> bool {
    jumps_below(c, c.len() as int)
}

proof fn lemma_cat(a: Seq<OpCode>, b: Seq<OpCode>, x: int, y: int, z: int)
    requires
        jumps_below(a, x),
        jumps_below(b, y),
        x <= z,
        a.len() + y <= z,
    ensures
        jumps_below(a + b, z),
{
    assert forall|i: int| 0 <= i < (a + b).len() implies (#[trigger] jump_offset((a + b)[i]) matches Some(o) ==> i + 1 + o.len() <= z) by {
        if i < a.len() {
            assert((a + b)[i] == a[i]);
            assert(jump_offset(a[i]) matches Some(o) ==> i + 1 + o.len() <= x);
        } else {
            assert((a + b)[i] == b[i - a.len()]);
            assert(jump_offset(b[i - a.len()]) matches Some(o) ==> i - a.len() + 1 + o.len() <= y);
        }
    }
}

broadcast proof fn lemma_cat_within(a: Seq<OpCode>, b: Seq<OpCode>)
    requires
        jumps_within(a),
        jumps_within(b),
    ensures
        #[trigger] jumps_within(a + b),
{
    lemma_cat(a, b, a.len() as int, b.len() as int, (a + b).len() as int);
}

proof fn lemma_single(j: OpCode, y: int)
    requires
        jump_offset(j) matches Some(o) ==> 1 + o.len() <= y,
    ensures
        jumps_below(seq![j], y),
{
    assert forall|i: int| 0 <= i < seq![j].len() implies (#[trigger] jump_offset(seq![j][i]) matches Some(o) ==> i + 1 + o.len() <= y) by {
        assert(seq![j][i] == j);
    }
}

proof fn lemma_cast(n: int)
    requires
        n >= 0,
    ensures
        (n as usize) as int <= n,
{
    if n <= usize::MAX {
        assert((n as usize) as int == n);
    }
}

/// `a`, a jump over `b`, then `b`.
proof fn lemma_jump_over(a: Seq<OpCode>, j: OpCode, b: Seq<OpCode>)
    requires
        jumps_within(a),
        jumps_within(b),
        jump_offset(j) matches Some(o) && o.len() <= b.len(),
    ensures
        jumps_within(a + seq![j] + b),
{
    let z: int = a.len() + 1 + b.len() as int;
    lemma_single(j, 1 + b.len() as int);
    lemma_cat(a, seq![j], a.len() as int, 1 + b.len() as int, z);
    lemma_cat(a + seq![j], b, z, b.len() as int, z);
}

proof fn lemma_load_str_within(p: ProgramView, s: Seq<char>)
    ensures
        jumps_within(load_str(p, s).1),
{
    lemma_single(load_str(p, s).1[0], 1);
    assert(load_str(p, s).1 =~= seq![load_str(p, s).1[0]]);
}

proof fn lemma_finalize_within(count: nat)
    ensures
        jumps_within(finalize_ops(count)),
    decreases count,
{
    broadcast use lemma_cat_within;
    if count > 0 {
        lemma_finalize_within((count - 1) as nat);
        assert(jumps_within(seq![OpCode::FinalizeThunk, OpCode::PopT]));
    }
}

proof fn lemma_pattern_within(p: ProgramView, pat: Pattern)
    ensures
        jumps_within(pattern_code(p, pat).1),
    decreases pat, 0nat,
{
    broadcast use lemma_cat_within;
    let p1 = match pat.binding {
        Some(b) => if b.0@ != "_"@ {
            lemma_load_str_within(p, b.0@);
            load_str(p, b.0@).0
        } else {
            p
        },
        None => p,
    };
    match pat.destruct {
        Some(d) => match d.0 {
            PatternDestructKind::AttrSet { fields, .. } => {
                lemma_fields_within(p1, fields@, fields.len() as int);
            },
            PatternDestructKind::List { .. } => {},
        },
        None => {},
    }
    assert(jumps_within(seq![OpCode::EvalThunk]));
    assert(jumps_within(seq![OpCode::DupV]));
    assert(jumps_within(seq![OpCode::PopV]));
    assert(jumps_within(seq![OpCode::BindValueScope]));
    assert(jumps_within(seq![OpCode::BindThunkScope]));
    assert(jumps_within(Seq::<OpCode>::empty()));
}

proof fn lemma_fields_within(p: ProgramView, fields: Seq<Node<AttrPattern>>, n: int)
    ensures
        jumps_within(fields_code(p, fields, n).1),
    decreases fields, n,
{
    broadcast use lemma_cat_within;
    if n > 0 && n <= fields.len() {
        lemma_fields_within(p, fields, n - 1);
        let (p1, _) = fields_code(p, fields, n - 1);
        let field = fields[n - 1].0;
        lemma_load_str_within(p1, field.attr.0@);
        let (p2, _) = load_str(p1, field.attr.0@);
        lemma_pattern_within(p2, field.pattern.0);
        assert(jumps_within(seq![OpCode::DupV]));
        assert(jumps_within(seq![OpCode::GetAttr]));
        assert(jumps_within(Seq::<OpCode>::empty()));
    }
}

proof fn lemma_thunk_within(p: ProgramView, e: Node<mir::Expr>)
    ensures
        jumps_within(thunk_code(p, e).1),
        jumps_within(thunk_ops(thunk_code(p, e))),
    decreases e, 0nat,
{
    broadcast use lemma_cat_within;
    assert(jumps_within(seq![OpCode::LoadScope]));
    assert(jumps_within(seq![OpCode::UnEvalValue]));
    assert(jumps_within(Seq::<OpCode>::empty()));
    match e.0 {
        mir::Expr::Ident(x) => lemma_load_str_within(p, x@),
        _ => lemma_expr_within(p, e.0, e.1),
    }
    let t = thunk_code(p, e);
    match t.2 {
        Some(loc) => assert(jumps_within(seq![OpCode::CreateThunk(loc)])),
        None => {},
    }
}

proof fn lemma_part_within(p: ProgramView, part: Node<mir::AttrPathPart>)
    ensures
        jumps_within(part_code(p, part).1),
    decreases part, 0nat,
{
    match part.0 {
        mir::AttrPathPart::Ident(x) => lemma_load_str_within(p, x@),
        mir::AttrPathPart::Expr(e) => lemma_expr_within(p, e, part.1),
        mir::AttrPathPart::Num(_) => assert(jumps_within(part_code(p, part).1)),
    }
}

proof fn lemma_parts_within(p: ProgramView, parts: Seq<Node<mir::AttrPathPart>>, n: int)
    ensures
        forall|k: int| 0 <= k < parts_codes(p, parts, n).1.len() ==> jumps_within(#[trigger] parts_codes(p, parts, n).1[k]),
    decreases parts, n,
{
    if n > 0 && n <= parts.len() {
        lemma_parts_within(p, parts, n - 1);
        let (p1, _) = parts_codes(p, parts, n - 1);
        lemma_part_within(p1, parts[n - 1]);
    }
}

proof fn lemma_access_within(p: ProgramView, parts: Seq<Node<mir::AttrPathPart>>, n: int)
    ensures
        jumps_within(access_code(p, parts, n).1),
    decreases parts, n,
{
    broadcast use lemma_cat_within;
    if n > 0 && n <= parts.len() {
        lemma_access_within(p, parts, n - 1);
        let (p1, _) = access_code(p, parts, n - 1);
        lemma_part_within(p1, parts[n - 1]);
        assert(jumps_within(seq![OpCode::GetAttr, OpCode::EvalThunk]));
    } else {
        assert(jumps_within(Seq::<OpCode>::empty()));
    }
}

proof fn lemma_let_within(p: ProgramView, bindings: Seq<mir::LetBinding>, n: int)
    ensures
        jumps_within(let_code(p, bindings, n).1),
    decreases bindings, n,
{
    broadcast use lemma_cat_within;
    if n > 0 && n <= bindings.len() {
        lemma_let_within(p, bindings, n - 1);
        let (p1, _, _) = let_code(p, bindings, n - 1);
        let b = bindings[n - 1];
        lemma_thunk_within(p1, b.value);
        let t = thunk_code(p1, b.value);
        lemma_load_str_within(t.0, b.id.0.binding.unwrap().0@);
        match t.2 {
            Some(loc) => assert(jumps_within(seq![OpCode::BeginThunk(loc), OpCode::DupT])),
            None => {},
        }
        assert(jumps_within(seq![OpCode::BindThunkScope]));
    } else {
        assert(jumps_within(Seq::<OpCode>::empty()));
    }
}

proof fn lemma_static_values_within(p: ProgramView, attrs: Seq<Node<mir::StaticAttr>>, n: int)
    ensures
        jumps_within(static_values_code(p, attrs, n).1),
    decreases attrs, n,
{
    broadcast use lemma_cat_within;
    if n > 0 && n <= attrs.len() {
        lemma_static_values_within(p, attrs, n - 1);
        let (p1, _) = static_values_code(p, attrs, n - 1);
        match attrs[n - 1].0.value {
            Some(v) => {
                lemma_load_str_within(p1, attrs[n - 1].0.name.0@);
                let (p2, _) = load_str(p1, attrs[n - 1].0.name.0@);
                lemma_thunk_within(p2, v);
                assert(jumps_within(seq![OpCode::SetAttr]));
            },
            None => {},
        }
    } else {
        assert(jumps_within(Seq::<OpCode>::empty()));
    }
}

proof fn lemma_dynamic_values_within(p: ProgramView, attrs: Seq<Node<mir::DynamicAttr>>, n: int)
    ensures
        jumps_within(dynamic_values_code(p, attrs, n).1),
    decreases attrs, n,
{
    broadcast use lemma_cat_within;
    if n > 0 && n <= attrs.len() {
        lemma_dynamic_values_within(p, attrs, n - 1);
        let (p1, _) = dynamic_values_code(p, attrs, n - 1);
        match attrs[n - 1].0.value {
            Some(v) => {
                lemma_part_within(p1, attrs[n - 1].0.part);
                let (p2, _) = part_code(p1, attrs[n - 1].0.part);
                lemma_thunk_within(p2, v);
                assert(jumps_within(seq![OpCode::SetAttr]));
            },
            None => {},
        }
    } else {
        assert(jumps_within(Seq::<OpCode>::empty()));
    }
}

proof fn lemma_static_inherits_within(p: ProgramView, attrs: Seq<Node<mir::StaticAttr>>, n: int)
    ensures
        jumps_within(static_inherits_code(p, attrs, n).1),
    decreases n,
{
    broadcast use lemma_cat_within;
    if n > 0 && n <= attrs.len() {
        lemma_static_inherits_within(p, attrs, n - 1);
        let (p1, _) = static_inherits_code(p, attrs, n - 1);
        if attrs[n - 1].0.value is None {
            lemma_load_str_within(p1, attrs[n - 1].0.name.0@);
            assert(jumps_within(seq![OpCode::DupV, OpCode::LoadScope, OpCode::SetAttr]));
        }
    } else {
        assert(jumps_within(Seq::<OpCode>::empty()));
    }
}

proof fn lemma_dynamic_inherits_within(p: ProgramView, attrs: Seq<Node<mir::DynamicAttr>>, n: int)
    ensures
        jumps_within(dynamic_inherits_code(p, attrs, n).1),
    decreases attrs, n,
{
    broadcast use lemma_cat_within;
    if n > 0 && n <= attrs.len() {
        lemma_dynamic_inherits_within(p, attrs, n - 1);
        let (p1, _) = dynamic_inherits_code(p, attrs, n - 1);
        if attrs[n - 1].0.value is None {
            lemma_part_within(p1, attrs[n - 1].0.part);
            assert(jumps_within(seq![OpCode::DupV, OpCode::LoadScope, OpCode::SetAttr]));
        }
    } else {
        assert(jumps_within(Seq::<OpCode>::empty()));
    }
}

proof fn lemma_list_within(p: ProgramView, elements: Seq<Node<mir::Expr>>, n: int)
    ensures
        jumps_within(list_code(p, elements, n).1),
    decreases elements, n,
{
    broadcast use lemma_cat_within;
    if n > 0 && n <= elements.len() {
        lemma_list_within(p, elements, n - 1);
        let (p1, _) = list_code(p, elements, n - 1);
        lemma_thunk_within(p1, elements[n - 1]);
        assert(jumps_within(seq![OpCode::AppendList]));
    } else {
        assert(jumps_within(Seq::<OpCode>::empty()));
    }
}

/// The lookups of a chain that jumps to `target` land at most there.
proof fn lemma_chain_below(parts: Seq<Seq<OpCode>>, n: int, target: int, patched: int)
    requires
        n <= parts.len(),
        lookup_chain_len(parts, n) <= target,
        forall|k: int| 0 <= k < parts.len() ==> jumps_within(#[trigger] parts[k]),
    ensures
        jumps_below(lookup_chain_patched(parts, n, 0, target, patched), target),
    decreases n,
{
    if n > 0 {
        lemma_lookup_chain_len(parts, n - 1, 0, target, patched);
        lemma_chain_below(parts, n - 1, target, patched);
        let prev = lookup_chain_patched(parts, n - 1, 0, target, patched);
        let part = parts[n - 1];
        let at = prev.len() + part.len();
        let offset = if n - 1 < patched { (target - at - 1) as usize } else { 0usize };
        lemma_cast(target - at - 1);
        lemma_single(OpCode::GetAttrOr(CodeLocOffset(offset)), target - at);
        lemma_cat(prev, part, target, part.len() as int, target);
        lemma_cat(prev + part, seq![OpCode::GetAttrOr(CodeLocOffset(offset))], target, target - at, target);
        let tail: Seq<OpCode> = if n < parts.len() { seq![OpCode::EvalThunk] } else { Seq::empty() };
        lemma_single(OpCode::EvalThunk, 0);
        assert(jumps_below(Seq::<OpCode>::empty(), 0));
        lemma_cat(prev + part + seq![OpCode::GetAttrOr(CodeLocOffset(offset))], tail, target, 0, target);
    } else {
        assert(jumps_below(Seq::<OpCode>::empty(), target));
    }
}

/// A lookup with a fallback keeps its jumps inside.
proof fn lemma_attr_or_within(parts: Seq<Seq<OpCode>>, success: Seq<OpCode>, fallback: Seq<OpCode>)
    requires
        forall|k: int| 0 <= k < parts.len() ==> jumps_within(#[trigger] parts[k]),
        jumps_within(success),
        jumps_within(fallback),
    ensures
        jumps_within(attr_or_code(parts, success, fallback)),
{
    let len = lookup_chain_len(parts, parts.len() as int);
    let target = len + success.len() + 1;
    let chain = lookup_chain_patched(parts, parts.len() as int, 0, target, parts.len() as int);
    lemma_lookup_chain_len(parts, parts.len() as int, 0, target, parts.len() as int);
    lemma_chain_below(parts, parts.len() as int, target, parts.len() as int);
    let total = target + fallback.len();
    lemma_cat(chain, success, target, success.len() as int, total);
    lemma_cast(fallback.len() as int);
    lemma_single(OpCode::Branch(CodeLocOffset(fallback.len() as usize)), 1 + fallback.len() as int);
    lemma_cat(chain + success, seq![OpCode::Branch(CodeLocOffset(fallback.len() as usize))], total, 1 + fallback.len() as int, total);
    lemma_cat(chain + success + seq![OpCode::Branch(CodeLocOffset(fallback.len() as usize))], fallback, total, fallback.len() as int, total);
}

proof fn lemma_node_within(p: ProgramView, e: Node<mir::Expr>)
    ensures
        jumps_within(node_code(p, e).1),
    decreases e, 1nat,
{
    lemma_expr_within(p, e.0, e.1);
}

proof fn lemma_expr_within(p: ProgramView, e: mir::Expr, span: Span)
    ensures
        jumps_within(expr_code(p, e, span).1),
    decreases e, 0nat,
{
    broadcast use lemma_cat_within;
    match e {
        mir::Expr::Lambda(l) => {
            let c = expr_code(p, e, span).1;
            lemma_single(c[0], 1);
            assert(c =~= seq![c[0]]);
        },
        mir::Expr::FuncApp { func, arg } => {
            lemma_node_within(p, *func);
            let (p1, _) = node_code(p, *func);
            lemma_thunk_within(p1, *arg);
            assert(jumps_within(seq![OpCode::Apply]));
        },
        mir::Expr::IfThenElse { cond, then_expr, else_expr } => {
            lemma_node_within(p, *cond);
            let (p1, c1) = node_code(p, *cond);
            lemma_node_within(p1, *then_expr);
            let (p2, c2) = node_code(p1, *then_expr);
            lemma_node_within(p2, *else_expr);
            let (p3, c3) = node_code(p2, *else_expr);
            let jif = OpCode::If(CodeLocOffset((c2.len() + 1) as usize));
            let jbr = OpCode::Branch(CodeLocOffset(c3.len() as usize));
            lemma_cast(c2.len() + 1 as int);
            lemma_cast(c3.len() as int);
            lemma_jump_over(c2, jbr, c3);
            lemma_jump_over(c1, jif, c2 + seq![jbr] + c3);
            assert(c1 + seq![jif] + c2 + seq![jbr] + c3 =~= c1 + seq![jif] + (c2 + seq![jbr] + c3));
        },
        mir::Expr::BinOp { lhs, op, rhs } => {
            lemma_node_within(p, *lhs);
            let (p1, c1) = node_code(p, *lhs);
            lemma_node_within(p1, *rhs);
            let (p2, c2) = node_code(p1, *rhs);
            if short_circuits(op.0) {
                lemma_cast(c2.len() as int);
                lemma_jump_over(c1, short_circuit_op(op.0, c2.len()), c2);
            } else {
                lemma_single(binop_op(op.0), 1);
            }
        },
        mir::Expr::UnOp { expr, op } => {
            lemma_node_within(p, *expr);
            assert(jumps_within(seq![OpCode::Neg]));
            assert(jumps_within(seq![OpCode::Not]));
        },
        mir::Expr::Let { bindings, expr } => {
            lemma_let_within(p, bindings@, bindings.len() as int);
            let (p1, _, count) = let_code(p, bindings@, bindings.len() as int);
            lemma_finalize_within(count);
            lemma_node_within(p1, *expr);
            assert(jumps_within(seq![OpCode::EnterScope]));
            assert(jumps_within(seq![OpCode::LeaveScope]));
        },
        mir::Expr::AttrSet(set) => {
            lemma_static_values_within(p, set.static_attrs@, set.static_attrs.len() as int);
            let (p1, _) = static_values_code(p, set.static_attrs@, set.static_attrs.len() as int);
            lemma_dynamic_values_within(p1, set.dynamic_attrs@, set.dynamic_attrs.len() as int);
            let (p2, _) = dynamic_values_code(p1, set.dynamic_attrs@, set.dynamic_attrs.len() as int);
            lemma_static_inherits_within(p2, set.static_attrs@, set.static_attrs.len() as int);
            let (p3, _) = static_inherits_code(p2, set.static_attrs@, set.static_attrs.len() as int);
            lemma_dynamic_inherits_within(p3, set.dynamic_attrs@, set.dynamic_attrs.len() as int);
            assert(jumps_within(seq![OpCode::CreateAttrSet]));
        },
        mir::Expr::List { elements } => {
            lemma_list_within(p, elements@, elements.len() as int);
            assert(jumps_within(seq![OpCode::CreateList(elements.len())]));
        },
        mir::Expr::AccessAttr { expr, path, or } => {
            lemma_node_within(p, *expr);
            let (p1, _) = node_code(p, *expr);
            match or {
                Some(o) => {
                    lemma_parts_within(p1, path.0.parts@, path.0.parts.len() as int);
                    let (p2, codes) = parts_codes(p1, path.0.parts@, path.0.parts.len() as int);
                    lemma_node_within(p2, *o);
                    let (p3, c3) = node_code(p2, *o);
                    assert(jumps_within(seq![OpCode::EvalThunk]));
                    lemma_attr_or_within(codes, seq![OpCode::EvalThunk], c3);
                },
                None => {
                    lemma_access_within(p1, path.0.parts@, path.0.parts.len() as int);
                },
            }
        },
        mir::Expr::HasAttr { expr, path } => {
            lemma_node_within(p, *expr);
            let (p1, _) = node_code(p, *expr);
            lemma_parts_within(p1, path.0.parts@, path.0.parts.len() as int);
            let (p2, codes) = parts_codes(p1, path.0.parts@, path.0.parts.len() as int);
            assert(jumps_within(seq![OpCode::PopT, OpCode::LoadBool(true)]));
            assert(jumps_within(seq![OpCode::LoadBool(false)]));
            lemma_attr_or_within(codes, seq![OpCode::PopT, OpCode::LoadBool(true)], seq![OpCode::LoadBool(false)]);
        },
        mir::Expr::Ident(x) => {
            assert(jumps_within(seq![OpCode::LoadBool(true)]));
            assert(jumps_within(seq![OpCode::LoadBool(false)]));
            assert(jumps_within(seq![OpCode::LoadScope, OpCode::EvalThunk]));
            lemma_load_str_within(p, x@);
        },
        mir::Expr::Num(Num::Int(v)) => {
            assert(jumps_within(seq![OpCode::LoadInt(v)]));
        },
        mir::Expr::Num(Num::Float(t)) => {
            let c = expr_code(p, e, span).1;
            lemma_single(c[0], 1);
            assert(c =~= seq![c[0]]);
        },
        mir::Expr::Str(s) => lemma_load_str_within(p, s@),
    }
}

/// No jump that compiling an expression emits leaves the code emitted for
/// it: a jump at index `i` with offset `k` lands at `i + k + 1`, at most
/// the end of that code. The code of functions and thunks goes to the
/// program, not into this code.
pub proof fn law_jumps_stay_inside(p: ProgramView, e: Node<mir::Expr>)
    ensures
        jumps_within(node_code(p, e).1),
{
    lemma_node_within(p, e);
}

} // verus!
