use vstd::prelude::*;

use crate::compiler::{lets_named, part_lets_named};
use crate::files::Node;
use crate::mir::ast as mir;
use crate::mir::lowering::{
    attrs_fold, dynamic_indices, finished, finished_all, is_dynamic, let_ids, let_value_reports, list_reports,
    lower_reports, lowers, lowers_attr_set, lowers_dynamic, lowers_part, node_size, nodes_size, opt_reports,
    parts_reports, static_parts, unnamed_let_reports, AttrNode,
};
use crate::parse::ast;
use crate::report::{has_error_view, ReportView};

verus! {

proof fn lemma_no_error_split(a: Seq<ReportView>, b: Seq<ReportView>)
    requires
        !has_error_view(a + b),
    ensures
        !has_error_view(a),
        !has_error_view(b),
{
    assert forall|i: int| 0 <= i < a.len() implies a[i].level != crate::report::ReportLevel::Error by {
        assert((a + b)[i] == a[i]);
    }
    assert forall|i: int| 0 <= i < b.len() implies b[i].level != crate::report::ReportLevel::Error by {
        assert((a + b)[a.len() + i] == b[i]);
    }
}

proof fn lemma_list_no_error(elements: Seq<Node<ast::Expr>>)
    requires
        !has_error_view(list_reports(elements)),
    ensures
        forall|i: int| 0 <= i < elements.len() ==> !has_error_view(lower_reports(#[trigger] elements[i].0)),
    decreases elements.len(),
{
    if elements.len() > 0 {
        lemma_no_error_split(list_reports(elements.drop_last()), lower_reports(elements.last().0));
        lemma_list_no_error(elements.drop_last());
        assert forall|i: int| 0 <= i < elements.len() implies !has_error_view(lower_reports(#[trigger] elements[i].0)) by {
            if i < elements.len() - 1 {
                assert(elements.drop_last()[i] == elements[i]);
            }
        }
    }
}

proof fn lemma_let_values_no_error(bindings: Seq<ast::LetBinding>)
    requires
        !has_error_view(let_value_reports(bindings)),
    ensures
        forall|i: int| 0 <= i < bindings.len() ==> !has_error_view(lower_reports(#[trigger] bindings[i].value.0)),
    decreases bindings.len(),
{
    if bindings.len() > 0 {
        lemma_no_error_split(let_value_reports(bindings.drop_last()), lower_reports(bindings.last().value.0));
        lemma_let_values_no_error(bindings.drop_last());
        assert forall|i: int| 0 <= i < bindings.len() implies !has_error_view(lower_reports(#[trigger] bindings[i].value.0)) by {
            if i < bindings.len() - 1 {
                assert(bindings.drop_last()[i] == bindings[i]);
            }
        }
    }
}

proof fn lemma_unnamed_no_error(ids: Seq<Node<ast::Pattern>>)
    requires
        !has_error_view(unnamed_let_reports(ids)),
    ensures
        forall|i: int| 0 <= i < ids.len() ==> (#[trigger] ids[i]).0.binding is Some,
    decreases ids.len(),
{
    if ids.len() > 0 {
        let last = if ids.last().0.binding is Some {
            Seq::<ReportView>::empty()
        } else {
            seq![crate::report::mir::unnamed_let_binding_report(ids.last().1)]
        };
        lemma_no_error_split(unnamed_let_reports(ids.drop_last()), last);
        lemma_unnamed_no_error(ids.drop_last());
        if ids.last().0.binding is None {
            assert(last[0].level == crate::report::ReportLevel::Error);
        }
        assert forall|i: int| 0 <= i < ids.len() implies (#[trigger] ids[i]).0.binding is Some by {
            if i < ids.len() - 1 {
                assert(ids.drop_last()[i] == ids[i]);
            }
        }
    }
}

proof fn lemma_parts_no_error(parts: Seq<Node<ast::AttrPathPart>>)
    requires
        !has_error_view(parts_reports(parts)),
    ensures
        forall|i: int| 0 <= i < parts.len() ==> ((#[trigger] parts[i]).0 matches ast::AttrPathPart::Expr(e) ==> !has_error_view(lower_reports(e))),
    decreases parts.len(),
{
    if parts.len() > 0 {
        let last = match parts.last().0 {
            ast::AttrPathPart::Expr(e) => lower_reports(e),
            _ => Seq::empty(),
        };
        lemma_no_error_split(parts_reports(parts.drop_last()), last);
        lemma_parts_no_error(parts.drop_last());
        assert forall|i: int| 0 <= i < parts.len() implies ((#[trigger] parts[i]).0 matches ast::AttrPathPart::Expr(e) ==> !has_error_view(lower_reports(e))) by {
            if i < parts.len() - 1 {
                assert(parts.drop_last()[i] == parts[i]);
            }
        }
    }
}

proof fn lemma_unfold_node(a: Node<ast::Expr>, m: Node<mir::Expr>)
    requires
        crate::mir::lowering::lowers_node(a, m),
    ensures
        lowers(a.0, m.0),
{
}

proof fn lemma_unfold_opt(a: Option<Node<ast::Expr>>, m: Option<Node<mir::Expr>>)
    requires
        crate::mir::lowering::lowers_opt(a, m),
    ensures
        a is Some ==> m is Some && lowers(a.unwrap().0, m.unwrap().0),
        a is None ==> m is None,
{
}

proof fn lemma_unfold_path(a: Node<ast::AttrPath>, m: Node<mir::AttrPath>)
    requires
        crate::mir::lowering::lowers_path(a, m),
    ensures
        m.0.parts@.len() == a.0.parts@.len(),
        forall|i: int| 0 <= i < a.0.parts@.len() ==> lowers_part(a.0.parts@[i], #[trigger] m.0.parts@[i]),
{
}

/// What a clean lowering of attributes says of each of them.
spec fn attr_clean(attr: ast::Attr) -> bool {
    &&& !has_error_view(opt_reports(attr.value))
    &&& is_dynamic(attr) ==> !has_error_view(parts_reports(attr.path.0.parts@))
}

proof fn lemma_attrs_no_error(attrs: Seq<Node<ast::Attr>>)
    requires
        !has_error_view(attrs_fold(attrs).1),
    ensures
        forall|j: int| 0 <= j < attrs.len() ==> attr_clean((#[trigger] attrs[j]).0),
    decreases attrs.len(),
{
    if attrs.len() > 0 {
        let prior = attrs_fold(attrs.drop_last()).1;
        let attr = attrs.last();
        let value_reports = opt_reports(attr.0.value);
        match static_parts(attr.0.path.0.parts@) {
            Some(names) => {
                if names.len() == 0 {
                    lemma_no_error_split(prior, value_reports);
                } else {
                    let dup = crate::mir::lowering::insert_path(attrs_fold(attrs.drop_last()).0, names, attrs.len() - 1, attr.0.value is Some, attr.1, Seq::empty()).1;
                    lemma_no_error_split(prior + value_reports, crate::mir::lowering::option_seq(dup));
                    lemma_no_error_split(prior, value_reports);
                }
            },
            None => {
                lemma_no_error_split(prior + value_reports, parts_reports(attr.0.path.0.parts@));
                lemma_no_error_split(prior, value_reports);
            },
        }
        lemma_attrs_no_error(attrs.drop_last());
        assert forall|j: int| 0 <= j < attrs.len() implies attr_clean((#[trigger] attrs[j]).0) by {
            if j < attrs.len() - 1 {
                assert(attrs.drop_last()[j] == attrs[j]);
            }
        }
    }
}

proof fn lemma_part_named(a: Node<ast::AttrPathPart>, m: Node<mir::AttrPathPart>)
    requires
        lowers_part(a, m),
        a.0 matches ast::AttrPathPart::Expr(e) ==> !has_error_view(lower_reports(e)),
    ensures
        part_lets_named(m),
    decreases a, 0nat,
{
    if let ast::AttrPathPart::Expr(e) = a.0 {
        assert(decreases_to!(a => a.0));
        assert(decreases_to!(a.0 => e));
        lemma_lowered_named(e, m.0->Expr_0);
    }
}

proof fn lemma_path_named(a: Seq<Node<ast::AttrPathPart>>, m: Seq<Node<mir::AttrPathPart>>)
    requires
        m.len() == a.len(),
        forall|i: int| 0 <= i < a.len() ==> lowers_part(a[i], #[trigger] m[i]),
        !has_error_view(parts_reports(a)),
    ensures
        forall|i: int| 0 <= i < m.len() ==> part_lets_named(#[trigger] m[i]),
    decreases a, 0nat,
{
    lemma_parts_no_error(a);
    assert forall|i: int| 0 <= i < m.len() implies part_lets_named(#[trigger] m[i]) by {
        assert(decreases_to!(a => a[i]));
        lemma_part_named(a[i], m[i]);
    }
}

proof fn lemma_dynamic_named(attr: Node<ast::Attr>, k: int, m: Node<mir::DynamicAttr>)
    requires
        lowers_dynamic(attr, k, m),
        attr_clean(attr.0),
        is_dynamic(attr.0),
    ensures
        part_lets_named(m.0.part),
        m.0.value matches Some(v) ==> lets_named(v.0),
    decreases attr, (attr.0.path.0.parts.len() - k) as nat,
{
    let parts = attr.0.path.0.parts@;
    lemma_parts_no_error(parts);
    assert(decreases_to!(attr => attr.0));
    assert(decreases_to!(attr.0 => attr.0.path));
    assert(decreases_to!(attr.0.path => attr.0.path.0));
    assert(decreases_to!(attr.0.path.0 => attr.0.path.0.parts));
    assert(decreases_to!(attr.0.path.0.parts => parts));
    assert(decreases_to!(parts => parts[k]));
    lemma_part_named(parts[k], m.0.part);
    if k == parts.len() - 1 {
        lemma_unfold_opt(attr.0.value, m.0.value);
        if let Some(v) = attr.0.value {
            assert(decreases_to!(attr.0 => attr.0.value));
            assert(decreases_to!(attr.0.value => v));
            assert(decreases_to!(v => v.0));
            lemma_lowered_named(v.0, m.0.value.unwrap().0);
        }
    } else {
        let inner = m.0.value.unwrap().0->AttrSet_0;
        lemma_dynamic_named(attr, k + 1, inner.dynamic_attrs@[0]);
        assert(lets_named(m.0.value.unwrap().0));
    }
}

proof fn lemma_finished_named(m: Node<mir::StaticAttr>, n: AttrNode, attrs: Seq<Node<ast::Attr>>)
    requires
        finished(m, n, attrs),
        forall|j: int| 0 <= j < attrs.len() ==> attr_clean((#[trigger] attrs[j]).0),
    ensures
        m.0.value matches Some(v) ==> lets_named(v.0),
    decreases attrs, 2 * node_size(n),
{
    if n.children.len() > 0 {
        let set = m.0.value.unwrap().0->AttrSet_0;
        lemma_finished_all_named(set.static_attrs@, n.children, attrs);
        assert(lets_named(m.0.value.unwrap().0));
    } else if let Some(j) = n.value {
        let v = attrs[j].0.value->0;
        assert(attr_clean(attrs[j].0));
        assert(decreases_to!(attrs => attrs[j]));
        assert(decreases_to!(attrs[j] => attrs[j].0));
        assert(decreases_to!(attrs[j].0 => attrs[j].0.value));
        assert(decreases_to!(attrs[j].0.value => v));
        assert(decreases_to!(v => v.0));
        lemma_unfold_node(v, m.0.value.unwrap());
        lemma_lowered_named(v.0, m.0.value.unwrap().0);
    }
}

proof fn lemma_finished_all_named(ms: Seq<Node<mir::StaticAttr>>, ns: Seq<AttrNode>, attrs: Seq<Node<ast::Attr>>)
    requires
        finished_all(ms, ns, attrs),
        forall|j: int| 0 <= j < attrs.len() ==> attr_clean((#[trigger] attrs[j]).0),
    ensures
        ms.len() == ns.len(),
        forall|i: int| 0 <= i < ms.len() ==> ((#[trigger] ms[i]).0.value matches Some(v) ==> lets_named(v.0)),
    decreases attrs, 2 * nodes_size(ns) + 1,
{
    if ns.len() > 0 {
        assert(node_size(ns.last()) >= 1);
        lemma_finished_all_named(ms.drop_last(), ns.drop_last(), attrs);
        lemma_finished_named(ms.last(), ns.last(), attrs);
        assert forall|i: int| 0 <= i < ms.len() implies ((#[trigger] ms[i]).0.value matches Some(v) ==> lets_named(v.0)) by {
            if i < ms.len() - 1 {
                assert(ms.drop_last()[i] == ms[i]);
            }
        }
    }
}

proof fn lemma_attr_set_named(attrs: Seq<Node<ast::Attr>>, m: mir::AttrSet)
    requires
        lowers_attr_set(attrs, m),
        !has_error_view(attrs_fold(attrs).1),
    ensures
        lets_named(mir::Expr::AttrSet(m)),
    decreases attrs, 2 * nodes_size(attrs_fold(attrs).0) + 2,
{
    lemma_attrs_no_error(attrs);
    lemma_dynamic_indices(attrs);
    lemma_finished_all_named(m.static_attrs@, attrs_fold(attrs).0, attrs);
    let dynamic = dynamic_indices(attrs);
    assert forall|k: int| 0 <= k < m.dynamic_attrs.len() implies part_lets_named((#[trigger] m.dynamic_attrs@[k]).0.part)
        && (m.dynamic_attrs@[k].0.value matches Some(v) ==> lets_named(v.0)) by {
        let d = dynamic[k];
        assert(attr_clean(attrs[d].0));
        assert(decreases_to!(attrs => attrs[d]));
        lemma_dynamic_named(attrs[d], 0, m.dynamic_attrs@[k]);
    }
}

proof fn lemma_dynamic_indices(attrs: Seq<Node<ast::Attr>>)
    ensures
        forall|k: int| 0 <= k < dynamic_indices(attrs).len() ==> 0 <= #[trigger] dynamic_indices(attrs)[k] < attrs.len() && is_dynamic(attrs[dynamic_indices(attrs)[k]].0),
    decreases attrs.len(),
{
    if attrs.len() > 0 {
        lemma_dynamic_indices(attrs.drop_last());
        let prior = dynamic_indices(attrs.drop_last());
        assert forall|k: int| 0 <= k < prior.len() implies 0 <= #[trigger] prior[k] < attrs.len() && is_dynamic(attrs[prior[k]].0) by {
            assert(attrs.drop_last()[prior[k]] == attrs[prior[k]]);
        }
        if !is_dynamic(attrs.last().0) {
            assert(dynamic_indices(attrs) == prior);
        }
    }
}

/// Lowering that reports no error leaves no `let` binding without a name:
/// whenever `m` is the lowering of `a` and lowering `a` reports no error,
/// each `let` in `m` binds a name in each of its bindings, so `m` can be
/// compiled.
pub proof fn law_clean_lowering_names_every_let(a: Node<ast::Expr>, m: Node<mir::Expr>)
    requires
        crate::mir::lowering::lowers_node(a, m),
        !has_error_view(lower_reports(a.0)),
    ensures
        lets_named(m.0),
{
    lemma_unfold_node(a, m);
    lemma_lowered_named(a.0, m.0);
}

proof fn lemma_lowered_named(a: ast::Expr, m: mir::Expr)
    requires
        lowers(a, m),
        !has_error_view(lower_reports(a)),
    ensures
        lets_named(m),
    decreases a, 0nat,
{
    match a {
        ast::Expr::Lambda(l) => {
            lemma_no_error_split(crate::mir::analysis::pattern::duplicate_binding_reports(Seq::empty(), crate::mir::analysis::pattern::pattern_bindings(l.arg.0)), lower_reports(l.body.0));
            lemma_unfold_node(*l.body, *m->Lambda_0.body);
            lemma_lowered_named(l.body.0, m->Lambda_0.body.0);
        },
        ast::Expr::FuncApp { func, arg } => {
            lemma_no_error_split(lower_reports(func.0), lower_reports(arg.0));
            lemma_unfold_node(*func, *m->FuncApp_func);
            lemma_lowered_named(func.0, m->FuncApp_func.0);
            lemma_unfold_node(*arg, *m->FuncApp_arg);
            lemma_lowered_named(arg.0, m->FuncApp_arg.0);
        },
        ast::Expr::IfThenElse { cond, then_expr, else_expr } => {
            lemma_no_error_split(lower_reports(cond.0) + lower_reports(then_expr.0), lower_reports(else_expr.0));
            lemma_no_error_split(lower_reports(cond.0), lower_reports(then_expr.0));
            lemma_unfold_node(*cond, *m->IfThenElse_cond);
            lemma_lowered_named(cond.0, m->IfThenElse_cond.0);
            lemma_unfold_node(*then_expr, *m->IfThenElse_then_expr);
            lemma_lowered_named(then_expr.0, m->IfThenElse_then_expr.0);
            lemma_unfold_node(*else_expr, *m->IfThenElse_else_expr);
            lemma_lowered_named(else_expr.0, m->IfThenElse_else_expr.0);
        },
        ast::Expr::BinOp { lhs, op, rhs } => {
            if op.0 == ast::BinOp::PipeR {
                lemma_no_error_split(lower_reports(rhs.0), lower_reports(lhs.0));
                lemma_unfold_node(*rhs, *m->FuncApp_func);
                lemma_lowered_named(rhs.0, m->FuncApp_func.0);
                lemma_unfold_node(*lhs, *m->FuncApp_arg);
                lemma_lowered_named(lhs.0, m->FuncApp_arg.0);
            } else if op.0 == ast::BinOp::PipeL {
                lemma_no_error_split(lower_reports(lhs.0), lower_reports(rhs.0));
                lemma_unfold_node(*lhs, *m->FuncApp_func);
                lemma_lowered_named(lhs.0, m->FuncApp_func.0);
                lemma_unfold_node(*rhs, *m->FuncApp_arg);
                lemma_lowered_named(rhs.0, m->FuncApp_arg.0);
            } else {
                lemma_no_error_split(lower_reports(lhs.0), lower_reports(rhs.0));
                lemma_unfold_node(*lhs, *m->BinOp_lhs);
                lemma_lowered_named(lhs.0, m->BinOp_lhs.0);
                lemma_unfold_node(*rhs, *m->BinOp_rhs);
                lemma_lowered_named(rhs.0, m->BinOp_rhs.0);
            }
        },
        ast::Expr::UnOp { expr, .. } => {
            lemma_unfold_node(*expr, *m->UnOp_expr);
            lemma_lowered_named(expr.0, m->UnOp_expr.0);
        },
        ast::Expr::Let { bindings, expr } => {
            let values = let_value_reports(bindings@);
            let dups = crate::mir::analysis::pattern::duplicate_binding_reports(Seq::empty(), crate::mir::lowering::ast_let_names(bindings@));
            let unnamed = unnamed_let_reports(let_ids(bindings@));
            lemma_no_error_split(values + dups + unnamed, lower_reports(expr.0));
            lemma_no_error_split(values + dups, unnamed);
            lemma_no_error_split(values, dups);
            lemma_let_values_no_error(bindings@);
            lemma_unnamed_no_error(let_ids(bindings@));
            lemma_unfold_node(*expr, *m->Let_expr);
            lemma_lowered_named(expr.0, m->Let_expr.0);
            let mb = m->Let_bindings;
            assert forall|i: int| 0 <= i < mb.len() implies (#[trigger] mb@[i]).id.0.binding is Some && lets_named(mb@[i].value.0) by {
                assert(let_ids(bindings@)[i] == bindings@[i].id);
                assert(decreases_to!(a => bindings));
                assert(decreases_to!(bindings => bindings@));
                assert(decreases_to!(bindings@ => bindings@[i]));
                lemma_unfold_node(bindings@[i].value, mb@[i].value);
                lemma_lowered_named(bindings@[i].value.0, mb@[i].value.0);
            }
        },
        ast::Expr::AttrSet { attrs } => {
            assert(decreases_to!(a => attrs));
            assert(decreases_to!(attrs => attrs@));
            lemma_attr_set_named(attrs@, m->AttrSet_0);
        },
        ast::Expr::List { elements } => {
            lemma_list_no_error(elements@);
            let me = m->List_elements;
            assert forall|i: int| 0 <= i < me.len() implies lets_named((#[trigger] me@[i]).0) by {
                assert(decreases_to!(a => elements));
                assert(decreases_to!(elements => elements@));
                assert(decreases_to!(elements@ => elements@[i]));
                lemma_unfold_node(elements@[i], me@[i]);
                lemma_lowered_named(elements@[i].0, me@[i].0);
            }
        },
        ast::Expr::AccessAttr { expr, path, or } => {
            let last = match or {
                Some(o) => lower_reports(o.0),
                None => Seq::empty(),
            };
            lemma_no_error_split(lower_reports(expr.0) + parts_reports(path.0.parts@), last);
            lemma_no_error_split(lower_reports(expr.0), parts_reports(path.0.parts@));
            lemma_unfold_node(*expr, *m->AccessAttr_expr);
            lemma_lowered_named(expr.0, m->AccessAttr_expr.0);
            assert(decreases_to!(a => path));
            assert(decreases_to!(path => path.0));
            assert(decreases_to!(path.0 => path.0.parts));
            assert(decreases_to!(path.0.parts => path.0.parts@));
            lemma_unfold_path(path, m->AccessAttr_path);
            lemma_path_named(path.0.parts@, m->AccessAttr_path.0.parts@);
            if let Some(o) = or {
                lemma_unfold_node(*o, *m->AccessAttr_or.unwrap());
                lemma_lowered_named(o.0, m->AccessAttr_or.unwrap().0);
            }
        },
        ast::Expr::HasAttr { expr, path } => {
            lemma_no_error_split(lower_reports(expr.0), parts_reports(path.0.parts@));
            lemma_unfold_node(*expr, *m->HasAttr_expr);
            lemma_lowered_named(expr.0, m->HasAttr_expr.0);
            assert(decreases_to!(a => path));
            assert(decreases_to!(path => path.0));
            assert(decreases_to!(path.0 => path.0.parts));
            assert(decreases_to!(path.0.parts => path.0.parts@));
            lemma_unfold_path(path, m->HasAttr_path);
            lemma_path_named(path.0.parts@, m->HasAttr_path.0.parts@);
        },
        ast::Expr::Paren(inner) => {
            lemma_lowered_named(inner.0, m);
        },
        _ => {},
    }
}

} // verus!
