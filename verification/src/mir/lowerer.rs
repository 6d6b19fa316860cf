use vstd::prelude::*;
use vstd::string::*;

use crate::files::{Node, Span};
use crate::mir::analysis::pattern::{let_bindings_names, pattern_bindings};
use crate::mir::ast as mir;
use crate::mir::lowering::{
    ast_let_names, attrs_fold, dotted, dynamic_indices, finished, finished_all, find_node, insert_path, is_dynamic,
    let_value_reports, list_reports, lower_reports, lowered_binop, lowered_unop, lowers, lowers_attr_set,
    lowers_dynamic, lowers_node, lowers_opt, lowers_part, lowers_path, opt_reports, option_seq, parts_reports,
    static_parts, unnamed_let_reports, let_ids, AttrNode, NamePart,
};
use crate::parse::ast;
use crate::report::mir::{DuplicateAttrError, UnnamedLetBindingError};
use crate::compiler::lets_named;
use crate::mir::naming::law_clean_lowering_names_every_let;
use crate::report::{appended, has_error, lemma_appended_nothing, ReportLevel, lemma_appended_push, lemma_appended_trans, Reports};
use crate::text::push_str;

verus! {

/// The lowered expression, or `Err` when some error was reported, and the
/// reports.
pub type MirLowerResult<'a> = (Result<Node<mir::Expr<'a>>, ()>, Reports);

/// Lowers a parsed expression to the MIR, reporting what the parser could
/// not see: attributes and pattern names defined twice.
pub struct MirLowerer {
    pub reports: Reports,
}

/// A statically named attribute being merged: the node of the tree that the
/// attributes of a set make.
struct StaticAttrBuilder<'a> {
    name: Node<&'a str>,
    full_span: Span,
    value: Option<Node<mir::Expr<'a>>>,
    index: Ghost<Option<int>>,
    children: Vec<StaticAttrBuilder<'a>>,
}

spec fn bview(b: StaticAttrBuilder) -> AttrNode
    decreases b, 0nat,
{
    AttrNode { name: b.name.0@, name_span: b.name.1, full_span: b.full_span, value: b.index@, children: bviews(b.children@) }
}

spec fn bviews(s: Seq<StaticAttrBuilder>) -> Seq<AttrNode>
    decreases s, 0nat,
{
    if s.len() == 0 {
        Seq::empty()
    } else {
        bviews(s.drop_last()).push(bview(s.last()))
    }
}

/// Each value a builder holds is the lowering of the value of the attribute
/// it stands for.
spec fn bvalues_ok(b: StaticAttrBuilder, attrs: Seq<Node<ast::Attr>>) -> bool
    decreases b,
{
    &&& match b.index@ {
        Some(j) => 0 <= j < attrs.len() && attrs[j].0.value is Some && b.value is Some && lowers_node(attrs[j].0.value->0, b.value->0),
        None => b.value is None,
    }
    &&& forall|i: int| 0 <= i < b.children.len() ==> bvalues_ok(#[trigger] b.children@[i], attrs)
}

proof fn lemma_bviews(s: Seq<StaticAttrBuilder>)
    ensures
        bviews(s).len() == s.len(),
        forall|i: int| 0 <= i < s.len() ==> #[trigger] bviews(s)[i] == bview(s[i]),
    decreases s.len(),
{
    if s.len() > 0 {
        lemma_bviews(s.drop_last());
        assert forall|i: int| 0 <= i < s.len() implies #[trigger] bviews(s)[i] == bview(s[i]) by {
            if i < s.len() - 1 {
                assert(s.drop_last()[i] == s[i]);
            }
        }
    }
}

proof fn lemma_find_node_prefix(s: Seq<AttrNode>, k: int, name: Seq<char>)
    requires
        0 <= k <= s.len(),
        find_node(s.take(k), name) is Some,
    ensures
        find_node(s, name) == find_node(s.take(k), name),
    decreases s.len() - k,
{
    if k < s.len() {
        assert(s.take(k + 1).drop_last() =~= s.take(k));
        lemma_find_node_prefix(s, k + 1, name);
    } else {
        assert(s.take(k) =~= s);
    }
}

pub open spec fn name_parts(v: Seq<Node<&str>>) -> Seq<NamePart> {
    v.map_values(|n: Node<&str>| (n.0@, n.1))
}

proof fn lemma_let_names(mb: Seq<mir::LetBinding>, ab: Seq<ast::LetBinding>)
    requires
        mb.len() == ab.len(),
        forall|i: int| 0 <= i < ab.len() ==> mb[i].id == ab[i].id,
    ensures
        let_bindings_names(mb) == ast_let_names(ab),
    decreases ab.len(),
{
    if ab.len() > 0 {
        lemma_let_names(mb.drop_last(), ab.drop_last());
    }
}

/// The first builder named `name`.
fn find_builder(attrs: &Vec<StaticAttrBuilder>, name: &str) -> (r: Option<usize>)
    ensures
        match r {
            Some(i) => i < attrs@.len() && find_node(bviews(attrs@), name@) == Some(i as int),
            None => find_node(bviews(attrs@), name@) is None,
        },
{
    proof {
        lemma_bviews(attrs@);
        assert(bviews(attrs@).take(0) =~= Seq::<AttrNode>::empty());
    }
    let ghost nodes = bviews(attrs@);
    let mut i: usize = 0;
    while i < attrs.len()
        invariant
            i <= attrs@.len(),
            nodes == bviews(attrs@),
            nodes.len() == attrs@.len(),
            forall|k: int| 0 <= k < attrs@.len() ==> #[trigger] nodes[k] == bview(attrs@[k]),
            find_node(nodes.take(i as int), name@) is None,
        decreases attrs@.len() - i,
    {
        assert(nodes.take(i + 1).drop_last() =~= nodes.take(i as int));
        if crate::text::str_eq(attrs[i].name.0, name) {
            assert(nodes.take(i + 1).last() == nodes[i as int]);
            proof {
                lemma_find_node_prefix(nodes, i + 1, name@);
            }
            return Some(i);
        }
        i = i + 1;
    }
    assert(nodes.take(i as int) =~= nodes);
    None
}

impl MirLowerer {
    pub fn new(reports: Reports) -> (l: Self)
        ensures
            l.reports@ == reports@,
    {
        MirLowerer { reports }
    }

    /// Reports each `let` binding whose pattern binds no name.
    fn verify_let_bindings_named(&mut self, bindings: &Vec<mir::LetBinding<'_>>)
        ensures
            appended(old(self).reports@, final(self).reports@, unnamed_let_reports(bindings@.map_values(|b: mir::LetBinding| b.id))),
    {
        let ghost ids = bindings@.map_values(|b: mir::LetBinding| b.id);
        proof {
            lemma_appended_nothing(self.reports@);
            assert(ids.take(0) =~= Seq::<Node<ast::Pattern>>::empty());
        }
        let mut i: usize = 0;
        while i < bindings.len()
            invariant
                ids == bindings@.map_values(|b: mir::LetBinding| b.id),
                i <= bindings@.len(),
                appended(old(self).reports@, self.reports@, unnamed_let_reports(ids.take(i as int))),
            decreases bindings@.len() - i,
        {
            let ghost before = self.reports@;
            let id = &bindings[i].id;
            proof {
                assert(ids.take(i + 1).drop_last() =~= ids.take(i as int));
                assert(ids.take(i + 1).last() == *id);
            }
            if id.0.binding.is_none() {
                let report = UnnamedLetBindingError { span: id.1 }.to_report();
                self.reports.emit(report);
                proof {
                    lemma_appended_push(before, report);
                    lemma_appended_trans(old(self).reports@, before, self.reports@, unnamed_let_reports(ids.take(i as int)), seq![report@]);
                }
            } else {
                proof {
                    assert(unnamed_let_reports(ids.take(i as int)) + Seq::<crate::report::ReportView>::empty() =~= unnamed_let_reports(ids.take(i as int)));
                }
            }
            i = i + 1;
        }
        assert(ids.take(i as int) =~= ids);
    }

    /// Lowers `expr`. The result is `Ok` exactly when no report is an error,
    /// those given to `new` included.
    pub fn lower<'a>(self, expr: Node<ast::Expr<'a>>) -> (r: MirLowerResult<'a>)
        ensures
            appended(self.reports@, r.1@, lower_reports(expr.0)),
            r.0 is Ok <==> !has_error(r.1@),
            r.0 matches Ok(m) ==> lowers_node(expr, m),
            r.0 matches Ok(m) ==> lets_named(m.0),
    {
        let mut this = self;
        let lowered = this.lower_expr(expr);
        let reports = this.reports;
        if reports.has_errors() {
            (Err(()), reports)
        } else {
            proof {
                let before = self.reports@;
                let added = lower_reports(expr.0);
                assert forall|j: int| 0 <= j < added.len() implies added[j].level != ReportLevel::Error by {
                    assert(reports@[before.len() + j]@ == added[j]);
                }
                law_clean_lowering_names_every_let(expr, lowered);
            }
            (Ok(lowered), reports)
        }
    }

    fn lower_expr<'a>(&mut self, expr: Node<ast::Expr<'a>>) -> (r: Node<mir::Expr<'a>>)
        ensures
            lowers_node(expr, r),
            appended(old(self).reports@, final(self).reports@, lower_reports(expr.0)),
        decreases expr, 2nat,
    {
        let Node(e, span) = expr;
        Node(self.lower_kind(e), span)
    }

    fn lower_kind<'a>(&mut self, e: ast::Expr<'a>) -> (r: mir::Expr<'a>)
        ensures
            lowers(e, r),
            appended(old(self).reports@, final(self).reports@, lower_reports(e)),
        decreases e, 1nat,
    {
        let ghost e0 = e;
        let ghost r0 = self.reports@;
        match e {
            ast::Expr::Lambda(lambda) => {
                let arg = self.lower_pattern(lambda.arg);
                self.verify_lambda_pattern_bindings(&arg);
                let ghost r1 = self.reports@;
                let body = self.lower_expr(*lambda.body);
                proof {
                    lemma_appended_trans(r0, r1, self.reports@, duplicate_reports_of(pattern_bindings(arg.0)), lower_reports(e0->Lambda_0.body.0));
                }
                mir::Expr::Lambda(mir::Lambda { arg, body: Box::new(body) })
            },
            ast::Expr::FuncApp { func, arg } => {
                let func = self.lower_expr(*func);
                let ghost r1 = self.reports@;
                let arg = self.lower_expr(*arg);
                proof {
                    lemma_appended_trans(r0, r1, self.reports@, lower_reports(e0->func.0), lower_reports(e0->arg.0));
                }
                mir::Expr::FuncApp { func: Box::new(func), arg: Box::new(arg) }
            },
            ast::Expr::IfThenElse { cond, then_expr, else_expr } => {
                let cond = self.lower_expr(*cond);
                let ghost r1 = self.reports@;
                let then_expr = self.lower_expr(*then_expr);
                let ghost r2 = self.reports@;
                let else_expr = self.lower_expr(*else_expr);
                proof {
                    lemma_appended_trans(r0, r1, r2, lower_reports(e0->cond.0), lower_reports(e0->then_expr.0));
                    lemma_appended_trans(r0, r2, self.reports@, lower_reports(e0->cond.0) + lower_reports(e0->then_expr.0), lower_reports(e0->else_expr.0));
                }
                mir::Expr::IfThenElse { cond: Box::new(cond), then_expr: Box::new(then_expr), else_expr: Box::new(else_expr) }
            },
            ast::Expr::BinOp { lhs, op, rhs } => self.lower_binop(*lhs, op, *rhs, Ghost(e0)),
            ast::Expr::UnOp { expr, op } => {
                let expr = self.lower_expr(*expr);
                let Node(o, ospan) = op;
                mir::Expr::UnOp { expr: Box::new(expr), op: Node(self.lower_unop(o), ospan) }
            },
            ast::Expr::Let { bindings, expr } => {
                let ghost ab = bindings@;
                let mut rest = bindings;
                let mut lowered: Vec<mir::LetBinding<'a>> = Vec::new();
                proof {
                    lemma_appended_nothing(self.reports@);
                    assert(ab.take(0) =~= Seq::<ast::LetBinding>::empty());
                    assert(ab.skip(0) =~= ab);
                }
                while rest.len() > 0
                    invariant
                        e0 == e,
                        e0 is Let,
                        ab == e0->Let_bindings@,
                        lowered@.len() <= ab.len(),
                        rest@ == ab.skip(lowered@.len() as int),
                        forall|i: int| 0 <= i < lowered@.len() ==> (#[trigger] lowered@[i]).id == ab[i].id && lowers_node(ab[i].value, lowered@[i].value),
                        appended(r0, self.reports@, let_value_reports(ab.take(lowered@.len() as int))),
                    decreases rest@.len(),
                {
                    let ghost n = lowered@.len() as int;
                    let ghost before = self.reports@;
                    let b = rest.remove(0);
                    assert(b == ab[n]);
                    assert(rest@ =~= ab.skip(n + 1));
                    proof {
                        assert(decreases_to!(e0 => e0->Let_bindings));
                        assert(decreases_to!(e0->Let_bindings => ab));
                        assert(decreases_to!(ab => ab[n]));
                        assert(decreases_to!(ab[n] => ab[n].value));
                    }
                    let value = self.lower_expr(b.value);
                    lowered.push(mir::LetBinding { id: b.id, value });
                    proof {
                        assert(ab.take(n + 1).drop_last() =~= ab.take(n));
                        lemma_appended_trans(r0, before, self.reports@, let_value_reports(ab.take(n)), lower_reports(ab[n].value.0));
                    }
                }
                assert(ab.take(lowered@.len() as int) =~= ab);
                let ghost r1 = self.reports@;
                self.verify_let_pattern_bindings(&lowered);
                proof {
                    lemma_let_names(lowered@, ab);
                }
                let ghost r2 = self.reports@;
                self.verify_let_bindings_named(&lowered);
                proof {
                    assert(lowered@.map_values(|b: mir::LetBinding| b.id) =~= let_ids(ab));
                }
                let ghost r3 = self.reports@;
                let body = self.lower_expr(*expr);
                proof {
                    let x = let_value_reports(ab) + duplicate_reports_of(ast_let_names(ab));
                    lemma_appended_trans(r0, r1, r2, let_value_reports(ab), duplicate_reports_of(ast_let_names(ab)));
                    lemma_appended_trans(r0, r2, r3, x, unnamed_let_reports(let_ids(ab)));
                    lemma_appended_trans(r0, r3, self.reports@, x + unnamed_let_reports(let_ids(ab)), lower_reports(e0->Let_expr.0));
                }
                mir::Expr::Let { bindings: lowered, expr: Box::new(body) }
            },
            ast::Expr::AttrSet { attrs } => mir::Expr::AttrSet(self.lower_attr_set(attrs)),
            ast::Expr::List { elements } => {
                let ghost ae = elements@;
                let mut rest = elements;
                let mut lowered: Vec<Node<mir::Expr<'a>>> = Vec::new();
                proof {
                    lemma_appended_nothing(self.reports@);
                    assert(ae.take(0) =~= Seq::<Node<ast::Expr>>::empty());
                    assert(ae.skip(0) =~= ae);
                }
                while rest.len() > 0
                    invariant
                        e0 == e,
                        e0 is List,
                        ae == e0->List_elements@,
                        lowered@.len() <= ae.len(),
                        rest@ == ae.skip(lowered@.len() as int),
                        forall|i: int| 0 <= i < lowered@.len() ==> lowers_node(ae[i], #[trigger] lowered@[i]),
                        appended(r0, self.reports@, list_reports(ae.take(lowered@.len() as int))),
                    decreases rest@.len(),
                {
                    let ghost n = lowered@.len() as int;
                    let ghost before = self.reports@;
                    let x = rest.remove(0);
                    assert(x == ae[n]);
                    assert(rest@ =~= ae.skip(n + 1));
                    proof {
                        assert(decreases_to!(e0 => e0->List_elements));
                        assert(decreases_to!(e0->List_elements => ae));
                        assert(decreases_to!(ae => ae[n]));
                    }
                    let y = self.lower_expr(x);
                    lowered.push(y);
                    proof {
                        assert(ae.take(n + 1).drop_last() =~= ae.take(n));
                        lemma_appended_trans(r0, before, self.reports@, list_reports(ae.take(n)), lower_reports(ae[n].0));
                    }
                }
                assert(ae.take(lowered@.len() as int) =~= ae);
                mir::Expr::List { elements: lowered }
            },
            ast::Expr::AccessAttr { expr, path, or } => {
                let expr = self.lower_expr(*expr);
                let ghost r1 = self.reports@;
                let path = self.lower_attr_path(path);
                let ghost r2 = self.reports@;
                proof {
                    lemma_appended_trans(r0, r1, r2, lower_reports(e0->AccessAttr_expr.0), parts_reports(e0->AccessAttr_path.0.parts@));
                }
                let or = match or {
                    Some(o) => {
                        let o = self.lower_expr(*o);
                        Some(Box::new(o))
                    },
                    None => {
                        proof {
                            lemma_appended_nothing(self.reports@);
                        }
                        None
                    },
                };
                proof {
                    let or_reports = match e0->AccessAttr_or {
                        Some(o) => lower_reports(o.0),
                        None => Seq::<crate::report::ReportView>::empty(),
                    };
                    lemma_appended_trans(r0, r2, self.reports@, lower_reports(e0->AccessAttr_expr.0) + parts_reports(e0->AccessAttr_path.0.parts@), or_reports);
                }
                mir::Expr::AccessAttr { expr: Box::new(expr), path, or }
            },
            ast::Expr::HasAttr { expr, path } => {
                let expr = self.lower_expr(*expr);
                let ghost r1 = self.reports@;
                let path = self.lower_attr_path(path);
                proof {
                    lemma_appended_trans(r0, r1, self.reports@, lower_reports(e0->HasAttr_expr.0), parts_reports(e0->HasAttr_path.0.parts@));
                }
                mir::Expr::HasAttr { expr: Box::new(expr), path }
            },
            ast::Expr::Paren(inner) => self.lower_expr(*inner).0,
            ast::Expr::Ident(ident) => {
                proof {
                    lemma_appended_nothing(self.reports@);
                }
                mir::Expr::Ident(ident)
            },
            ast::Expr::Num(num) => {
                proof {
                    lemma_appended_nothing(self.reports@);
                }
                mir::Expr::Num(num)
            },
            ast::Expr::Str(s) => {
                proof {
                    lemma_appended_nothing(self.reports@);
                }
                mir::Expr::Str(s)
            },
        }
    }

    /// Patterns keep their form in the MIR.
    fn lower_pattern<'a>(&mut self, pattern: Node<ast::Pattern<'a>>) -> (r: Node<mir::Pattern<'a>>)
        ensures
            r == pattern,
            final(self).reports@ == old(self).reports@,
    {
        pattern
    }

    fn lower_binop<'a>(
        &mut self,
        lhs: Node<ast::Expr<'a>>,
        op: Node<ast::BinOp>,
        rhs: Node<ast::Expr<'a>>,
        Ghost(whole): Ghost<ast::Expr<'a>>,
    ) -> (r: mir::Expr<'a>)
        requires
            whole is BinOp,
            *whole->BinOp_lhs == lhs,
            whole->BinOp_op == op,
            *whole->BinOp_rhs == rhs,
        ensures
            lowers(whole, r),
            appended(old(self).reports@, final(self).reports@, lower_reports(whole)),
        decreases whole, 0nat,
    {
        let ghost r0 = self.reports@;
        match op.0 {
            ast::BinOp::PipeL => {
                let func = self.lower_expr(lhs);
                let ghost r1 = self.reports@;
                let arg = self.lower_expr(rhs);
                proof {
                    lemma_appended_trans(r0, r1, self.reports@, lower_reports(lhs.0), lower_reports(rhs.0));
                }
                mir::Expr::FuncApp { func: Box::new(func), arg: Box::new(arg) }
            },
            ast::BinOp::PipeR => {
                let func = self.lower_expr(rhs);
                let ghost r1 = self.reports@;
                let arg = self.lower_expr(lhs);
                proof {
                    lemma_appended_trans(r0, r1, self.reports@, lower_reports(rhs.0), lower_reports(lhs.0));
                }
                mir::Expr::FuncApp { func: Box::new(func), arg: Box::new(arg) }
            },
            kind => {
                let lhs = self.lower_expr(lhs);
                let ghost r1 = self.reports@;
                let rhs = self.lower_expr(rhs);
                proof {
                    lemma_appended_trans(r0, r1, self.reports@, lower_reports(whole->BinOp_lhs.0), lower_reports(whole->BinOp_rhs.0));
                }
                mir::Expr::BinOp { lhs: Box::new(lhs), op: Node(self.map_binop(kind), op.1), rhs: Box::new(rhs) }
            },
        }
    }

    fn map_binop(&self, op: ast::BinOp) -> (r: mir::BinOp)
        ensures
            r == lowered_binop(op),
    {
        match op {
            ast::BinOp::Rem => mir::BinOp::Rem,
            ast::BinOp::Div => mir::BinOp::Div,
            ast::BinOp::Mul => mir::BinOp::Mul,
            ast::BinOp::Sub => mir::BinOp::Sub,
            ast::BinOp::Add => mir::BinOp::Add,
            ast::BinOp::Lt => mir::BinOp::Lt,
            ast::BinOp::Lte => mir::BinOp::Lte,
            ast::BinOp::Gt => mir::BinOp::Gt,
            ast::BinOp::Gte => mir::BinOp::Gte,
            ast::BinOp::Eq => mir::BinOp::Eq,
            ast::BinOp::Ne => mir::BinOp::Ne,
            ast::BinOp::And => mir::BinOp::And,
            ast::BinOp::Or => mir::BinOp::Or,
            ast::BinOp::LogImp => mir::BinOp::LogImp,
            ast::BinOp::PipeL => mir::BinOp::LogImp,
            ast::BinOp::PipeR => mir::BinOp::LogImp,
        }
    }

    fn lower_unop(&self, op: ast::UnOp) -> (r: mir::UnOp)
        ensures
            r == lowered_unop(op),
    {
        match op {
            ast::UnOp::Neg => mir::UnOp::Neg,
            ast::UnOp::Not => mir::UnOp::Not,
        }
    }

    fn lower_attr_path<'a>(&mut self, path: Node<ast::AttrPath<'a>>) -> (r: Node<mir::AttrPath<'a>>)
        ensures
            lowers_path(path, r),
            appended(old(self).reports@, final(self).reports@, parts_reports(path.0.parts@)),
        decreases path, 1nat,
    {
        let span = path.1;
        Node(mir::AttrPath { parts: self.lower_attr_path_parts(path) }, span)
    }

    fn lower_attr_path_parts<'a>(&mut self, path: Node<ast::AttrPath<'a>>) -> (r: Vec<Node<mir::AttrPathPart<'a>>>)
        ensures
            r@.len() == path.0.parts@.len(),
            forall|i: int| 0 <= i < r@.len() ==> lowers_part(path.0.parts@[i], #[trigger] r@[i]),
            appended(old(self).reports@, final(self).reports@, parts_reports(path.0.parts@)),
        decreases path, 0nat,
    {
        let ghost p0 = path;
        let ghost ap = path.0.parts@;
        let ghost r0 = self.reports@;
        let Node(p, _) = path;
        let mut rest = p.parts;
        let mut out: Vec<Node<mir::AttrPathPart<'a>>> = Vec::new();
        proof {
            lemma_appended_nothing(self.reports@);
            assert(ap.take(0) =~= Seq::<Node<ast::AttrPathPart>>::empty());
            assert(ap.skip(0) =~= ap);
        }
        while rest.len() > 0
            invariant
                p0 == path,
                ap == p0.0.parts@,
                out@.len() <= ap.len(),
                rest@ == ap.skip(out@.len() as int),
                forall|i: int| 0 <= i < out@.len() ==> lowers_part(ap[i], #[trigger] out@[i]),
                appended(r0, self.reports@, parts_reports(ap.take(out@.len() as int))),
            decreases rest@.len(),
        {
            let ghost n = out@.len() as int;
            let ghost before = self.reports@;
            let part = rest.remove(0);
            assert(part == ap[n]);
            assert(rest@ =~= ap.skip(n + 1));
            let Node(kind, part_span) = part;
            let lowered = match kind {
                ast::AttrPathPart::Ident(ident) => {
                    proof { lemma_appended_nothing(self.reports@); }
                    mir::AttrPathPart::Ident(ident)
                },
                ast::AttrPathPart::Str(s) => {
                    proof { lemma_appended_nothing(self.reports@); }
                    mir::AttrPathPart::Ident(s)
                },
                ast::AttrPathPart::Num(num) => {
                    proof { lemma_appended_nothing(self.reports@); }
                    mir::AttrPathPart::Num(num)
                },
                ast::AttrPathPart::Expr(expr) => {
                    proof {
                        assert(decreases_to!(p0 => p0.0));
                        assert(decreases_to!(p0.0 => p0.0.parts));
                        assert(decreases_to!(p0.0.parts => ap));
                        assert(decreases_to!(ap => ap[n]));
                        assert(decreases_to!(ap[n] => ap[n].0));
                        assert(decreases_to!(ap[n].0 => ap[n].0->Expr_0));
                    }
                    mir::AttrPathPart::Expr(self.lower_kind(expr))
                },
            };
            out.push(Node(lowered, part_span));
            proof {
                assert(ap.take(n + 1).drop_last() =~= ap.take(n));
                assert(ap.take(n + 1).last() == ap[n]);
                let step = match ap[n].0 {
                    ast::AttrPathPart::Expr(e) => lower_reports(e),
                    _ => Seq::<crate::report::ReportView>::empty(),
                };
                lemma_appended_trans(r0, before, self.reports@, parts_reports(ap.take(n)), step);
            }
        }
        assert(ap.take(out@.len() as int) =~= ap);
        out
    }
}

impl MirLowerer {
    fn lower_attr_set<'a>(&mut self, attrs: Vec<Node<ast::Attr<'a>>>) -> (r: mir::AttrSet<'a>)
        ensures
            lowers_attr_set(attrs@, r),
            appended(old(self).reports@, final(self).reports@, attrs_fold(attrs@).1),
        decreases attrs, 0nat,
    {
        let ghost all = attrs@;
        let ghost v0 = attrs;
        let ghost r0 = self.reports@;
        let total = attrs.len();
        let mut static_attrs: Vec<StaticAttrBuilder<'a>> = Vec::new();
        let mut dynamic_attrs: Vec<Node<mir::DynamicAttr<'a>>> = Vec::new();
        let mut rest = attrs;
        let mut j: usize = 0;
        proof {
            lemma_appended_nothing(self.reports@);
            assert(all.take(0) =~= Seq::<Node<ast::Attr>>::empty());
            assert(all.skip(0) =~= all);
            assert(bviews(static_attrs@) =~= Seq::<AttrNode>::empty());
        }
        while rest.len() > 0
            invariant
                v0 == attrs,
                all == v0@,
                all.len() == total,
                j <= all.len(),
                rest@ == all.skip(j as int),
                bviews(static_attrs@) == attrs_fold(all.take(j as int)).0,
                appended(r0, self.reports@, attrs_fold(all.take(j as int)).1),
                forall|i: int| 0 <= i < static_attrs@.len() ==> bvalues_ok(#[trigger] static_attrs@[i], all),
                dynamic_attrs@.len() == dynamic_indices(all.take(j as int)).len(),
                forall|k: int| 0 <= k < dynamic_attrs@.len() ==> 0 <= #[trigger] dynamic_indices(all.take(j as int))[k] < j,
                forall|k: int| 0 <= k < dynamic_attrs@.len() ==> lowers_dynamic(all[dynamic_indices(all.take(j as int))[k]], 0, #[trigger] dynamic_attrs@[k]),
            decreases rest@.len(),
        {
            let ghost before = self.reports@;
            assert(j < all.len());
            let attr = rest.remove(0);
            assert(attr == all[j as int]);
            assert(rest@ =~= all.skip(j + 1));
            let ghost prefix = all.take(j as int);
            proof {
                assert(all.take(j + 1).drop_last() =~= prefix);
                assert(all.take(j + 1).last() == all[j as int]);
            }
            let Node(a, span) = attr;
            let ast::Attr { path, value } = a;
            let lowered_value = match value {
                Some(v) => {
                    proof {
                        assert(decreases_to!(v0 => all));
                        assert(decreases_to!(all => all[j as int]));
                        assert(decreases_to!(all[j as int] => all[j as int].0));
                        assert(decreases_to!(all[j as int].0 => all[j as int].0.value));
                        assert(decreases_to!(all[j as int].0.value => v));
                    }
                    Some(self.lower_expr(v))
                },
                None => {
                    proof { lemma_appended_nothing(self.reports@); }
                    None
                },
            };
            let ghost after_value = self.reports@;
            assert(lowers_opt(all[j as int].0.value, lowered_value));
            match self.static_attr_parts(&path) {
                Some(parts) => {
                    if parts.len() > 0 {
                        assert(name_parts(parts@).skip(0) =~= name_parts(parts@));
                        self.insert_static_attr(&mut static_attrs, &parts, 0, lowered_value, span, String::new(), Ghost(j as int), Ghost(all));
                        proof {
                            lemma_appended_trans(r0, before, after_value, attrs_fold(prefix).1, opt_reports(all[j as int].0.value));
                            let dup = insert_path(attrs_fold(prefix).0, name_parts(parts@), j as int, all[j as int].0.value is Some, span, Seq::empty()).1;
                            lemma_appended_trans(r0, after_value, self.reports@, attrs_fold(prefix).1 + opt_reports(all[j as int].0.value), option_seq(dup));
                        }
                    } else {
                        proof {
                            lemma_appended_trans(r0, before, after_value, attrs_fold(prefix).1, opt_reports(all[j as int].0.value));
                        }
                    }
                    assert(!is_dynamic(all[j as int].0));
                    assert(dynamic_indices(all.take(j + 1)) == dynamic_indices(prefix));
                },
                None => {
                    proof {
                        assert(decreases_to!(v0 => all));
                        assert(decreases_to!(all => all[j as int]));
                        assert(decreases_to!(all[j as int] => all[j as int].0));
                        assert(decreases_to!(all[j as int].0 => all[j as int].0.path));
                    }
                    let ghost before_path = self.reports@;
                    let d = self.lower_dynamic_attr(path, lowered_value, span, Ghost(all[j as int]));
                    dynamic_attrs.push(d);
                    proof {
                        lemma_appended_trans(r0, before, after_value, attrs_fold(prefix).1, opt_reports(all[j as int].0.value));
                        lemma_appended_trans(r0, after_value, self.reports@, attrs_fold(prefix).1 + opt_reports(all[j as int].0.value), parts_reports(all[j as int].0.path.0.parts@));
                        assert(dynamic_indices(all.take(j + 1)) == dynamic_indices(prefix).push(j as int));
                    }
                },
            }
            j = j + 1;
        }
        assert(all.take(j as int) =~= all);
        let static_attrs = self.finish_static_attrs(static_attrs, Ghost(all));
        mir::AttrSet { static_attrs, dynamic_attrs }
    }

    /// The names of a path whose parts are all identifiers or strings.
    fn static_attr_parts<'a>(&self, path: &Node<ast::AttrPath<'a>>) -> (r: Option<Vec<Node<&'a str>>>)
        ensures
            match r {
                Some(v) => static_parts(path.0.parts@) == Some(name_parts(v@)),
                None => static_parts(path.0.parts@) is None,
            },
    {
        let mut out: Vec<Node<&'a str>> = Vec::new();
        let mut i: usize = 0;
        assert(path.0.parts@.take(0) =~= Seq::<Node<ast::AttrPathPart>>::empty());
        assert(name_parts(out@) =~= Seq::<NamePart>::empty());
        while i < path.0.parts.len()
            invariant
                i <= path.0.parts@.len(),
                static_parts(path.0.parts@.take(i as int)) == Some(name_parts(out@)),
            decreases path.0.parts@.len() - i,
        {
            assert(path.0.parts@.take(i + 1).drop_last() =~= path.0.parts@.take(i as int));
            assert(path.0.parts@.take(i + 1).last() == path.0.parts@[i as int]);
            let part = &path.0.parts[i];
            match &part.0 {
                ast::AttrPathPart::Ident(name) => {
                    out.push(Node(*name, part.1));
                },
                ast::AttrPathPart::Str(name) => {
                    out.push(Node(*name, part.1));
                },
                _ => {
                    proof {
                        lemma_static_parts_none(path.0.parts@, i as int + 1);
                    }
                    return None;
                },
            }
            assert(name_parts(out@) =~= name_parts(out@.drop_last()).push((out@.last().0@, out@.last().1)));
            i = i + 1;
        }
        assert(path.0.parts@.take(i as int) =~= path.0.parts@);
        Some(out)
    }

    fn insert_static_attr<'a>(
        &mut self,
        attrs: &mut Vec<StaticAttrBuilder<'a>>,
        parts: &Vec<Node<&'a str>>,
        k: usize,
        value: Option<Node<mir::Expr<'a>>>,
        attr_span: Span,
        prefix: String,
        Ghost(index): Ghost<int>,
        Ghost(all): Ghost<Seq<Node<ast::Attr<'a>>>>,
    )
        requires
            k < parts@.len(),
            forall|i: int| 0 <= i < old(attrs)@.len() ==> bvalues_ok(#[trigger] old(attrs)@[i], all),
            value is Some ==> 0 <= index < all.len() && all[index].0.value is Some && lowers_node(all[index].0.value->0, value->0),
        ensures
            bviews(final(attrs)@) == insert_path(bviews(old(attrs)@), name_parts(parts@).skip(k as int), index, value is Some, attr_span, prefix@).0,
            appended(old(self).reports@, final(self).reports@, option_seq(insert_path(bviews(old(attrs)@), name_parts(parts@).skip(k as int), index, value is Some, attr_span, prefix@).1)),
            forall|i: int| 0 <= i < final(attrs)@.len() ==> bvalues_ok(#[trigger] final(attrs)@[i], all),
        decreases parts@.len() - k,
    {
        let ghost nodes = bviews(attrs@);
        let ghost ps = name_parts(parts@).skip(k as int);
        proof {
            lemma_bviews(attrs@);
            assert(ps[0] == (parts@[k as int].0@, parts@[k as int].1));
            assert(ps.drop_first() =~= name_parts(parts@).skip(k + 1));
        }
        let Node(name, name_span) = parts[k];
        let path_name = if prefix.as_str().is_empty() {
            String::from_str(name)
        } else {
            let mut p = prefix;
            push_str(&mut p, ".");
            push_str(&mut p, name);
            p
        };
        assert(path_name@ == dotted(prefix@, name@));
        match find_builder(attrs, name) {
            Some(i) => {
                assert(bvalues_ok(attrs@[i as int], all));
                assert(nodes[i as int] == bview(attrs@[i as int]));
                assert(ps.len() == parts@.len() - k);
                if k == parts.len() - 1 || attrs[i].value.is_some() {
                    let first = attrs[i].full_span;
                    let ghost before = self.reports@;
                    self.reports.emit(DuplicateAttrError { span: name_span, first, name: path_name }.to_report());
                    proof {
                        lemma_appended_push(before, self.reports@.last());
                        assert(before.push(self.reports@.last()) == self.reports@);
                    }
                    return;
                }
                let mut node = attrs.remove(i);
                assert(bvalues_ok(node, all));
                self.insert_static_attr(&mut node.children, parts, k + 1, value, attr_span, path_name, Ghost(index), Ghost(all));
                attrs.insert(i, node);
                proof {
                    lemma_bviews(attrs@);
                    lemma_bviews(old(attrs)@);
                    assert(bviews(attrs@) =~= nodes.update(i as int, bview(node)));
                    assert(bview(node).children == insert_path(nodes[i as int].children, ps.drop_first(), index, value is Some, attr_span, path_name@).0);
                    assert(bview(node) == AttrNode { name: nodes[i as int].name, name_span: nodes[i as int].name_span, full_span: nodes[i as int].full_span, value: nodes[i as int].value, children: bview(node).children });
                    assert forall|x: int| 0 <= x < attrs@.len() implies bvalues_ok(#[trigger] attrs@[x], all) by {
                        if x != i {
                            assert(attrs@[x] == old(attrs)@[x]);
                        }
                    }
                }
            },
            None => {
                if k == parts.len() - 1 {
                    let ghost idx: Option<int> = if value is Some { Some(index) } else { None };
                    let b = StaticAttrBuilder { name: Node(name, name_span), full_span: attr_span, value, index: Ghost(idx), children: Vec::new() };
                    assert(bviews(b.children@) =~= Seq::<AttrNode>::empty());
                    attrs.push(b);
                } else {
                    let mut children: Vec<StaticAttrBuilder<'a>> = Vec::new();
                    assert(bviews(children@) =~= Seq::<AttrNode>::empty());
                    self.insert_static_attr(&mut children, parts, k + 1, value, attr_span, path_name, Ghost(index), Ghost(all));
                    let b = StaticAttrBuilder { name: Node(name, name_span), full_span: attr_span, value: None, index: Ghost(None), children };
                    attrs.push(b);
                }
                proof {
                    assert(attrs@.drop_last() == old(attrs)@);
                    assert(ps.len() == parts@.len() - k);
                    assert(find_node(nodes, ps[0].0) is None);
                    assert(bviews(attrs@) == nodes.push(bview(attrs@.last())));
                    lemma_appended_nothing(self.reports@);
                    assert forall|x: int| 0 <= x < attrs@.len() implies bvalues_ok(#[trigger] attrs@[x], all) by {
                        if x < old(attrs)@.len() {
                            assert(attrs@[x] == old(attrs)@[x]);
                        }
                    }
                }
            },
        }
    }

    fn finish_static_attrs<'a>(&self, attrs: Vec<StaticAttrBuilder<'a>>, Ghost(all): Ghost<Seq<Node<ast::Attr<'a>>>>) -> (r: Vec<Node<mir::StaticAttr<'a>>>)
        requires
            forall|i: int| 0 <= i < attrs@.len() ==> bvalues_ok(#[trigger] attrs@[i], all),
        ensures
            finished_all(r@, bviews(attrs@), all),
        decreases attrs, 0nat,
    {
        let ghost v0 = attrs;
        let ghost bs = attrs@;
        proof {
            lemma_bviews(bs);
            assert(bs.skip(0) =~= bs);
            assert(bviews(bs).take(0) =~= Seq::<AttrNode>::empty());
        }
        let mut rest = attrs;
        let mut out: Vec<Node<mir::StaticAttr<'a>>> = Vec::new();
        while rest.len() > 0
            invariant
                v0 == attrs,
                bs == v0@,
                out@.len() <= bs.len(),
                rest@ == bs.skip(out@.len() as int),
                bviews(bs).len() == bs.len(),
                forall|i: int| 0 <= i < bs.len() ==> #[trigger] bviews(bs)[i] == bview(bs[i]),
                forall|i: int| 0 <= i < bs.len() ==> bvalues_ok(#[trigger] bs[i], all),
                finished_all(out@, bviews(bs).take(out@.len() as int), all),
            decreases rest@.len(),
        {
            let ghost n = out@.len() as int;
            let b = rest.remove(0);
            assert(b == bs[n]);
            assert(rest@ =~= bs.skip(n + 1));
            proof {
                assert(decreases_to!(v0 => bs));
                assert(decreases_to!(bs => bs[n]));
            }
            let f = self.finish_static_attr(b, Ghost(all));
            let ghost prev = out@;
            out.push(f);
            proof {
                assert(bviews(bs).take(n + 1).drop_last() =~= bviews(bs).take(n));
                assert(out@.drop_last() =~= prev);
                assert(bviews(bs).take(n + 1).last() == bview(bs[n]));
            }
        }
        assert(bviews(bs).take(out@.len() as int) =~= bviews(bs));
        out
    }

    fn finish_static_attr<'a>(&self, attr: StaticAttrBuilder<'a>, Ghost(all): Ghost<Seq<Node<ast::Attr<'a>>>>) -> (r: Node<mir::StaticAttr<'a>>)
        requires
            bvalues_ok(attr, all),
        ensures
            finished(r, bview(attr), all),
        decreases attr, 1nat,
    {
        let ghost a0 = attr;
        let StaticAttrBuilder { name, full_span, value, index, children } = attr;
        let value = if children.len() > 0 {
            proof {
                assert(decreases_to!(a0 => a0.children));
            }
            let static_attrs = self.finish_static_attrs(children, Ghost(all));
            proof {
                lemma_bviews(a0.children@);
            }
            Some(Node(mir::Expr::AttrSet(mir::AttrSet { static_attrs, dynamic_attrs: Vec::new() }), full_span))
        } else {
            proof {
                lemma_bviews(a0.children@);
            }
            value
        };
        Node(mir::StaticAttr { name, value }, full_span)
    }

    fn lower_dynamic_attr<'a>(
        &mut self,
        path: Node<ast::AttrPath<'a>>,
        value: Option<Node<mir::Expr<'a>>>,
        span: Span,
        Ghost(attr): Ghost<Node<ast::Attr<'a>>>,
    ) -> (r: Node<mir::DynamicAttr<'a>>)
        requires
            attr.0.path == path,
            attr.1 == span,
            lowers_opt(attr.0.value, value),
            path.0.parts@.len() > 0,
        ensures
            lowers_dynamic(attr, 0, r),
            appended(old(self).reports@, final(self).reports@, parts_reports(path.0.parts@)),
        decreases path, 1nat,
    {
        let parts = self.lower_attr_path_parts(path);
        self.build_dynamic_attr(parts, value, span, Ghost(attr), Ghost(0))
    }

    fn build_dynamic_attr<'a>(
        &self,
        parts: Vec<Node<mir::AttrPathPart<'a>>>,
        value: Option<Node<mir::Expr<'a>>>,
        span: Span,
        Ghost(attr): Ghost<Node<ast::Attr<'a>>>,
        Ghost(k): Ghost<int>,
    ) -> (r: Node<mir::DynamicAttr<'a>>)
        requires
            parts@.len() > 0,
            0 <= k,
            k + parts@.len() == attr.0.path.0.parts@.len(),
            forall|i: int| 0 <= i < parts@.len() ==> lowers_part(attr.0.path.0.parts@[k + i], #[trigger] parts@[i]),
            lowers_opt(attr.0.value, value),
            attr.1 == span,
        ensures
            lowers_dynamic(attr, k, r),
        decreases parts@.len(),
    {
        let mut parts = parts;
        let ghost p0 = parts@;
        let part = parts.remove(0);
        assert(part == p0[0]);
        assert(lowers_part(attr.0.path.0.parts@[k + 0], p0[0]));
        let value = if parts.len() == 0 {
            value
        } else {
            assert forall|i: int| 0 <= i < parts@.len() implies lowers_part(attr.0.path.0.parts@[(k + 1) + i], #[trigger] parts@[i]) by {
                assert(parts@[i] == p0[i + 1]);
                assert(lowers_part(attr.0.path.0.parts@[k + (i + 1)], p0[i + 1]));
                assert(k + (i + 1) == (k + 1) + i);
            }
            let inner = self.build_dynamic_attr(parts, value, span, Ghost(attr), Ghost(k + 1));
            let mut dynamic_attrs: Vec<Node<mir::DynamicAttr<'a>>> = Vec::new();
            dynamic_attrs.push(inner);
            Some(Node(mir::Expr::AttrSet(mir::AttrSet { static_attrs: Vec::new(), dynamic_attrs }), span))
        };
        Node(mir::DynamicAttr { part, value }, span)
    }
}

proof fn lemma_static_parts_none(parts: Seq<Node<ast::AttrPathPart>>, k: int)
    requires
        0 < k <= parts.len(),
        static_parts(parts.take(k)) is None,
    ensures
        static_parts(parts) is None,
    decreases parts.len() - k,
{
    if k < parts.len() {
        assert(parts.take(k + 1).drop_last() =~= parts.take(k));
        lemma_static_parts_none(parts, k + 1);
    } else {
        assert(parts.take(k) =~= parts);
    }
}


/// The reports for names bound twice by `bound`, with none bound before.
pub open spec fn duplicate_reports_of(bound: Seq<crate::mir::analysis::pattern::Bound>) -> Seq<crate::report::ReportView> {
    crate::mir::analysis::pattern::duplicate_binding_reports(Seq::empty(), bound)
}

} // verus!
