use vstd::prelude::*;

use crate::files::{Node, Span};
use crate::mir::analysis::pattern::{duplicate_binding_reports, pattern_bindings, Bound};
use crate::mir::ast as mir;
use crate::parse::ast;
use crate::report::mir::{duplicate_attr_report, unnamed_let_binding_report};
use crate::report::ReportView;

verus! {

/// The MIR operator for a parser operator other than the pipes.
pub open spec fn lowered_binop(op: ast::BinOp) -> mir::BinOp {
    match op {
        ast::BinOp::Rem => mir::BinOp::Rem,
        ast::BinOp::Div => mir::BinOp::Div,
        ast::BinOp::Mul => mir::BinOp::Mul,
        ast::BinOp::Sub => mir::BinOp::Sub,
        ast::BinOp::Add => mir::BinOp::Add,
        ast::BinOp::Lt => mir::BinOp::Lt,
        ast::BinOp::Lte => mir::BinOp::Lte,
        ast::BinOp::Gt => mir::BinOp::Gt,
        ast::BinOp::Gte => mir::BinOp::Gte,
        ast::BinOp::Eq => mir::BinOp::Eq,
        ast::BinOp::Ne => mir::BinOp::Ne,
        ast::BinOp::And => mir::BinOp::And,
        ast::BinOp::Or => mir::BinOp::Or,
        ast::BinOp::LogImp => mir::BinOp::LogImp,
        ast::BinOp::PipeL => mir::BinOp::LogImp,
        ast::BinOp::PipeR => mir::BinOp::LogImp,
    }
}

pub open spec fn lowered_unop(op: ast::UnOp) -> mir::UnOp {
    match op {
        ast::UnOp::Neg => mir::UnOp::Neg,
        ast::UnOp::Not => mir::UnOp::Not,
    }
}

/// A statically named part of an attribute path, as a name and its span.
pub type NamePart = (Seq<char>, Span);

/// The names of a path whose parts are all identifiers or strings, or
/// `None` when some part is computed or a number.
pub open spec fn static_parts(parts: Seq<Node<ast::AttrPathPart>>) -> Option<Seq<NamePart>>
    decreases parts.len(),
{
    if parts.len() == 0 {
        Some(Seq::empty())
    } else {
        match static_parts(parts.drop_last()) {
            Some(names) => match parts.last().0 {
                ast::AttrPathPart::Ident(n) => Some(names.push((n@, parts.last().1))),
                ast::AttrPathPart::Str(n) => Some(names.push((n@, parts.last().1))),
                _ => None,
            },
            None => None,
        }
    }
}

/// A node of the tree into which the statically named attributes of a set
/// are merged: `value` is the index of the attribute whose value the node
/// holds, if it holds one.
pub struct AttrNode {
    pub name: Seq<char>,
    pub name_span: Span,
    pub full_span: Span,
    pub value: Option<int>,
    pub children: Seq<AttrNode>,
}

/// The first node named `name`.
pub open spec fn find_node(nodes: Seq<AttrNode>, name: Seq<char>) -> Option<int>
    decreases nodes.len(),
{
    if nodes.len() == 0 {
        None
    } else {
        match find_node(nodes.drop_last(), name) {
            Some(i) => Some(i),
            None => if nodes.last().name == name { Some(nodes.len() - 1) } else { None },
        }
    }
}

/// The dotted name of a path, as reports write it.
pub open spec fn dotted(prefix: Seq<char>, name: Seq<char>) -> Seq<char> {
    if prefix.len() == 0 { name } else { prefix + "."@ + name }
}

/// Merges the path `parts` of the attribute `index` (defined over `span`,
/// with a value if `has_value`) into `nodes`, whose own path is `prefix`.
/// A name that is already there as the last part, or an attribute that
/// already holds a value on the way, is a duplicate: the tree stays as it was
/// and a report says so.
pub open spec fn insert_path(
    nodes: Seq<AttrNode>,
    parts: Seq<NamePart>,
    index: int,
    has_value: bool,
    span: Span,
    prefix: Seq<char>,
) -> (Seq<AttrNode>, Option<ReportView>)
    decreases parts.len(),
{
    if parts.len() == 0 {
        (nodes, None)
    } else {
        let name = parts[0].0;
        let name_span = parts[0].1;
        let path_name = dotted(prefix, name);
        match find_node(nodes, name) {
            Some(i) => if parts.len() == 1 || nodes[i].value is Some {
                (nodes, Some(duplicate_attr_report(name_span, nodes[i].full_span, path_name)))
            } else {
                let (children, report) = insert_path(nodes[i].children, parts.drop_first(), index, has_value, span, path_name);
                (nodes.update(i, AttrNode { name: nodes[i].name, name_span: nodes[i].name_span, full_span: nodes[i].full_span, value: nodes[i].value, children }), report)
            },
            None => if parts.len() == 1 {
                (nodes.push(AttrNode { name, name_span, full_span: span, value: if has_value { Some(index) } else { None }, children: Seq::empty() }), None)
            } else {
                let (children, report) = insert_path(Seq::empty(), parts.drop_first(), index, has_value, span, path_name);
                (nodes.push(AttrNode { name, name_span, full_span: span, value: None, children }), report)
            },
        }
    }
}

pub open spec fn option_seq<T>(o: Option<T>) -> Seq<T> {
    match o {
        Some(x) => seq![x],
        None => Seq::empty(),
    }
}

/// Whether an attribute goes into the dynamic part of its set: its path has
/// a part that is not a plain name.
pub open spec fn is_dynamic(attr: ast::Attr) -> bool {
    static_parts(attr.path.0.parts@) is None
}

/// The tree of the statically named attributes of `attrs`, and the reports
/// of lowering them, in order.
pub open spec fn attrs_fold(attrs: Seq<Node<ast::Attr>>) -> (Seq<AttrNode>, Seq<ReportView>)
    decreases attrs, 0nat,
{
    if attrs.len() == 0 {
        (Seq::empty(), Seq::empty())
    } else {
        let (tree, reports) = attrs_fold(attrs.drop_last());
        let attr = attrs.last();
        let value_reports = opt_reports(attr.0.value);
        match static_parts(attr.0.path.0.parts@) {
            Some(names) => if names.len() == 0 {
                (tree, reports + value_reports)
            } else {
                let (tree2, dup) = insert_path(tree, names, attrs.len() - 1, attr.0.value is Some, attr.1, Seq::empty());
                (tree2, reports + value_reports + option_seq(dup))
            },
            None => (tree, reports + value_reports + parts_reports(attr.0.path.0.parts@)),
        }
    }
}

/// The reports of lowering an optional expression.
pub open spec fn opt_reports(e: Option<Node<ast::Expr>>) -> Seq<ReportView>
    decreases e, 0nat,
{
    match e {
        Some(x) => lower_reports(x.0),
        None => Seq::empty(),
    }
}

/// The reports of lowering the computed parts of a path.
pub open spec fn parts_reports(parts: Seq<Node<ast::AttrPathPart>>) -> Seq<ReportView>
    decreases parts, 0nat,
{
    if parts.len() == 0 {
        Seq::empty()
    } else {
        parts_reports(parts.drop_last()) + match parts.last().0 {
            ast::AttrPathPart::Expr(e) => lower_reports(e),
            _ => Seq::empty(),
        }
    }
}

pub open spec fn list_reports(elements: Seq<Node<ast::Expr>>) -> Seq<ReportView>
    decreases elements, 0nat,
{
    if elements.len() == 0 {
        Seq::empty()
    } else {
        list_reports(elements.drop_last()) + lower_reports(elements.last().0)
    }
}

pub open spec fn let_value_reports(bindings: Seq<ast::LetBinding>) -> Seq<ReportView>
    decreases bindings, 0nat,
{
    if bindings.len() == 0 {
        Seq::empty()
    } else {
        let_value_reports(bindings.drop_last()) + lower_reports(bindings.last().value.0)
    }
}

/// Whether a `let` binds its value to a name.
pub open spec fn named(p: ast::Pattern) -> bool {
    p.binding is Some
}

/// A report for each pattern of a `let` that binds no name, in order.
pub open spec fn unnamed_let_reports(ids: Seq<Node<ast::Pattern>>) -> Seq<ReportView>
    decreases ids.len(),
{
    if ids.len() == 0 {
        Seq::empty()
    } else {
        unnamed_let_reports(ids.drop_last()) + if named(ids.last().0) {
            Seq::<ReportView>::empty()
        } else {
            seq![unnamed_let_binding_report(ids.last().1)]
        }
    }
}

/// The patterns of a group of `let` bindings.
pub open spec fn let_ids(bindings: Seq<ast::LetBinding>) -> Seq<Node<ast::Pattern>> {
    bindings.map_values(|b: ast::LetBinding| b.id)
}

/// The names bound by the patterns of a group of let bindings.
pub open spec fn ast_let_names(bindings: Seq<ast::LetBinding>) -> Seq<Bound>
    decreases bindings.len(),
{
    if bindings.len() == 0 {
        Seq::empty()
    } else {
        ast_let_names(bindings.drop_last()) + pattern_bindings(bindings.last().id.0)
    }
}

/// The reports that lowering `e` adds, in order: names bound twice by the
/// pattern of a function or by the patterns of a `let`, `let` bindings that
/// bind no name, and attributes defined twice in a set.
pub open spec fn lower_reports(e: ast::Expr) -> Seq<ReportView>
    decreases e, 0nat,
{
    match e {
        ast::Expr::Lambda(l) => duplicate_binding_reports(Seq::empty(), pattern_bindings(l.arg.0)) + lower_reports(l.body.0),
        ast::Expr::FuncApp { func, arg } => lower_reports(func.0) + lower_reports(arg.0),
        ast::Expr::IfThenElse { cond, then_expr, else_expr } => lower_reports(cond.0) + lower_reports(then_expr.0) + lower_reports(else_expr.0),
        ast::Expr::BinOp { lhs, op, rhs } => if op.0 == ast::BinOp::PipeR {
            lower_reports(rhs.0) + lower_reports(lhs.0)
        } else {
            lower_reports(lhs.0) + lower_reports(rhs.0)
        },
        ast::Expr::UnOp { expr, .. } => lower_reports(expr.0),
        ast::Expr::Let { bindings, expr } => let_value_reports(bindings@) + duplicate_binding_reports(Seq::empty(), ast_let_names(bindings@))
            + unnamed_let_reports(let_ids(bindings@)) + lower_reports(expr.0),
        ast::Expr::AttrSet { attrs } => attrs_fold(attrs@).1,
        ast::Expr::List { elements } => list_reports(elements@),
        ast::Expr::AccessAttr { expr, path, or } => lower_reports(expr.0) + parts_reports(path.0.parts@) + match or {
            Some(o) => lower_reports(o.0),
            None => Seq::empty(),
        },
        ast::Expr::HasAttr { expr, path } => lower_reports(expr.0) + parts_reports(path.0.parts@),
        ast::Expr::Paren(inner) => lower_reports(inner.0),
        _ => Seq::empty(),
    }
}

/// The indices of the attributes of `attrs` that go into the dynamic part.
pub open spec fn dynamic_indices(attrs: Seq<Node<ast::Attr>>) -> Seq<int>
    decreases attrs.len(),
{
    if attrs.len() == 0 {
        Seq::empty()
    } else if is_dynamic(attrs.last().0) {
        dynamic_indices(attrs.drop_last()).push(attrs.len() - 1)
    } else {
        dynamic_indices(attrs.drop_last())
    }
}

/// `m` is the lowering of `a`: same span, lowered expression.
pub open spec fn lowers_node(a: Node<ast::Expr>, m: Node<mir::Expr>) -> bool
    decreases a, 1nat,
{
    m.1 == a.1 && lowers(a.0, m.0)
}

pub open spec fn lowers_opt(a: Option<Node<ast::Expr>>, m: Option<Node<mir::Expr>>) -> bool
    decreases a, 2nat,
{
    match a {
        Some(x) => m is Some && lowers_node(x, m->0),
        None => m is None,
    }
}

/// `m` is the lowering of the path part `a`: strings become names, computed
/// parts are lowered.
pub open spec fn lowers_part(a: Node<ast::AttrPathPart>, m: Node<mir::AttrPathPart>) -> bool
    decreases a, 1nat,
{
    m.1 == a.1 && match a.0 {
        ast::AttrPathPart::Ident(n) => m.0 == mir::AttrPathPart::Ident(n),
        ast::AttrPathPart::Str(n) => m.0 == mir::AttrPathPart::Ident(n),
        ast::AttrPathPart::Num(n) => m.0 == mir::AttrPathPart::Num(n),
        ast::AttrPathPart::Expr(e) => m.0 is Expr && lowers(e, m.0->Expr_0),
    }
}

pub open spec fn lowers_path(a: Node<ast::AttrPath>, m: Node<mir::AttrPath>) -> bool
    decreases a, 1nat,
{
    &&& m.1 == a.1
    &&& m.0.parts.len() == a.0.parts.len()
    &&& forall|i: int| 0 <= i < a.0.parts.len() ==> lowers_part(a.0.parts@[i], #[trigger] m.0.parts@[i])
}

/// `m` is the dynamic attribute made of the parts of `attr` from `k` on:
/// its first part names it, and the rest nest in attribute sets of one
/// dynamic attribute each, down to the value.
pub open spec fn lowers_dynamic(attr: Node<ast::Attr>, k: int, m: Node<mir::DynamicAttr>) -> bool
    decreases attr, (attr.0.path.0.parts.len() - k) as nat,
{
    let parts = attr.0.path.0.parts@;
    &&& 0 <= k < parts.len()
    &&& m.1 == attr.1
    &&& lowers_part(parts[k], m.0.part)
    &&& if k == parts.len() - 1 {
        lowers_opt(attr.0.value, m.0.value)
    } else {
        &&& m.0.value is Some
        &&& m.0.value.unwrap().1 == attr.1
        &&& m.0.value.unwrap().0 is AttrSet
        &&& m.0.value.unwrap().0->AttrSet_0.static_attrs.len() == 0
        &&& m.0.value.unwrap().0->AttrSet_0.dynamic_attrs.len() == 1
        &&& lowers_dynamic(attr, k + 1, m.0.value.unwrap().0->AttrSet_0.dynamic_attrs@[0])
    }
}

pub open spec fn node_size(n: AttrNode) -> nat
    decreases n, 0nat,
{
    1 + nodes_size(n.children)
}

pub open spec fn nodes_size(ns: Seq<AttrNode>) -> nat
    decreases ns, 0nat,
{
    if ns.len() == 0 {
        0
    } else {
        nodes_size(ns.drop_last()) + node_size(ns.last())
    }
}

/// `m` is the attribute made of the node `n` of the merged tree of `attrs`:
/// a node with children holds the set of them, a leaf the lowered value of
/// its attribute.
pub open spec fn finished(m: Node<mir::StaticAttr>, n: AttrNode, attrs: Seq<Node<ast::Attr>>) -> bool
    decreases attrs, 2 * node_size(n),
{
    &&& m.1 == n.full_span
    &&& m.0.name.0@ == n.name
    &&& m.0.name.1 == n.name_span
    &&& if n.children.len() > 0 {
        &&& m.0.value is Some
        &&& m.0.value.unwrap().1 == n.full_span
        &&& m.0.value.unwrap().0 is AttrSet
        &&& m.0.value.unwrap().0->AttrSet_0.dynamic_attrs.len() == 0
        &&& finished_all(m.0.value.unwrap().0->AttrSet_0.static_attrs@, n.children, attrs)
    } else {
        match n.value {
            Some(j) => {
                &&& 0 <= j < attrs.len()
                &&& attrs[j].0.value is Some
                &&& m.0.value is Some
                &&& lowers_node(attrs[j].0.value->0, m.0.value->0)
            },
            None => m.0.value is None,
        }
    }
}

/// Each of `ms` is the attribute made of the node at the same place in `ns`.
pub open spec fn finished_all(ms: Seq<Node<mir::StaticAttr>>, ns: Seq<AttrNode>, attrs: Seq<Node<ast::Attr>>) -> bool
    decreases attrs, 2 * nodes_size(ns) + 1,
{
    if ns.len() == 0 {
        ms.len() == 0
    } else {
        proof {
            assert(node_size(ns.last()) >= 1);
        }
        &&& ms.len() == ns.len()
        &&& finished_all(ms.drop_last(), ns.drop_last(), attrs)
        &&& finished(ms.last(), ns.last(), attrs)
    }
}

/// `m` is the lowering of the attributes `attrs`: the statically named ones
/// merged into a tree, the others kept in order.
pub open spec fn lowers_attr_set(attrs: Seq<Node<ast::Attr>>, m: mir::AttrSet) -> bool
    decreases attrs, 2 * nodes_size(attrs_fold(attrs).0) + 2,
{
    let tree = attrs_fold(attrs).0;
    let dynamic = dynamic_indices(attrs);
    &&& finished_all(m.static_attrs@, tree, attrs)
    &&& m.dynamic_attrs.len() == dynamic.len()
    &&& forall|k: int| 0 <= k < dynamic.len() ==> 0 <= dynamic[k] < attrs.len() && lowers_dynamic(attrs[dynamic[k]], 0, #[trigger] m.dynamic_attrs@[k])
}

/// `m` is the lowering of `a`: parentheses are dropped, pipes become
/// applications, string path parts become names, attribute sets are merged
/// as `lowers_attr_set` says, and everything else keeps its shape.
pub open spec fn lowers(a: ast::Expr, m: mir::Expr) -> bool
    decreases a, 0nat,
{
    match a {
        ast::Expr::Lambda(l) => match m {
            mir::Expr::Lambda(ml) => ml.arg == l.arg && lowers_node(*l.body, *ml.body),
            _ => false,
        },
        ast::Expr::FuncApp { func, arg } => match m {
            mir::Expr::FuncApp { func: mf, arg: ma } => lowers_node(*func, *mf) && lowers_node(*arg, *ma),
            _ => false,
        },
        ast::Expr::IfThenElse { cond, then_expr, else_expr } => match m {
            mir::Expr::IfThenElse { cond: mc, then_expr: mt, else_expr: me } => lowers_node(*cond, *mc) && lowers_node(*then_expr, *mt) && lowers_node(*else_expr, *me),
            _ => false,
        },
        ast::Expr::BinOp { lhs, op, rhs } => if op.0 == ast::BinOp::PipeL {
            match m {
                mir::Expr::FuncApp { func, arg } => lowers_node(*lhs, *func) && lowers_node(*rhs, *arg),
                _ => false,
            }
        } else if op.0 == ast::BinOp::PipeR {
            match m {
                mir::Expr::FuncApp { func, arg } => lowers_node(*rhs, *func) && lowers_node(*lhs, *arg),
                _ => false,
            }
        } else {
            match m {
                mir::Expr::BinOp { lhs: ml, op: mo, rhs: mr } => mo == Node(lowered_binop(op.0), op.1) && lowers_node(*lhs, *ml) && lowers_node(*rhs, *mr),
                _ => false,
            }
        },
        ast::Expr::UnOp { expr, op } => match m {
            mir::Expr::UnOp { expr: me, op: mo } => mo == Node(lowered_unop(op.0), op.1) && lowers_node(*expr, *me),
            _ => false,
        },
        ast::Expr::Let { bindings, expr } => match m {
            mir::Expr::Let { bindings: mb, expr: me } => {
                &&& mb.len() == bindings.len()
                &&& forall|i: int| 0 <= i < bindings.len() ==> (#[trigger] mb@[i]).id == bindings@[i].id && lowers_node(bindings@[i].value, mb@[i].value)
                &&& lowers_node(*expr, *me)
            },
            _ => false,
        },
        ast::Expr::AttrSet { attrs } => match m {
            mir::Expr::AttrSet(ms) => lowers_attr_set(attrs@, ms),
            _ => false,
        },
        ast::Expr::List { elements } => match m {
            mir::Expr::List { elements: me } => me.len() == elements.len() && forall|i: int| 0 <= i < elements.len() ==> lowers_node(elements@[i], #[trigger] me@[i]),
            _ => false,
        },
        ast::Expr::AccessAttr { expr, path, or } => match m {
            mir::Expr::AccessAttr { expr: me, path: mp, or: mo } => lowers_node(*expr, *me) && lowers_path(path, mp) && match or {
                Some(o) => mo is Some && lowers_node(*o, *mo->0),
                None => mo is None,
            },
            _ => false,
        },
        ast::Expr::HasAttr { expr, path } => match m {
            mir::Expr::HasAttr { expr: me, path: mp } => lowers_node(*expr, *me) && lowers_path(path, mp),
            _ => false,
        },
        ast::Expr::Paren(inner) => lowers(inner.0, m),
        ast::Expr::Ident(n) => m == mir::Expr::Ident(n),
        ast::Expr::Num(n) => m == mir::Expr::Num(n),
        ast::Expr::Str(n) => m == mir::Expr::Str(n),
    }
}

proof fn lemma_find_node_update(nodes: Seq<AttrNode>, i: int, n: AttrNode, name: Seq<char>)
    requires
        0 <= i < nodes.len(),
        n.name == nodes[i].name,
    ensures
        find_node(nodes.update(i, n), name) == find_node(nodes, name),
    decreases nodes.len(),
{
    if i < nodes.len() - 1 {
        assert(nodes.update(i, n).drop_last() =~= nodes.drop_last().update(i, n));
        lemma_find_node_update(nodes.drop_last(), i, n, name);
    } else {
        assert(nodes.update(i, n).drop_last() =~= nodes.drop_last());
    }
}

proof fn lemma_find_node_push(nodes: Seq<AttrNode>, n: AttrNode)
    requires
        find_node(nodes, n.name) is None,
    ensures
        find_node(nodes.push(n), n.name) == Some(nodes.len() as int),
{
    assert(nodes.push(n).drop_last() =~= nodes);
}

proof fn lemma_find_node_found(nodes: Seq<AttrNode>, name: Seq<char>)
    ensures
        find_node(nodes, name) matches Some(i) ==> 0 <= i < nodes.len() && nodes[i].name == name,
    decreases nodes.len(),
{
    if nodes.len() > 0 {
        lemma_find_node_found(nodes.drop_last(), name);
    }
}

/// A path merged into an attribute set once cannot be merged again: defining
/// the same attribute twice is always reported, whatever came before and
/// whatever either definition holds.
pub proof fn law_redefinition_is_reported(
    nodes: Seq<AttrNode>,
    parts: Seq<NamePart>,
    first: int,
    first_has_value: bool,
    first_span: Span,
    second: int,
    second_has_value: bool,
    second_span: Span,
    prefix: Seq<char>,
)
    requires
        parts.len() > 0,
        insert_path(nodes, parts, first, first_has_value, first_span, prefix).1 is None,
    ensures
        insert_path(insert_path(nodes, parts, first, first_has_value, first_span, prefix).0, parts, second, second_has_value, second_span, prefix).1 is Some,
    decreases parts.len(),
{
    let name = parts[0].0;
    let path_name = dotted(prefix, name);
    lemma_find_node_found(nodes, name);
    let tree = insert_path(nodes, parts, first, first_has_value, first_span, prefix).0;
    match find_node(nodes, name) {
        Some(i) => {
            let (children, r) = insert_path(nodes[i].children, parts.drop_first(), first, first_has_value, first_span, path_name);
            let updated = AttrNode { name: nodes[i].name, name_span: nodes[i].name_span, full_span: nodes[i].full_span, value: nodes[i].value, children };
            assert(tree == nodes.update(i, updated));
            lemma_find_node_update(nodes, i, updated, name);
            assert(tree[i] == updated);
            law_redefinition_is_reported(nodes[i].children, parts.drop_first(), first, first_has_value, first_span, second, second_has_value, second_span, path_name);
        },
        None => {
            if parts.len() == 1 {
                let n = AttrNode { name, name_span: parts[0].1, full_span: first_span, value: if first_has_value { Some(first) } else { None }, children: Seq::empty() };
                assert(tree == nodes.push(n));
                lemma_find_node_push(nodes, n);
            } else {
                let (children, r) = insert_path(Seq::empty(), parts.drop_first(), first, first_has_value, first_span, path_name);
                let n = AttrNode { name, name_span: parts[0].1, full_span: first_span, value: None, children };
                assert(tree == nodes.push(n));
                lemma_find_node_push(nodes, n);
                assert(tree[nodes.len() as int] == n);
                law_redefinition_is_reported(Seq::empty(), parts.drop_first(), first, first_has_value, first_span, second, second_has_value, second_span, path_name);
            }
        },
    }
}

/// Lowering keeps every operator that is not a pipe: an expression
/// `lhs op rhs` lowers to the MIR operator of the same name, at the same
/// place, between the lowered operands; a prefix operator stays the same too.
pub proof fn law_lowering_keeps_operators(a: ast::Expr, m: mir::Expr)
    requires
        lowers(a, m),
    ensures
        (match a {
            ast::Expr::BinOp { op, .. } => op.0 != ast::BinOp::PipeL && op.0 != ast::BinOp::PipeR ==> (match m {
                mir::Expr::BinOp { op: mo, .. } => {
                    &&& mo.1 == op.1
                    &&& op.0 == ast::BinOp::Add ==> mo.0 == mir::BinOp::Add
                    &&& op.0 == ast::BinOp::Sub ==> mo.0 == mir::BinOp::Sub
                    &&& op.0 == ast::BinOp::Mul ==> mo.0 == mir::BinOp::Mul
                    &&& op.0 == ast::BinOp::Div ==> mo.0 == mir::BinOp::Div
                    &&& op.0 == ast::BinOp::Rem ==> mo.0 == mir::BinOp::Rem
                    &&& op.0 == ast::BinOp::Lt ==> mo.0 == mir::BinOp::Lt
                    &&& op.0 == ast::BinOp::Lte ==> mo.0 == mir::BinOp::Lte
                    &&& op.0 == ast::BinOp::Gt ==> mo.0 == mir::BinOp::Gt
                    &&& op.0 == ast::BinOp::Gte ==> mo.0 == mir::BinOp::Gte
                    &&& op.0 == ast::BinOp::Eq ==> mo.0 == mir::BinOp::Eq
                    &&& op.0 == ast::BinOp::Ne ==> mo.0 == mir::BinOp::Ne
                    &&& op.0 == ast::BinOp::And ==> mo.0 == mir::BinOp::And
                    &&& op.0 == ast::BinOp::Or ==> mo.0 == mir::BinOp::Or
                    &&& op.0 == ast::BinOp::LogImp ==> mo.0 == mir::BinOp::LogImp
                },
                _ => false,
            }),
            ast::Expr::UnOp { op, .. } => match m {
                mir::Expr::UnOp { op: mo, .. } => {
                    &&& mo.1 == op.1
                    &&& op.0 == ast::UnOp::Neg ==> mo.0 == mir::UnOp::Neg
                    &&& op.0 == ast::UnOp::Not ==> mo.0 == mir::UnOp::Not
                },
                _ => false,
            },
            _ => true,
        }),
{
}

/// Pipes are applications: `x |> f` lowers exactly as `f x` does, and
/// `f <| x` exactly as `f x`.
pub proof fn law_pipes_are_applications(lhs: Node<ast::Expr>, op: Node<ast::BinOp>, rhs: Node<ast::Expr>, m: mir::Expr)
    ensures
        op.0 == ast::BinOp::PipeR ==> (lowers((ast::Expr::BinOp { lhs: Box::new(lhs), op, rhs: Box::new(rhs) }), m)
            <==> lowers((ast::Expr::FuncApp { func: Box::new(rhs), arg: Box::new(lhs) }), m)),
        op.0 == ast::BinOp::PipeL ==> (lowers((ast::Expr::BinOp { lhs: Box::new(lhs), op, rhs: Box::new(rhs) }), m)
            <==> lowers((ast::Expr::FuncApp { func: Box::new(lhs), arg: Box::new(rhs) }), m)),
{
}

} // verus!
