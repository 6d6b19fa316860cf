use vstd::prelude::*;
use vstd::string::*;

use super::layout::{
    access_atom, application_atom, argument_atom, binop, binop_text, block_expr, inline_attr_path, inline_expr,
    inline_expr_text, inline_path, is_access_atom, is_application_atom, is_argument_atom, is_block_expr,
    is_same_binding, is_unary_atom, num_text, opt_view, parenthesized, push_num, quoted, same_binding, unary_atom,
    unop, unop_text,
};
use super::options::{separator_char, AttrSeparatorStyle, FormatOptions, IndentStyle};
use crate::files::Node;
use crate::parse::ast::{
    spec_precedence, Attr, AttrPath, AttrPathPart, AttrPattern, Expr, LetBinding, Pattern, PatternDestructKind,
    PatternListKind, Type, TypeAttr,
};
use crate::text::{push_char, push_signed_decimal, push_str, signed_decimal, utf8_len};

verus! {

pub open spec fn repeat_char(c: char, n: nat) -> Seq<char> {
    Seq::new(n, |i: int| c)
}

/// The indentation of a line at nesting depth `depth`.
pub open spec fn indent_text(o: FormatOptions, depth: usize) -> Seq<char> {
    match o.indent_style {
        IndentStyle::Spaces => repeat_char(' ', (depth * o.indent_width) as nat),
        IndentStyle::Tabs => repeat_char('\t', depth as nat),
    }
}

/// One level deeper (depth never wraps around).
pub open spec fn deeper(depth: usize) -> usize {
    if depth < usize::MAX { (depth + 1) as usize } else { depth }
}

pub open spec fn nl() -> Seq<char> {
    seq!['\n']
}

pub open spec fn sep_after(o: FormatOptions, index: int, len: int, sep: char) -> Seq<char> {
    if o.trailing_separator || index + 1 < len { seq![sep] } else { Seq::empty() }
}

/// A type, under a context that binds as tightly as `precedence`: `0` for
/// none, `1` for a function's argument, `2` for a member of a union.
pub open spec fn ty_text(t: Type, precedence: u8) -> Seq<char>
    decreases t, 0nat,
{
    match t {
        Type::Named(name) => name.0@,
        Type::Lambda { arg, ret } => {
            let inner = ty_text(arg.0, 1) + " -> "@ + ty_text(ret.0, 0);
            if precedence > 0 { parenthesized(inner) } else { inner }
        },
        Type::List(element) => "["@ + ty_text(element.0, 0) + "]"@,
        Type::Tuple(elements) => "["@ + tuple_text(elements@, elements.len() as int) + "]"@,
        Type::AttrSet { name, fields } => (match name {
            Some(n) => n.0@ + " "@,
            None => Seq::empty(),
        }) + "{"@ + type_fields_text(fields@, fields.len() as int) + "}"@,
        Type::Union(variants) => {
            let inner = union_text(variants@, variants.len() as int);
            if precedence > 1 { parenthesized(inner) } else { inner }
        },
    }
}

/// The first `n` members of a tuple type, each followed by `, `.
pub open spec fn tuple_text(elements: Seq<Node<Type>>, n: int) -> Seq<char>
    decreases elements, n,
{
    if n <= 0 || n > elements.len() {
        Seq::empty()
    } else {
        tuple_text(elements, n - 1) + ty_text(elements[n - 1].0, 0) + ", "@
    }
}

pub open spec fn type_fields_text(fields: Seq<Node<TypeAttr>>, n: int) -> Seq<char>
    decreases fields, n,
{
    if n <= 0 || n > fields.len() {
        Seq::empty()
    } else {
        type_fields_text(fields, n - 1) + (if n > 1 { ", "@ } else { Seq::empty() }) + fields[n - 1].0.name.0@ + " :: "@ + ty_text(fields[n - 1].0.ty.0, 0)
    }
}

pub open spec fn union_text(variants: Seq<Node<Type>>, n: int) -> Seq<char>
    decreases variants, n,
{
    if n <= 0 || n > variants.len() {
        Seq::empty()
    } else {
        union_text(variants, n - 1) + (if n > 1 { " | "@ } else { Seq::empty() }) + ty_text(variants[n - 1].0, 2)
    }
}

/// A pattern: its name (with `@` before a destructuring part), the
/// destructuring part, and its type after ` :: `.
pub open spec fn pattern_text(o: FormatOptions, p: Pattern) -> Seq<char>
    decreases p, 0nat,
{
    (match p.binding {
        Some(b) => b.0@ + (if p.destruct is Some { "@"@ } else { Seq::empty() }),
        None => Seq::empty(),
    }) + (match p.destruct {
        Some(d) => destruct_text(o, d.0),
        None => Seq::empty(),
    }) + (match p.ty {
        Some(t) => " :: "@ + ty_text(t.0, 0),
        None => Seq::empty(),
    })
}

pub open spec fn pattern_sep(o: FormatOptions) -> Seq<char> {
    seq![separator_char(o.pattern_separator), ' ']
}

pub open spec fn destruct_text(o: FormatOptions, d: PatternDestructKind) -> Seq<char>
    decreases d, 0nat,
{
    match d {
        PatternDestructKind::AttrSet { fields, strict } => "{"@ + fields_text(o, fields@, fields.len() as int) + (if !strict {
            (if fields.len() > 0 { pattern_sep(o) } else { Seq::empty() }) + ".."@
        } else {
            Seq::empty()
        }) + "}"@,
        PatternDestructKind::List { elements, kind } => "["@ + (if kind == PatternListKind::TrailLeft { ".., "@ } else { Seq::empty() }) + elements_text(o, elements@, elements.len() as int) + (if kind == PatternListKind::TrailRight {
            (if elements.len() > 0 { ", "@ } else { Seq::empty() }) + ".."@
        } else {
            Seq::empty()
        }) + "]"@,
    }
}

pub open spec fn field_text(o: FormatOptions, field: AttrPattern) -> Seq<char>
    decreases field, 0nat,
{
    field.attr.0@ + (if !same_binding(field.pattern.0, field.attr.0@) { " = "@ + pattern_text(o, field.pattern.0) } else { Seq::empty() })
}

pub open spec fn fields_text(o: FormatOptions, fields: Seq<Node<AttrPattern>>, n: int) -> Seq<char>
    decreases fields, n,
{
    if n <= 0 || n > fields.len() {
        Seq::empty()
    } else {
        fields_text(o, fields, n - 1) + (if n > 1 { pattern_sep(o) } else { Seq::empty() }) + field_text(o, fields[n - 1].0)
    }
}

pub open spec fn elements_text(o: FormatOptions, elements: Seq<Node<Pattern>>, n: int) -> Seq<char>
    decreases elements, n,
{
    if n <= 0 || n > elements.len() {
        Seq::empty()
    } else {
        elements_text(o, elements, n - 1) + (if n > 1 { ", "@ } else { Seq::empty() }) + pattern_text(o, elements[n - 1].0)
    }
}

/// The attribute set `{ a = 1, b }` on one line, if its paths and values can
/// be written on one line.
pub open spec fn inline_attrset_text(attrs: Seq<Node<Attr>>) -> Option<Seq<char>> {
    match inline_entries(attrs, attrs.len() as int) {
        Some(s) => Some("{ "@ + s + " }"@),
        None => None,
    }
}

pub open spec fn inline_entries(attrs: Seq<Node<Attr>>, n: int) -> Option<Seq<char>>
    decreases n,
{
    if n <= 0 || n > attrs.len() {
        Some(Seq::empty())
    } else {
        match (inline_entries(attrs, n - 1), inline_path(attrs[n - 1].0.path.0.parts@)) {
            (Some(a), Some(p)) => {
                let prefix = a + (if n > 1 { ", "@ } else { Seq::empty() }) + p;
                match attrs[n - 1].0.value {
                    Some(v) => match inline_expr_text(v.0, 0) {
                        Some(vs) => Some(prefix + " = "@ + vs),
                        None => None,
                    },
                    None => Some(prefix),
                }
            },
            _ => None,
        }
    }
}

pub open spec fn all_inherited(attrs: Seq<Node<Attr>>) -> bool {
    forall|i: int| 0 <= i < attrs.len() ==> (#[trigger] attrs[i]).0.value is None
}

/// The separator that ends each attribute of a set written over lines.
pub open spec fn attr_separator(o: FormatOptions, attrs: Seq<Node<Attr>>) -> char {
    match o.attr_separator {
        AttrSeparatorStyle::Smart => if all_inherited(attrs) { ',' } else { ';' },
        AttrSeparatorStyle::Semicolon => ';',
        AttrSeparatorStyle::Comma => ',',
    }
}

/// Whether an attribute set is written on one line: with the smart style,
/// when it can be and the line, indented, is no wider than allowed.
pub open spec fn attrset_inline(o: FormatOptions, attrs: Seq<Node<Attr>>, depth: usize) -> bool {
    &&& o.attr_separator == AttrSeparatorStyle::Smart
    &&& inline_attrset_text(attrs) is Some
    &&& depth * o.indent_width + utf8_len(inline_attrset_text(attrs)->0) <= o.max_inline_width
}

/// A path part; computed parts are written inside `${ }`.
pub open spec fn part_text(o: FormatOptions, p: Node<AttrPathPart>, depth: usize) -> Seq<char>
    decreases p, 1nat,
{
    match p.0 {
        AttrPathPart::Ident(v) => v@,
        AttrPathPart::Str(v) => quoted(v@),
        AttrPathPart::Num(v) => signed_decimal(v as int),
        AttrPathPart::Expr(e) => "${"@ + expr_text(o, e, depth, 0) + "}"@,
    }
}

/// The first `n` parts of a path, joined by `.`.
pub open spec fn path_text(o: FormatOptions, parts: Seq<Node<AttrPathPart>>, n: int, depth: usize) -> Seq<char>
    decreases parts, n,
{
    if n <= 0 || n > parts.len() {
        Seq::empty()
    } else {
        path_text(o, parts, n - 1, depth) + (if n > 1 { "."@ } else { Seq::empty() }) + part_text(o, parts[n - 1], depth)
    }
}

/// The line of the attribute `i` of a set written over lines.
pub open spec fn attr_line(o: FormatOptions, attrs: Seq<Node<Attr>>, i: int, depth: usize, sep: char) -> Seq<char>
    decreases attrs, 0nat,
{
    if 0 <= i < attrs.len() {
        indent_text(o, deeper(depth)) + path_text(o, attrs[i].0.path.0.parts@, attrs[i].0.path.0.parts.len() as int, deeper(depth)) + (match attrs[i].0.value {
            Some(v) => " = "@ + expr_text(o, v.0, deeper(depth), 0),
            None => Seq::empty(),
        }) + sep_after(o, i, attrs.len() as int, sep) + nl()
    } else {
        Seq::empty()
    }
}

pub open spec fn attr_lines(o: FormatOptions, attrs: Seq<Node<Attr>>, n: int, depth: usize, sep: char) -> Seq<char>
    decreases attrs, n,
{
    if n <= 0 || n > attrs.len() {
        Seq::empty()
    } else {
        attr_lines(o, attrs, n - 1, depth, sep) + attr_line(o, attrs, n - 1, depth, sep)
    }
}

/// An attribute set: `{}`, on one line, or one attribute per line.
pub open spec fn attrset_text(o: FormatOptions, attrs: Seq<Node<Attr>>, depth: usize) -> Seq<char>
    decreases attrs, attrs.len() + 1,
{
    if attrs.len() == 0 {
        "{}"@
    } else if attrset_inline(o, attrs, depth) {
        inline_attrset_text(attrs)->0
    } else {
        "{\n"@ + attr_lines(o, attrs, attrs.len() as int, depth, attr_separator(o, attrs)) + indent_text(o, depth) + "}"@
    }
}

/// The line of the element `i` of a list written over lines.
pub open spec fn list_line(o: FormatOptions, elements: Seq<Node<Expr>>, i: int, depth: usize) -> Seq<char>
    decreases elements, 0nat,
{
    if 0 <= i < elements.len() {
        indent_text(o, deeper(depth)) + expr_text(o, elements[i].0, deeper(depth), 0) + sep_after(o, i, elements.len() as int, ',') + nl()
    } else {
        Seq::empty()
    }
}

pub open spec fn list_lines(o: FormatOptions, elements: Seq<Node<Expr>>, n: int, depth: usize) -> Seq<char>
    decreases elements, n,
{
    if n <= 0 || n > elements.len() {
        Seq::empty()
    } else {
        list_lines(o, elements, n - 1, depth) + list_line(o, elements, n - 1, depth)
    }
}

/// The line of the binding `i` of a `let`, followed by an empty line when
/// it or the next binding is written over lines.
pub open spec fn let_line(o: FormatOptions, bindings: Seq<LetBinding>, i: int, depth: usize) -> Seq<char>
    decreases bindings, 0nat,
{
    if 0 <= i < bindings.len() {
        indent_text(o, deeper(depth)) + pattern_text(o, bindings[i].id.0) + " = "@ + expr_text(o, bindings[i].value.0, deeper(depth), 0)
            + sep_after(o, i, bindings.len() as int, separator_char(o.let_separator)) + nl()
            + (if i + 1 < bindings.len() && (block_expr(bindings[i].value.0) || block_expr(bindings[i + 1].value.0)) { nl() } else { Seq::empty() })
    } else {
        Seq::empty()
    }
}

pub open spec fn let_lines(o: FormatOptions, bindings: Seq<LetBinding>, n: int, depth: usize) -> Seq<char>
    decreases bindings, n,
{
    if n <= 0 || n > bindings.len() {
        Seq::empty()
    } else {
        let_lines(o, bindings, n - 1, depth) + let_line(o, bindings, n - 1, depth)
    }
}

/// An expression in parentheses unless it is an atom where it stands.
pub open spec fn wrapped_text(o: FormatOptions, e: Expr, depth: usize, atom: bool) -> Seq<char>
    decreases e, 1nat,
{
    if atom { expr_text(o, e, depth, 0) } else { parenthesized(expr_text(o, e, depth, 0)) }
}

/// The body after `:` or `in`: on the next line, one level deeper, when it
/// is written over lines (but not for a function), else after a space.
pub open spec fn nested_or_inline_text(o: FormatOptions, e: Expr, depth: usize) -> Seq<char>
    decreases e, 1nat,
{
    if block_expr(e) && !(e is Lambda) {
        nl() + indent_text(o, deeper(depth)) + expr_text(o, e, deeper(depth), 0)
    } else {
        " "@ + expr_text(o, e, depth, 0)
    }
}

/// A branch after `then` or `else`: on the next line, one level deeper,
/// when it is an application or is written over lines, else after a space.
pub open spec fn branch_text(o: FormatOptions, e: Expr, depth: usize) -> Seq<char>
    decreases e, 1nat,
{
    if e is FuncApp || block_expr(e) {
        nl() + indent_text(o, deeper(depth)) + expr_text(o, e, deeper(depth), 0)
    } else {
        " "@ + expr_text(o, e, depth, 0)
    }
}

/// What follows the first `pattern:` of a function: the patterns of the
/// functions nested in its body, then the innermost body.
pub open spec fn lambda_tail_text(o: FormatOptions, body: Expr, depth: usize) -> Seq<char>
    decreases body, 2nat,
{
    match body {
        Expr::Lambda(next) => " "@ + pattern_text(o, next.arg.0) + ":"@ + lambda_tail_text(o, next.body.0, depth),
        _ => nested_or_inline_text(o, body, depth),
    }
}

/// An expression at nesting depth `depth`, under an operator of precedence
/// `parent_precedence`.
pub open spec fn expr_text(o: FormatOptions, e: Expr, depth: usize, parent_precedence: u32) -> Seq<char>
    decreases e, 0nat,
{
    match e {
        Expr::Lambda(l) => pattern_text(o, l.arg.0) + ":"@ + lambda_tail_text(o, l.body.0, depth),
        Expr::FuncApp { func, arg } => wrapped_text(o, func.0, depth, application_atom(func.0)) + " "@ + wrapped_text(o, arg.0, depth, argument_atom(arg.0)),
        Expr::IfThenElse { cond, then_expr, else_expr } => "if "@ + expr_text(o, cond.0, depth, 0) + " then"@ + branch_text(o, then_expr.0, depth) + nl() + indent_text(o, depth) + "else"@
            + (if else_expr.0 is IfThenElse { " "@ + expr_text(o, else_expr.0, depth, 0) } else { branch_text(o, else_expr.0, depth) }),
        Expr::BinOp { lhs, op, rhs } => {
            let p = spec_precedence(op.0);
            let inner = expr_text(o, lhs.0, depth, p) + " "@ + binop_text(op.0) + " "@ + expr_text(o, rhs.0, depth, (p + 1) as u32);
            if p < parent_precedence { parenthesized(inner) } else { inner }
        },
        Expr::UnOp { expr, op } => unop_text(op.0) + wrapped_text(o, expr.0, depth, unary_atom(expr.0)),
        Expr::Let { bindings, expr } => "let\n"@ + let_lines(o, bindings@, bindings.len() as int, depth) + indent_text(o, depth) + "in"@ + nested_or_inline_text(o, expr.0, depth),
        Expr::AttrSet { attrs } => attrset_text(o, attrs@, depth),
        Expr::List { elements } => if elements.len() == 0 {
            "[]"@
        } else {
            "[\n"@ + list_lines(o, elements@, elements.len() as int, depth) + indent_text(o, depth) + "]"@
        },
        Expr::AccessAttr { expr, path, or } => wrapped_text(o, expr.0, depth, access_atom(expr.0)) + "."@ + path_text(o, path.0.parts@, path.0.parts.len() as int, depth) + (match or {
            Some(x) => " ? "@ + expr_text(o, x.0, depth, 0),
            None => Seq::empty(),
        }),
        Expr::HasAttr { expr, path } => wrapped_text(o, expr.0, depth, access_atom(expr.0)) + " ? "@ + path_text(o, path.0.parts@, path.0.parts.len() as int, depth),
        Expr::Paren(x) => parenthesized(expr_text(o, x.0, depth, 0)),
        Expr::Ident(v) => v@,
        Expr::Num(n) => num_text(n),
        Expr::Str(v) => quoted(v@),
    }
}

/// The text of a whole program, with a final newline when asked for.
pub open spec fn formatted(o: FormatOptions, e: Expr) -> Seq<char> {
    expr_text(o, e, 0, 0) + (if o.final_newline { nl() } else { Seq::empty() })
}

/// Formats a program with the given options.
pub fn format_ast(expr: &Node<Expr<'_>>, options: &FormatOptions) -> (r: String)
    ensures
        r@ == formatted(*options, expr.0),
{
    let mut formatter = Formatter { options, output: String::new() };
    formatter.expr(&expr.0, 0, 0);
    if options.final_newline {
        formatter.push('\n');
    }
    assert(formatter.output@ =~= formatted(*options, expr.0));
    formatter.output
}

fn deeper_depth(depth: usize) -> (r: usize)
    ensures
        r == deeper(depth),
{
    if depth < usize::MAX { depth + 1 } else { depth }
}

struct Formatter<'a> {
    options: &'a FormatOptions,
    output: String,
}

impl<'a> Formatter<'a> {
    fn push(&mut self, c: char)
        ensures
            final(self).options == old(self).options,
            final(self).output@ == old(self).output@.push(c),
    {
        push_char(&mut self.output, c);
    }

    fn push_s(&mut self, s: &str)
        ensures
            final(self).options == old(self).options,
            final(self).output@ == old(self).output@ + s@,
    {
        push_str(&mut self.output, s);
    }

    fn indent(&mut self, depth: usize)
        ensures
            final(self).options == old(self).options,
            final(self).output@ == old(self).output@ + indent_text(*old(self).options, depth),
    {
        let ghost start = self.output@;
        match self.options.indent_style {
            IndentStyle::Spaces => {
                let w = self.options.indent_width;
                let mut i: usize = 0;
                assert(start + repeat_char(' ', 0) =~= start);
                while i < depth
                    invariant
                        self.options == old(self).options,
                        w == self.options.indent_width,
                        i <= depth,
                        self.output@ == start + repeat_char(' ', (i * w) as nat),
                    decreases depth - i,
                {
                    let mut k: usize = 0;
                    while k < w
                        invariant
                            self.options == old(self).options,
                            i < depth,
                            k <= w,
                            self.output@ == start + repeat_char(' ', (i * w + k) as nat),
                        decreases w - k,
                    {
                        self.push(' ');
                        k = k + 1;
                        assert(self.output@ =~= start + repeat_char(' ', (i * w + k) as nat));
                    }
                    assert(i * w + w == (i + 1) * w) by (nonlinear_arith);
                    i = i + 1;
                }
            },
            IndentStyle::Tabs => {
                let mut i: usize = 0;
                assert(start + repeat_char('\t', 0) =~= start);
                while i < depth
                    invariant
                        self.options == old(self).options,
                        i <= depth,
                        self.output@ == start + repeat_char('\t', i as nat),
                    decreases depth - i,
                {
                    self.push('\t');
                    i = i + 1;
                    assert(self.output@ =~= start + repeat_char('\t', i as nat));
                }
            },
        }
    }

    fn raw_string(&mut self, value: &str)
        ensures
            final(self).options == old(self).options,
            final(self).output@ == old(self).output@ + quoted(value@),
    {
        self.push_s("\"");
        self.push_s(value);
        self.push_s("\"");
        assert(self.output@ =~= old(self).output@ + quoted(value@));
    }

    fn ty(&mut self, ty: &Type<'_>, precedence: u8)
        ensures
            final(self).options == old(self).options,
            final(self).output@ == old(self).output@ + ty_text(*ty, precedence),
        decreases ty,
    {
        let ghost start = self.output@;
        match ty {
            Type::Named(name) => self.push_s(name.0),
            Type::Lambda { arg, ret } => {
                let wrapped = precedence > 0;
                if wrapped {
                    self.push_s("(");
                }
                let ghost mid = self.output@;
                self.ty(&arg.0, 1);
                self.push_s(" -> ");
                self.ty(&ret.0, 0);
                let ghost inner = ty_text(arg.0, 1) + " -> "@ + ty_text(ret.0, 0);
                assert(self.output@ =~= mid + inner);
                if wrapped {
                    self.push_s(")");
                }
                assert(self.output@ =~= start + ty_text(*ty, precedence));
            },
            Type::List(element) => {
                self.push_s("[");
                self.ty(&element.0, 0);
                self.push_s("]");
                assert(self.output@ =~= start + ty_text(*ty, precedence));
            },
            Type::Tuple(elements) => {
                self.push_s("[");
                let mut i: usize = 0;
                while i < elements.len()
                    invariant
                        self.options == old(self).options,
                        *ty is Tuple,
                        ty->Tuple_0 == *elements,
                        i <= elements@.len(),
                        self.output@ == start + "["@ + tuple_text(elements@, i as int),
                    decreases elements@.len() - i,
                {
                    proof {
                        assert(decreases_to!(*ty => ty->Tuple_0));
                        assert(decreases_to!(ty->Tuple_0 => elements@));
                        assert(decreases_to!(elements@ => elements@[i as int]));
                    }
                    self.ty(&elements[i].0, 0);
                    self.push_s(", ");
                    i = i + 1;
                    assert(self.output@ =~= start + "["@ + tuple_text(elements@, i as int));
                }
                self.push_s("]");
                assert(self.output@ =~= start + ty_text(*ty, precedence));
            },
            Type::AttrSet { name, fields } => {
                match name {
                    Some(n) => {
                        self.push_s(n.0);
                        self.push_s(" ");
                    },
                    None => {},
                }
                let ghost head = self.output@;
                self.push_s("{");
                let mut i: usize = 0;
                while i < fields.len()
                    invariant
                        self.options == old(self).options,
                        *ty is AttrSet,
                        ty->AttrSet_fields == *fields,
                        i <= fields@.len(),
                        self.output@ == head + "{"@ + type_fields_text(fields@, i as int),
                    decreases fields@.len() - i,
                {
                    if i > 0 {
                        self.push_s(", ");
                    }
                    self.push_s(fields[i].0.name.0);
                    self.push_s(" :: ");
                    proof {
                        assert(decreases_to!(*ty => ty->AttrSet_fields));
                        assert(decreases_to!(ty->AttrSet_fields => fields@));
                        assert(decreases_to!(fields@ => fields@[i as int]));
                        assert(decreases_to!(fields@[i as int] => fields@[i as int].0));
                        assert(decreases_to!(fields@[i as int].0 => fields@[i as int].0.ty));
                    }
                    self.ty(&fields[i].0.ty.0, 0);
                    i = i + 1;
                    assert(self.output@ =~= head + "{"@ + type_fields_text(fields@, i as int));
                }
                self.push_s("}");
                assert(self.output@ =~= start + ty_text(*ty, precedence));
            },
            Type::Union(variants) => {
                let wrapped = precedence > 1;
                if wrapped {
                    self.push_s("(");
                }
                let ghost mid = self.output@;
                let mut i: usize = 0;
                assert(mid + union_text(variants@, 0) =~= mid);
                while i < variants.len()
                    invariant
                        self.options == old(self).options,
                        *ty is Union,
                        ty->Union_0 == *variants,
                        i <= variants@.len(),
                        self.output@ == mid + union_text(variants@, i as int),
                    decreases variants@.len() - i,
                {
                    if i > 0 {
                        self.push_s(" | ");
                    }
                    proof {
                        assert(decreases_to!(*ty => ty->Union_0));
                        assert(decreases_to!(ty->Union_0 => variants@));
                        assert(decreases_to!(variants@ => variants@[i as int]));
                    }
                    self.ty(&variants[i].0, 2);
                    i = i + 1;
                    assert(self.output@ =~= mid + union_text(variants@, i as int));
                }
                if wrapped {
                    self.push_s(")");
                }
                assert(self.output@ =~= start + ty_text(*ty, precedence));
            },
        }
    }

    fn pattern(&mut self, pattern: &Pattern<'_>)
        ensures
            final(self).options == old(self).options,
            final(self).output@ == old(self).output@ + pattern_text(*old(self).options, *pattern),
        decreases pattern, 0nat,
    {
        let ghost start = self.output@;
        let ghost o = *self.options;
        match pattern.binding {
            Some(binding) => {
                self.push_s(binding.0);
                if pattern.destruct.is_some() {
                    self.push_s("@");
                }
            },
            None => {},
        }
        let ghost after_binding = self.output@;
        match &pattern.destruct {
            Some(destruct) => self.pattern_destruct(&destruct.0),
            None => {},
        }
        let ghost after_destruct = self.output@;
        match &pattern.ty {
            Some(ty) => {
                self.push_s(" :: ");
                self.ty(&ty.0, 0);
            },
            None => {},
        }
        assert(self.output@ =~= start + pattern_text(o, *pattern));
    }

    fn pattern_destruct(&mut self, destruct: &PatternDestructKind<'_>)
        ensures
            final(self).options == old(self).options,
            final(self).output@ == old(self).output@ + destruct_text(*old(self).options, *destruct),
        decreases destruct, 0nat,
    {
        let ghost start = self.output@;
        let ghost o = *self.options;
        match destruct {
            PatternDestructKind::AttrSet { fields, strict } => {
                self.push_s("{");
                let mut i: usize = 0;
                assert(start + "{"@ + fields_text(o, fields@, 0) =~= start + "{"@);
                while i < fields.len()
                    invariant
                        self.options == old(self).options,
                        o == *self.options,
                        *destruct is AttrSet,
                        destruct->AttrSet_fields == *fields,
                        i <= fields@.len(),
                        self.output@ == start + "{"@ + fields_text(o, fields@, i as int),
                    decreases fields@.len() - i,
                {
                    let ghost before = self.output@;
                    if i > 0 {
                        self.push(self.options.pattern_separator.token());
                        self.push(' ');
                    }
                    let ghost mid = self.output@;
                    let field = &fields[i].0;
                    self.push_s(field.attr.0);
                    if !is_same_binding(&field.pattern.0, field.attr.0) {
                        self.push_s(" = ");
                        proof {
                            assert(decreases_to!(*destruct => destruct->AttrSet_fields));
                            assert(decreases_to!(destruct->AttrSet_fields => fields@));
                            assert(decreases_to!(fields@ => fields@[i as int]));
                            assert(decreases_to!(fields@[i as int] => fields@[i as int].0));
                            assert(decreases_to!(fields@[i as int].0 => fields@[i as int].0.pattern));
                            assert(decreases_to!(fields@[i as int].0.pattern => fields@[i as int].0.pattern.0));
                        }
                        self.pattern(&field.pattern.0);
                    }
                    assert(self.output@ =~= mid + field_text(o, *field));
                    if i > 0 {
                        assert(mid =~= before + pattern_sep(o));
                    }
                    i = i + 1;
                    assert(self.output@ =~= start + "{"@ + fields_text(o, fields@, i as int));
                }
                let ghost before_rest = self.output@;
                if !*strict {
                    if fields.len() > 0 {
                        self.push(self.options.pattern_separator.token());
                        self.push(' ');
                    }
                    self.push_s("..");
                }
                self.push_s("}");
                assert(self.output@ =~= start + destruct_text(o, *destruct));
            },
            PatternDestructKind::List { elements, kind } => {
                self.push_s("[");
                if *kind == PatternListKind::TrailLeft {
                    self.push_s(".., ");
                }
                let ghost head = self.output@;
                let mut i: usize = 0;
                assert(head + elements_text(o, elements@, 0) =~= head);
                while i < elements.len()
                    invariant
                        self.options == old(self).options,
                        o == *self.options,
                        *destruct is List,
                        destruct->List_elements == *elements,
                        i <= elements@.len(),
                        self.output@ == head + elements_text(o, elements@, i as int),
                    decreases elements@.len() - i,
                {
                    if i > 0 {
                        self.push_s(", ");
                    }
                    proof {
                        assert(decreases_to!(*destruct => destruct->List_elements));
                        assert(decreases_to!(destruct->List_elements => elements@));
                        assert(decreases_to!(elements@ => elements@[i as int]));
                    }
                    self.pattern(&elements[i].0);
                    i = i + 1;
                    assert(self.output@ =~= head + elements_text(o, elements@, i as int));
                }
                if *kind == PatternListKind::TrailRight {
                    if elements.len() > 0 {
                        self.push_s(", ");
                    }
                    self.push_s("..");
                }
                self.push_s("]");
                assert(self.output@ =~= start + destruct_text(o, *destruct));
            },
        }
    }
}

impl<'a> Formatter<'a> {
    #[verifier::rlimit(60)]
    #[verifier::spinoff_prover]
    fn expr(&mut self, expr: &Expr<'_>, depth: usize, parent_precedence: u32)
        ensures
            final(self).options == old(self).options,
            final(self).output@ == old(self).output@ + expr_text(*old(self).options, *expr, depth, parent_precedence),
        decreases expr, 0nat,
    {
        let ghost start = self.output@;
        let ghost o = *self.options;
        match expr {
            Expr::Lambda(lambda) => {
                self.pattern(&lambda.arg.0);
                self.push_s(":");
                self.lambda_tail(&lambda.body.0, depth);
            },
            Expr::FuncApp { func, arg } => {
                self.expr_wrapped(&func.0, depth, is_application_atom(&func.0));
                self.push_s(" ");
                self.expr_wrapped(&arg.0, depth, is_argument_atom(&arg.0));
            },
            Expr::IfThenElse { cond, then_expr, else_expr } => {
                self.push_s("if ");
                self.expr(&cond.0, depth, 0);
                self.push_s(" then");
                self.conditional_branch(&then_expr.0, depth);
                self.push('\n');
                self.indent(depth);
                self.push_s("else");
                let ghost before_else = self.output@;
                if matches!(&else_expr.0, Expr::IfThenElse { .. }) {
                    self.push_s(" ");
                    self.expr(&else_expr.0, depth, 0);
                } else {
                    self.conditional_branch(&else_expr.0, depth);
                }
            },
            Expr::BinOp { lhs, op, rhs } => {
                let precedence = op.0.precedence();
                let wrapped = precedence < parent_precedence;
                if wrapped {
                    self.push_s("(");
                }
                let ghost mid = self.output@;
                self.expr(&lhs.0, depth, precedence);
                self.push_s(" ");
                self.push_s(binop(op.0));
                self.push_s(" ");
                self.expr(&rhs.0, depth, precedence + 1);
                assert(self.output@ =~= mid + (expr_text(o, lhs.0, depth, precedence) + " "@ + binop_text(op.0) + " "@ + expr_text(o, rhs.0, depth, (precedence + 1) as u32)));
                if wrapped {
                    self.push_s(")");
                }
            },
            Expr::UnOp { expr: inner, op } => {
                self.push_s(unop(op.0));
                self.expr_wrapped(&inner.0, depth, is_unary_atom(&inner.0));
            },
            Expr::Let { bindings, expr: body } => {
                self.push_s("let\n");
                let inner = deeper_depth(depth);
                let mut index: usize = 0;
                assert(start + "let\n"@ + let_lines(o, bindings@, 0, depth) =~= start + "let\n"@);
                while index < bindings.len()
                    invariant
                        self.options == old(self).options,
                        o == *self.options,
                        *expr is Let,
                        expr->Let_bindings == *bindings,
                        inner == deeper(depth),
                        index <= bindings@.len(),
                        self.output@ == start + "let\n"@ + let_lines(o, bindings@, index as int, depth),
                    decreases bindings@.len() - index,
                {
                    let ghost before = self.output@;
                    self.indent(inner);
                    self.pattern(&bindings[index].id.0);
                    self.push_s(" = ");
                    proof {
                        assert(decreases_to!(*expr => expr->Let_bindings));
                        assert(decreases_to!(expr->Let_bindings => bindings@));
                        assert(decreases_to!(bindings@ => bindings@[index as int]));
                        assert(decreases_to!(bindings@[index as int] => bindings@[index as int].value));
                    }
                    self.expr(&bindings[index].value.0, inner, 0);
                    if self.options.trailing_separator || index + 1 < bindings.len() {
                        self.push(self.options.let_separator.token());
                    }
                    self.push('\n');
                    if index + 1 < bindings.len() && (is_block_expr(&bindings[index].value.0) || is_block_expr(&bindings[index + 1].value.0)) {
                        self.push('\n');
                    }
                    assert(self.output@ =~= before + let_line(o, bindings@, index as int, depth));
                    index = index + 1;
                    assert(self.output@ =~= start + "let\n"@ + let_lines(o, bindings@, index as int, depth));
                }
                self.indent(depth);
                self.push_s("in");
                self.nested_or_inline(&body.0, depth);
            },
            Expr::AttrSet { attrs } => self.attrset(attrs, depth),
            Expr::List { elements } => {
                if elements.len() == 0 {
                    self.push_s("[]");
                } else {
                    self.push_s("[\n");
                    let inner = deeper_depth(depth);
                    let mut index: usize = 0;
                    assert(start + "[\n"@ + list_lines(o, elements@, 0, depth) =~= start + "[\n"@);
                    while index < elements.len()
                        invariant
                            self.options == old(self).options,
                            o == *self.options,
                            *expr is List,
                            expr->List_elements == *elements,
                            inner == deeper(depth),
                            index <= elements@.len(),
                            self.output@ == start + "[\n"@ + list_lines(o, elements@, index as int, depth),
                        decreases elements@.len() - index,
                    {
                        let ghost before = self.output@;
                        self.indent(inner);
                        proof {
                            assert(decreases_to!(*expr => expr->List_elements));
                            assert(decreases_to!(expr->List_elements => elements@));
                            assert(decreases_to!(elements@ => elements@[index as int]));
                        }
                        self.expr(&elements[index].0, inner, 0);
                        if self.options.trailing_separator || index + 1 < elements.len() {
                            self.push(',');
                        }
                        self.push('\n');
                        assert(self.output@ =~= before + list_line(o, elements@, index as int, depth));
                        index = index + 1;
                        assert(self.output@ =~= start + "[\n"@ + list_lines(o, elements@, index as int, depth));
                    }
                    self.indent(depth);
                    self.push_s("]");
                }
            },
            Expr::AccessAttr { expr: inner, path, or } => {
                self.expr_wrapped(&inner.0, depth, is_access_atom(&inner.0));
                self.push_s(".");
                self.attr_path(&path.0, depth);
                match or {
                    Some(x) => {
                        self.push_s(" ? ");
                        self.expr(&x.0, depth, 0);
                    },
                    None => {},
                }
            },
            Expr::HasAttr { expr: inner, path } => {
                self.expr_wrapped(&inner.0, depth, is_access_atom(&inner.0));
                self.push_s(" ? ");
                self.attr_path(&path.0, depth);
            },
            Expr::Paren(inner) => {
                self.push_s("(");
                self.expr(&inner.0, depth, 0);
                self.push_s(")");
            },
            Expr::Ident(value) => self.push_s(value),
            Expr::Num(n) => push_num(&mut self.output, n),
            Expr::Str(value) => self.raw_string(value),
        }
        assert(self.output@ =~= start + expr_text(o, *expr, depth, parent_precedence));
    }

    fn expr_wrapped(&mut self, expr: &Expr<'_>, depth: usize, atom: bool)
        ensures
            final(self).options == old(self).options,
            final(self).output@ == old(self).output@ + wrapped_text(*old(self).options, *expr, depth, atom),
        decreases expr, 1nat,
    {
        if !atom {
            self.push_s("(");
        }
        self.expr(expr, depth, 0);
        if !atom {
            self.push_s(")");
        }
        assert(self.output@ =~= old(self).output@ + wrapped_text(*old(self).options, *expr, depth, atom));
    }

    fn nested_or_inline(&mut self, expr: &Expr<'_>, depth: usize)
        ensures
            final(self).options == old(self).options,
            final(self).output@ == old(self).output@ + nested_or_inline_text(*old(self).options, *expr, depth),
        decreases expr, 1nat,
    {
        if is_block_expr(expr) && !matches!(expr, Expr::Lambda(_)) {
            self.push('\n');
            let inner = deeper_depth(depth);
            self.indent(inner);
            self.expr(expr, inner, 0);
        } else {
            self.push_s(" ");
            self.expr(expr, depth, 0);
        }
        assert(self.output@ =~= old(self).output@ + nested_or_inline_text(*old(self).options, *expr, depth));
    }

    fn conditional_branch(&mut self, expr: &Expr<'_>, depth: usize)
        ensures
            final(self).options == old(self).options,
            final(self).output@ == old(self).output@ + branch_text(*old(self).options, *expr, depth),
        decreases expr, 1nat,
    {
        if matches!(expr, Expr::FuncApp { .. }) || is_block_expr(expr) {
            self.push('\n');
            let inner = deeper_depth(depth);
            self.indent(inner);
            self.expr(expr, inner, 0);
        } else {
            self.push_s(" ");
            self.expr(expr, depth, 0);
        }
        assert(self.output@ =~= old(self).output@ + branch_text(*old(self).options, *expr, depth));
    }

    /// Writes the patterns of the functions nested in a function's body,
    /// then the innermost body.
    fn lambda_tail(&mut self, body: &Expr<'_>, depth: usize)
        ensures
            final(self).options == old(self).options,
            final(self).output@ == old(self).output@ + lambda_tail_text(*old(self).options, *body, depth),
        decreases body, 2nat,
    {
        match body {
            Expr::Lambda(next) => {
                self.push_s(" ");
                self.pattern(&next.arg.0);
                self.push_s(":");
                self.lambda_tail(&next.body.0, depth);
            },
            _ => self.nested_or_inline(body, depth),
        }
        assert(self.output@ =~= old(self).output@ + lambda_tail_text(*old(self).options, *body, depth));
    }

    fn attr_path(&mut self, path: &AttrPath<'_>, depth: usize)
        ensures
            final(self).options == old(self).options,
            final(self).output@ == old(self).output@ + path_text(*old(self).options, path.parts@, path.parts@.len() as int, depth),
        decreases path, 0nat,
    {
        let ghost start = self.output@;
        let ghost o = *self.options;
        let mut index: usize = 0;
        assert(start + path_text(o, path.parts@, 0, depth) =~= start);
        while index < path.parts.len()
            invariant
                self.options == old(self).options,
                o == *self.options,
                index <= path.parts@.len(),
                self.output@ == start + path_text(o, path.parts@, index as int, depth),
            decreases path.parts@.len() - index,
        {
            let ghost before = self.output@;
            if index > 0 {
                self.push_s(".");
            }
            let ghost mid = self.output@;
            match &path.parts[index].0 {
                AttrPathPart::Ident(value) => self.push_s(value),
                AttrPathPart::Str(value) => self.raw_string(value),
                AttrPathPart::Num(value) => push_signed_decimal(&mut self.output, *value),
                AttrPathPart::Expr(expr) => {
                    self.push_s("${");
                    proof {
                        assert(decreases_to!(*path => path.parts));
                        assert(decreases_to!(path.parts => path.parts@));
                        assert(decreases_to!(path.parts@ => path.parts@[index as int]));
                        assert(decreases_to!(path.parts@[index as int] => path.parts@[index as int].0));
                    }
                    self.expr(expr, depth, 0);
                    self.push_s("}");
                },
            }
            assert(self.output@ =~= mid + part_text(o, path.parts@[index as int], depth));
            index = index + 1;
            assert(self.output@ =~= start + path_text(o, path.parts@, index as int, depth));
        }
    }

    fn inline_attrset(&self, attrs: &Vec<Node<Attr<'_>>>) -> (r: Option<String>)
        ensures
            opt_view(r) == inline_attrset_text(attrs@),
    {
        let mut output = String::from_str("{ ");
        let mut index: usize = 0;
        assert(inline_entries(attrs@, 0) == Some(Seq::<char>::empty()));
        assert(output@ =~= "{ "@ + Seq::<char>::empty());
        while index < attrs.len()
            invariant
                index <= attrs@.len(),
                inline_entries(attrs@, index as int) matches Some(done) && output@ == "{ "@ + done,
            decreases attrs@.len() - index,
        {
            let ghost before = output@;
            let ghost done = inline_entries(attrs@, index as int)->0;
            if index > 0 {
                push_str(&mut output, ", ");
            }
            match inline_attr_path(&attrs[index].0.path.0) {
                Some(p) => push_str(&mut output, p.as_str()),
                None => {
                    proof {
                        lemma_inline_entries_none(attrs@, index as int + 1);
                    }
                    return None;
                },
            }
            match &attrs[index].0.value {
                Some(value) => {
                    match inline_expr(&value.0) {
                        Some(v) => {
                            push_str(&mut output, " = ");
                            push_str(&mut output, v.as_str());
                        },
                        None => {
                            proof {
                                lemma_inline_entries_none(attrs@, index as int + 1);
                            }
                            return None;
                        },
                    }
                },
                None => {},
            }
            proof {
                let e = inline_entries(attrs@, index as int + 1)->0;
                assert(output@ =~= "{ "@ + e);
            }
            index = index + 1;
        }
        push_str(&mut output, " }");
        proof {
            let e = inline_entries(attrs@, attrs@.len() as int)->0;
            assert(output@ =~= "{ "@ + e + " }"@);
        }
        Some(output)
    }

    fn attrset(&mut self, attrs: &Vec<Node<Attr<'_>>>, depth: usize)
        ensures
            final(self).options == old(self).options,
            final(self).output@ == old(self).output@ + attrset_text(*old(self).options, attrs@, depth),
        decreases attrs, 1nat,
    {
        let ghost start = self.output@;
        let ghost o = *self.options;
        if attrs.len() == 0 {
            self.push_s("{}");
            return;
        }
        let mut all_none = true;
        let mut k: usize = 0;
        while k < attrs.len()
            invariant
                k <= attrs@.len(),
                all_none == (forall|i: int| 0 <= i < k ==> (#[trigger] attrs@[i]).0.value is None),
            decreases attrs@.len() - k,
        {
            if attrs[k].0.value.is_some() {
                all_none = false;
            }
            k = k + 1;
        }
        if self.options.attr_separator == AttrSeparatorStyle::Smart {
            match self.inline_attrset(attrs) {
                Some(inline) => {
                    let inline_str = inline.as_str();
                    let fits = match depth.checked_mul(self.options.indent_width) {
                        Some(a) => match a.checked_add(inline_str.as_bytes().len()) {
                            Some(b) => b <= self.options.max_inline_width,
                            None => false,
                        },
                        None => false,
                    };
                    if fits {
                        proof {
                            assert(inline_str@ == inline@);
                            assert(inline_str.spec_bytes().len() == utf8_len(inline@));
                            assert(inline_attrset_text(attrs@) == Some(inline@));
                            assert(depth * o.indent_width + utf8_len(inline@) <= o.max_inline_width);
                            assert(o.attr_separator == AttrSeparatorStyle::Smart);
                            assert(attrset_inline(o, attrs@, depth));
                        }
                        self.push_s(inline_str);
                        return;
                    }
                },
                None => {},
            }
        }
        assert(!attrset_inline(o, attrs@, depth));
        let separator = match self.options.attr_separator {
            AttrSeparatorStyle::Smart => if all_none { ',' } else { ';' },
            AttrSeparatorStyle::Semicolon => ';',
            AttrSeparatorStyle::Comma => ',',
        };
        assert(separator == attr_separator(o, attrs@));
        self.push_s("{\n");
        let inner = deeper_depth(depth);
        let mut index: usize = 0;
        assert(start + "{\n"@ + attr_lines(o, attrs@, 0, depth, separator) =~= start + "{\n"@);
        while index < attrs.len()
            invariant
                self.options == old(self).options,
                o == *self.options,
                inner == deeper(depth),
                index <= attrs@.len(),
                self.output@ == start + "{\n"@ + attr_lines(o, attrs@, index as int, depth, separator),
            decreases attrs@.len() - index,
        {
            let ghost before = self.output@;
            self.indent(inner);
            proof {
                assert(decreases_to!(*attrs => attrs@));
                assert(decreases_to!(attrs@ => attrs@[index as int]));
                assert(decreases_to!(attrs@[index as int] => attrs@[index as int].0));
                assert(decreases_to!(attrs@[index as int].0 => attrs@[index as int].0.path));
                assert(decreases_to!(attrs@[index as int].0.path => attrs@[index as int].0.path.0));
            }
            self.attr_path(&attrs[index].0.path.0, inner);
            match &attrs[index].0.value {
                Some(value) => {
                    self.push_s(" = ");
                    proof {
                        assert(decreases_to!(attrs@[index as int].0 => attrs@[index as int].0.value));
                    }
                    self.expr(&value.0, inner, 0);
                },
                None => {},
            }
            if self.options.trailing_separator || index + 1 < attrs.len() {
                self.push(separator);
            }
            self.push('\n');
            assert(self.output@ =~= before + attr_line(o, attrs@, index as int, depth, separator));
            index = index + 1;
            assert(self.output@ =~= start + "{\n"@ + attr_lines(o, attrs@, index as int, depth, separator));
        }
        self.indent(depth);
        self.push_s("}");
        assert(self.output@ =~= start + attrset_text(o, attrs@, depth));
    }
}

proof fn lemma_inline_entries_none(attrs: Seq<Node<Attr>>, k: int)
    requires
        0 <= k <= attrs.len(),
        inline_entries(attrs, k) is None,
    ensures
        inline_entries(attrs, attrs.len() as int) is None,
    decreases attrs.len() - k,
{
    if k < attrs.len() {
        lemma_inline_entries_none(attrs, k + 1);
    }
}

} // verus!
