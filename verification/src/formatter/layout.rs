use vstd::prelude::*;
use vstd::string::*;

use crate::files::Node;
use crate::formatter::options::{separator_char, SeparatorStyle};
use crate::lex::lexer::{lex_at, skip_ws};
use crate::lex::Token;
use crate::parse::grammar::{binop_token, tok, tokens_from, unop_token};
use crate::parse::ast::{spec_precedence, Attr, AttrPath, AttrPathPart, BinOp, Expr, Num, Pattern, UnOp};
use crate::text::{chars_of, push_char, push_signed_decimal, push_str, signed_decimal, str_eq};

verus! {

/// Whether `p` is just the name `name`, so that a field `name = name` of an
/// attribute pattern can be written `name`.
pub open spec fn same_binding(p: Pattern, name: Seq<char>) -> bool {
    &&& p.binding matches Some(b) && b.0@ == name
    &&& p.ty is None
    &&& p.destruct is None
}

pub(crate) fn is_same_binding(pattern: &Pattern<'_>, name: &str) -> (r: bool)
    ensures
        r == same_binding(*pattern, name@),
{
    match pattern.binding {
        Some(binding) => str_eq(binding.0, name) && pattern.ty.is_none() && pattern.destruct.is_none(),
        None => false,
    }
}

/// Expressions that need no parentheses as the function of an application.
pub open spec fn application_atom(e: Expr) -> bool {
    e is Ident || e is Paren || e is AccessAttr || e is HasAttr || e is FuncApp
}

/// Expressions that need no parentheses as the argument of an application.
pub open spec fn argument_atom(e: Expr) -> bool {
    e is Ident || e is Num || e is Str || e is Paren || e is AttrSet || e is List || e is AccessAttr || e is HasAttr
}

/// Expressions that need no parentheses under a unary operator.
pub open spec fn unary_atom(e: Expr) -> bool {
    e is Ident || e is Num || e is AccessAttr || e is Paren
}

/// Expressions that need no parentheses before an attribute access.
pub open spec fn access_atom(e: Expr) -> bool {
    e is Ident || e is Paren || e is AttrSet || e is List || e is AccessAttr
}

pub(crate) fn is_application_atom(expr: &Expr<'_>) -> (r: bool)
    ensures
        r == application_atom(*expr),
{
    match expr {
        Expr::Ident(_) | Expr::Paren(_) | Expr::AccessAttr { .. } | Expr::HasAttr { .. } | Expr::FuncApp { .. } => true,
        _ => false,
    }
}

pub(crate) fn is_argument_atom(expr: &Expr<'_>) -> (r: bool)
    ensures
        r == argument_atom(*expr),
{
    match expr {
        Expr::Ident(_) | Expr::Num(_) | Expr::Str(_) | Expr::Paren(_) | Expr::AttrSet { .. } | Expr::List { .. }
        | Expr::AccessAttr { .. } | Expr::HasAttr { .. } => true,
        _ => false,
    }
}

pub(crate) fn is_unary_atom(expr: &Expr<'_>) -> (r: bool)
    ensures
        r == unary_atom(*expr),
{
    match expr {
        Expr::Ident(_) | Expr::Num(_) | Expr::AccessAttr { .. } | Expr::Paren(_) => true,
        _ => false,
    }
}

pub(crate) fn is_access_atom(expr: &Expr<'_>) -> (r: bool)
    ensures
        r == access_atom(*expr),
{
    match expr {
        Expr::Ident(_) | Expr::Paren(_) | Expr::AttrSet { .. } | Expr::List { .. } | Expr::AccessAttr { .. } => true,
        _ => false,
    }
}

pub open spec fn binop_text(op: BinOp) -> Seq<char> {
    match op {
        BinOp::Rem => "%"@,
        BinOp::Div => "/"@,
        BinOp::Mul => "*"@,
        BinOp::Sub => "-"@,
        BinOp::Add => "+"@,
        BinOp::Lt => "<"@,
        BinOp::Lte => "<="@,
        BinOp::Gt => ">"@,
        BinOp::Gte => ">="@,
        BinOp::Eq => "=="@,
        BinOp::Ne => "!="@,
        BinOp::And => "&&"@,
        BinOp::Or => "||"@,
        BinOp::PipeL => "<|"@,
        BinOp::PipeR => "|>"@,
        BinOp::LogImp => "->"@,
    }
}

/// Reading back the text written for an operator gives that operator: the
/// lexer reads `binop_text(op)` as exactly one token, the token of `op`.
pub proof fn law_operator_text_reads_back(op: BinOp)
    ensures
        tokens_from(binop_text(op), 0) == seq![tok(binop_token(op))],
{
    let cs = binop_text(op);
    reveal_strlit("%");
    reveal_strlit("/");
    reveal_strlit("*");
    reveal_strlit("-");
    reveal_strlit("+");
    reveal_strlit("<");
    reveal_strlit("<=");
    reveal_strlit(">");
    reveal_strlit(">=");
    reveal_strlit("==");
    reveal_strlit("!=");
    reveal_strlit("&&");
    reveal_strlit("||");
    reveal_strlit("<|");
    reveal_strlit("|>");
    reveal_strlit("->");
    assert(cs.len() >= 1);
    assert(skip_ws(cs, 0) == 0);
    let (lx, end) = lex_at(cs, 0);
    assert(end == cs.len());
    assert(tokens_from(cs, end) == Seq::<crate::parse::grammar::Tok>::empty());
    assert(tokens_from(cs, 0) =~= seq![tok(binop_token(op))]);
}

pub(crate) fn binop(op: BinOp) -> (r: &'static str)
    ensures
        r@ == binop_text(op),
{
    match op {
        BinOp::Rem => "%",
        BinOp::Div => "/",
        BinOp::Mul => "*",
        BinOp::Sub => "-",
        BinOp::Add => "+",
        BinOp::Lt => "<",
        BinOp::Lte => "<=",
        BinOp::Gt => ">",
        BinOp::Gte => ">=",
        BinOp::Eq => "==",
        BinOp::Ne => "!=",
        BinOp::And => "&&",
        BinOp::Or => "||",
        BinOp::PipeL => "<|",
        BinOp::PipeR => "|>",
        BinOp::LogImp => "->",
    }
}

pub open spec fn unop_text(op: UnOp) -> Seq<char> {
    match op {
        UnOp::Neg => "-"@,
        UnOp::Not => "!"@,
    }
}

/// Reading back the text written for a prefix operator gives that operator.
pub proof fn law_prefix_text_reads_back(op: UnOp)
    ensures
        tokens_from(unop_text(op), 0) == seq![tok(unop_token(op))],
{
    let cs = unop_text(op);
    reveal_strlit("-");
    reveal_strlit("!");
    assert(skip_ws(cs, 0) == 0);
    let (lx, end) = lex_at(cs, 0);
    assert(end == cs.len());
    assert(tokens_from(cs, end) == Seq::<crate::parse::grammar::Tok>::empty());
    assert(tokens_from(cs, 0) =~= seq![tok(unop_token(op))]);
}

/// The separator written between items reads back as that separator:
/// `,` for `Comma`, `;` for `Semicolon`.
pub proof fn law_separator_reads_back(style: SeparatorStyle)
    ensures
        style == SeparatorStyle::Comma ==> tokens_from(seq![separator_char(style)], 0) == seq![tok(Token::Comma)],
        style == SeparatorStyle::Semicolon ==> tokens_from(seq![separator_char(style)], 0) == seq![tok(Token::Semicolon)],
{
    let cs = seq![separator_char(style)];
    assert(skip_ws(cs, 0) == 0);
    assert(tokens_from(cs, 1) == Seq::<crate::parse::grammar::Tok>::empty());
}

pub(crate) fn unop(op: UnOp) -> (r: &'static str)
    ensures
        r@ == unop_text(op),
{
    match op {
        UnOp::Neg => "-",
        UnOp::Not => "!",
    }
}

/// Where the first `.` of `t` is, or its length when there is none.
pub open spec fn dot_position(t: Seq<char>) -> nat
    decreases t.len(),
{
    if t.len() == 0 || t[0] == '.' { 0 } else { 1 + dot_position(t.drop_first()) }
}

pub open spec fn leading_zeros(s: Seq<char>) -> nat
    decreases s.len(),
{
    if s.len() > 0 && s[0] == '0' { 1 + leading_zeros(s.drop_first()) } else { 0 }
}

pub open spec fn trailing_zeros(s: Seq<char>) -> nat
    decreases s.len(),
{
    if s.len() > 0 && s.last() == '0' { 1 + trailing_zeros(s.drop_last()) } else { 0 }
}

/// A decimal literal `int.frac` as the value it denotes is written: without
/// leading zeros in the integer part nor trailing zeros in the fraction, and
/// with `0` for a part left empty.
pub open spec fn float_text(t: Seq<char>) -> Seq<char> {
    let dot = dot_position(t);
    let int_part = t.take(dot as int);
    let frac_part = if dot < t.len() { t.skip(dot + 1int) } else { Seq::empty() };
    let int_digits = int_part.skip(leading_zeros(int_part) as int);
    let frac_digits = frac_part.take(frac_part.len() - trailing_zeros(frac_part));
    (if int_digits.len() == 0 { "0"@ } else { int_digits }) + "."@ + (if frac_digits.len() == 0 { "0"@ } else { frac_digits })
}

proof fn lemma_leading_zeros_bound(s: Seq<char>)
    ensures
        leading_zeros(s) <= s.len(),
        forall|i: int| 0 <= i < leading_zeros(s) ==> s[i] == '0',
        leading_zeros(s) < s.len() ==> s[leading_zeros(s) as int] != '0',
    decreases s.len(),
{
    if s.len() > 0 && s[0] == '0' {
        lemma_leading_zeros_bound(s.drop_first());
        assert forall|i: int| 0 <= i < leading_zeros(s) implies s[i] == '0' by {
            if i > 0 {
                assert(s[i] == s.drop_first()[i - 1]);
            }
        }
        if leading_zeros(s) < s.len() {
            assert(s[leading_zeros(s) as int] == s.drop_first()[leading_zeros(s.drop_first()) as int]);
        }
    }
}

proof fn lemma_leading_zeros_exact(s: Seq<char>, k: int)
    requires
        0 <= k <= s.len(),
        forall|i: int| 0 <= i < k ==> s[i] == '0',
        k == s.len() || s[k] != '0',
    ensures
        leading_zeros(s) == k,
    decreases s.len(),
{
    if k > 0 {
        assert forall|i: int| 0 <= i < k - 1 implies s.drop_first()[i] == '0' by {
            assert(s.drop_first()[i] == s[i + 1]);
        }
        if k - 1 < s.drop_first().len() {
            assert(s.drop_first()[k - 1] == s[k]);
        }
        lemma_leading_zeros_exact(s.drop_first(), k - 1);
    }
}

proof fn lemma_trailing_zeros_exact(s: Seq<char>, k: int)
    requires
        0 <= k <= s.len(),
        forall|i: int| s.len() - k <= i < s.len() ==> s[i] == '0',
        k == s.len() || s[s.len() - k - 1] != '0',
    ensures
        trailing_zeros(s) == k,
    decreases s.len(),
{
    if k > 0 {
        assert forall|i: int| s.drop_last().len() - (k - 1) <= i < s.drop_last().len() implies s.drop_last()[i] == '0' by {
            assert(s.drop_last()[i] == s[i]);
        }
        if k - 1 < s.drop_last().len() {
            assert(s.drop_last()[s.drop_last().len() - (k - 1) - 1] == s[s.len() - k - 1]);
        }
        lemma_trailing_zeros_exact(s.drop_last(), k - 1);
    }
}

proof fn lemma_dot_position(t: Seq<char>, k: int)
    requires
        0 <= k <= t.len(),
        forall|i: int| 0 <= i < k ==> t[i] != '.',
        k == t.len() || t[k] == '.',
    ensures
        dot_position(t) == k,
    decreases t.len(),
{
    if k > 0 {
        assert forall|i: int| 0 <= i < k - 1 implies t.drop_first()[i] != '.' by {
            assert(t.drop_first()[i] == t[i + 1]);
        }
        if k - 1 < t.drop_first().len() {
            assert(t.drop_first()[k - 1] == t[k]);
        }
        lemma_dot_position(t.drop_first(), k - 1);
    }
}

/// Appends `chars[from..to]`.
fn push_range(out: &mut String, chars: &Vec<char>, from: usize, to: usize)
    requires
        from <= to <= chars@.len(),
    ensures
        final(out)@ == old(out)@ + chars@.subrange(from as int, to as int),
{
    let mut i = from;
    while i < to
        invariant
            from <= i <= to,
            to <= chars@.len(),
            out@ == old(out)@ + chars@.subrange(from as int, i as int),
        decreases to - i,
    {
        push_char(out, chars[i]);
        i = i + 1;
        assert(out@ =~= old(out)@ + chars@.subrange(from as int, i as int));
    }
}

/// Appends a float literal as `float_text` writes it.
pub(crate) fn push_float_text(out: &mut String, text: &str)
    ensures
        final(out)@ == old(out)@ + float_text(text@),
{
    let chars = chars_of(text);
    let ghost t = text@;
    let n = chars.len();
    let mut dot: usize = 0;
    while dot < n && chars[dot] != '.'
        invariant
            chars@ == t,
            n == t.len(),
            dot <= n,
            forall|i: int| 0 <= i < dot ==> t[i] != '.',
        decreases n - dot,
    {
        dot = dot + 1;
    }
    proof {
        lemma_dot_position(t, dot as int);
    }
    let mut int_start: usize = 0;
    while int_start < dot && chars[int_start] == '0'
        invariant
            chars@ == t,
            dot <= n == t.len(),
            int_start <= dot,
            forall|i: int| 0 <= i < int_start ==> t[i] == '0',
        decreases dot - int_start,
    {
        int_start = int_start + 1;
    }
    let frac_start: usize = if dot < n { dot + 1 } else { n };
    let mut frac_end: usize = n;
    while frac_end > frac_start && chars[frac_end - 1] == '0'
        invariant
            chars@ == t,
            n == t.len(),
            frac_start <= frac_end <= n,
            forall|i: int| frac_end <= i < n ==> t[i] == '0',
        decreases frac_end - frac_start,
    {
        frac_end = frac_end - 1;
    }
    let ghost int_part = t.take(dot as int);
    let ghost frac_part = if (dot as int) < t.len() { t.skip(dot + 1) } else { Seq::<char>::empty() };
    proof {
        assert forall|i: int| 0 <= i < int_start implies int_part[i] == '0' by {
            assert(int_part[i] == t[i]);
        }
        if int_start < dot {
            assert(int_part[int_start as int] == t[int_start as int]);
        }
        lemma_leading_zeros_exact(int_part, int_start as int);
        assert(frac_part =~= t.subrange(frac_start as int, n as int));
        let k = n - frac_end;
        assert forall|i: int| frac_part.len() - k <= i < frac_part.len() implies frac_part[i] == '0' by {
            assert(frac_part[i] == t[frac_start + i]);
        }
        if k < frac_part.len() {
            assert(frac_part[frac_part.len() - k - 1] == t[frac_end - 1]);
        }
        lemma_trailing_zeros_exact(frac_part, k as int);
        assert(int_part.skip(int_start as int) =~= t.subrange(int_start as int, dot as int));
        assert(frac_part.take(frac_part.len() - k) =~= t.subrange(frac_start as int, frac_end as int));
    }
    if int_start < dot {
        push_range(out, &chars, int_start, dot);
    } else {
        push_char(out, '0');
    }
    push_char(out, '.');
    if frac_start < frac_end {
        push_range(out, &chars, frac_start, frac_end);
    } else {
        push_char(out, '0');
    }
    proof {
        reveal_strlit("0");
        reveal_strlit(".");
        assert(final(out)@ =~= old(out)@ + float_text(text@));
    }
}

/// A number as `{}` writes it (`{:.1}` for a float without fraction).
pub open spec fn num_text(n: Num) -> Seq<char> {
    match n {
        Num::Int(v) => signed_decimal(v as int),
        Num::Float(t) => float_text(t@),
    }
}

pub(crate) fn push_num(out: &mut String, n: &Num)
    ensures
        final(out)@ == old(out)@ + num_text(*n),
{
    match n {
        Num::Int(v) => push_signed_decimal(out, *v),
        Num::Float(t) => push_float_text(out, t.as_str()),
    }
}

pub open spec fn quoted(s: Seq<char>) -> Seq<char> {
    "\""@ + s + "\""@
}

pub open spec fn parenthesized(s: Seq<char>) -> Seq<char> {
    "("@ + s + ")"@
}

/// A path part on one line, if it can be written on one line.
pub open spec fn inline_part(p: Node<AttrPathPart>) -> Option<Seq<char>>
    decreases p, 0nat,
{
    match p.0 {
        AttrPathPart::Ident(v) => Some(v@),
        AttrPathPart::Str(v) => Some(quoted(v@)),
        AttrPathPart::Num(v) => Some(signed_decimal(v as int)),
        AttrPathPart::Expr(e) => match inline_expr_text(e, 0) {
            Some(s) => Some("${"@ + s + "}"@),
            None => None,
        },
    }
}

/// A path on one line, its parts joined by `.`.
pub open spec fn inline_path(parts: Seq<Node<AttrPathPart>>) -> Option<Seq<char>>
    decreases parts, 0nat,
{
    if parts.len() == 0 {
        Some(Seq::empty())
    } else {
        match (inline_path(parts.drop_last()), inline_part(parts.last())) {
            (Some(a), Some(b)) => Some(if parts.len() == 1 { b } else { a + "."@ + b }),
            _ => None,
        }
    }
}

/// List elements on one line, joined by `, `.
pub open spec fn inline_elements(elements: Seq<Node<Expr>>) -> Option<Seq<char>>
    decreases elements, 0nat,
{
    if elements.len() == 0 {
        Some(Seq::empty())
    } else {
        match (inline_elements(elements.drop_last()), inline_expr_text(elements.last().0, 0)) {
            (Some(a), Some(b)) => Some(if elements.len() == 1 { b } else { a + ", "@ + b }),
            _ => None,
        }
    }
}

pub open spec fn wrap_unless(atom: bool, s: Seq<char>) -> Seq<char> {
    if atom { s } else { parenthesized(s) }
}

/// An expression on one line, under an operator of precedence
/// `parent_precedence`; `None` for functions, conditionals, `let` and
/// attribute sets, which are never written inline.
pub open spec fn inline_expr_text(e: Expr, parent_precedence: u32) -> Option<Seq<char>>
    decreases e, 0nat,
{
    match e {
        Expr::Ident(v) => Some(v@),
        Expr::Num(n) => Some(num_text(n)),
        Expr::Str(v) => Some(quoted(v@)),
        Expr::Paren(x) => match inline_expr_text(x.0, 0) {
            Some(s) => Some(parenthesized(s)),
            None => None,
        },
        Expr::UnOp { expr, op } => match inline_expr_text(expr.0, 0) {
            Some(s) => Some(unop_text(op.0) + s),
            None => None,
        },
        Expr::BinOp { lhs, op, rhs } => {
            let p = spec_precedence(op.0);
            match (inline_expr_text(lhs.0, p), inline_expr_text(rhs.0, (p + 1) as u32)) {
                (Some(a), Some(b)) => {
                    let v = a + " "@ + binop_text(op.0) + " "@ + b;
                    Some(if p < parent_precedence { parenthesized(v) } else { v })
                },
                _ => None,
            }
        },
        Expr::FuncApp { func, arg } => match (inline_expr_text(func.0, 0), inline_expr_text(arg.0, 0)) {
            (Some(f), Some(a)) => Some(wrap_unless(application_atom(func.0), f) + " "@ + wrap_unless(argument_atom(arg.0), a)),
            _ => None,
        },
        Expr::AccessAttr { expr, path, or } => match (inline_expr_text(expr.0, 0), inline_path(path.0.parts@)) {
            (Some(x), Some(p)) => {
                let base = wrap_unless(access_atom(expr.0), x) + "."@ + p;
                match or {
                    Some(o) => match inline_expr_text(o.0, 0) {
                        Some(os) => Some(base + " ? "@ + os),
                        None => None,
                    },
                    None => Some(base),
                }
            },
            _ => None,
        },
        Expr::HasAttr { expr, path } => match (inline_expr_text(expr.0, 0), inline_path(path.0.parts@)) {
            (Some(x), Some(p)) => Some(x + " ? "@ + p),
            _ => None,
        },
        Expr::List { elements } => match inline_elements(elements@) {
            Some(s) => Some("["@ + s + "]"@),
            None => None,
        },
        _ => None,
    }
}

/// Whether an expression is written over several lines.
pub open spec fn block_expr(e: Expr) -> bool
    decreases e, 0nat,
{
    match e {
        Expr::Let { .. } => true,
        Expr::IfThenElse { .. } => true,
        Expr::Lambda(l) => block_expr(l.body.0),
        Expr::AttrSet { attrs } => attrs.len() > 1 || some_block_value(attrs@),
        Expr::List { elements } => elements.len() > 3,
        _ => false,
    }
}

pub open spec fn some_block_value(attrs: Seq<Node<Attr>>) -> bool
    decreases attrs, 0nat,
{
    if attrs.len() == 0 {
        false
    } else {
        some_block_value(attrs.drop_last()) || match attrs.last().0.value {
            Some(v) => block_expr(v.0),
            None => false,
        }
    }
}

pub(crate) fn is_block_expr(expr: &Expr<'_>) -> (r: bool)
    ensures
        r == block_expr(*expr),
    decreases expr,
{
    match expr {
        Expr::Let { .. } | Expr::IfThenElse { .. } => true,
        Expr::Lambda(lambda) => is_block_expr(&lambda.body.0),
        Expr::AttrSet { attrs } => {
            if attrs.len() > 1 {
                return true;
            }
            let mut i: usize = 0;
            assert(attrs@.take(0) =~= Seq::<Node<Attr>>::empty());
            while i < attrs.len()
                invariant
                    *expr is AttrSet,
                    expr->AttrSet_attrs == *attrs,
                    i <= attrs@.len(),
                    !some_block_value(attrs@.take(i as int)),
                decreases attrs@.len() - i,
            {
                assert(attrs@.take(i + 1).drop_last() =~= attrs@.take(i as int));
                assert(attrs@.take(i + 1).last() == attrs@[i as int]);
                match &attrs[i].0.value {
                    Some(value) => {
                        proof {
                            assert(decreases_to!(*expr => expr->AttrSet_attrs));
                            assert(decreases_to!(expr->AttrSet_attrs => attrs@));
                            assert(decreases_to!(attrs@ => attrs@[i as int]));
                            assert(decreases_to!(attrs@[i as int] => attrs@[i as int].0));
                            assert(decreases_to!(attrs@[i as int].0 => attrs@[i as int].0.value));
                        }
                        if is_block_expr(&value.0) {
                            proof {
                                lemma_some_block_value_prefix(attrs@, i as int + 1);
                            }
                            return true;
                        }
                    },
                    None => {},
                }
                i = i + 1;
            }
            assert(attrs@.take(i as int) =~= attrs@);
            false
        },
        Expr::List { elements } => elements.len() > 3,
        _ => false,
    }
}

proof fn lemma_some_block_value_prefix(attrs: Seq<Node<Attr>>, k: int)
    requires
        0 <= k <= attrs.len(),
        some_block_value(attrs.take(k)),
    ensures
        some_block_value(attrs),
    decreases attrs.len() - k,
{
    if k < attrs.len() {
        assert(attrs.take(k + 1).drop_last() =~= attrs.take(k));
        lemma_some_block_value_prefix(attrs, k + 1);
    } else {
        assert(attrs.take(k) =~= attrs);
    }
}

proof fn lemma_inline_path_none(parts: Seq<Node<AttrPathPart>>, k: int)
    requires
        0 <= k <= parts.len(),
        inline_path(parts.take(k)) is None,
    ensures
        inline_path(parts) is None,
    decreases parts.len() - k,
{
    if k < parts.len() {
        assert(parts.take(k + 1).drop_last() =~= parts.take(k));
        lemma_inline_path_none(parts, k + 1);
    } else {
        assert(parts.take(k) =~= parts);
    }
}

proof fn lemma_inline_elements_none(elements: Seq<Node<Expr>>, k: int)
    requires
        0 <= k <= elements.len(),
        inline_elements(elements.take(k)) is None,
    ensures
        inline_elements(elements) is None,
    decreases elements.len() - k,
{
    if k < elements.len() {
        assert(elements.take(k + 1).drop_last() =~= elements.take(k));
        lemma_inline_elements_none(elements, k + 1);
    } else {
        assert(elements.take(k) =~= elements);
    }
}

pub open spec fn opt_view(r: Option<String>) -> Option<Seq<char>> {
    match r {
        Some(s) => Some(s@),
        None => None,
    }
}

fn wrapped_unless(atom: bool, s: String) -> (r: String)
    ensures
        r@ == wrap_unless(atom, s@),
{
    if atom {
        s
    } else {
        let mut r = String::new();
        push_char(&mut r, '(');
        push_str(&mut r, s.as_str());
        push_char(&mut r, ')');
        proof {
            reveal_strlit("(");
            reveal_strlit(")");
        }
        assert(r@ =~= wrap_unless(atom, s@));
        r
    }
}

/// A path on one line, if it can be written on one line.
pub(crate) fn inline_attr_path(path: &AttrPath<'_>) -> (r: Option<String>)
    ensures
        opt_view(r) == inline_path(path.parts@),
    decreases path, 0nat,
{
    let mut output = String::new();
    let mut index: usize = 0;
    assert(path.parts@.take(0) =~= Seq::<Node<AttrPathPart>>::empty());
    while index < path.parts.len()
        invariant
            index <= path.parts@.len(),
            inline_path(path.parts@.take(index as int)) == Some(output@),
        decreases path.parts@.len() - index,
    {
        let ghost before = output@;
        assert(path.parts@.take(index + 1).drop_last() =~= path.parts@.take(index as int));
        assert(path.parts@.take(index + 1).last() == path.parts@[index as int]);
        if index > 0 {
            push_char(&mut output, '.');
        }
        let ghost mid = output@;
        match &path.parts[index].0 {
            AttrPathPart::Ident(value) => push_str(&mut output, value),
            AttrPathPart::Str(value) => {
                push_char(&mut output, '"');
                push_str(&mut output, value);
                push_char(&mut output, '"');
            },
            AttrPathPart::Num(value) => push_signed_decimal(&mut output, *value),
            AttrPathPart::Expr(expr) => {
                proof {
                    assert(decreases_to!(*path => path.parts));
                    assert(decreases_to!(path.parts => path.parts@));
                    assert(decreases_to!(path.parts@ => path.parts@[index as int]));
                    assert(decreases_to!(path.parts@[index as int] => path.parts@[index as int].0));
                }
                match inline_expr(expr) {
                    Some(inner) => {
                        push_str(&mut output, "${");
                        push_str(&mut output, inner.as_str());
                        push_char(&mut output, '}');
                    },
                    None => {
                        proof {
                            assert(inline_path(path.parts@.take(index + 1)) is None);
                            lemma_inline_path_none(path.parts@, index + 1);
                        }
                        return None;
                    },
                }
            },
        }
        proof {
            reveal_strlit(".");
            reveal_strlit("\"");
            reveal_strlit("${");
            reveal_strlit("}");
            let part = inline_part(path.parts@[index as int]);
            assert(part is Some);
            if index > 0 {
                assert(output@ =~= before + "."@ + part->0);
            } else {
                assert(output@ =~= part->0);
            }
        }
        index = index + 1;
    }
    assert(path.parts@.take(index as int) =~= path.parts@);
    Some(output)
}

/// An expression on one line, if it can be written on one line.
pub(crate) fn inline_expr(expr: &Expr<'_>) -> (r: Option<String>)
    ensures
        opt_view(r) == inline_expr_text(*expr, 0),
    decreases expr, 1nat,
{
    inline_expr_prec(expr, 0)
}

fn inline_expr_prec(expr: &Expr<'_>, parent_precedence: u32) -> (r: Option<String>)
    ensures
        opt_view(r) == inline_expr_text(*expr, parent_precedence),
    decreases expr, 0nat,
{
    proof {
        reveal_strlit("(");
        reveal_strlit(")");
        reveal_strlit(" ");
        reveal_strlit("\"");
        reveal_strlit(".");
        reveal_strlit(" ? ");
        reveal_strlit("[");
        reveal_strlit("]");
        reveal_strlit(", ");
    }
    match expr {
        Expr::Ident(value) => Some(String::from_str(value)),
        Expr::Num(n) => {
            let mut out = String::new();
            push_num(&mut out, n);
            assert(out@ =~= num_text(*n));
            Some(out)
        },
        Expr::Str(value) => {
            let mut out = String::new();
            push_char(&mut out, '"');
            push_str(&mut out, value);
            push_char(&mut out, '"');
            assert(out@ =~= quoted(value@));
            Some(out)
        },
        Expr::Paren(inner) => {
            let s = inline_expr(&inner.0)?;
            Some(wrapped_unless(false, s))
        },
        Expr::UnOp { expr: inner, op } => {
            let s = inline_expr(&inner.0)?;
            let mut out = String::from_str(unop(op.0));
            push_str(&mut out, s.as_str());
            Some(out)
        },
        Expr::BinOp { lhs, op, rhs } => {
            let precedence = op.0.precedence();
            let a = inline_expr_prec(&lhs.0, precedence)?;
            let b = inline_expr_prec(&rhs.0, precedence + 1)?;
            let mut value = a;
            push_char(&mut value, ' ');
            push_str(&mut value, binop(op.0));
            push_char(&mut value, ' ');
            push_str(&mut value, b.as_str());
            assert(value@ =~= a@ + " "@ + binop_text(op.0) + " "@ + b@);
            Some(wrapped_unless(!(precedence < parent_precedence), value))
        },
        Expr::FuncApp { func, arg } => {
            let f = inline_expr(&func.0)?;
            let a = inline_expr(&arg.0)?;
            let mut out = wrapped_unless(is_application_atom(&func.0), f);
            push_char(&mut out, ' ');
            let a = wrapped_unless(is_argument_atom(&arg.0), a);
            push_str(&mut out, a.as_str());
            Some(out)
        },
        Expr::AccessAttr { expr: inner, path, or } => {
            let x = inline_expr(&inner.0)?;
            let p = inline_attr_path(&path.0)?;
            let mut value = wrapped_unless(is_access_atom(&inner.0), x);
            push_char(&mut value, '.');
            push_str(&mut value, p.as_str());
            match or {
                Some(o) => {
                    let os = inline_expr(&o.0)?;
                    push_str(&mut value, " ? ");
                    push_str(&mut value, os.as_str());
                    Some(value)
                },
                None => Some(value),
            }
        },
        Expr::HasAttr { expr: inner, path } => {
            let x = inline_expr(&inner.0)?;
            let p = inline_attr_path(&path.0)?;
            let mut value = x;
            push_str(&mut value, " ? ");
            push_str(&mut value, p.as_str());
            Some(value)
        },
        Expr::List { elements } => {
            let mut out = String::new();
            push_char(&mut out, '[');
            let mut i: usize = 0;
            assert(elements@.take(0) =~= Seq::<Node<Expr>>::empty());
            while i < elements.len()
                invariant
                    *expr is List,
                    expr->List_elements == *elements,
                    i <= elements@.len(),
                    inline_elements(elements@.take(i as int)) matches Some(done) && out@ == "["@ + done,
                decreases elements@.len() - i,
            {
                assert(elements@.take(i + 1).drop_last() =~= elements@.take(i as int));
                assert(elements@.take(i + 1).last() == elements@[i as int]);
                proof {
                    assert(decreases_to!(*expr => expr->List_elements));
                    assert(decreases_to!(expr->List_elements => elements@));
                    assert(decreases_to!(elements@ => elements@[i as int]));
                }
                let ghost before = out@;
                let s = match inline_expr(&elements[i].0) {
                    Some(s) => s,
                    None => {
                        proof {
                            assert(inline_elements(elements@.take(i + 1)) is None);
                            lemma_inline_elements_none(elements@, i + 1);
                        }
                        return None;
                    },
                };
                if i > 0 {
                    push_str(&mut out, ", ");
                }
                push_str(&mut out, s.as_str());
                proof {
                    let done = inline_elements(elements@.take(i as int))->0;
                    if i > 0 {
                        assert(out@ =~= "["@ + (done + ", "@ + s@));
                    } else {
                        assert(out@ =~= "["@ + s@);
                    }
                }
                i = i + 1;
            }
            assert(elements@.take(i as int) =~= elements@);
            push_char(&mut out, ']');
            proof {
                let done = inline_elements(elements@)->0;
                assert(out@ =~= "["@ + done + "]"@);
            }
            Some(out)
        },
        _ => None,
    }
}

} // verus!
