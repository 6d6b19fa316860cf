//! What the parser reads: the tokens of the source, and which trees they
//! spell.

use vstd::prelude::*;

use crate::lex::lexer::{ident_end, is_ws, lemma_lex_at_progress, lemma_skip_ws_bounds, lex_at, skip_ws, Lexeme};
use crate::lex::token::spec_tag;
use crate::lex::Token;
use crate::parse::ast::{
    spec_associativity, spec_precedence, Associativity, Attr, AttrPath, AttrPathPart, AttrPattern, BinOp, Expr,
    LetBinding, Node, Num, Pattern, PatternDestructKind, PatternListKind, Type, TypeAttr, UnOp,
};
use crate::parse::number::{has_underscore, int_literal_value};
use crate::parse::parser::token::{spec_start_fn_arg, Delim};

verus! {

/// A token as the grammar sees it: its kind, with the text of the tokens
/// that carry one; `Bad` stands for text that is no token.
pub enum Tok {
    Ident(Seq<char>),
    Num(Seq<char>),
    Str(Seq<char>),
    Plain(u8),
    Bad,
}

pub open spec fn tok(t: Token) -> Tok {
    match t {
        Token::Ident(s) => Tok::Ident(s@),
        Token::Num(s) => Tok::Num(s@),
        Token::String(s) => Tok::Str(s@),
        _ => Tok::Plain(spec_tag(t)),
    }
}

/// The token a lexeme gives, none for a comment.
pub open spec fn lexeme_tok(lx: Lexeme, cs: Seq<char>) -> Option<Tok> {
    match lx {
        Lexeme::Plain(t) => Some(tok(t)),
        Lexeme::Ident(a, b) => Some(Tok::Ident(cs.subrange(a as int, b as int))),
        Lexeme::Num(a, b) => Some(Tok::Num(cs.subrange(a as int, b as int))),
        Lexeme::Str(a, b) => Some(Tok::Str(cs.subrange(a as int, b as int))),
        Lexeme::Comment(_, _) => None,
        Lexeme::Error(_) => Some(Tok::Bad),
    }
}

/// The tokens of `cs` from index `pos` to the end, without comments.
pub open spec fn tokens_from(cs: Seq<char>, pos: nat) -> Seq<Tok>
    decreases cs.len() - pos,
{
    if pos >= cs.len() {
        Seq::empty()
    } else {
        let start = skip_ws(cs, pos);
        if start >= cs.len() {
            Seq::empty()
        } else {
            let (lx, end) = lex_at(cs, start);
            proof {
                lemma_skip_ws_bounds(cs, pos);
                lemma_lex_at_progress(cs, start);
            }
            match lexeme_tok(lx, cs) {
                Some(t) => seq![t] + tokens_from(cs, end),
                None => tokens_from(cs, end),
            }
        }
    }
}

/// Whether the whole of `source` reads as the expression `e`.
pub open spec fn spells(source: Seq<char>, e: Expr) -> bool {
    expr_toks(tokens_from(source, 0), e)
}

/// The tokens read between two points: `before` less what is left `after`.
pub open spec fn consumed(before: Seq<Tok>, after: Seq<Tok>) -> Seq<Tok> {
    before.take(before.len() - after.len())
}

pub proof fn lemma_consumed(c: Seq<Tok>, after: Seq<Tok>)
    ensures
        consumed(c + after, after) == c,
{
    assert((c + after).take(c.len() as int) =~= c);
}

/// A separator between items: `,` or `;`.
pub open spec fn is_sep(t: Tok) -> bool {
    t == tok(Token::Comma) || t == tok(Token::Semicolon)
}

pub open spec fn opens(t: Tok) -> bool {
    t == tok(Token::LParen) || t == tok(Token::LBrack) || t == tok(Token::LBrace)
}

pub open spec fn closes(t: Tok) -> bool {
    t == tok(Token::RParen) || t == tok(Token::RBrack) || t == tok(Token::RBrace)
}

pub open spec fn closer(d: Delim) -> Tok {
    match d {
        Delim::Paren => tok(Token::RParen),
        Delim::Brack => tok(Token::RBrack),
        Delim::Brace => tok(Token::RBrace),
    }
}

/// Tokens skipped up to the closing delimiter of `d`, `level` delimiters
/// deep: only delimiters, and the last one closes `d` at depth zero.
pub open spec fn close_toks(c: Seq<Tok>, d: Delim, level: nat) -> bool
    decreases c.len(),
{
    if c.len() == 0 {
        false
    } else if opens(c[0]) {
        close_toks(c.skip(1), d, if level < usize::MAX { level + 1 } else { level })
    } else if closes(c[0]) {
        if level == 0 {
            c.len() == 1 && c[0] == closer(d)
        } else {
            close_toks(c.skip(1), d, (level - 1) as nat)
        }
    } else {
        false
    }
}

pub open spec fn binop_token<'a>(op: BinOp) -> Token<'a> {
    match op {
        BinOp::Eq => Token::Eq,
        BinOp::Ne => Token::Ne,
        BinOp::Gt => Token::Gt,
        BinOp::Lt => Token::Lt,
        BinOp::Gte => Token::Gte,
        BinOp::Lte => Token::Lte,
        BinOp::PipeR => Token::PipeR,
        BinOp::PipeL => Token::PipeL,
        BinOp::Add => Token::Plus,
        BinOp::Sub => Token::Minus,
        BinOp::Mul => Token::Star,
        BinOp::Div => Token::Slash,
        BinOp::Rem => Token::Percent,
        BinOp::LogImp => Token::SmallRArrow,
        BinOp::Or => Token::Or,
        BinOp::And => Token::And,
    }
}

/// The binary operator a token stands for, if any.
pub open spec fn token_binop(t: Token) -> Option<BinOp> {
    match t {
        Token::Eq => Some(BinOp::Eq),
        Token::Ne => Some(BinOp::Ne),
        Token::Gt => Some(BinOp::Gt),
        Token::Lt => Some(BinOp::Lt),
        Token::Gte => Some(BinOp::Gte),
        Token::Lte => Some(BinOp::Lte),
        Token::PipeR => Some(BinOp::PipeR),
        Token::PipeL => Some(BinOp::PipeL),
        Token::Plus => Some(BinOp::Add),
        Token::Minus => Some(BinOp::Sub),
        Token::Star => Some(BinOp::Mul),
        Token::Slash => Some(BinOp::Div),
        Token::Percent => Some(BinOp::Rem),
        Token::SmallRArrow => Some(BinOp::LogImp),
        Token::Or => Some(BinOp::Or),
        Token::And => Some(BinOp::And),
        _ => None,
    }
}

/// The token of an operator stands for that operator and for no other.
pub proof fn law_operator_tokens(op: BinOp, t: Token)
    ensures
        token_binop(binop_token(op)) == Some(op),
        token_binop(t) == Some(op) ==> t == binop_token(op),
{
}

proof fn lemma_one_token(cs: Seq<char>, t: Token)
    requires
        cs.len() >= 1,
        !is_ws(cs[0]),
        lex_at(cs, 0) == (Lexeme::Plain(t), cs.len()),
        !(t is Eof),
    ensures
        tokens_from(cs, 0) == seq![tok(t)],
{
    assert(skip_ws(cs, 0) == 0);
    assert(tokens_from(cs, cs.len()) == Seq::<Tok>::empty());
    assert(tokens_from(cs, 0) =~= seq![tok(t)]);
}

/// The lexer reads the spelling of each symbol as that symbol's token.
pub proof fn law_symbols_read_back()
    ensures
        tokens_from("("@, 0) == seq![tok(Token::LParen)],
        tokens_from(")"@, 0) == seq![tok(Token::RParen)],
        tokens_from("{"@, 0) == seq![tok(Token::LBrace)],
        tokens_from("}"@, 0) == seq![tok(Token::RBrace)],
        tokens_from("["@, 0) == seq![tok(Token::LBrack)],
        tokens_from("]"@, 0) == seq![tok(Token::RBrack)],
        tokens_from("!"@, 0) == seq![tok(Token::Bang)],
        tokens_from("%"@, 0) == seq![tok(Token::Percent)],
        tokens_from("->"@, 0) == seq![tok(Token::SmallRArrow)],
        tokens_from("=="@, 0) == seq![tok(Token::Eq)],
        tokens_from("!="@, 0) == seq![tok(Token::Ne)],
        tokens_from(">"@, 0) == seq![tok(Token::Gt)],
        tokens_from(">="@, 0) == seq![tok(Token::Gte)],
        tokens_from("<"@, 0) == seq![tok(Token::Lt)],
        tokens_from("<="@, 0) == seq![tok(Token::Lte)],
        tokens_from("="@, 0) == seq![tok(Token::Assign)],
        tokens_from(","@, 0) == seq![tok(Token::Comma)],
        tokens_from(";"@, 0) == seq![tok(Token::Semicolon)],
        tokens_from(":"@, 0) == seq![tok(Token::Colon)],
        tokens_from("::"@, 0) == seq![tok(Token::ColonColon)],
        tokens_from("."@, 0) == seq![tok(Token::Dot)],
        tokens_from(".."@, 0) == seq![tok(Token::DotDot)],
        tokens_from("?"@, 0) == seq![tok(Token::Question)],
        tokens_from("@"@, 0) == seq![tok(Token::At)],
        tokens_from("|>"@, 0) == seq![tok(Token::PipeR)],
        tokens_from("<|"@, 0) == seq![tok(Token::PipeL)],
        tokens_from("|"@, 0) == seq![tok(Token::Bar)],
        tokens_from("+"@, 0) == seq![tok(Token::Plus)],
        tokens_from("-"@, 0) == seq![tok(Token::Minus)],
        tokens_from("*"@, 0) == seq![tok(Token::Star)],
        tokens_from("/"@, 0) == seq![tok(Token::Slash)],
        tokens_from("||"@, 0) == seq![tok(Token::Or)],
        tokens_from("&&"@, 0) == seq![tok(Token::And)],
        tokens_from("$"@, 0) == seq![tok(Token::Dollar)],
{
    reveal_strlit("(");
    lemma_one_token("("@, Token::LParen);
    reveal_strlit(")");
    lemma_one_token(")"@, Token::RParen);
    reveal_strlit("{");
    lemma_one_token("{"@, Token::LBrace);
    reveal_strlit("}");
    lemma_one_token("}"@, Token::RBrace);
    reveal_strlit("[");
    lemma_one_token("["@, Token::LBrack);
    reveal_strlit("]");
    lemma_one_token("]"@, Token::RBrack);
    reveal_strlit("!");
    lemma_one_token("!"@, Token::Bang);
    reveal_strlit("%");
    lemma_one_token("%"@, Token::Percent);
    reveal_strlit("->");
    lemma_one_token("->"@, Token::SmallRArrow);
    reveal_strlit("==");
    lemma_one_token("=="@, Token::Eq);
    reveal_strlit("!=");
    lemma_one_token("!="@, Token::Ne);
    reveal_strlit(">");
    lemma_one_token(">"@, Token::Gt);
    reveal_strlit(">=");
    lemma_one_token(">="@, Token::Gte);
    reveal_strlit("<");
    lemma_one_token("<"@, Token::Lt);
    reveal_strlit("<=");
    lemma_one_token("<="@, Token::Lte);
    reveal_strlit("=");
    lemma_one_token("="@, Token::Assign);
    reveal_strlit(",");
    lemma_one_token(","@, Token::Comma);
    reveal_strlit(";");
    lemma_one_token(";"@, Token::Semicolon);
    reveal_strlit(":");
    lemma_one_token(":"@, Token::Colon);
    reveal_strlit("::");
    lemma_one_token("::"@, Token::ColonColon);
    reveal_strlit(".");
    lemma_one_token("."@, Token::Dot);
    reveal_strlit("..");
    lemma_one_token(".."@, Token::DotDot);
    reveal_strlit("?");
    lemma_one_token("?"@, Token::Question);
    reveal_strlit("@");
    lemma_one_token("@"@, Token::At);
    reveal_strlit("|>");
    lemma_one_token("|>"@, Token::PipeR);
    reveal_strlit("<|");
    lemma_one_token("<|"@, Token::PipeL);
    reveal_strlit("|");
    lemma_one_token("|"@, Token::Bar);
    reveal_strlit("+");
    lemma_one_token("+"@, Token::Plus);
    reveal_strlit("-");
    lemma_one_token("-"@, Token::Minus);
    reveal_strlit("*");
    lemma_one_token("*"@, Token::Star);
    reveal_strlit("/");
    lemma_one_token("/"@, Token::Slash);
    reveal_strlit("||");
    lemma_one_token("||"@, Token::Or);
    reveal_strlit("&&");
    lemma_one_token("&&"@, Token::And);
    reveal_strlit("$");
    lemma_one_token("$"@, Token::Dollar);
}

/// The lexer reads each keyword as its own token, not as a name.
pub proof fn law_keywords_read_back()
    ensures
        tokens_from("if"@, 0) == seq![tok(Token::If)],
        tokens_from("then"@, 0) == seq![tok(Token::Then)],
        tokens_from("else"@, 0) == seq![tok(Token::Else)],
        tokens_from("let"@, 0) == seq![tok(Token::Let)],
        tokens_from("in"@, 0) == seq![tok(Token::In)],
{
    reveal_with_fuel(ident_end, 6);
    reveal_strlit("if");
    assert(ident_end("if"@, 1) == 2);
    assert("if"@.subrange(0, 2) =~= seq!['i', 'f']);
    lemma_one_token("if"@, Token::If);
    reveal_strlit("then");
    assert(ident_end("then"@, 1) == 4);
    assert("then"@.subrange(0, 4) =~= seq!['t', 'h', 'e', 'n']);
    lemma_one_token("then"@, Token::Then);
    reveal_strlit("else");
    assert(ident_end("else"@, 1) == 4);
    assert("else"@.subrange(0, 4) =~= seq!['e', 'l', 's', 'e']);
    lemma_one_token("else"@, Token::Else);
    reveal_strlit("let");
    assert(ident_end("let"@, 1) == 3);
    assert("let"@.subrange(0, 3) =~= seq!['l', 'e', 't']);
    lemma_one_token("let"@, Token::Let);
    reveal_strlit("in");
    assert(ident_end("in"@, 1) == 2);
    assert("in"@.subrange(0, 2) =~= seq!['i', 'n']);
    lemma_one_token("in"@, Token::In);
}

/// The least precedence of an operator in the right operand of `op`.
pub open spec fn rhs_prec(op: BinOp) -> int {
    if spec_associativity(op) == Associativity::Left {
        spec_precedence(op) + 1
    } else {
        spec_precedence(op) as int
    }
}

pub open spec fn unop_token<'a>(op: UnOp) -> Token<'a> {
    match op {
        UnOp::Neg => Token::Minus,
        UnOp::Not => Token::Bang,
    }
}

/// A number literal of one to three tokens.
pub open spec fn num_toks(c: Seq<Tok>, n: Num) -> bool {
    match n {
        Num::Int(v) => c.len() == 1 && (c[0] matches Tok::Num(t) && int_literal_value(t) == Ok::<int, crate::report::parser::IntErrorKind>(v as int)),
        Num::Float(text) => {
            &&& !has_underscore(text@)
            &&& {
                ||| (c.len() == 2 && c[1] == tok(Token::Dot) && (c[0] matches Tok::Num(a) && text@ == a + "."@))
                ||| (c.len() == 3 && c[1] == tok(Token::Dot) && (c[0] matches Tok::Num(a) && (c[2] matches Tok::Num(b) && text@ == a + "."@ + b)))
                ||| (c.len() == 2 && c[0] == tok(Token::Dot) && (c[1] matches Tok::Num(b) && text@ == "."@ + b))
            }
        },
    }
}

/// An expression: operands joined by binary operators.
pub open spec fn expr_toks(c: Seq<Tok>, e: Expr) -> bool
    decreases e, 6nat,
{
    binop_toks(c, e, 0)
}

/// An expression whose operators bind at least as tightly as `min`, as
/// precedence climbing reads it: an operand, or a left operand, an
/// operator and a right operand read with the operator's right precedence.
pub open spec fn binop_toks(c: Seq<Tok>, e: Expr, min: int) -> bool
    decreases e, 5nat,
{
    match e {
        Expr::BinOp { lhs, op, rhs } => {
            &&& spec_precedence(op.0) >= min
            &&& exists|k: int| #![trigger c.take(k)]
                0 <= k < c.len() && c[k] == tok(binop_token(op.0))
                && binop_toks(c.take(k), lhs.0, min)
                && (lhs.0 matches Expr::BinOp { op: lop, .. } ==> spec_precedence(op.0) < rhs_prec(lop.0))
                && binop_toks(c.skip(k + 1), rhs.0, rhs_prec(op.0))
        },
        _ => unop_toks(c, e),
    }
}

pub open spec fn unop_toks(c: Seq<Tok>, e: Expr) -> bool
    decreases e, 4nat,
{
    match e {
        Expr::UnOp { expr, op } => c.len() >= 1 && c[0] == tok(unop_token(op.0)) && unop_toks(c.skip(1), expr.0),
        _ => app_toks(c, e),
    }
}

/// Function applications: a function, then arguments.
pub open spec fn app_toks(c: Seq<Tok>, e: Expr) -> bool
    decreases e, 3nat,
{
    match e {
        Expr::FuncApp { func, arg } => exists|k: int| #![trigger c.take(k)]
            0 <= k <= c.len() && app_toks(c.take(k), func.0) && access_toks(c.skip(k), arg.0),
        _ => access_toks(c, e),
    }
}

/// An operand, maybe followed by `.path`, `.path ? default` or `? path`.
pub open spec fn access_toks(c: Seq<Tok>, e: Expr) -> bool
    decreases e, 2nat,
{
    match e {
        Expr::AccessAttr { expr, path, or } => exists|k: int| #![trigger c.take(k)]
            0 <= k < c.len() && bottom_toks(c.take(k), expr.0) && c[k] == tok(Token::Dot)
            && match or {
                None => path_toks(c.skip(k + 1), path.0),
                Some(o) => exists|m: int| #![trigger c.subrange(k + 1, m)]
                    k + 1 <= m < c.len() && path_toks(c.subrange(k + 1, m), path.0) && c[m] == tok(Token::Question)
                    && expr_toks(c.skip(m + 1), o.0),
            },
        Expr::HasAttr { expr, path } => exists|k: int| #![trigger c.take(k)]
            0 <= k < c.len() && bottom_toks(c.take(k), expr.0) && c[k] == tok(Token::Question)
            && path_toks(c.skip(k + 1), path.0),
        _ => bottom_toks(c, e),
    }
}

/// An operand: a function, a parenthesized expression, a set, a list, a
/// conditional, a `let`, a name, a number or a string.
pub open spec fn bottom_toks(c: Seq<Tok>, e: Expr) -> bool
    decreases e, 1nat,
{
    match e {
        Expr::Lambda(l) => exists|k: int| #![trigger c.take(k)]
            0 <= k < c.len() && pattern_toks(c.take(k), l.arg.0) && c[k] == tok(Token::Colon)
            && expr_toks(c.skip(k + 1), l.body.0),
        Expr::Paren(inner) => c.len() >= 1 && c[0] == tok(Token::LParen) && exists|k: int| #![trigger c.subrange(1, k)]
            1 <= k <= c.len() && expr_toks(c.subrange(1, k), inner.0) && close_toks(c.skip(k), Delim::Paren, 0),
        Expr::AttrSet { attrs } => c.len() >= 1 && c[0] == tok(Token::LBrace) && exists|k: int| #![trigger c.subrange(1, k)]
            1 <= k <= c.len() && attr_items(c.subrange(1, k), attrs@) && close_toks(c.skip(k), Delim::Brace, 0),
        Expr::List { elements } => c.len() >= 1 && c[0] == tok(Token::LBrack) && exists|k: int| #![trigger c.subrange(1, k)]
            1 <= k <= c.len() && list_items(c.subrange(1, k), elements@) && close_toks(c.skip(k), Delim::Brack, 0),
        Expr::IfThenElse { cond, then_expr, else_expr } => c.len() >= 1 && c[0] == tok(Token::If) && exists|k: int| #![trigger c.subrange(1, k)]
            1 <= k < c.len() && expr_toks(c.subrange(1, k), cond.0) && c[k] == tok(Token::Then)
            && exists|m: int| #![trigger c.subrange(k + 1, m)]
                k + 1 <= m < c.len() && expr_toks(c.subrange(k + 1, m), then_expr.0) && c[m] == tok(Token::Else)
                && expr_toks(c.skip(m + 1), else_expr.0),
        Expr::Let { bindings, expr } => c.len() >= 1 && c[0] == tok(Token::Let) && exists|k: int| #![trigger c.subrange(1, k)]
            1 <= k < c.len() && let_items(c.subrange(1, k), bindings@) && c[k] == tok(Token::In)
            && expr_toks(c.skip(k + 1), expr.0),
        Expr::Ident(s) => c == seq![Tok::Ident(s@)],
        Expr::Num(n) => num_toks(c, n),
        Expr::Str(s) => c == seq![Tok::Str(s@)],
        _ => false,
    }
}

/// Attributes of a set, each followed by a separator.
pub open spec fn attrs_sep(c: Seq<Tok>, attrs: Seq<Node<Attr>>) -> bool
    decreases attrs, 0nat,
{
    if attrs.len() == 0 {
        c.len() == 0
    } else {
        exists|k: int| #![trigger c.take(k)]
            0 <= k < c.len() && attrs_sep(c.take(k), attrs.drop_last()) && attr_toks(c.subrange(k, c.len() - 1), attrs.last().0)
            && is_sep(c.last())
    }
}

/// The attributes of a set, separated, the last separator left out or not.
pub open spec fn attr_items(c: Seq<Tok>, attrs: Seq<Node<Attr>>) -> bool
    decreases attrs, 1nat,
{
    ||| attrs_sep(c, attrs)
    ||| attrs.len() > 0 && exists|k: int| #![trigger c.take(k)]
        0 <= k <= c.len() && attrs_sep(c.take(k), attrs.drop_last()) && attr_toks(c.skip(k), attrs.last().0)
}

pub open spec fn attr_toks(c: Seq<Tok>, a: Attr) -> bool
    decreases a, 0nat,
{
    match a.value {
        None => path_toks(c, a.path.0),
        Some(v) => exists|k: int| #![trigger c.take(k)]
            0 <= k < c.len() && path_toks(c.take(k), a.path.0) && c[k] == tok(Token::Assign) && expr_toks(c.skip(k + 1), v.0),
    }
}

/// The parts of a path joined by `.`.
pub open spec fn path_toks(c: Seq<Tok>, path: AttrPath) -> bool
    decreases path, 1nat,
{
    parts_toks(c, path.parts@)
}

pub open spec fn parts_toks(c: Seq<Tok>, parts: Seq<Node<AttrPathPart>>) -> bool
    decreases parts, 0nat,
{
    if parts.len() == 0 {
        false
    } else if parts.len() == 1 {
        part_toks(c, parts[0].0)
    } else {
        exists|k: int| #![trigger c.take(k)]
            0 <= k < c.len() && parts_toks(c.take(k), parts.drop_last()) && c[k] == tok(Token::Dot) && part_toks(c.skip(k + 1), parts.last().0)
    }
}

pub open spec fn part_toks(c: Seq<Tok>, part: AttrPathPart) -> bool
    decreases part, 0nat,
{
    match part {
        AttrPathPart::Ident(s) => c == seq![Tok::Ident(s@)],
        AttrPathPart::Str(s) => c == seq![Tok::Str(s@)],
        AttrPathPart::Num(v) => c.len() == 1 && (c[0] matches Tok::Num(t) && int_literal_value(t) == Ok::<int, crate::report::parser::IntErrorKind>(v as int)),
        AttrPathPart::Expr(e) => c.len() >= 2 && c[0] == tok(Token::Dollar) && c[1] == tok(Token::LBrace)
            && exists|k: int| #![trigger c.subrange(2, k)]
                2 <= k <= c.len() && expr_toks(c.subrange(2, k), e) && close_toks(c.skip(k), Delim::Brace, 0),
    }
}

/// A list element: neither a function nor an application.
pub open spec fn list_elem_toks(c: Seq<Tok>, e: Expr) -> bool
    decreases e, 7nat,
{
    expr_toks(c, e) && !(e is FuncApp) && !(e is Lambda)
}

/// Elements of a list, each followed by `,`.
pub open spec fn elems_sep(c: Seq<Tok>, elements: Seq<Node<Expr>>) -> bool
    decreases elements, 0nat,
{
    if elements.len() == 0 {
        c.len() == 0
    } else {
        exists|k: int| #![trigger c.take(k)]
            0 <= k < c.len() && elems_sep(c.take(k), elements.drop_last()) && list_elem_toks(c.subrange(k, c.len() - 1), elements.last().0)
            && c.last() == tok(Token::Comma)
    }
}

pub open spec fn list_items(c: Seq<Tok>, elements: Seq<Node<Expr>>) -> bool
    decreases elements, 1nat,
{
    ||| elems_sep(c, elements)
    ||| elements.len() > 0 && exists|k: int| #![trigger c.take(k)]
        0 <= k <= c.len() && elems_sep(c.take(k), elements.drop_last()) && list_elem_toks(c.skip(k), elements.last().0)
}

pub open spec fn binding_toks(c: Seq<Tok>, b: LetBinding) -> bool
    decreases b, 0nat,
{
    exists|k: int| #![trigger c.take(k)]
        0 <= k < c.len() && pattern_toks(c.take(k), b.id.0) && c[k] == tok(Token::Assign) && expr_toks(c.skip(k + 1), b.value.0)
}

/// Bindings of a `let`, each followed by a separator.
pub open spec fn lets_sep(c: Seq<Tok>, bindings: Seq<LetBinding>) -> bool
    decreases bindings, 0nat,
{
    if bindings.len() == 0 {
        c.len() == 0
    } else {
        exists|k: int| #![trigger c.take(k)]
            0 <= k < c.len() && lets_sep(c.take(k), bindings.drop_last()) && binding_toks(c.subrange(k, c.len() - 1), bindings.last())
            && is_sep(c.last())
    }
}

pub open spec fn let_items(c: Seq<Tok>, bindings: Seq<LetBinding>) -> bool
    decreases bindings, 1nat,
{
    ||| lets_sep(c, bindings)
    ||| bindings.len() > 0 && exists|k: int| #![trigger c.take(k)]
        0 <= k <= c.len() && lets_sep(c.take(k), bindings.drop_last()) && binding_toks(c.skip(k), bindings.last())
}

/// A pattern: a name, a destructuring (after `@` when named), a type after
/// `::`.
pub open spec fn pattern_toks(c: Seq<Tok>, p: Pattern) -> bool
    decreases p, 2nat,
{
    match p.binding {
        Some(b) => c.len() >= 1 && c[0] == Tok::Ident(b.0@) && exists|k: int| #![trigger c.subrange(1, k)]
            1 <= k <= c.len() && destruct_toks(c.subrange(1, k), p) && pattern_type_toks(c.skip(k), p.ty),
        None => exists|k: int| #![trigger c.take(k)]
            0 <= k <= c.len() && destruct_toks(c.take(k), p) && pattern_type_toks(c.skip(k), p.ty),
    }
}

pub open spec fn destruct_toks(c: Seq<Tok>, p: Pattern) -> bool
    decreases p, 1nat,
{
    match p.destruct {
        None => c.len() == 0 && p.binding is Some,
        Some(d) => if p.binding is Some {
            c.len() >= 1 && c[0] == tok(Token::At) && kind_toks(c.skip(1), d.0)
        } else {
            kind_toks(c, d.0)
        },
    }
}

pub open spec fn pattern_type_toks(c: Seq<Tok>, ty: Option<Node<Type>>) -> bool {
    match ty {
        None => c.len() == 0,
        Some(t) => c.len() >= 1 && c[0] == tok(Token::ColonColon) && type_toks(c.skip(1), t.0),
    }
}

/// A destructuring: `{ fields }` or `[ elements ]`.
pub open spec fn kind_toks(c: Seq<Tok>, d: PatternDestructKind) -> bool
    decreases d, 0nat,
{
    match d {
        PatternDestructKind::AttrSet { fields, strict } => c.len() >= 1 && c[0] == tok(Token::LBrace)
            && exists|k: int| #![trigger c.subrange(1, k)]
                1 <= k <= c.len() && field_items(c.subrange(1, k), fields@, strict) && close_toks(c.skip(k), Delim::Brace, 0),
        PatternDestructKind::List { elements, kind } => c.len() >= 1 && c[0] == tok(Token::LBrack)
            && exists|k: int| #![trigger c.subrange(1, k)]
                1 <= k <= c.len() && pattern_list_items(c.subrange(1, k), elements@, kind) && close_toks(c.skip(k), Delim::Brack, 0),
    }
}

pub open spec fn field_toks(c: Seq<Tok>, f: AttrPattern) -> bool
    decreases f, 0nat,
{
    &&& c.len() >= 1 && c[0] == Tok::Ident(f.attr.0@)
    &&& {
        ||| c.len() >= 2 && c[1] == tok(Token::Assign) && pattern_toks(c.skip(2), f.pattern.0)
        ||| (f.pattern.0.binding matches Some(b) && b.0@ == f.attr.0@) && f.pattern.0.destruct is None && pattern_type_toks(c.skip(1), f.pattern.0.ty)
    }
}

/// Fields of a set pattern, each followed by a separator.
pub open spec fn fields_sep(c: Seq<Tok>, fields: Seq<Node<AttrPattern>>) -> bool
    decreases fields, 0nat,
{
    if fields.len() == 0 {
        c.len() == 0
    } else {
        exists|k: int| #![trigger c.take(k)]
            0 <= k < c.len() && fields_sep(c.take(k), fields.drop_last()) && field_toks(c.subrange(k, c.len() - 1), fields.last().0)
            && is_sep(c.last())
    }
}

/// The fields of a set pattern; a pattern that is not strict ends with
/// `..`, maybe followed by a separator.
pub open spec fn field_items(c: Seq<Tok>, fields: Seq<Node<AttrPattern>>, strict: bool) -> bool
    decreases fields, 1nat,
{
    if strict {
        ||| fields_sep(c, fields)
        ||| fields.len() > 0 && exists|k: int| #![trigger c.take(k)]
            0 <= k <= c.len() && fields_sep(c.take(k), fields.drop_last()) && field_toks(c.skip(k), fields.last().0)
    } else {
        exists|k: int| #![trigger c.take(k)]
            0 <= k < c.len() && fields_sep(c.take(k), fields) && c[k] == tok(Token::DotDot)
            && (c.len() == k + 1 || (c.len() == k + 2 && is_sep(c[k + 1])))
    }
}

/// Elements of a list pattern, each followed by `,`.
pub open spec fn pats_sep(c: Seq<Tok>, elements: Seq<Node<Pattern>>) -> bool
    decreases elements, 0nat,
{
    if elements.len() == 0 {
        c.len() == 0
    } else {
        exists|k: int| #![trigger c.take(k)]
            0 <= k < c.len() && pats_sep(c.take(k), elements.drop_last()) && pattern_toks(c.subrange(k, c.len() - 1), elements.last().0)
            && c.last() == tok(Token::Comma)
    }
}

pub open spec fn pats_items(c: Seq<Tok>, elements: Seq<Node<Pattern>>) -> bool
    decreases elements, 1nat,
{
    ||| pats_sep(c, elements)
    ||| elements.len() > 0 && exists|k: int| #![trigger c.take(k)]
        0 <= k <= c.len() && pats_sep(c.take(k), elements.drop_last()) && pattern_toks(c.skip(k), elements.last().0)
}

/// The elements of a list pattern, with `..` first, last or nowhere.
pub open spec fn pattern_list_items(c: Seq<Tok>, elements: Seq<Node<Pattern>>, kind: PatternListKind) -> bool
    decreases elements, 2nat,
{
    match kind {
        PatternListKind::Strict => pats_items(c, elements),
        PatternListKind::TrailLeft => c.len() >= 1 && c[0] == tok(Token::DotDot)
            && (c.len() == 1 || (c[1] == tok(Token::Comma) && pats_items(c.skip(2), elements))),
        PatternListKind::TrailRight => elements.len() > 0 && exists|k: int| #![trigger c.take(k)]
            0 <= k < c.len() && pats_sep(c.take(k), elements) && c[k] == tok(Token::DotDot)
            && (c.len() == k + 1 || (c.len() == k + 2 && c[k + 1] == tok(Token::Comma))),
    }
}

/// A type: union types joined by `->`, to the right.
pub open spec fn type_toks(c: Seq<Tok>, t: Type) -> bool
    decreases c.len(), t, 2nat,
{
    ||| union_toks(c, t)
    ||| (t matches Type::Lambda { arg, ret } && exists|k: int| #![trigger c.take(k)]
        0 <= k < c.len() && union_toks(c.take(k), arg.0) && c[k] == tok(Token::SmallRArrow) && type_toks(c.skip(k + 1), ret.0))
}

pub open spec fn union_toks(c: Seq<Tok>, t: Type) -> bool
    decreases c.len(), t, 1nat,
{
    ||| atom_toks(c, t)
    ||| (t matches Type::Union(vs) && vs.len() >= 2 && bars_toks(c, vs@))
}

/// Variants of a union joined by `|`.
pub open spec fn bars_toks(c: Seq<Tok>, vs: Seq<Node<Type>>) -> bool
    decreases c.len(), vs, 0nat,
{
    if vs.len() == 0 {
        false
    } else if vs.len() == 1 {
        atom_toks(c, vs[0].0)
    } else {
        exists|k: int| #![trigger c.take(k)]
            0 <= k < c.len() && bars_toks(c.take(k), vs.drop_last()) && c[k] == tok(Token::Bar) && atom_toks(c.skip(k + 1), vs.last().0)
    }
}

/// A type in parentheses, a list or tuple type, a set type, or a name.
pub open spec fn atom_toks(c: Seq<Tok>, t: Type) -> bool
    decreases c.len(), t, 0nat,
{
    ||| c.len() >= 1 && c[0] == tok(Token::LParen) && exists|k: int| #![trigger c.subrange(1, k)]
        1 <= k <= c.len() && type_toks(c.subrange(1, k), t) && close_toks(c.skip(k), Delim::Paren, 0)
    ||| c.len() >= 1 && c[0] == tok(Token::LBrack) && match t {
        Type::List(inner) => exists|k: int| #![trigger c.subrange(1, k)]
            1 <= k <= c.len() && type_toks(c.subrange(1, k), inner.0) && close_toks(c.skip(k), Delim::Brack, 0),
        Type::Tuple(els) => els.len() >= 1 && exists|k: int| #![trigger c.subrange(1, k)]
            1 <= k <= c.len() && tuple_toks(c.subrange(1, k), els@) && close_toks(c.skip(k), Delim::Brack, 0),
        _ => false,
    }
    ||| c.len() >= 1 && c[0] == tok(Token::LBrace) && match t {
        Type::AttrSet { name: None, fields } => exists|k: int| #![trigger c.subrange(1, k)]
            1 <= k <= c.len() && tfield_items(c.subrange(1, k), fields@) && close_toks(c.skip(k), Delim::Brace, 0),
        _ => false,
    }
    ||| match t {
        Type::Named(name) => c == seq![Tok::Ident(name.0@)],
        Type::AttrSet { name: Some(name), fields } => c.len() >= 2 && c[0] == Tok::Ident(name.0@) && c[1] == tok(Token::LBrace)
            && exists|k: int| #![trigger c.subrange(2, k)]
                2 <= k <= c.len() && tfield_items(c.subrange(2, k), fields@) && close_toks(c.skip(k), Delim::Brace, 0),
        _ => false,
    }
}

/// The elements of a tuple type after `[`: the first, `,`, then the others
/// separated by `,`, a last `,` or not.
pub open spec fn tuple_toks(c: Seq<Tok>, els: Seq<Node<Type>>) -> bool
    decreases c.len(), els, 2nat,
{
    els.len() >= 1 && exists|k: int| #![trigger c.take(k)]
        0 <= k < c.len() && type_toks(c.take(k), els[0].0) && c[k] == tok(Token::Comma) && tuple_rest(c.skip(k + 1), els.skip(1))
}

/// Types each followed by `,`.
pub open spec fn types_sep(c: Seq<Tok>, els: Seq<Node<Type>>) -> bool
    decreases c.len(), els, 0nat,
{
    if els.len() == 0 {
        c.len() == 0
    } else {
        exists|k: int| #![trigger c.take(k)]
            0 <= k < c.len() && types_sep(c.take(k), els.drop_last()) && type_toks(c.subrange(k, c.len() - 1), els.last().0)
            && c.last() == tok(Token::Comma)
    }
}

pub open spec fn tuple_rest(c: Seq<Tok>, els: Seq<Node<Type>>) -> bool
    decreases c.len(), els, 1nat,
{
    ||| types_sep(c, els)
    ||| els.len() > 0 && exists|k: int| #![trigger c.take(k)]
        0 <= k <= c.len() && types_sep(c.take(k), els.drop_last()) && type_toks(c.skip(k), els.last().0)
}

pub open spec fn tfield_toks(c: Seq<Tok>, f: TypeAttr) -> bool
    decreases c.len(), f, 0nat,
{
    c.len() >= 2 && c[0] == Tok::Ident(f.name.0@) && c[1] == tok(Token::ColonColon) && type_toks(c.skip(2), f.ty.0)
}

/// Fields of a set type, each followed by `,`.
pub open spec fn tfields_sep(c: Seq<Tok>, fields: Seq<Node<TypeAttr>>) -> bool
    decreases c.len(), fields, 0nat,
{
    if fields.len() == 0 {
        c.len() == 0
    } else {
        exists|k: int| #![trigger c.take(k)]
            0 <= k < c.len() && tfields_sep(c.take(k), fields.drop_last()) && tfield_toks(c.subrange(k, c.len() - 1), fields.last().0)
            && c.last() == tok(Token::Comma)
    }
}

pub open spec fn tfield_items(c: Seq<Tok>, fields: Seq<Node<TypeAttr>>) -> bool
    decreases c.len(), fields, 1nat,
{
    ||| tfields_sep(c, fields)
    ||| fields.len() > 0 && exists|k: int| #![trigger c.take(k)]
        0 <= k <= c.len() && tfields_sep(c.take(k), fields.drop_last()) && tfield_toks(c.skip(k), fields.last().0)
}

/// An operand read at one level of precedence is one at every looser level.
pub proof fn lemma_bottom_access(c: Seq<Tok>, e: Expr)
    requires
        bottom_toks(c, e),
    ensures
        access_toks(c, e),
{
    match e {
        Expr::AccessAttr { .. } | Expr::HasAttr { .. } => {},
        _ => {},
    }
}

pub proof fn lemma_access_app(c: Seq<Tok>, e: Expr)
    requires
        access_toks(c, e),
    ensures
        app_toks(c, e),
{
    if e is FuncApp {
        assert(!bottom_toks(c, e));
    }
}

pub proof fn lemma_app_unop(c: Seq<Tok>, e: Expr)
    requires
        app_toks(c, e),
    ensures
        unop_toks(c, e),
{
    if e is UnOp {
        assert(!bottom_toks(c, e));
        assert(!access_toks(c, e));
    }
}

pub proof fn lemma_unop_binop(c: Seq<Tok>, e: Expr, min: int)
    requires
        unop_toks(c, e),
    ensures
        binop_toks(c, e, min),
        !(e is BinOp),
{
    if e is BinOp {
        assert(!bottom_toks(c, e));
        assert(!access_toks(c, e));
        assert(!app_toks(c, e));
    }
}

/// `if c then a else b` read from its parts.
pub proof fn lemma_if_toks(c1: Seq<Tok>, c2: Seq<Tok>, c3: Seq<Tok>, e: Expr)
    requires
        e matches Expr::IfThenElse { cond, then_expr, else_expr } && expr_toks(c1, cond.0) && expr_toks(c2, then_expr.0)
            && expr_toks(c3, else_expr.0),
    ensures
        bottom_toks(seq![tok(Token::If)] + c1 + seq![tok(Token::Then)] + c2 + seq![tok(Token::Else)] + c3, e),
{
    let c = seq![tok(Token::If)] + c1 + seq![tok(Token::Then)] + c2 + seq![tok(Token::Else)] + c3;
    let k: int = 1 + c1.len() as int;
    let m: int = k + 1 + c2.len() as int;
    assert(c.subrange(1, k) =~= c1);
    assert(c[k] == tok(Token::Then));
    assert(c.subrange(k + 1, m) =~= c2);
    assert(c[m] == tok(Token::Else));
    assert(c.skip(m + 1) =~= c3);
}

/// A pattern read from its name, its destructuring and its type.
pub proof fn lemma_pattern_toks(b: Seq<Tok>, d: Seq<Tok>, t: Seq<Tok>, p: Pattern)
    requires
        p.binding matches Some(n) ==> b == seq![Tok::Ident(n.0@)],
        p.binding is None ==> b.len() == 0,
        destruct_toks(d, p),
        pattern_type_toks(t, p.ty),
    ensures
        pattern_toks(b + d + t, p),
{
    let c = b + d + t;
    if p.binding is Some {
        let k: int = 1 + d.len() as int;
        assert(c.subrange(1, k) =~= d);
        assert(c.skip(k) =~= t);
    } else {
        let k: int = d.len() as int;
        assert(c.take(k) =~= d);
        assert(c.skip(k) =~= t);
    }
}

/// No token of `ts` is text that is no token.
#[verifier::opaque]
pub open spec fn no_bad(ts: Seq<Tok>) -> bool {
    !ts.contains(Tok::Bad)
}

/// A token of a binary operator.
pub open spec fn op_tok(t: Tok) -> bool {
    exists|op: BinOp| t == tok(binop_token(op))
}

/// A name, a string, or an integer literal that fits in an `i64`.
pub open spec fn atom_tok(t: Tok) -> bool {
    ||| t is Ident
    ||| t is Str
    ||| (t matches Tok::Num(s) && int_literal_value(s) is Ok)
}

/// `-` or `!` in front of an operand.
pub open spec fn prefix_tok(t: Tok) -> bool {
    t == tok(Token::Minus) || t == tok(Token::Bang)
}

/// Whether `t` starts an operand without signs: an atom, `(`, `if` or
/// `let`.
pub open spec fn starts_operand(t: Tok) -> bool {
    atom_tok(t) || t == tok(Token::LParen) || t == tok(Token::If) || t == tok(Token::Let)
}

/// Whether `t` closes the group that waits on `c`: `c` itself, or, for the
/// value of a `let` binding (which waits on `in`), also `;` or `,`.
pub open spec fn closes_group(t: Tok, c: Tok) -> bool {
    t == c || (c == tok(Token::In) && (t == tok(Token::Semicolon) || t == tok(Token::Comma)))
}

/// After `let` or after the separator of a binding: `in` and the body, which
/// reaches as far as it can, or a binding `name = value`.
pub open spec fn let_rest(ts: Seq<Tok>, closers: Seq<Tok>) -> bool
    decreases ts.len(), 2nat,
{
    if ts.len() == 0 {
        false
    } else if ts[0] == tok(Token::In) {
        operand_chain(ts.skip(1), closers)
    } else if ts.len() >= 2 && ts[0] is Ident && ts[1] == tok(Token::ColonColon) {
        type_chain(ts.skip(2), Seq::empty(), Token::Assign, closers.push(tok(Token::In)))
    } else {
        ts.len() >= 2 && ts[0] is Ident && ts[1] == tok(Token::Assign) && operand_chain(ts.skip(2), closers.push(tok(Token::In)))
    }
}

/// A type, inside the type groups whose closing tokens (`)`, `]`, `}`) wait
/// on `groups`, innermost last; outside them the type ends at `term`, after
/// which comes an operand chain inside the expression groups `closers`. A
/// type is names, list or tuple types `[..]`, set types `{ a :: A, .. }`
/// (named or not) and types in parentheses, joined by `|` and `->`.
pub open spec fn type_chain(ts: Seq<Tok>, groups: Seq<Tok>, term: Token, closers: Seq<Tok>) -> bool
    decreases ts.len(), 1nat,
{
    if ts.len() == 0 {
        false
    } else if ts[0] is Ident {
        if ts.len() >= 2 && ts[1] == tok(Token::LBrace) {
            fields_rest(ts.skip(2), groups.push(tok(Token::RBrace)), term, closers)
        } else {
            after_type(ts.skip(1), groups, term, closers)
        }
    } else if ts[0] == tok(Token::LBrack) {
        type_chain(ts.skip(1), groups.push(tok(Token::RBrack)), term, closers)
    } else if ts[0] == tok(Token::LBrace) {
        fields_rest(ts.skip(1), groups.push(tok(Token::RBrace)), term, closers)
    } else if ts[0] == tok(Token::LParen) {
        type_chain(ts.skip(1), groups.push(tok(Token::RParen)), term, closers)
    } else {
        false
    }
}

/// What may follow a type atom: `|` or `->` and another type, the closing
/// token of the innermost type group (or `,` before the next element or
/// field), or, outside all type groups, `term` and the operand chain.
pub open spec fn after_type(ts: Seq<Tok>, groups: Seq<Tok>, term: Token, closers: Seq<Tok>) -> bool
    decreases ts.len(), 0nat,
{
    if ts.len() == 0 {
        false
    } else if ts[0] == tok(Token::Bar) || ts[0] == tok(Token::SmallRArrow) {
        type_chain(ts.skip(1), groups, term, closers)
    } else if groups.len() == 0 {
        ts[0] == tok(term) && operand_chain(ts.skip(1), closers)
    } else if (ts[0] == tok(Token::RParen) || ts[0] == tok(Token::RBrack) || ts[0] == tok(Token::RBrace)) && ts[0] == groups.last() {
        after_type(ts.skip(1), groups.drop_last(), term, closers)
    } else if ts[0] == tok(Token::Comma) && groups.last() == tok(Token::RBrack) {
        bracket_rest(ts.skip(1), groups, term, closers)
    } else if ts[0] == tok(Token::Comma) && groups.last() == tok(Token::RBrace) {
        fields_rest(ts.skip(1), groups, term, closers)
    } else {
        false
    }
}

/// After a `,` in a tuple type: `]`, or the next element.
pub open spec fn bracket_rest(ts: Seq<Tok>, groups: Seq<Tok>, term: Token, closers: Seq<Tok>) -> bool
    decreases ts.len(), 2nat,
{
    if ts.len() >= 1 && ts[0] == tok(Token::RBrack) {
        groups.len() > 0 && after_type(ts.skip(1), groups.drop_last(), term, closers)
    } else {
        type_chain(ts, groups, term, closers)
    }
}

/// After `{` or a `,` in a set type: `}`, or the next field `name :: type`.
pub open spec fn fields_rest(ts: Seq<Tok>, groups: Seq<Tok>, term: Token, closers: Seq<Tok>) -> bool
    decreases ts.len(), 2nat,
{
    if ts.len() >= 1 && ts[0] == tok(Token::RBrace) {
        groups.len() > 0 && after_type(ts.skip(1), groups.drop_last(), term, closers)
    } else {
        ts.len() >= 2 && ts[0] is Ident && ts[1] == tok(Token::ColonColon) && type_chain(ts.skip(2), groups, term, closers)
    }
}

/// A name, `::` and a type, followed by what `term` and `closers` allow.
#[verifier::opaque]
pub open spec fn typed_name(ts: Seq<Tok>, term: Token, closers: Seq<Tok>) -> bool {
    ts.len() >= 2 && ts[0] is Ident && ts[1] == tok(Token::ColonColon) && type_rest(ts.skip(1), term, closers)
}

/// `::` and a type, followed by what `term` and `closers` allow.
#[verifier::opaque]
pub open spec fn type_rest(ts: Seq<Tok>, term: Token, closers: Seq<Tok>) -> bool {
    ts.len() >= 1 && ts[0] == tok(Token::ColonColon) && type_chain(ts.skip(1), Seq::empty(), term, closers)
}

/// What follows a whole type of a pattern: `term`, then the operand chain.
#[verifier::opaque]
pub open spec fn after_typed(ts: Seq<Tok>, term: Token, closers: Seq<Tok>) -> bool {
    type_end(ts, Seq::empty(), term, closers)
}

/// What follows a whole type.
pub open spec fn type_end(ts: Seq<Tok>, groups: Seq<Tok>, term: Token, closers: Seq<Tok>) -> bool {
    after_type(ts, groups, term, closers) && !(ts.len() >= 1 && (ts[0] == tok(Token::Bar) || ts[0] == tok(Token::SmallRArrow)))
}

/// What may follow an atom of an operand, inside the groups whose closing
/// tokens (`)`, `then`, `else`, `in`) wait on `closers`, innermost last: more
/// operands (the arguments of an application; a name followed by `:` starts
/// a function, whose body reaches as far as it can), a binary operator and
/// another operand, the closing token of the innermost group, or, outside
/// all groups, the end. After `)` the group is an operand; after `then`
/// comes the branch closed by `else`; after `else` the last branch, which
/// ends with the group around the conditional; after the `;` or `,` of a
/// binding come more bindings, and after `in` the body of the `let`.
pub open spec fn after_atom(ts: Seq<Tok>, closers: Seq<Tok>) -> bool
    decreases ts.len(), 0nat,
{
    if ts.len() == 0 {
        closers.len() == 0
    } else if ts.len() >= 2 && ts[0] is Ident && ts[1] == tok(Token::Colon) {
        operand_chain(ts.skip(2), closers)
    } else if ts.len() >= 2 && ts[0] is Ident && ts[1] == tok(Token::ColonColon) {
        type_chain(ts.skip(2), Seq::empty(), Token::Colon, closers)
    } else if atom_tok(ts[0]) {
        after_atom(ts.skip(1), closers)
    } else if ts[0] == tok(Token::LParen) {
        operand_chain(ts.skip(1), closers.push(tok(Token::RParen)))
    } else if ts[0] == tok(Token::If) {
        operand_chain(ts.skip(1), closers.push(tok(Token::Then)))
    } else if ts[0] == tok(Token::Let) {
        let_rest(ts.skip(1), closers)
    } else if closers.len() > 0 && closes_group(ts[0], closers.last()) {
        if ts[0] == tok(Token::RParen) {
            after_atom(ts.skip(1), closers.drop_last())
        } else if ts[0] == tok(Token::Then) {
            operand_chain(ts.skip(1), closers.drop_last().push(tok(Token::Else)))
        } else if ts[0] == tok(Token::Else) || ts[0] == tok(Token::In) {
            operand_chain(ts.skip(1), closers.drop_last())
        } else if ts[0] == tok(Token::Semicolon) || ts[0] == tok(Token::Comma) {
            let_rest(ts.skip(1), closers.drop_last())
        } else {
            false
        }
    } else {
        op_tok(ts[0]) && operand_chain(ts.skip(1), closers)
    }
}

/// Operands joined by binary operators, inside the groups of `closers`,
/// where an operand is `-` and `!` signs, then an atom, an operand chain in
/// parentheses, a conditional, a `let` of names or a function of a name,
/// applied to further
/// such: `a`, `f x (1 + y) * -g "s"`, `!(a || b) == if c then 1 else 2`,
/// `(x: x + 1) 2`, `let x = 1; y = x in f y`, ...
pub open spec fn operand_chain(ts: Seq<Tok>, closers: Seq<Tok>) -> bool
    decreases ts.len(), 1nat,
{
    if ts.len() == 0 {
        false
    } else if prefix_tok(ts[0]) {
        operand_chain(ts.skip(1), closers)
    } else {
        starts_operand(ts[0]) && after_atom(ts, closers)
    }
}

/// The start of an operand without signs.
pub open spec fn operand_start(ts: Seq<Tok>, closers: Seq<Tok>) -> bool {
    ts.len() >= 1 && starts_operand(ts[0]) && after_atom(ts, closers)
}

/// What follows a whole operand: the end, a binary operator and an
/// operand, or the closing token of the innermost group.
pub open spec fn after_operand(ts: Seq<Tok>, closers: Seq<Tok>) -> bool {
    after_atom(ts, closers) && !(ts.len() >= 1 && starts_operand(ts[0]))
}

/// A chain of operands holds no bad token.
pub proof fn lemma_chain_clean(ts: Seq<Tok>, closers: Seq<Tok>)
    ensures
        operand_chain(ts, closers) ==> no_bad(ts),
        after_atom(ts, closers) ==> no_bad(ts),
        let_rest(ts, closers) ==> no_bad(ts),
    decreases ts.len(),
{
    reveal(no_bad);
    if ts.len() > 0 {
        let rest = ts.skip(1);
        lemma_chain_clean(rest, closers);
        if ts.len() >= 2 {
            lemma_chain_clean(ts.skip(2), closers);
            lemma_chain_clean(ts.skip(2), closers.push(tok(Token::In)));
            lemma_type_clean(ts.skip(2), Seq::empty(), Token::Colon, closers);
            lemma_type_clean(ts.skip(2), Seq::empty(), Token::Assign, closers.push(tok(Token::In)));
        }
        lemma_chain_clean(rest, closers.push(tok(Token::RParen)));
        lemma_chain_clean(rest, closers.push(tok(Token::Then)));
        if closers.len() > 0 {
            lemma_chain_clean(rest, closers.drop_last());
            lemma_chain_clean(rest, closers.drop_last().push(tok(Token::Else)));
        }
        if op_tok(ts[0]) {
            let op = choose|op: BinOp| ts[0] == tok(binop_token(op));
        }
        if operand_chain(ts, closers) && !prefix_tok(ts[0]) {
            assert(after_atom(ts, closers));
        }
        if operand_chain(ts, closers) || after_atom(ts, closers) || let_rest(ts, closers) {
            assert(ts[0] != Tok::Bad);
            assert forall|i: int| 0 <= i < ts.len() implies ts[i] != Tok::Bad by {
                if i >= 1 {
                    assert(rest[i - 1] == ts[i]);
                }
                if i >= 2 {
                    assert(ts.skip(2)[i - 2] == ts[i]);
                }
            }
        }
    }
}

/// A type followed by its operand chain holds no bad token.
pub proof fn lemma_type_clean(ts: Seq<Tok>, groups: Seq<Tok>, term: Token, closers: Seq<Tok>)
    ensures
        type_chain(ts, groups, term, closers) ==> no_bad(ts),
        after_type(ts, groups, term, closers) ==> no_bad(ts),
        bracket_rest(ts, groups, term, closers) ==> no_bad(ts),
        fields_rest(ts, groups, term, closers) ==> no_bad(ts),
    decreases ts.len(),
{
    reveal(no_bad);
    if ts.len() > 0 {
        let rest = ts.skip(1);
        lemma_chain_clean(rest, closers);
        lemma_type_clean(rest, groups, term, closers);
        lemma_type_clean(rest, groups.push(tok(Token::RBrack)), term, closers);
        lemma_type_clean(rest, groups.push(tok(Token::RBrace)), term, closers);
        lemma_type_clean(rest, groups.push(tok(Token::RParen)), term, closers);
        if groups.len() > 0 {
            lemma_type_clean(rest, groups.drop_last(), term, closers);
        }
        if ts.len() >= 2 {
            lemma_type_clean(ts.skip(2), groups, term, closers);
            lemma_type_clean(ts.skip(2), groups.push(tok(Token::RBrace)), term, closers);
        }
        if bracket_rest(ts, groups, term, closers) && ts[0] != tok(Token::RBrack) {
            assert(type_chain(ts, groups, term, closers));
        }
        if type_chain(ts, groups, term, closers) || after_type(ts, groups, term, closers) || bracket_rest(ts, groups, term, closers)
            || fields_rest(ts, groups, term, closers) {
            assert forall|i: int| 0 <= i < ts.len() implies ts[i] != Tok::Bad by {
                if i >= 1 {
                    assert(rest[i - 1] == ts[i]);
                }
                if i >= 2 {
                    assert(ts.skip(2)[i - 2] == ts[i]);
                }
            }
        }
    }
}

/// Two tokens that are not bad, then tokens without a bad one.
pub proof fn lemma_no_bad_cons2(ts: Seq<Tok>)
    requires
        ts.len() >= 2,
        ts[0] != Tok::Bad,
        ts[1] != Tok::Bad,
        no_bad(ts.skip(2)),
    ensures
        no_bad(ts),
{
    reveal(no_bad);
    if ts.contains(Tok::Bad) {
        let i = choose|i: int| 0 <= i < ts.len() && ts[i] == Tok::Bad;
        assert(ts.skip(2)[i - 2] == ts[i]);
    }
}

/// What is left of a sequence without bad tokens has none either.
pub proof fn lemma_no_bad_skip(ts: Seq<Tok>, k: int)
    requires
        no_bad(ts),
        0 <= k <= ts.len(),
    ensures
        no_bad(ts.skip(k)),
{
    reveal(no_bad);
    if ts.skip(k).contains(Tok::Bad) {
        let i = choose|i: int| 0 <= i < ts.skip(k).len() && ts.skip(k)[i] == Tok::Bad;
        assert(ts[i + k] == Tok::Bad);
    }
}

/// The tokens of the signs are `-` and `!`.
pub proof fn lemma_prefix_token(t: Token)
    ensures
        prefix_tok(tok(t)) <==> (t is Minus || t is Bang),
{
}

/// The token of an operator starts no operand and no access, and is not
/// the end.
pub proof fn lemma_op_token(x: Tok, t: Token)
    requires
        op_tok(x),
        tok(t) == x,
    ensures
        token_binop(t) is Some,
        !spec_start_fn_arg(t),
        !(t is Colon || t is Dot || t is Question || t is At || t is ColonColon || t is Eof),
{
    let op = choose|op: BinOp| x == tok(binop_token(op));
    assert(t == binop_token(op));
}

} // verus!
