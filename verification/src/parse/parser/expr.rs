use vstd::prelude::*;
use vstd::string::*;

use super::token::spec_start_fn_arg;
use super::{Delim, Parser};
use crate::parse::grammar::{
    access_toks, app_toks, attr_items, attr_toks, binop_toks, bottom_toks, close_toks, expr_toks, let_items, list_items,
    attrs_sep, elems_sep, lemma_if_toks, lets_sep, lemma_access_app, lemma_app_unop, lemma_bottom_access, lemma_unop_binop, part_toks, parts_toks, path_toks,
    rhs_prec, tok, token_binop, unop_toks, Tok, after_atom, after_operand, atom_tok, lemma_chain_clean, lemma_op_token,
    let_rest, lemma_no_bad_skip, lemma_type_clean, type_chain, type_rest, typed_name, after_typed, lemma_prefix_token, no_bad, op_tok, operand_chain, operand_start, starts_operand,
};
use crate::files::Node;
use crate::lex::Token;
use crate::parse::ast::{self, spec_precedence, BinOp, UnOp};
use crate::parse::number::{float_literal_ok, int_literal_value, parse_int_literal};
use crate::report::parser::{
    int_error_view, FloatError, FloatErrorKind, FuncAppInListError, FuncDefInListError, IntError,
    UnexpectedTokenAttrPathError, UnexpectedTokenExprError,
};
use crate::text::push_str;

verus! {

/// The binary operator a token stands for, if any.
fn binop_for(t: Token) -> (r: Option<BinOp>)
    ensures
        r is Some ==> !(t is Eof),
        r == token_binop(t),
{
    match t {
        Token::Eq => Some(BinOp::Eq),
        Token::Ne => Some(BinOp::Ne),
        Token::Gt => Some(BinOp::Gt),
        Token::Lt => Some(BinOp::Lt),
        Token::Gte => Some(BinOp::Gte),
        Token::Lte => Some(BinOp::Lte),
        Token::PipeR => Some(BinOp::PipeR),
        Token::PipeL => Some(BinOp::PipeL),
        Token::Plus => Some(BinOp::Add),
        Token::Minus => Some(BinOp::Sub),
        Token::Star => Some(BinOp::Mul),
        Token::Slash => Some(BinOp::Div),
        Token::Percent => Some(BinOp::Rem),
        Token::SmallRArrow => Some(BinOp::LogImp),
        Token::Or => Some(BinOp::Or),
        Token::And => Some(BinOp::And),
        _ => None,
    }
}

impl<'a> Parser<'a> {
    /// After an atom, only an atom, a `(`, a `)`, an operator or the end
    /// can come.
    proof fn lemma_follow(ts: Seq<Tok>, closers: Seq<Tok>, t: Token)
        requires
            after_atom(ts, closers),
            ts.len() >= 1,
            ts[0] == tok(t),
        ensures
            !(t is Colon || t is Dot || t is Question || t is At || t is ColonColon || t is Eof),
            spec_start_fn_arg(t) ==> operand_start(ts, closers),
            !spec_start_fn_arg(t) ==> after_operand(ts, closers),
    {
        if !starts_operand(ts[0]) && ts[0] != tok(Token::RParen) && ts[0] != tok(Token::Then) && ts[0] != tok(Token::Else)
            && ts[0] != tok(Token::In) && ts[0] != tok(Token::Semicolon) && ts[0] != tok(Token::Comma) {
            lemma_op_token(ts[0], t);
        }
    }

    /// At a binding of a `let`: its name, then `=`.
    proof fn lemma_binding_ahead(p: Self, closers: Seq<Tok>)
        requires
            p.wf(),
            let_rest(p.rest(), closers),
            !(p.curr.0 is In),
        ensures
            p.curr.0 is Ident,
            p.rest().len() >= 2,
            p.rest()[1] == tok(Token::Assign) && operand_chain(p.rest().skip(2), closers.push(tok(Token::In)))
                || p.rest()[1] == tok(Token::ColonColon) && type_chain(p.rest().skip(2), Seq::empty(), Token::Assign, closers.push(tok(Token::In))),
            no_bad(p.rest()),
    {
        lemma_chain_clean(p.rest(), closers);
        assert(p.rest()[0] == tok(p.curr.0));
    }

    /// When the value of a binding ends and no operator follows, `in`, `;`
    /// or `,` comes next.
    proof fn lemma_value_end(p: Self, closers: Seq<Tok>)
        requires
            p.wf(),
            after_operand(p.rest(), closers.push(tok(Token::In))),
            token_binop(p.curr.0) is None,
        ensures
            !(p.curr.0 is Eof),
            p.rest()[0] == tok(p.curr.0),
            p.curr.0 is In || p.curr.0 is Semicolon || p.curr.0 is Comma,
            no_bad(p.rest()),
            p.curr.0 is In ==> let_rest(p.rest(), closers),
            !(p.curr.0 is In) ==> let_rest(p.rest().skip(1), closers),
    {
        lemma_chain_clean(p.rest(), closers.push(tok(Token::In)));
        assert(closers.push(tok(Token::In)).drop_last() =~= closers);
        if !(p.curr.0 is Eof) {
            assert(p.rest()[0] == tok(p.curr.0));
            if op_tok(p.rest()[0]) {
                lemma_op_token(p.rest()[0], p.curr.0);
            }
        }
    }

    /// When an operand chain inside a group ends and no operator follows,
    /// the group's closing token comes next.
    proof fn lemma_closer_ahead(p: Self, closers: Seq<Tok>, c: Tok)
        requires
            p.wf(),
            after_operand(p.rest(), closers.push(c)),
            token_binop(p.curr.0) is None,
            c == tok(Token::RParen) || c == tok(Token::Then) || c == tok(Token::Else),
        ensures
            !(p.curr.0 is Eof),
            p.rest()[0] == c,
            tok(p.curr.0) == c,
            no_bad(p.rest()),
    {
        lemma_chain_clean(p.rest(), closers.push(c));
        assert(c != tok(Token::In));
        if !(p.curr.0 is Eof) {
            assert(p.rest()[0] == tok(p.curr.0));
            if op_tok(p.rest()[0]) {
                lemma_op_token(p.rest()[0], p.curr.0);
            }
        }
    }

    /// What the parser sees after the atom of an operand.
    proof fn lemma_after_atom(p: Self, closers: Seq<Tok>)
        requires
            p.wf(),
            after_atom(p.rest(), closers),
        ensures
            spec_start_fn_arg(p.curr.0) ==> operand_start(p.rest(), closers),
            !spec_start_fn_arg(p.curr.0) ==> after_operand(p.rest(), closers),
            !(p.curr.0 is Dot || p.curr.0 is Question),
    {
        if !(p.curr.0 is Eof) {
            assert(p.rest()[0] == tok(p.curr.0));
            Self::lemma_follow(p.rest(), closers, p.curr.0);
        }
    }

    /// At the start of an operand: what the current token is, and that no
    /// bad token is left.
    proof fn lemma_start_ahead(p: Self, closers: Seq<Tok>)
        requires
            p.wf(),
            operand_start(p.rest(), closers),
        ensures
            !(p.curr.0 is Eof),
            p.rest()[0] == tok(p.curr.0),
            p.curr.0 is Ident || p.curr.0 is Num || p.curr.0 is String || p.curr.0 is LParen || p.curr.0 is If || p.curr.0 is Let,
            no_bad(p.rest()),
            atom_tok(p.rest()[0]) && p.rest().len() >= 2 && !(p.rest()[0] is Ident && (p.rest()[1] == tok(Token::Colon) || p.rest()[1] == tok(Token::ColonColon)))
                ==> p.rest()[1] != tok(Token::At) && p.rest()[1] != tok(Token::ColonColon) && p.rest()[1] != tok(Token::Colon),
    {
        let ts = p.rest();
        lemma_chain_clean(ts, closers);
        if atom_tok(ts[0]) && ts.len() >= 2 && !(ts[0] is Ident && (ts[1] == tok(Token::Colon) || ts[1] == tok(Token::ColonColon))) {
            assert(ts.skip(1)[0] == ts[1]);
            if ts[1] == tok(Token::At) {
                Self::lemma_follow(ts.skip(1), closers, Token::At);
            }
            if ts[1] == tok(Token::ColonColon) {
                Self::lemma_follow(ts.skip(1), closers, Token::ColonColon);
            }
            if ts[1] == tok(Token::Colon) {
                Self::lemma_follow(ts.skip(1), closers, Token::Colon);
            }
        }
    }

    pub(super) fn parse_expr(&mut self, Ghost(closers): Ghost<Seq<Tok>>) -> (r: Node<ast::Expr<'a>>)
        requires
            old(self).wf(),
        ensures
            final(self).advanced(*old(self)),
            r.1.fid == old(self).fid,
            final(self).clean() ==> final(self).splits(*old(self)) && expr_toks(final(self).read(*old(self)), r.0),
            old(self).clean() && operand_chain(old(self).rest(), closers) ==> final(self).clean() && after_operand(final(self).rest(), closers),
            token_binop(final(self).curr.0) is None,
        decreases old(self).remaining(), 21nat,
    {
        self.parse_expr_binop(0, Ghost(closers))
    }

    /// Reads operands joined by binary operators that bind at least as
    /// tightly as `min_prec`.
    fn parse_expr_binop(&mut self, min_prec: u32, Ghost(closers): Ghost<Seq<Tok>>) -> (r: Node<ast::Expr<'a>>)
        requires
            old(self).wf(),
            min_prec <= 18,
        ensures
            final(self).advanced(*old(self)),
            r.1.fid == old(self).fid,
            final(self).clean() ==> final(self).splits(*old(self)) && binop_toks(final(self).read(*old(self)), r.0, min_prec as int),
            token_binop(final(self).curr.0) matches Some(o) ==> spec_precedence(o) < min_prec,
            old(self).clean() && operand_chain(old(self).rest(), closers) ==> final(self).clean() && after_operand(final(self).rest(), closers),
        decreases old(self).remaining(), 20nat,
    {
        let ghost chain = old(self).clean() && operand_chain(old(self).rest(), closers);
        let mut lhs = self.parse_expr_unop(Ghost(closers));
        proof {
            if self.clean() {
                lemma_unop_binop(self.read(*old(self)), lhs.0, min_prec as int);
            }
        }
        loop
            invariant
                self.advanced(*old(self)),
                lhs.1.fid == self.fid,
                self.clean() ==> self.splits(*old(self)) && binop_toks(self.read(*old(self)), lhs.0, min_prec as int),
                self.clean() ==> (lhs.0 matches ast::Expr::BinOp { op: lop, .. } ==> (token_binop(self.curr.0) matches Some(o) ==> spec_precedence(o) < rhs_prec(lop.0))),
                chain == (old(self).clean() && operand_chain(old(self).rest(), closers)),
                chain ==> self.clean() && after_operand(self.rest(), closers),
            ensures
                chain ==> self.clean() && after_operand(self.rest(), closers),
                self.advanced(*old(self)),
                lhs.1.fid == self.fid,
                self.clean() ==> self.splits(*old(self)) && binop_toks(self.read(*old(self)), lhs.0, min_prec as int),
                token_binop(self.curr.0) matches Some(o) ==> spec_precedence(o) < min_prec,
            decreases self.remaining(),
        {
            let op = match binop_for(self.curr.0) {
                Some(op) => op,
                None => break,
            };
            let prec = op.precedence();
            if prec < min_prec {
                break;
            }
            let ghost at_op = *self;
            let ghost lhs_before = lhs;
            proof {
                if chain {
                    assert(self.rest()[0] == tok(self.curr.0));
                    lemma_chain_clean(self.rest(), closers);
                    Self::lemma_rest_clean(*self);
                }
            }
            self.next();
            let ghost after_op = *self;
            proof {
                if chain {
                    Self::lemma_step_rest(at_op, after_op, tok(at_op.curr.0));
                }
            }
            let op = Node(op, self.last.1);
            let rhs_prec = match op.0.associativity() {
                ast::Associativity::Left => prec + 1,
                ast::Associativity::NonAssociative => prec,
                ast::Associativity::Right => prec,
            };
            let rhs = Box::new(self.parse_expr_binop(rhs_prec, Ghost(closers)));
            let span = lhs.1.merge(self.last.1);
            lhs = Node(ast::Expr::BinOp { lhs: Box::new(lhs), op, rhs }, span);
            proof {
                if self.clean() {
                    Self::lemma_read_trans(at_op, after_op, *self);
                    Self::lemma_read_trans(*old(self), at_op, *self);
                    let c = self.read(*old(self));
                    let k = at_op.read(*old(self)).len() as int;
                    assert(c.take(k) =~= at_op.read(*old(self)));
                    assert(c.skip(k + 1) =~= self.read(after_op));
                    assert(c[k] == tok(crate::parse::grammar::binop_token(op.0)));
                    assert(binop_toks(c, lhs.0, min_prec as int));
                }
            }
        }
        lhs
    }

    fn parse_expr_unop(&mut self, Ghost(closers): Ghost<Seq<Tok>>) -> (r: Node<ast::Expr<'a>>)
        requires
            old(self).wf(),
        ensures
            final(self).advanced(*old(self)),
            r.1.fid == old(self).fid,
            final(self).clean() ==> final(self).splits(*old(self)) && unop_toks(final(self).read(*old(self)), r.0),
            old(self).clean() && operand_chain(old(self).rest(), closers) ==> final(self).clean() && after_operand(final(self).rest(), closers),
        decreases old(self).remaining(), 19nat,
    {
        let ghost chain = old(self).clean() && operand_chain(old(self).rest(), closers);
        proof {
            if chain {
                assert(self.rest()[0] == tok(self.curr.0));
                lemma_prefix_token(self.curr.0);
                lemma_chain_clean(self.rest(), closers);
            }
        }
        let op = match self.curr.0 {
            Token::Minus => UnOp::Neg,
            Token::Bang => UnOp::Not,
            _ => {
                let r = self.parse_func_application(Ghost(closers));
                proof {
                    if self.clean() {
                        lemma_app_unop(self.read(*old(self)), r.0);
                    }
                }
                return r;
            },
        };
        proof {
            if chain {
                Self::lemma_rest_clean(*self);
            }
        }
        self.next();
        let ghost after_op = *self;
        proof {
            if chain {
                Self::lemma_step_rest(*old(self), after_op, tok(old(self).curr.0));
            }
        }
        let op = Node(op, self.last.1);
        let expr = Box::new(self.parse_expr_unop(Ghost(closers)));
        let span = op.1.merge(self.last.1);
        proof {
            if self.clean() {
                Self::lemma_read_trans(*old(self), after_op, *self);
                let c = self.read(*old(self));
                assert(c.skip(1) =~= self.read(after_op));
            }
        }
        Node(ast::Expr::UnOp { expr, op }, span)
    }

    fn parse_func_application(&mut self, Ghost(closers): Ghost<Seq<Tok>>) -> (r: Node<ast::Expr<'a>>)
        requires
            old(self).wf(),
        ensures
            final(self).advanced(*old(self)),
            r.1.fid == old(self).fid,
            final(self).clean() ==> final(self).splits(*old(self)) && app_toks(final(self).read(*old(self)), r.0),
            old(self).clean() && operand_start(old(self).rest(), closers) ==> final(self).clean() && after_operand(final(self).rest(), closers),
        decreases old(self).remaining(), 18nat,
    {
        let ghost chain = old(self).clean() && operand_start(old(self).rest(), closers);
        let mut expr = self.parse_expr_attr_path(Ghost(closers));
        proof {
            if self.clean() {
                lemma_access_app(self.read(*old(self)), expr.0);
            }
            if chain {
                Self::lemma_after_atom(*self, closers);
            }
        }
        while self.curr.0.start_fn_arg()
            invariant
                self.advanced(*old(self)),
                expr.1.fid == self.fid,
                self.clean() ==> self.splits(*old(self)) && app_toks(self.read(*old(self)), expr.0),
                chain == (old(self).clean() && operand_start(old(self).rest(), closers)),
                chain ==> self.clean() && after_atom(self.rest(), closers),
                chain ==> (spec_start_fn_arg(self.curr.0) ==> operand_start(self.rest(), closers)),
                chain ==> (!spec_start_fn_arg(self.curr.0) ==> after_operand(self.rest(), closers)),
            decreases self.remaining(),
        {
            let ghost at_arg = *self;
            let func = Box::new(expr);
            let arg = Box::new(self.parse_expr_attr_path(Ghost(closers)));
            proof {
                if chain {
                    Self::lemma_after_atom(*self, closers);
                }
            }
            let span = func.1.merge(arg.1);
            expr = Node(ast::Expr::FuncApp { func, arg }, span);
            proof {
                if self.clean() {
                    Self::lemma_read_trans(*old(self), at_arg, *self);
                    let c = self.read(*old(self));
                    let k = at_arg.read(*old(self)).len() as int;
                    assert(c.take(k) =~= at_arg.read(*old(self)));
                    assert(c.skip(k) =~= self.read(at_arg));
                }
            }
        }
        expr
    }

    #[verifier::rlimit(100)]
    #[verifier::spinoff_prover]
    fn parse_expr_attr_path(&mut self, Ghost(closers): Ghost<Seq<Tok>>) -> (r: Node<ast::Expr<'a>>)
        requires
            old(self).wf(),
        ensures
            final(self).advanced(*old(self)),
            r.1.fid == old(self).fid,
            !(old(self).curr.0 is Eof) ==> final(self).remaining() < old(self).remaining(),
            final(self).clean() ==> final(self).splits(*old(self)) && access_toks(final(self).read(*old(self)), r.0),
            old(self).clean() && operand_start(old(self).rest(), closers) ==> final(self).clean() && after_atom(final(self).rest(), closers),
        decreases old(self).remaining(), 17nat,
    {
        let ghost frag = old(self).clean() && operand_start(old(self).rest(), closers);
        let expr = self.parse_expr_bottom(Ghost(closers));
        proof {
            if frag {
                Self::lemma_after_atom(*self, closers);
            }
        }
        let dot = match self.curr.0 {
            Token::Question => false,
            Token::Dot => true,
            _ => {
                proof {
                    if self.clean() {
                        lemma_bottom_access(self.read(*old(self)), expr.0);
                    }
                }
                return expr;
            },
        };
        assert(!frag);
        let ghost at_op = *self;
        self.next();
        let ghost after_op = *self;
        let path = self.parse_attr_path();
        let ghost after_path = *self;
        let expr = Box::new(expr);
        if dot {
            let or = if self.consume_if(Token::Question) {
                let ghost after_q = *self;
                let default = self.parse_expr(Ghost(Seq::empty()));
                proof {
                    if self.clean() {
                        Self::lemma_read_trans(after_path, after_q, *self);
                        Self::lemma_read_trans(after_op, after_path, *self);
                        Self::lemma_read_trans(at_op, after_op, *self);
                        Self::lemma_read_trans(*old(self), at_op, *self);
                        let c = self.read(*old(self));
                        let k = at_op.read(*old(self)).len() as int;
                        let m: int = k + 1 + after_path.read(after_op).len() as int;
                        assert(c.take(k) =~= at_op.read(*old(self)));
                        assert(c.subrange(k + 1, m) =~= after_path.read(after_op));
                        assert(c.skip(m + 1) =~= self.read(after_q));
                        assert(c[k] == tok(Token::Dot));
                        assert(c[m] == tok(Token::Question));
                    }
                }
                Some(Box::new(default))
            } else {
                proof {
                    if self.clean() {
                        Self::lemma_read_trans(at_op, after_op, *self);
                        Self::lemma_read_trans(*old(self), at_op, *self);
                        let c = self.read(*old(self));
                        let k = at_op.read(*old(self)).len() as int;
                        assert(c.take(k) =~= at_op.read(*old(self)));
                        assert(c.skip(k + 1) =~= self.read(after_op));
                    }
                }
                None
            };
            let span = expr.1.merge(self.last.1);
            let r = Node(ast::Expr::AccessAttr { expr, path, or }, span);
            proof {
                if self.clean() {
                    let c = self.read(*old(self));
                    let k = at_op.read(*old(self)).len() as int;
                    assert(c.take(k) =~= at_op.read(*old(self)));
                    assert(access_toks(c, r.0));
                }
            }
            r
        } else {
            let span = expr.1.merge(self.last.1);
            proof {
                if self.clean() {
                    Self::lemma_read_trans(at_op, after_op, *self);
                    Self::lemma_read_trans(*old(self), at_op, *self);
                    let c = self.read(*old(self));
                    let k = at_op.read(*old(self)).len() as int;
                    assert(c.take(k) =~= at_op.read(*old(self)));
                    assert(c.skip(k + 1) =~= self.read(after_op));
                }
            }
            Node(ast::Expr::HasAttr { expr, path }, span)
        }
    }

    #[verifier::rlimit(100)]
    #[verifier::spinoff_prover]
    fn parse_expr_bottom(&mut self, Ghost(closers): Ghost<Seq<Tok>>) -> (r: Node<ast::Expr<'a>>)
        requires
            old(self).wf(),
        ensures
            final(self).advanced(*old(self)),
            r.1.fid == old(self).fid,
            !(old(self).curr.0 is Eof) ==> final(self).remaining() < old(self).remaining(),
            final(self).clean() ==> final(self).splits(*old(self)) && bottom_toks(final(self).read(*old(self)), r.0),
            old(self).clean() && operand_start(old(self).rest(), closers) ==> final(self).clean() && after_atom(final(self).rest(), closers),
        decreases old(self).remaining(), 16nat,
    {
        let ghost chain = old(self).clean() && operand_start(old(self).rest(), closers);
        proof {
            if chain {
                Self::lemma_start_ahead(*old(self), closers);
            }
        }
        let state = self.state();
        let ghost lambda = chain && old(self).rest().len() >= 2 && old(self).rest()[0] is Ident && old(self).rest()[1] == tok(Token::Colon);
        let ghost typed = chain && old(self).rest().len() >= 2 && old(self).rest()[0] is Ident && old(self).rest()[1] == tok(Token::ColonColon);
        proof {
            if typed {
                reveal(typed_name);
                reveal(type_rest);
                assert(old(self).rest().skip(1).skip(1) =~= old(self).rest().skip(2));
                assert(typed_name(old(self).rest(), Token::Colon, closers));
            }
        }
        let arg = self.parse_pattern(Ghost(Token::Colon), Ghost(closers));
        let ghost after_pattern = *self;
        proof {
            if chain && old(self).curr.0 is Ident && !(self.curr.0 is Eof) && !lambda && !typed {
                assert(self.rest()[0] == tok(self.curr.0));
                assert(old(self).rest().skip(1)[0] == self.rest()[0]);
                Self::lemma_follow(old(self).rest().skip(1), closers, self.curr.0);
            }
            if typed {
                reveal(after_typed);
                lemma_type_clean(self.rest(), Seq::empty(), Token::Colon, closers);
                assert(self.rest()[0] == tok(self.curr.0));
            }
            assert(chain && !lambda && !typed ==> !(self.curr.0 is Colon));
            if lambda {
                assert(self.rest()[0] == tok(Token::Colon));
                assert(self.curr.0 is Colon);
                assert(old(self).rest().skip(1).skip(1) =~= old(self).rest().skip(2));
                lemma_no_bad_skip(old(self).rest(), 1);
            }
        }
        if self.consume_if(Token::Colon) {
            let ghost after_colon = *self;
            proof {
                if chain {
                    assert(operand_chain(self.rest(), closers));
                }
            }
            let body = Box::new(self.parse_expr(Ghost(closers)));
            let span = arg.1.merge(body.1);
            let r = Node(ast::Expr::Lambda(ast::Lambda { arg, body }), span);
            proof {
                if self.clean() {
                    Self::lemma_read_trans(after_pattern, after_colon, *self);
                    Self::lemma_read_trans(*old(self), after_pattern, *self);
                    let c = self.read(*old(self));
                    let k = after_pattern.read(*old(self)).len() as int;
                    assert(c.take(k) =~= after_pattern.read(*old(self)));
                    assert(c.skip(k + 1) =~= self.read(after_colon));
                    assert(c[k] == tok(Token::Colon));
                    assert(bottom_toks(c, r.0));
                }
            }
            return r;
        }
        self.restore(state);
        assert(self.reports@ =~= old(self).reports@);
        let ghost at_start = *self;
        assert(at_start.rest() == old(self).rest());

        let start = self.curr.1;
        proof {
            if chain {
                Self::lemma_rest_clean(at_start);
            }
        }
        let token = self.next();
        let ghost after_tok = *self;
        proof {
            if chain {
                Self::lemma_step_rest(at_start, after_tok, tok(token));
                if atom_tok(tok(token)) && !(after_tok.curr.0 is Eof) {
                    assert(after_tok.rest()[0] == tok(after_tok.curr.0));
                    Self::lemma_follow(after_tok.rest(), closers, after_tok.curr.0);
                }
            }
        }
        let expr = match token {
            Token::LParen => {
                let r = self.parse_paren_rest(Node(Delim::Paren, self.last.1), Ghost(closers));
                proof {
                    if self.clean() {
                        Self::lemma_read_trans(at_start, after_tok, *self);
                    }
                }
                r
            }
            Token::LBrace => {
                let r = self.parse_set_rest(Node(Delim::Brace, self.last.1));
                proof {
                    if self.clean() {
                        Self::lemma_read_trans(at_start, after_tok, *self);
                    }
                }
                r
            }
            Token::LBrack => {
                let r = self.parse_list_rest(Node(Delim::Brack, self.last.1));
                proof {
                    if self.clean() {
                        Self::lemma_read_trans(at_start, after_tok, *self);
                    }
                }
                r
            }
            Token::If => {
                let r = self.parse_if_rest(Ghost(closers));
                proof {
                    if self.clean() {
                        Self::lemma_read_trans(at_start, after_tok, *self);
                    }
                }
                r
            }
            Token::Let => {
                let r = self.parse_let(Ghost(closers));
                proof {
                    if self.clean() {
                        Self::lemma_read_trans(at_start, after_tok, *self);
                    }
                }
                r
            }
            Token::Ident(ident) => ast::Expr::Ident(ident),
            Token::Num(num) => {
                let r = self.parse_num(Some(num));
                proof {
                    if self.clean() {
                        Self::lemma_read_trans(at_start, after_tok, *self);
                    }
                }
                r
            }
            Token::Dot => {
                let r = self.parse_num(None);
                proof {
                    if self.clean() {
                        Self::lemma_read_trans(at_start, after_tok, *self);
                    }
                }
                r
            }
            Token::String(str) => ast::Expr::Str(str),
            token => {
                self.reports.emit(UnexpectedTokenExprError { span: self.last.1, token, expected: None }.to_report());
                ast::Expr::Ident("<ERROR>")
            }
        };
        let end = self.last.1;
        Node(expr, start.merge(end))
    }

    /// Reads the rest of `( expr )`, after the `(`.
    #[verifier::rlimit(100)]
    #[verifier::spinoff_prover]
    fn parse_paren_rest(&mut self, delim: Node<Delim>, Ghost(closers): Ghost<Seq<Tok>>) -> (r: ast::Expr<'a>)
        requires
            old(self).wf(),
            delim.0 == Delim::Paren,
            delim.1.fid == old(self).fid,
        ensures
            final(self).advanced(*old(self)),
            final(self).clean() ==> final(self).splits(*old(self)) && bottom_toks(seq![tok(Token::LParen)] + final(self).read(*old(self)), r),
            old(self).clean() && operand_chain(old(self).rest(), closers.push(tok(Token::RParen))) ==> final(self).clean() && after_atom(final(self).rest(), closers),
        decreases old(self).remaining(), 22nat,
    {
        let expr = self.parse_expr(Ghost(closers.push(tok(Token::RParen))));
        let ghost after_expr = *self;
        proof {
            if old(self).clean() && operand_chain(old(self).rest(), closers.push(tok(Token::RParen))) {
                lemma_chain_clean(self.rest(), closers.push(tok(Token::RParen)));
                if !(self.curr.0 is Eof) {
                    assert(self.rest()[0] == tok(self.curr.0));
                    if op_tok(self.rest()[0]) {
                        lemma_op_token(self.rest()[0], self.curr.0);
                    }
                }
                assert(self.curr.0 is RParen);
                assert(closers.push(tok(Token::RParen)).drop_last() =~= closers);
            }
        }
        self.close_delim(delim);
        let r = ast::Expr::Paren(Box::new(expr));
        proof {
            if self.clean() {
                Self::lemma_read_trans(*old(self), after_expr, *self);
                let c = seq![tok(Token::LParen)] + self.read(*old(self));
                let k: int = 1 + after_expr.read(*old(self)).len() as int;
                assert(c.subrange(1, k) =~= after_expr.read(*old(self)));
                assert(c.skip(k) =~= self.read(after_expr));
                assert(bottom_toks(c, r));
            }
        }
        r
    }

    /// Reads the rest of `{ attrs }`, after the `{`.
    #[verifier::rlimit(100)]
    #[verifier::spinoff_prover]
    fn parse_set_rest(&mut self, delim: Node<Delim>) -> (r: ast::Expr<'a>)
        requires
            old(self).wf(),
            delim.0 == Delim::Brace,
            delim.1.fid == old(self).fid,
        ensures
            final(self).advanced(*old(self)),
            final(self).clean() ==> final(self).splits(*old(self)) && bottom_toks(seq![tok(Token::LBrace)] + final(self).read(*old(self)), r),
        decreases old(self).remaining(), 22nat,
    {
        let mut attrs: Vec<Node<ast::Attr<'a>>> = Vec::new();
        proof {
            Self::lemma_read_nothing(*old(self));
        }
        loop
            invariant_except_break
                self.clean() ==> self.splits(*old(self)) && attrs_sep(self.read(*old(self)), attrs@),
            invariant
                self.advanced(*old(self)),
                                delim.1.fid == self.fid,
            ensures
                self.clean() ==> self.splits(*old(self)) && attr_items(self.read(*old(self)), attrs@),
            decreases self.remaining(),
        {
            match self.curr.0 {
                Token::RParen | Token::RBrace | Token::RBrack | Token::Eof => break,
                _ => {}
            }
            let ghost at_attr = *self;
            let ghost pre = attrs@;
            let attr = self.parse_attr();
            let ghost after_attr = *self;
            attrs.push(attr);
            proof {
                if self.clean() {
                    Self::lemma_read_trans(*old(self), at_attr, *self);
                    assert(attrs@.drop_last() =~= pre);
                }
            }
            let sep = if self.consume_if(Token::Comma) { true } else { self.consume_if(Token::Semicolon) };
            if !sep {
                proof {
                    if self.clean() {
                        let c = self.read(*old(self));
                        let k = at_attr.read(*old(self)).len() as int;
                        assert(c.take(k) =~= at_attr.read(*old(self)));
                        assert(c.skip(k) =~= self.read(at_attr));
                    }
                }
                break;
            }
            proof {
                if self.clean() {
                    Self::lemma_read_trans(at_attr, after_attr, *self);
                    Self::lemma_read_trans(*old(self), at_attr, *self);
                    let c = self.read(*old(self));
                    let k = at_attr.read(*old(self)).len() as int;
                    assert(c.take(k) =~= at_attr.read(*old(self)));
                    assert(c.subrange(k, c.len() - 1) =~= after_attr.read(at_attr));
                }
            }
        }
        let ghost after_items = *self;
        self.close_delim(delim);
        let r = ast::Expr::AttrSet { attrs };
        proof {
            if self.clean() {
                Self::lemma_read_trans(*old(self), after_items, *self);
                let c = seq![tok(Token::LBrace)] + self.read(*old(self));
                let k: int = 1 + after_items.read(*old(self)).len() as int;
                assert(c.subrange(1, k) =~= after_items.read(*old(self)));
                assert(c.skip(k) =~= self.read(after_items));
                assert(bottom_toks(c, r));
            }
        }
        r
    }

    /// Reads the rest of `[ elements ]`, after the `[`.
    #[verifier::rlimit(100)]
    #[verifier::spinoff_prover]
    fn parse_list_rest(&mut self, delim: Node<Delim>) -> (r: ast::Expr<'a>)
        requires
            old(self).wf(),
            delim.0 == Delim::Brack,
            delim.1.fid == old(self).fid,
        ensures
            final(self).advanced(*old(self)),
            final(self).clean() ==> final(self).splits(*old(self)) && bottom_toks(seq![tok(Token::LBrack)] + final(self).read(*old(self)), r),
        decreases old(self).remaining(), 22nat,
    {
        let mut elements: Vec<Node<ast::Expr<'a>>> = Vec::new();
        proof {
            Self::lemma_read_nothing(*old(self));
        }
        loop
            invariant_except_break
                self.clean() ==> self.splits(*old(self)) && elems_sep(self.read(*old(self)), elements@),
            invariant
                self.advanced(*old(self)),
                                delim.1.fid == self.fid,
            ensures
                self.clean() ==> self.splits(*old(self)) && list_items(self.read(*old(self)), elements@),
            decreases self.remaining(),
        {
            match self.curr.0 {
                Token::RParen | Token::RBrace | Token::RBrack | Token::Eof => break,
                _ => {}
            }
            let ghost at_elem = *self;
            let ghost pre = elements@;
            let expr = self.parse_expr(Ghost(Seq::empty()));
            let ghost after_expr = *self;
            match &expr.0 {
                ast::Expr::FuncApp { func, .. } => {
                    self.reports.emit(FuncAppInListError { span: expr.1, func: func.1 }.to_report());
                }
                ast::Expr::Lambda(_) => {
                    self.reports.emit(FuncDefInListError { span: expr.1 }.to_report());
                }
                _ => {}
            }
            let ghost after_elem = *self;
            proof {
                if self.clean() {
                    assert(after_elem.rest() == after_expr.rest());
                    Self::lemma_read_step(after_expr, after_elem, Seq::<Tok>::empty());
                    Self::lemma_read_trans(at_elem, after_expr, after_elem);
                    assert(after_elem.read(at_elem) =~= after_expr.read(at_elem));
                    assert(!(expr.0 is FuncApp) && !(expr.0 is Lambda));
                    assert(crate::parse::grammar::list_elem_toks(after_elem.read(at_elem), expr.0));
                }
            }
            elements.push(expr);
            proof {
                if self.clean() {
                    Self::lemma_read_trans(*old(self), at_elem, *self);
                    assert(elements@.drop_last() =~= pre);
                }
            }
            if !self.consume_if(Token::Comma) {
                proof {
                    if self.clean() {
                        let c = self.read(*old(self));
                        let k = at_elem.read(*old(self)).len() as int;
                        assert(c.take(k) =~= at_elem.read(*old(self)));
                        assert(c.skip(k) =~= self.read(at_elem));
                    }
                }
                break;
            }
            proof {
                if self.clean() {
                    Self::lemma_read_trans(at_elem, after_elem, *self);
                    Self::lemma_read_trans(*old(self), at_elem, *self);
                    let c = self.read(*old(self));
                    let k = at_elem.read(*old(self)).len() as int;
                    assert(c.take(k) =~= at_elem.read(*old(self)));
                    assert(c.subrange(k, c.len() - 1) =~= after_elem.read(at_elem));
                }
            }
        }
        let ghost after_items = *self;
        self.close_delim(delim);
        let r = ast::Expr::List { elements };
        proof {
            if self.clean() {
                Self::lemma_read_trans(*old(self), after_items, *self);
                let c = seq![tok(Token::LBrack)] + self.read(*old(self));
                let k: int = 1 + after_items.read(*old(self)).len() as int;
                assert(c.subrange(1, k) =~= after_items.read(*old(self)));
                assert(c.skip(k) =~= self.read(after_items));
                assert(bottom_toks(c, r));
            }
        }
        r
    }

    /// Reads the rest of `if c then a else b`, after the `if`.
    #[verifier::rlimit(100)]
    #[verifier::spinoff_prover]
    fn parse_if_rest(&mut self, Ghost(closers): Ghost<Seq<Tok>>) -> (r: ast::Expr<'a>)
        requires
            old(self).wf(),
        ensures
            final(self).advanced(*old(self)),
            final(self).clean() ==> final(self).splits(*old(self)) && bottom_toks(seq![tok(Token::If)] + final(self).read(*old(self)), r),
            old(self).clean() && operand_chain(old(self).rest(), closers.push(tok(Token::Then))) ==> final(self).clean() && after_atom(final(self).rest(), closers),
        decreases old(self).remaining(), 22nat,
    {
        let ghost chain = old(self).clean() && operand_chain(old(self).rest(), closers.push(tok(Token::Then)));
        let cond = Box::new(self.parse_expr(Ghost(closers.push(tok(Token::Then)))));
        let ghost after_cond = *self;
        proof {
            if chain {
                Self::lemma_closer_ahead(*self, closers, tok(Token::Then));
                assert(closers.push(tok(Token::Then)).drop_last().push(tok(Token::Else)) =~= closers.push(tok(Token::Else)));
            }
        }
        if !self.consume_if(Token::Then) {
            self.reports.emit(UnexpectedTokenExprError { span: self.curr.1, token: self.curr.0, expected: Some(Token::Then) }.to_report());
        }
        let ghost after_then_kw = *self;
        let then_expr = Box::new(self.parse_expr(Ghost(closers.push(tok(Token::Else)))));
        let ghost after_then = *self;
        proof {
            if chain {
                Self::lemma_closer_ahead(*self, closers, tok(Token::Else));
                assert(closers.push(tok(Token::Else)).drop_last() =~= closers);
            }
        }
        if !self.consume_if(Token::Else) {
            self.reports.emit(UnexpectedTokenExprError { span: self.curr.1, token: self.curr.0, expected: Some(Token::Else) }.to_report());
        }
        let ghost after_else_kw = *self;
        let else_expr = Box::new(self.parse_expr(Ghost(closers)));
        let r = ast::Expr::IfThenElse { cond, then_expr, else_expr };
        proof {
            if self.clean() {
                Self::lemma_read_trans(after_then, after_else_kw, *self);
                Self::lemma_read_trans(after_then_kw, after_then, *self);
                Self::lemma_read_trans(after_cond, after_then_kw, *self);
                Self::lemma_read_trans(*old(self), after_cond, *self);
                let c1 = after_cond.read(*old(self));
                let c2 = after_then.read(after_then_kw);
                let c3 = self.read(after_else_kw);
                assert(self.read(*old(self)) =~= c1 + seq![tok(Token::Then)] + c2 + seq![tok(Token::Else)] + c3);
                lemma_if_toks(c1, c2, c3, r);
                assert(seq![tok(Token::If)] + self.read(*old(self)) =~= seq![tok(Token::If)] + c1 + seq![tok(Token::Then)] + c2 + seq![tok(Token::Else)] + c3);
            }
        }
        r
    }

    /// Reads the bindings and the body of a `let`, after the `let` keyword.
    #[verifier::rlimit(100)]
    #[verifier::spinoff_prover]
    fn parse_let(&mut self, Ghost(closers): Ghost<Seq<Tok>>) -> (r: ast::Expr<'a>)
        requires
            old(self).wf(),
        ensures
            final(self).advanced(*old(self)),
            final(self).clean() ==> final(self).splits(*old(self)) && bottom_toks(seq![tok(Token::Let)] + final(self).read(*old(self)), r),
            old(self).clean() && let_rest(old(self).rest(), closers) ==> final(self).clean() && after_atom(final(self).rest(), closers),
        decreases old(self).remaining(), 22nat,
    {
        let ghost chain = old(self).clean() && let_rest(old(self).rest(), closers);
        let mut bindings: Vec<ast::LetBinding<'a>> = Vec::new();
        proof {
            Self::lemma_read_nothing(*old(self));
        }
        loop
            invariant_except_break
                self.clean() ==> self.splits(*old(self)) && lets_sep(self.read(*old(self)), bindings@),
            invariant
                self.advanced(*old(self)),
                chain == (old(self).clean() && let_rest(old(self).rest(), closers)),
                chain ==> self.clean() && let_rest(self.rest(), closers),
            ensures
                self.clean() ==> self.splits(*old(self)) && let_items(self.read(*old(self)), bindings@),
                chain ==> self.clean() && let_rest(self.rest(), closers) && self.curr.0 is In,
            decreases self.remaining(),
        {
            match self.curr.0 {
                Token::In | Token::Eof => break,
                _ => {}
            }
            let ghost at_binding = *self;
            let ghost pre = bindings@;
            proof {
                if chain {
                    Self::lemma_binding_ahead(*self, closers);
                }
            }
            proof {
                if chain && at_binding.rest()[1] == tok(Token::ColonColon) {
                    reveal(typed_name);
                    reveal(type_rest);
                    assert(at_binding.rest().skip(1).skip(1) =~= at_binding.rest().skip(2));
                    assert(typed_name(at_binding.rest(), Token::Assign, closers.push(tok(Token::In))));
                }
            }
            let id = self.parse_pattern(Ghost(Token::Assign), Ghost(closers.push(tok(Token::In))));
            let ghost after_id = *self;
            proof {
                if chain {
                    if at_binding.rest()[1] == tok(Token::ColonColon) {
                        reveal(after_typed);
                        lemma_type_clean(self.rest(), Seq::empty(), Token::Assign, closers.push(tok(Token::In)));
                        assert(self.rest()[0] == tok(self.curr.0));
                    } else {
                        assert(self.rest()[0] == tok(Token::Assign));
                        assert(at_binding.rest().skip(1).skip(1) =~= at_binding.rest().skip(2));
                        lemma_no_bad_skip(at_binding.rest(), 1);
                    }
                    assert(operand_chain(self.rest().skip(1), closers.push(tok(Token::In))));
                }
            }
            if !self.consume_if(Token::Assign) {
                self.reports.emit(UnexpectedTokenExprError { span: self.curr.1, token: self.curr.0, expected: Some(Token::Assign) }.to_report());
            }
            let ghost after_assign = *self;
            let value = self.parse_expr(Ghost(closers.push(tok(Token::In))));
            let ghost after_value = *self;
            proof {
                if chain {
                    Self::lemma_value_end(*self, closers);
                }
            }
            let binding = ast::LetBinding { id, value };
            proof {
                if self.clean() {
                    Self::lemma_read_trans(after_assign, after_value, *self);
                    Self::lemma_read_trans(after_id, after_assign, *self);
                    Self::lemma_read_trans(at_binding, after_id, *self);
                    let b = self.read(at_binding);
                    let k = after_id.read(at_binding).len() as int;
                    assert(b.take(k) =~= after_id.read(at_binding));
                    assert(b[k] == tok(Token::Assign));
                    assert(b.skip(k + 1) =~= self.read(after_assign));
                    assert(crate::parse::grammar::binding_toks(b, binding));
                    Self::lemma_read_trans(*old(self), at_binding, *self);
                }
            }
            bindings.push(binding);
            proof {
                assert(bindings@.drop_last() =~= pre);
            }
            let sep = if self.consume_if(Token::Semicolon) { true } else { self.consume_if(Token::Comma) };
            if !sep {
                proof {
                    if self.clean() {
                        let c = self.read(*old(self));
                        let k = at_binding.read(*old(self)).len() as int;
                        assert(c.take(k) =~= at_binding.read(*old(self)));
                        assert(c.skip(k) =~= self.read(at_binding));
                    }
                }
                break;
            }
            proof {
                if self.clean() {
                    Self::lemma_read_trans(at_binding, after_value, *self);
                    Self::lemma_read_trans(*old(self), at_binding, *self);
                    let c = self.read(*old(self));
                    let k = at_binding.read(*old(self)).len() as int;
                    assert(c.take(k) =~= at_binding.read(*old(self)));
                    assert(c.subrange(k, c.len() - 1) =~= after_value.read(at_binding));
                }
            }
        }
        let ghost after_items = *self;
        proof {
            if chain {
                lemma_chain_clean(self.rest(), closers);
            }
        }
        if !self.consume_if(Token::In) {
            self.reports.emit(UnexpectedTokenExprError { span: self.curr.1, token: self.curr.0, expected: Some(Token::In) }.to_report());
        }
        let ghost after_in = *self;
        let expr = Box::new(self.parse_expr(Ghost(closers)));
        let r = ast::Expr::Let { bindings, expr };
        proof {
            if self.clean() {
                Self::lemma_read_trans(after_items, after_in, *self);
                Self::lemma_read_trans(*old(self), after_items, *self);
                let c = seq![tok(Token::Let)] + self.read(*old(self));
                let k: int = 1 + after_items.read(*old(self)).len() as int;
                assert(c.subrange(1, k) =~= after_items.read(*old(self)));
                assert(c[k] == tok(Token::In));
                assert(c.skip(k + 1) =~= self.read(after_in));
                assert(bottom_toks(c, r));
            }
        }
        r
    }

    /// Reads a number whose first token (the integer digits, or none when the
    /// number starts with `.`) was just consumed.
    fn parse_num(&mut self, start: Option<&'a str>) -> (r: ast::Expr<'a>)
        requires
            old(self).wf(),
        ensures
            final(self).advanced(*old(self)),
            final(self).clean() ==> final(self).splits(*old(self)) && bottom_toks(
                (match start {
                    Some(s) => seq![Tok::Num(s@)],
                    None => seq![tok(Token::Dot)],
                }) + final(self).read(*old(self)),
                r,
            ),
            (start matches Some(s) && int_literal_value(s@) is Ok) && old(self).clean() && !(old(self).curr.0 is Dot) ==> *final(self) == *old(self),
            start matches Some(s) ==> (int_literal_value(s@) matches Err(e) ==> (!(old(self).curr.0 is Dot) ==> final(self).lex == old(self).lex
                && final(self).curr == old(self).curr
                && final(self).reports@.len() == old(self).reports@.len() + 1
                && final(self).reports@.take(old(self).reports@.len() as int) == old(self).reports@
                && final(self).reports@.last()@ == int_error_view((IntError { span: old(self).last.1, err: e })))),
    {
        let ghost first = match start {
            Some(s) => seq![Tok::Num(s@)],
            None => seq![tok(Token::Dot)],
        };
        let start_span = self.last.1;
        let (text, is_float) = match start {
            Some(start) => {
                if self.consume_if(Token::Dot) {
                    let ghost after_dot = *self;
                    let mut text = String::from_str(start);
                    push_str(&mut text, ".");
                    if let Token::Num(end) = self.curr.0 {
                        self.next();
                        push_str(&mut text, end);
                        proof {
                            if self.clean() {
                                Self::lemma_read_trans(*old(self), after_dot, *self);
                                assert(first + self.read(*old(self)) =~= seq![Tok::Num(start@), tok(Token::Dot), Tok::Num(end@)]);
                            }
                        }
                    } else {
                        proof {
                            if self.clean() {
                                assert(first + self.read(*old(self)) =~= seq![Tok::Num(start@), tok(Token::Dot)]);
                            }
                        }
                    }
                    (text, true)
                } else {
                    proof {
                        Self::lemma_read_nothing(*self);
                        assert(first + self.read(*old(self)) =~= seq![Tok::Num(start@)]);
                    }
                    (String::from_str(start), false)
                }
            }
            None => {
                match self.next() {
                    Token::Num(start) => {
                        let mut text = String::from_str(".");
                        push_str(&mut text, start);
                        proof {
                            if self.clean() {
                                assert(first + self.read(*old(self)) =~= seq![tok(Token::Dot), Tok::Num(start@)]);
                            }
                        }
                        (text, true)
                    }
                    token => {
                        self.reports.emit(UnexpectedTokenExprError { span: self.last.1, token, expected: None }.to_report());
                        return ast::Expr::Ident("<ERROR>");
                    }
                }
            }
        };
        let end_span = self.last.1;
        if is_float {
            if float_literal_ok(text.as_str()) {
                ast::Expr::Num(ast::Num::Float(text))
            } else {
                self.reports.emit(FloatError { span: start_span.merge(end_span), err: FloatErrorKind::Invalid }.to_report());
                ast::Expr::Num(ast::Num::Float(String::from_str("0.")))
            }
        } else {
            match parse_int_literal(text.as_str()) {
                Ok(num) => ast::Expr::Num(ast::Num::Int(num)),
                Err(err) => {
                    self.reports.emit(IntError { span: start_span.merge(end_span), err }.to_report());
                    ast::Expr::Num(ast::Num::Int(0))
                }
            }
        }
    }

    pub(super) fn parse_attr(&mut self) -> (r: Node<ast::Attr<'a>>)
        requires
            old(self).wf(),
        ensures
            final(self).advanced(*old(self)),
            r.1.fid == old(self).fid,
            final(self).clean() ==> final(self).splits(*old(self)) && attr_toks(final(self).read(*old(self)), r.0),
        decreases old(self).remaining(), 2nat,
    {
        let path = self.parse_attr_path();
        let ghost after_path = *self;
        let value = if self.consume_if(Token::Assign) {
            let ghost after_assign = *self;
            let v = self.parse_expr(Ghost(Seq::empty()));
            proof {
                if self.clean() {
                    Self::lemma_read_trans(after_path, after_assign, *self);
                    Self::lemma_read_trans(*old(self), after_path, *self);
                    let c = self.read(*old(self));
                    let k = after_path.read(*old(self)).len() as int;
                    assert(c.take(k) =~= after_path.read(*old(self)));
                    assert(c.skip(k + 1) =~= self.read(after_assign));
                }
            }
            Some(v)
        } else {
            None
        };
        let span = path.1.merge(self.last.1);
        Node(ast::Attr { path, value }, span)
    }

    #[verifier::rlimit(80)]
    #[verifier::spinoff_prover]
    pub(super) fn parse_attr_path(&mut self) -> (r: Node<ast::AttrPath<'a>>)
        requires
            old(self).wf(),
        ensures
            final(self).advanced(*old(self)),
            r.1.fid == old(self).fid,
            final(self).clean() ==> final(self).splits(*old(self)) && path_toks(final(self).read(*old(self)), r.0),
        decreases old(self).remaining(), 1nat,
    {
        let start = self.curr.1;
        let mut parts: Vec<Node<ast::AttrPathPart<'a>>> = Vec::new();
        proof {
            Self::lemma_read_nothing(*self);
        }
        loop
            invariant_except_break
                self.clean() ==> self.splits(*old(self)),
                self.clean() && parts@.len() == 0 ==> self.read(*old(self)) == Seq::<Tok>::empty(),
                self.clean() && parts@.len() > 0 ==> self.read(*old(self)).len() >= 1
                    && self.read(*old(self)).last() == tok(Token::Dot)
                    && parts_toks(self.read(*old(self)).drop_last(), parts@),
            invariant
                self.advanced(*old(self)),
                start.fid == self.fid,
            ensures
                self.clean() ==> self.splits(*old(self)) && parts_toks(self.read(*old(self)), parts@),
            decreases self.remaining(),
        {
            let ghost at_part = *self;
            let ghost before = self.read(*old(self));
            let part_start = self.curr.1;
            let part = match self.curr.0 {
                Token::Ident(ident) => {
                    self.next();
                    ast::AttrPathPart::Ident(ident)
                }
                Token::String(str) => {
                    self.next();
                    ast::AttrPathPart::Str(str)
                }
                Token::Num(str) => {
                    self.next();
                    let num = match parse_int_literal(str) {
                        Ok(num) => num,
                        Err(err) => {
                            self.reports.emit(IntError { span: part_start.merge(self.curr.1), err }.to_report());
                            0
                        }
                    };
                    ast::AttrPathPart::Num(num)
                }
                Token::Dollar => {
                    self.next();
                    let ghost after_dollar = *self;
                    if !self.consume_if(Token::LBrace) {
                        self.reports.emit(UnexpectedTokenAttrPathError { span: self.curr.1, token: self.curr.0 }.to_report());
                        break;
                    }
                    let ghost after_brace = *self;
                    let expr = self.parse_expr(Ghost(Seq::empty()));
                    let ghost after_expr = *self;
                    self.close_delim(Node(Delim::Brace, part_start));
                    proof {
                        if self.clean() {
                            Self::lemma_read_trans(at_part, after_dollar, after_brace);
                            Self::lemma_read_trans(after_brace, after_expr, *self);
                            Self::lemma_read_trans(at_part, after_brace, *self);
                            let c = self.read(at_part);
                            let e1 = after_expr.read(after_brace);
                            let k: int = 2 + e1.len() as int;
                            assert(c == seq![tok(Token::Dollar), tok(Token::LBrace)] + (e1 + self.read(after_expr)));
                            assert(c.subrange(2, k) =~= e1);
                            assert(c.skip(k) =~= self.read(after_expr));
                            assert(part_toks(c, ast::AttrPathPart::Expr(expr.0)));
                        }
                    }
                    ast::AttrPathPart::Expr(expr.0)
                }
                token => {
                    self.reports.emit(UnexpectedTokenAttrPathError { span: self.curr.1, token }.to_report());
                    break;
                }
            };
            proof {
                if self.clean() {
                    Self::lemma_read_trans(*old(self), at_part, *self);
                }
            }
            let ghost pre = parts@;
            parts.push(Node(part, part_start.merge(self.last.1)));
            proof {
                if self.clean() {
                    let c = self.read(*old(self));
                    let p = self.read(at_part);
                    assert(part_toks(p, part));
                    assert(parts@.drop_last() =~= pre);
                    if pre.len() == 0 {
                        assert(c =~= p);
                    } else {
                        let k = before.len() - 1;
                        assert(c.take(k) =~= before.drop_last());
                        assert(c.skip(k + 1) =~= p);
                        assert(c[k] == tok(Token::Dot));
                    }
                    assert(parts_toks(c, parts@));
                }
            }
            let ghost at_dot = *self;
            if !self.consume_if(Token::Dot) {
                break;
            }
            proof {
                if self.clean() {
                    Self::lemma_read_trans(*old(self), at_dot, *self);
                    assert(self.read(*old(self)).drop_last() =~= at_dot.read(*old(self)));
                }
            }
        }
        let span = start.merge(self.last.1);
        Node(ast::AttrPath { parts }, span)
    }
}

} // verus!
