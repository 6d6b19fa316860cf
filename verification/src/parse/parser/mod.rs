mod expr;
mod pattern;
pub mod token;
mod ty;

use vstd::prelude::*;

pub use token::Delim;

use crate::files::{ByteRange, FileId, Node, Span};
use crate::lex::lexer::{lemma_lex_at_progress, lemma_skip_ws_bounds, lex_at, skip_ws};
use crate::lex::token::is_plain;
use crate::lex::{Lexer, Token};
use crate::report::lexer::lex_error_report;
use crate::report::parser::{
    ExpectedClosingDelimError, ExpectedEofError, ExpectedIdent, MismatchedDelimError,
    UnclosedDelimError,
};
use crate::report::{appended, has_error, kept, ReportLevel, Reports};
use crate::report::parser::{mismatched_delim_view, unclosed_delim_view};

use super::ast;
use super::grammar::{
    close_toks, closer, consumed, lemma_consumed, lemma_op_token, lemma_chain_clean, no_bad, operand_chain, op_tok, spells, tok,
    tokens_from, Tok,
};

verus! {

/// Reads an expression from source text, collecting diagnostics.
pub struct Parser<'a> {
    fid: FileId,
    lex: Lexer<'a>,
    reports: Reports,
    last: Node<Token<'a>>,
    curr: Node<Token<'a>>,
}

/// A point to come back to: what the parser has read so far.
struct State<'a> {
    lex: Lexer<'a>,
    reports: usize,
    last: Node<Token<'a>>,
    curr: Node<Token<'a>>,
}

/// The expression read (or `Err(())` when some report is an error) and the reports.
pub type ParserResult<'a> = (Result<Node<ast::Expr<'a>>, ()>, Reports);

/// Whether `t` closes a group.
pub open spec fn closing_token(t: Token) -> bool {
    t is RParen || t is RBrack || t is RBrace
}

/// The group that the closing token `t` closes.
pub open spec fn closing_delim(t: Token) -> Delim {
    match t {
        Token::RParen => Delim::Paren,
        Token::RBrack => Delim::Brack,
        _ => Delim::Brace,
    }
}

impl<'a> Parser<'a> {
    /// The lexer is well formed and the tokens are from this file.
    spec fn lex_ok(&self) -> bool {
        &&& self.lex.wf()
        &&& self.curr.1.fid == self.fid
        &&& self.last.1.fid == self.fid
    }

    /// Once the current token is `Eof`, the input is used up.
    spec fn wf(&self) -> bool {
        &&& self.lex_ok()
        &&& (self.curr.0 is Eof ==> self.lex.position() == self.lex.source().len())
    }

    /// Chars not yet read, plus one for a current token that is not `Eof`:
    /// this decreases with each token that is consumed.
    spec fn remaining(&self) -> nat {
        ((self.lex.source().len() - self.lex.position()) + if self.curr.0 is Eof { 0int } else { 1int }) as nat
    }

    /// `self` reads the same input as `before`, is well formed, has not gone
    /// back, and has kept the reports made before.
    spec fn advanced(self, before: Self) -> bool {
        &&& self.wf()
        &&& self.lex.source() == before.lex.source()
        &&& self.fid == before.fid
        &&& self.remaining() <= before.remaining()
        &&& kept(before.reports@, self.reports@)
    }

    /// The tokens not yet consumed: the current one, unless the input is
    /// used up, and those after it.
    spec fn rest(&self) -> Seq<Tok> {
        if self.curr.0 is Eof {
            Seq::empty()
        } else {
            seq![tok(self.curr.0)] + tokens_from(self.lex.source(), self.lex.position())
        }
    }

    /// No report so far is an error.
    spec fn clean(&self) -> bool {
        !has_error(self.reports@)
    }

    /// The tokens consumed since `before`.
    spec fn read(&self, before: Self) -> Seq<Tok> {
        consumed(before.rest(), self.rest())
    }

    /// What was left at `before` is what was consumed since, then what is left.
    spec fn splits(&self, before: Self) -> bool {
        before.rest() == self.read(before) + self.rest()
    }

    proof fn lemma_read_nothing(a: Self)
        ensures
            a.splits(a),
            a.read(a) == Seq::<Tok>::empty(),
    {
        assert(a.rest().take(0) =~= Seq::<Tok>::empty());
        assert(Seq::<Tok>::empty() + a.rest() =~= a.rest());
    }

    proof fn lemma_read_trans(a: Self, b: Self, c: Self)
        requires
            b.splits(a),
            c.splits(b),
        ensures
            c.splits(a),
            c.read(a) == b.read(a) + c.read(b),
    {
        let x = b.read(a);
        let y = c.read(b);
        assert(a.rest() =~= (x + y) + c.rest());
        lemma_consumed(x + y, c.rest());
    }

    /// With no bad token left, the lexer has none left either.
    proof fn lemma_rest_clean(p: Self)
        requires
            p.wf(),
            no_bad(p.rest()),
        ensures
            no_bad(tokens_from(p.lex.source(), p.lex.position())),
    {
        reveal(no_bad);
        let t = tokens_from(p.lex.source(), p.lex.position());
        if p.curr.0 is Eof {
            assert(t == Seq::<Tok>::empty());
        } else if t.contains(Tok::Bad) {
            let i = choose|i: int| 0 <= i < t.len() && t[i] == Tok::Bad;
            assert(p.rest()[i + 1] == t[i]);
        }
    }

    /// One token read: what is left is the rest after it.
    proof fn lemma_step_rest(a: Self, b: Self, x: Tok)
        requires
            b.splits(a),
            b.read(a) == seq![x],
        ensures
            a.rest().len() >= 1,
            a.rest()[0] == x,
            b.rest() == a.rest().skip(1),
    {
        assert(a.rest() == seq![x] + b.rest());
        assert(a.rest().skip(1) =~= b.rest());
    }

    proof fn lemma_read_step(a: Self, b: Self, x: Seq<Tok>)
        requires
            a.rest() == x + b.rest(),
        ensures
            b.splits(a),
            b.read(a) == x,
    {
        lemma_consumed(x, b.rest());
    }

    /// Reads the whole of `str` as one expression. The result is `Ok`
    /// exactly when no report is an error, and then the source spells it.
    /// A source whose tokens form a chain of operands (`operand_chain`:
    /// operators, applications, groups, conditionals, `let`s and functions
    /// of names, typed or not) is always read without error.
    pub fn parse(str: &'a str, fid: FileId) -> (r: ParserResult<'a>)
        ensures
            r.0 is Ok <==> !has_error(r.1@),
            r.0 matches Ok(e) ==> e.1.fid == fid,
            r.0 matches Ok(e) ==> spells(str@, e.0),
            operand_chain(tokens_from(str@, 0), Seq::empty()) ==> r.0 is Ok,
    {
        let lex = Lexer::new(str);
        let eof = Node(Token::Eof, Span::new(ByteRange { start: 0, end: 0 }, fid));
        let mut parser = Parser { fid, lex, reports: Reports::new(), curr: eof, last: eof };
        let ghost chain = operand_chain(tokens_from(str@, 0), Seq::empty());
        proof {
            if chain {
                lemma_chain_clean(tokens_from(str@, 0), Seq::empty());
            }
        }
        let _ = parser.next();
        let ghost started = parser;

        let expr = parser.parse_expr(Ghost(Seq::empty()));
        proof {
            if chain && !(parser.curr.0 is Eof) {
                assert(parser.rest()[0] == tok(parser.curr.0));
                if op_tok(parser.rest()[0]) {
                    lemma_op_token(parser.rest()[0], parser.curr.0);
                }
            }
        }
        if !parser.curr.0.is(Token::Eof) {
            parser.reports.emit(ExpectedEofError { span: parser.curr.1, token: parser.curr.0 }.to_report());
        }
        proof {
            if parser.clean() {
                assert(parser.rest() == Seq::<Tok>::empty());
                assert(started.rest() == tokens_from(str@, 0));
                assert(started.rest().take(started.rest().len() as int) =~= started.rest());
                assert(parser.read(started) == started.rest());
            }
        }

        let ok = !parser.reports.has_errors();
        let reports = parser.reports;
        if ok {
            (Ok(expr), reports)
        } else {
            (Err(()), reports)
        }
    }

    spec fn snapshot(&self) -> State<'a> {
        State { lex: self.lex, reports: self.reports@.len() as usize, last: self.last, curr: self.curr }
    }

    fn state(&self) -> (s: State<'a>)
        ensures
            s == self.snapshot(),
            s.reports == self.reports@.len(),
    {
        State { lex: self.lex.duplicate(), reports: self.reports.state(), last: self.last, curr: self.curr }
    }

    fn restore(&mut self, state: State<'a>)
        requires
            old(self).wf(),
            state.lex.wf(),
            state.lex.source() == old(self).lex.source(),
            state.curr.1.fid == old(self).fid,
            state.last.1.fid == old(self).fid,
            state.curr.0 is Eof ==> state.lex.position() == state.lex.source().len(),
        ensures
            final(self).wf(),
            final(self).lex == state.lex,
            final(self).curr == state.curr,
            final(self).last == state.last,
            final(self).fid == old(self).fid,
            final(self).reports@ == (if state.reports < old(self).reports@.len() {
                old(self).reports@.take(state.reports as int)
            } else {
                old(self).reports@
            }),
    {
        self.curr = state.curr;
        self.last = state.last;
        self.lex = state.lex;
        self.reports.restore(state.reports);
    }

    /// Moves to the next token that is not a comment, reporting lexical
    /// errors on the way; returns the token that was current.
    fn next(&mut self) -> (t: Token<'a>)
        requires
            old(self).lex_ok(),
        ensures
            final(self).wf(),
            final(self).lex.source() == old(self).lex.source(),
            final(self).fid == old(self).fid,
            t == old(self).curr.0,
            final(self).last == old(self).curr,
            old(self).wf() ==> final(self).remaining() <= old(self).remaining(),
            old(self).wf() && !(t is Eof) ==> final(self).remaining() < old(self).remaining(),
            kept(old(self).reports@, final(self).reports@),
            final(self).clean() ==> tokens_from(old(self).lex.source(), old(self).lex.position()) == final(self).rest(),
            !(t is Eof) && final(self).clean() ==> final(self).splits(*old(self)) && final(self).read(*old(self)) == seq![tok(t)],
            old(self).clean() && no_bad(tokens_from(old(self).lex.source(), old(self).lex.position())) ==> final(self).clean(),
            old(self).clean() && no_bad(tokens_from(old(self).lex.source(), old(self).lex.position())) ==> final(self).reports@ == old(self).reports@,
    {
        proof {
            reveal(no_bad);
        }
        self.last = self.curr;
        let ghost cs = self.lex.source();
        let ghost p0 = self.lex.position();
        proof {
            self.lex.lemma_position_in_bounds();
        }
        loop
            invariant
                self.lex.wf(),
                self.lex.source() == cs,
                p0 <= self.lex.position() <= cs.len(),
                self.fid == old(self).fid,
                self.last == old(self).curr,
                self.curr == old(self).curr,
                self.curr.1.fid == self.fid,
                self.last.1.fid == self.fid,
                old(self).wf() && old(self).curr.0 is Eof ==> p0 == cs.len(),
                p0 == old(self).lex.position(),
                cs == old(self).lex.source(),
                kept(old(self).reports@, self.reports@),
                has_error(self.reports@) || tokens_from(cs, p0) == tokens_from(cs, self.lex.position()),
                !has_error(old(self).reports@) && has_error(self.reports@) ==> tokens_from(cs, p0).contains(Tok::Bad),
                !has_error(old(self).reports@) && !tokens_from(cs, p0).contains(Tok::Bad) ==> self.reports@ == old(self).reports@,
            decreases cs.len() - self.lex.position(),
        {
            let ghost before = self.lex.position();
            let ghost reports_before = self.reports@;
            proof {
                lemma_skip_ws_bounds(cs, before);
                lemma_lex_at_progress(cs, skip_ws(cs, before));
            }
            let (tok, range) = self.lex.next_tok();
            proof {
                self.lex.lemma_position_in_bounds();
            }
            let span = Span::new(range, self.fid);
            match tok {
                Err(e) => {
                    self.reports.emit(lex_error_report(Node(e, span)));
                    proof {
                        assert(self.reports@[self.reports@.len() - 1].level == ReportLevel::Error);
                        if !has_error(reports_before) {
                            assert(tokens_from(cs, before)[0] == Tok::Bad);
                            assert(tokens_from(cs, p0)[0] == Tok::Bad);
                        }
                    }
                }
                Ok(Token::Comment(_)) => {
                    proof {
                        assert(reports_before == self.reports@);
                        if !has_error(self.reports@) {
                            assert(tokens_from(cs, before) == tokens_from(cs, self.lex.position()));
                        }
                    }
                }
                Ok(tok) => {
                    self.curr = Node(tok, span);
                    proof {
                        reveal(no_bad);
                        if !has_error(self.reports@) {
                            if tok is Eof {
                                assert(tokens_from(cs, before) == Seq::<Tok>::empty());
                            } else {
                                assert(tokens_from(cs, before) == seq![crate::parse::grammar::tok(tok)] + tokens_from(cs, self.lex.position()));
                            }
                            if !(old(self).curr.0 is Eof) {
                                Self::lemma_read_step(*old(self), *self, seq![crate::parse::grammar::tok(old(self).curr.0)]);
                            }
                        }
                    }
                    return self.last.0;
                }
            }
        }
    }

    /// Skips to the closing delimiter that matches `opening`, reporting a
    /// mismatched, missing or misplaced delimiter.
    fn close_delim(&mut self, opening: Node<Delim>)
        requires
            old(self).wf(),
        ensures
            final(self).advanced(*old(self)),
            final(self).clean() ==> final(self).splits(*old(self)) && close_toks(final(self).read(*old(self)), opening.0, 0),
            old(self).clean() && tok(old(self).curr.0) == closer(opening.0) && no_bad(old(self).rest())
                ==> final(self).clean() && final(self).rest() == old(self).rest().skip(1) && final(self).reports@ == old(self).reports@,
            old(self).clean() && closing_token(old(self).curr.0) && tok(old(self).curr.0) != closer(opening.0) && no_bad(old(self).rest())
                ==> appended(old(self).reports@, final(self).reports@, seq![mismatched_delim_view((MismatchedDelimError {
                    span: old(self).curr.1,
                    opening,
                    closing: Node(closing_delim(old(self).curr.0), old(self).curr.1),
                }))]),
            old(self).clean() && old(self).curr.0 is Eof
                ==> appended(old(self).reports@, final(self).reports@, seq![unclosed_delim_view((UnclosedDelimError {
                    span: old(self).curr.1,
                    opening,
                    closing: Node(opening.0, old(self).curr.1),
                }))]),
    {
        let ghost closing_next = old(self).clean() && tok(old(self).curr.0) == closer(opening.0) && no_bad(old(self).rest());
        let ghost mismatch_next = old(self).clean() && closing_token(old(self).curr.0) && tok(old(self).curr.0) != closer(opening.0) && no_bad(old(self).rest());
        let ghost eof_next = old(self).clean() && old(self).curr.0 is Eof;
        proof {
            if closing_next || mismatch_next {
                Self::lemma_rest_clean(*old(self));
            }
            if eof_next {
                reveal(no_bad);
                assert(old(self).rest() == Seq::<Tok>::empty());
                Self::lemma_rest_clean(*old(self));
            }
        }
        let mut level: usize = 0;
        let mut error = false;
        proof {
            Self::lemma_read_nothing(*self);
            assert forall|s: Seq<Tok>| close_toks(s, opening.0, 0) implies #[trigger] close_toks(self.read(*old(self)) + s, opening.0, 0) by {
                assert(self.read(*old(self)) + s =~= s);
            }
        }
        loop
            invariant
                self.advanced(*old(self)),
                error ==> !self.clean(),
                self.clean() ==> self.splits(*old(self)),
                self.clean() ==> forall|s: Seq<Tok>| close_toks(s, opening.0, level as nat) ==> #[trigger] close_toks(self.read(*old(self)) + s, opening.0, 0),
                closing_next == (old(self).clean() && tok(old(self).curr.0) == closer(opening.0) && no_bad(old(self).rest())),
                closing_next ==> *self == *old(self) && level == 0,
                closing_next ==> no_bad(tokens_from(old(self).lex.source(), old(self).lex.position())),
                mismatch_next == (old(self).clean() && closing_token(old(self).curr.0) && tok(old(self).curr.0) != closer(opening.0) && no_bad(old(self).rest())),
                eof_next == (old(self).clean() && old(self).curr.0 is Eof),
                mismatch_next || eof_next ==> *self == *old(self) && level == 0,
                mismatch_next || eof_next ==> no_bad(tokens_from(old(self).lex.source(), old(self).lex.position())),
            decreases self.remaining(),
        {
            let ghost before = *self;
            let ghost level_before = level as nat;
            let tok = self.next();
            proof {
                if self.clean() && !(tok is Eof) {
                    Self::lemma_read_trans(*old(self), before, *self);
                }
            }
            match tok {
                Token::LBrace | Token::LBrack | Token::LParen => {
                    if level < usize::MAX {
                        level = level + 1;
                    }
                    proof {
                        if self.clean() {
                            let r0 = before.read(*old(self));
                            let t = crate::parse::grammar::tok(tok);
                            assert(self.read(*old(self)) == r0 + seq![t]);
                            assert forall|s: Seq<Tok>| close_toks(s, opening.0, level as nat) implies #[trigger] close_toks(self.read(*old(self)) + s, opening.0, 0) by {
                                let s1 = seq![t] + s;
                                assert(s1.skip(1) =~= s);
                                assert(close_toks(s1, opening.0, level_before));
                                assert(r0 + s1 =~= self.read(*old(self)) + s);
                            }
                        }
                    }
                }
                Token::RBrace | Token::RBrack | Token::RParen => {
                    if level == 0 {
                        let closing = Node(
                            match tok {
                                Token::RParen => Delim::Paren,
                                Token::RBrack => Delim::Brack,
                                _ => Delim::Brace,
                            },
                            self.last.1,
                        );
                        proof {
                            if mismatch_next {
                                assert(closing.0 == closing_delim(old(self).curr.0));
                                assert(opening.0 != closing.0);
                            }
                            if closing_next {
                                assert(opening.0 == closing.0);
                            }
                        }
                        if opening.0 != closing.0 {
                            self.reports.emit(MismatchedDelimError { span: self.last.1, opening, closing }.to_report());
                            proof {
                                if mismatch_next {
                                    assert(self.reports@.subrange(0, old(self).reports@.len() as int) =~= old(self).reports@);
                                }
                            }
                        }
                        proof {
                            if closing_next {
                                Self::lemma_step_rest(*old(self), *self, crate::parse::grammar::tok(tok));
                            }
                        }
                        proof {
                            if self.clean() {
                                let r0 = before.read(*old(self));
                                let t = crate::parse::grammar::tok(tok);
                                assert(self.read(*old(self)) == r0 + seq![t]);
                                assert(close_toks(seq![t], opening.0, 0));
                                assert(close_toks(r0 + seq![t], opening.0, 0));
                            }
                        }
                        return;
                    } else {
                        level = level - 1;
                        proof {
                            if self.clean() {
                                let r0 = before.read(*old(self));
                                let t = crate::parse::grammar::tok(tok);
                                assert(self.read(*old(self)) == r0 + seq![t]);
                                assert forall|s: Seq<Tok>| close_toks(s, opening.0, level as nat) implies #[trigger] close_toks(self.read(*old(self)) + s, opening.0, 0) by {
                                    let s1 = seq![t] + s;
                                    assert(s1.skip(1) =~= s);
                                    assert(close_toks(s1, opening.0, level_before));
                                    assert(r0 + s1 =~= self.read(*old(self)) + s);
                                }
                            }
                        }
                    }
                }
                Token::Eof => {
                    let closing = Node(opening.0, self.last.1);
                    self.reports.emit(UnclosedDelimError { span: self.last.1, opening, closing }.to_report());
                    proof {
                        if eof_next {
                            assert(self.reports@.subrange(0, old(self).reports@.len() as int) =~= old(self).reports@);
                        }
                    }
                    return;
                }
                token => {
                    if !error {
                        self.reports.emit(ExpectedClosingDelimError { span: self.last.1, delim: opening.0, token }.to_report());
                        error = true;
                    }
                }
            }
        }
    }

    /// Consumes the current token when it is `token`.
    fn consume_if(&mut self, token: Token<'a>) -> (r: bool)
        requires
            old(self).wf(),
            is_plain(token),
            !(token is Eof),
        ensures
            final(self).advanced(*old(self)),
            r == (old(self).curr.0 == token),
            r ==> final(self).remaining() < old(self).remaining(),
            r ==> final(self).last.0 == token,
            !r ==> *final(self) == *old(self),
            r && final(self).clean() ==> final(self).splits(*old(self)) && final(self).read(*old(self)) == seq![tok(token)],
            old(self).clean() && old(self).curr.0 == token && no_bad(old(self).rest()) ==> final(self).clean() && final(self).rest() == old(self).rest().skip(1),
    {
        if self.curr.0.is(token) {
            proof {
                if old(self).clean() && no_bad(old(self).rest()) {
                    Self::lemma_rest_clean(*old(self));
                }
            }
            self.next();
            proof {
                if old(self).clean() && no_bad(old(self).rest()) {
                    Self::lemma_step_rest(*old(self), *self, tok(token));
                }
            }
            true
        } else {
            false
        }
    }

    fn try_parse_ident(&mut self) -> (r: Option<Node<&'a str>>)
        requires
            old(self).wf(),
        ensures
            final(self).advanced(*old(self)),
            r matches Some(n) ==> n.1.fid == old(self).fid,
            r is None ==> *final(self) == *old(self),
            r is None <==> !(old(self).curr.0 is Ident),
            r matches Some(n) ==> (final(self).clean() ==> final(self).splits(*old(self)) && final(self).read(*old(self)) == seq![Tok::Ident(n.0@)]),
            old(self).clean() && old(self).curr.0 is Ident && no_bad(old(self).rest()) ==> final(self).clean() && final(self).rest() == old(self).rest().skip(1),
    {
        match self.curr.0 {
            Token::Ident(ident) => {
                proof {
                    if old(self).clean() && no_bad(old(self).rest()) {
                        Self::lemma_rest_clean(*old(self));
                    }
                }
                self.next();
                proof {
                    if self.clean() {
                        Self::lemma_step_rest(*old(self), *self, tok(old(self).curr.0));
                    }
                }
                Some(Node(ident, self.last.1))
            }
            _ => None,
        }
    }

    fn parse_ident(&mut self) -> (r: Node<&'a str>)
        requires
            old(self).wf(),
        ensures
            final(self).advanced(*old(self)),
            r.1.fid == old(self).fid,
            final(self).clean() ==> final(self).splits(*old(self)) && final(self).read(*old(self)) == seq![Tok::Ident(r.0@)],
            old(self).clean() && old(self).curr.0 is Ident && no_bad(old(self).rest()) ==> final(self).clean() && final(self).rest() == old(self).rest().skip(1),
    {
        match self.curr.0 {
            Token::Ident(ident) => {
                proof {
                    if old(self).clean() && no_bad(old(self).rest()) {
                        Self::lemma_rest_clean(*old(self));
                    }
                }
                self.next();
                proof {
                    if old(self).clean() && no_bad(old(self).rest()) {
                        Self::lemma_step_rest(*old(self), *self, tok(old(self).curr.0));
                    }
                }
                Node(ident, self.last.1)
            }
            _ => {
                self.reports.emit(ExpectedIdent { span: self.curr.1, got: self.curr.0 }.to_report());
                Node("<ERROR>", self.last.1)
            }
        }
    }
}

} // verus!
