use vstd::prelude::*;

use super::{Delim, Parser};
use crate::files::{Node, Span};
use crate::lex::Token;
use crate::parse::ast;
use crate::parse::grammar::{
    destruct_toks, field_items, lemma_pattern_toks, field_toks, fields_sep, is_sep, kind_toks, pats_items, pats_sep, pattern_list_items,
    no_bad, pattern_toks, pattern_type_toks, tok, Tok, lemma_type_clean, lemma_no_bad_cons2, lemma_no_bad_skip, type_chain,
    after_typed, type_end, type_rest, typed_name,
};
use crate::report::parser::{
    DuplicatePatternRest, NonTrailingListTrail, NonTrailingPatternRestWarning, UnexpectedTokenPattern,
};

verus! {

impl<'a> Parser<'a> {
    /// Reads `{ field, field = pattern, field :: type, .. }`.
    #[verifier::rlimit(100)]
    #[verifier::spinoff_prover]
    fn parse_attr_destruct(&mut self) -> (r: ast::PatternDestructKind<'a>)
        requires
            old(self).wf(),
            old(self).curr.0 is LBrace,
        ensures
            final(self).advanced(*old(self)),
            final(self).remaining() < old(self).remaining(),
            final(self).clean() ==> final(self).splits(*old(self)) && kind_toks(final(self).read(*old(self)), r),
        decreases old(self).remaining(), 12nat,
    {
        let start = self.curr.1;
        self.next();
        let ghost after_open = *self;
        let mut fields: Vec<Node<ast::AttrPattern<'a>>> = Vec::new();
        let mut strict = true;
        let mut strict_span: Option<Span> = None;
        proof {
            Self::lemma_read_nothing(after_open);
        }
        loop
            invariant_except_break
                self.clean() ==> self.splits(after_open),
                self.clean() && strict ==> fields_sep(self.read(after_open), fields@),
                self.clean() && !strict ==> field_items(self.read(after_open), fields@, false)
                    && (self.curr.0 is RParen || self.curr.0 is RBrace || self.curr.0 is RBrack || self.curr.0 is Eof),
            invariant
                self.advanced(*old(self)),
                self.advanced(after_open),
                self.remaining() < old(self).remaining(),
                start.fid == self.fid,
                strict_span matches Some(s) ==> s.fid == self.fid,
            ensures
                self.clean() ==> self.splits(after_open) && field_items(self.read(after_open), fields@, strict),
            decreases self.remaining(),
        {
            match self.curr.0 {
                Token::RParen | Token::RBrace | Token::RBrack | Token::Eof => break,
                _ => {}
            }
            let ghost at_item = *self;
            let ghost strict_before = strict;
            if self.consume_if(Token::DotDot) {
                let span = self.last.1;
                match strict_span {
                    Some(first) => {
                        self.reports.emit(DuplicatePatternRest { span, first }.to_report());
                    }
                    None => {
                        strict_span = Some(span);
                    }
                }
                strict = false;
                let ghost after_dd = *self;
                if !self.consume_if(Token::Comma) {
                    self.consume_if(Token::Semicolon);
                }
                match self.curr.0 {
                    Token::RParen | Token::RBrace | Token::RBrack | Token::Eof => {}
                    _ => {
                        self.reports.emit(NonTrailingPatternRestWarning { span }.to_report());
                    }
                }
                proof {
                    if self.clean() {
                        assert(strict_before);
                        Self::lemma_read_trans(at_item, after_dd, *self);
                        Self::lemma_read_trans(after_open, at_item, *self);
                        let c = self.read(after_open);
                        let k = at_item.read(after_open).len() as int;
                        assert(c.take(k) =~= at_item.read(after_open));
                        assert(c[k] == tok(Token::DotDot));
                        assert(field_items(c, fields@, false));
                    }
                }
                continue;
            }
            let field_start = self.curr.1;
            let attr = self.parse_ident();
            let ghost after_attr = *self;
            let pattern = if self.consume_if(Token::Assign) {
                let ghost after_assign = *self;
                let p = self.parse_pattern(Ghost(Token::Colon), Ghost(Seq::empty()));
                proof {
                    if self.clean() {
                        Self::lemma_read_trans(after_attr, after_assign, *self);
                        Self::lemma_read_trans(at_item, after_attr, *self);
                        let c = self.read(at_item);
                        assert(c.skip(2) =~= self.read(after_assign));
                    }
                }
                p
            } else {
                let ty = if self.consume_if(Token::ColonColon) {
                    let ghost after_cc = *self;
                    let t = self.parse_type(Ghost(Seq::empty()), Ghost(Token::Colon), Ghost(Seq::empty()));
                    proof {
                        if self.clean() {
                            Self::lemma_read_trans(after_attr, after_cc, *self);
                            Self::lemma_read_trans(at_item, after_attr, *self);
                            let c = self.read(at_item);
                            assert(c.skip(1) =~= self.read(after_attr));
                            assert(c.skip(1).skip(1) =~= self.read(after_cc));
                        }
                    }
                    Some(t)
                } else {
                    proof {
                        if self.clean() {
                            Self::lemma_read_nothing(*self);
                            Self::lemma_read_trans(at_item, after_attr, *self);
                            let c = self.read(at_item);
                            assert(c.skip(1) =~= Seq::<Tok>::empty());
                        }
                    }
                    None
                };
                let pattern = ast::Pattern { binding: Some(attr), ty, destruct: None };
                Node(pattern, field_start.merge(self.last.1))
            };
            let field = ast::AttrPattern { attr, pattern };
            let ghost after_field = *self;
            proof {
                if self.clean() {
                    assert(field_toks(self.read(at_item), field));
                    assert(strict_before);
                    Self::lemma_read_trans(after_open, at_item, *self);
                }
            }
            let ghost pre = fields@;
            fields.push(Node(field, field_start.merge(self.last.1)));
            proof {
                assert(fields@.drop_last() =~= pre);
            }
            let sep = if self.consume_if(Token::Comma) { true } else { self.consume_if(Token::Semicolon) };
            if !sep {
                proof {
                    if self.clean() {
                        let c = self.read(after_open);
                        let k = at_item.read(after_open).len() as int;
                        assert(c.take(k) =~= at_item.read(after_open));
                        assert(c.skip(k) =~= self.read(at_item));
                    }
                }
                break;
            }
            proof {
                if self.clean() {
                    Self::lemma_read_trans(at_item, after_field, *self);
                    Self::lemma_read_trans(after_open, at_item, *self);
                    let c = self.read(after_open);
                    let k = at_item.read(after_open).len() as int;
                    assert(c.take(k) =~= at_item.read(after_open));
                    assert(c.subrange(k, c.len() - 1) =~= after_field.read(at_item));
                    assert(is_sep(c.last()));
                }
            }
        }
        let ghost after_items = *self;
        self.close_delim(Node(Delim::Brace, start));
        let r = ast::PatternDestructKind::AttrSet { fields, strict };
        proof {
            if self.clean() {
                Self::lemma_read_trans(after_open, after_items, *self);
                Self::lemma_read_trans(*old(self), after_open, *self);
                let c = self.read(*old(self));
                let k: int = 1 + after_items.read(after_open).len() as int;
                assert(c.subrange(1, k) =~= after_items.read(after_open));
                assert(c.skip(k) =~= self.read(after_items));
                assert(kind_toks(c, r));
            }
        }
        r
    }

    /// Reads `[pattern, .., pattern]`.
    #[verifier::rlimit(100)]
    #[verifier::spinoff_prover]
    fn parse_list_destruct(&mut self) -> (r: ast::PatternDestructKind<'a>)
        requires
            old(self).wf(),
            old(self).curr.0 is LBrack,
        ensures
            final(self).advanced(*old(self)),
            final(self).remaining() < old(self).remaining(),
            final(self).clean() ==> final(self).splits(*old(self)) && kind_toks(final(self).read(*old(self)), r),
        decreases old(self).remaining(), 12nat,
    {
        let start = self.curr.1;
        self.next();
        let ghost after_open = *self;
        let mut elements: Vec<Node<ast::Pattern<'a>>> = Vec::new();
        let mut kind = ast::PatternListKind::Strict;
        let mut trail_span: Option<Span> = None;
        proof {
            Self::lemma_read_nothing(after_open);
        }
        loop
            invariant_except_break
                self.clean() ==> self.splits(after_open),
                self.clean() && kind == ast::PatternListKind::Strict ==> pats_sep(self.read(after_open), elements@),
                self.clean() && kind == ast::PatternListKind::TrailLeft ==> self.read(after_open).len() >= 2
                    && self.read(after_open)[0] == tok(Token::DotDot) && self.read(after_open)[1] == tok(Token::Comma)
                    && pats_sep(self.read(after_open).skip(2), elements@),
                self.clean() && kind == ast::PatternListKind::TrailRight ==> elements@.len() > 0
                    && self.read(after_open).len() >= 2
                    && self.read(after_open).last() == tok(Token::Comma)
                    && self.read(after_open)[self.read(after_open).len() - 2] == tok(Token::DotDot)
                    && pats_sep(self.read(after_open).take(self.read(after_open).len() - 2), elements@),
            invariant
                self.advanced(*old(self)),
                self.advanced(after_open),
                self.remaining() < old(self).remaining(),
                start.fid == self.fid,
                (kind == ast::PatternListKind::Strict) == (trail_span is None),
            ensures
                self.clean() ==> self.splits(after_open) && pattern_list_items(self.read(after_open), elements@, kind),
            decreases self.remaining(),
        {
            match self.curr.0 {
                Token::RParen | Token::RBrace | Token::RBrack | Token::Eof => break,
                _ => {}
            }
            let ghost at_item = *self;
            let ghost pre = elements@;
            let ghost kind_before = kind;
            if self.consume_if(Token::DotDot) {
                let span = self.last.1;
                match trail_span {
                    Some(first) => {
                        self.reports.emit(DuplicatePatternRest { span, first }.to_report());
                    }
                    None => {
                        trail_span = Some(span);
                        kind = if elements.len() == 0 {
                            ast::PatternListKind::TrailLeft
                        } else {
                            ast::PatternListKind::TrailRight
                        };
                    }
                }
            } else {
                if kind == ast::PatternListKind::TrailRight {
                    let span = match trail_span {
                        Some(s) => s,
                        None => start,
                    };
                    self.reports.emit(NonTrailingListTrail { span }.to_report());
                }
                elements.push(self.parse_pattern(Ghost(Token::Colon), Ghost(Seq::empty())));
                proof {
                    assert(elements@.drop_last() =~= pre);
                }
            }
            let ghost at_comma = *self;
            proof {
                if self.clean() {
                    Self::lemma_read_trans(after_open, at_item, *self);
                }
            }
            if !self.consume_if(Token::Comma) {
                proof {
                    if self.clean() {
                        let c = self.read(after_open);
                        let k = at_item.read(after_open).len() as int;
                        assert(c.take(k) =~= at_item.read(after_open));
                        assert(c.skip(k) =~= self.read(at_item));
                        if kind_before == ast::PatternListKind::TrailLeft {
                            assert(c.skip(2).take(k - 2) =~= at_item.read(after_open).skip(2));
                            assert(c.skip(2).skip(k - 2) =~= self.read(at_item));
                        }
                        assert(pattern_list_items(c, elements@, kind));
                    }
                }
                break;
            }
            proof {
                if self.clean() {
                    Self::lemma_read_trans(at_item, at_comma, *self);
                    Self::lemma_read_trans(after_open, at_item, *self);
                    let c = self.read(after_open);
                    let k = at_item.read(after_open).len() as int;
                    assert(c.take(k) =~= at_item.read(after_open));
                    assert(c.subrange(k, c.len() - 1) =~= at_comma.read(at_item));
                    if kind == ast::PatternListKind::TrailLeft && kind_before == ast::PatternListKind::TrailLeft {
                        assert(c.skip(2).take(k - 2) =~= at_item.read(after_open).skip(2));
                        assert(c.skip(2).subrange(k - 2, c.len() - 3) =~= at_comma.read(at_item));
                    }
                    if kind == ast::PatternListKind::TrailRight {
                        assert(c.take(c.len() - 2) =~= at_item.read(after_open));
                    }
                }
            }
        }
        let ghost after_items = *self;
        self.close_delim(Node(Delim::Brack, start));
        let r = ast::PatternDestructKind::List { elements, kind };
        proof {
            if self.clean() {
                Self::lemma_read_trans(after_open, after_items, *self);
                Self::lemma_read_trans(*old(self), after_open, *self);
                let c = self.read(*old(self));
                let k: int = 1 + after_items.read(after_open).len() as int;
                assert(c.subrange(1, k) =~= after_items.read(after_open));
                assert(c.skip(k) =~= self.read(after_items));
                assert(kind_toks(c, r));
            }
        }
        r
    }

    fn parse_pattern_kind(&mut self) -> (r: Node<ast::PatternDestructKind<'a>>)
        requires
            old(self).wf(),
        ensures
            final(self).advanced(*old(self)),
            r.1.fid == old(self).fid,
            final(self).clean() ==> final(self).splits(*old(self)) && kind_toks(final(self).read(*old(self)), r.0),
            !(old(self).curr.0 is LBrace) && !(old(self).curr.0 is LBrack) ==> final(self).curr == old(self).curr,
        decreases old(self).remaining(), 13nat,
    {
        let start = self.curr.1;
        let kind = match self.curr.0 {
            Token::LBrace => self.parse_attr_destruct(),
            Token::LBrack => self.parse_list_destruct(),
            got => {
                self.reports.emit(UnexpectedTokenPattern { span: self.curr.1, got }.to_report());
                ast::PatternDestructKind::AttrSet { fields: Vec::new(), strict: false }
            }
        };
        let end = self.last.1;
        Node(kind, start.merge(end))
    }

    /// Reads the destructuring of a pattern: after a name only with `@`.
    fn parse_pattern_destruct(&mut self, named: bool) -> (d: Option<Node<ast::PatternDestructKind<'a>>>)
        requires
            old(self).wf(),
        ensures
            final(self).advanced(*old(self)),
            final(self).clean() ==> final(self).splits(*old(self)) && match d {
                None => final(self).read(*old(self)).len() == 0 && named,
                Some(k) => if named {
                    final(self).read(*old(self)).len() >= 1 && final(self).read(*old(self))[0] == tok(Token::At)
                        && kind_toks(final(self).read(*old(self)).skip(1), k.0)
                } else {
                    kind_toks(final(self).read(*old(self)), k.0)
                },
            },
            named && !(old(self).curr.0 is At) ==> *final(self) == *old(self) && d is None,
            !named && !(old(self).curr.0 is LBrace) && !(old(self).curr.0 is LBrack) ==> final(self).curr == old(self).curr,
        decreases old(self).remaining(), 14nat,
    {
        if !named {
            Some(self.parse_pattern_kind())
        } else if self.consume_if(Token::At) {
            let ghost after_at = *self;
            let d = self.parse_pattern_kind();
            proof {
                if self.clean() {
                    Self::lemma_read_trans(*old(self), after_at, *self);
                    assert(self.read(*old(self)).skip(1) =~= self.read(after_at));
                }
            }
            Some(d)
        } else {
            proof {
                Self::lemma_read_nothing(*self);
            }
            None
        }
    }

    /// Once the name of a typed name is read, `::` and the type are next.
    proof fn lemma_typed_step(a: Self, b: Self, term: Token, closers: Seq<Tok>)
        requires
            b.wf(),
            typed_name(a.rest(), term, closers),
            b.clean(),
            b.rest() == a.rest().skip(1),
        ensures
            b.curr.0 is ColonColon,
            no_bad(b.rest()),
            type_rest(b.rest(), term, closers),
    {
        Self::lemma_typed_start(a.rest(), term, closers);
        lemma_no_bad_skip(a.rest(), 1);
        assert(b.rest()[0] == tok(b.curr.0));
    }

    /// A typed name: what its tokens are, and that none is bad.
    proof fn lemma_typed_start(ts: Seq<Tok>, term: Token, closers: Seq<Tok>)
        requires
            typed_name(ts, term, closers),
        ensures
            ts.len() >= 2,
            ts[0] is Ident,
            ts[1] == tok(Token::ColonColon),
            no_bad(ts),
            type_rest(ts.skip(1), term, closers),
    {
        reveal(typed_name);
        reveal(type_rest);
        lemma_type_clean(ts.skip(2), Seq::empty(), term, closers);
        assert(ts.skip(1).skip(1) =~= ts.skip(2));
        lemma_no_bad_cons2(ts);
    }

    /// Reads the `:: type` of a pattern, if there is one.
    fn parse_pattern_type(&mut self, Ghost(term): Ghost<Token<'a>>, Ghost(closers): Ghost<Seq<Tok>>) -> (r: Option<Node<ast::Type<'a>>>)
        requires
            old(self).wf(),
        ensures
            final(self).advanced(*old(self)),
            final(self).clean() ==> final(self).splits(*old(self)) && pattern_type_toks(final(self).read(*old(self)), r),
            !(old(self).curr.0 is ColonColon) ==> *final(self) == *old(self),
            old(self).clean() && no_bad(old(self).rest()) && type_rest(old(self).rest(), term, closers)
                ==> final(self).clean() && after_typed(final(self).rest(), term, closers),
        decreases old(self).remaining(), 12nat,
    {
        proof {
            reveal(type_rest);
            reveal(after_typed);
            if old(self).clean() && no_bad(old(self).rest()) && type_rest(old(self).rest(), term, closers) {
                assert(old(self).rest()[0] == tok(old(self).curr.0));
            }
        }
        if self.consume_if(Token::ColonColon) {
            let ghost after_cc = *self;
            let t = self.parse_type(Ghost(Seq::empty()), Ghost(term), Ghost(closers));
            proof {
                if self.clean() {
                    Self::lemma_read_trans(*old(self), after_cc, *self);
                    assert(self.read(*old(self)).skip(1) =~= self.read(after_cc));
                }
            }
            Some(t)
        } else {
            proof {
                Self::lemma_read_nothing(*self);
            }
            None
        }
    }

    #[verifier::rlimit(100)]
    #[verifier::spinoff_prover]
    pub(super) fn parse_pattern(&mut self, Ghost(term): Ghost<Token<'a>>, Ghost(closers): Ghost<Seq<Tok>>) -> (r: Node<ast::Pattern<'a>>)
        requires
            old(self).wf(),
        ensures
            final(self).advanced(*old(self)),
            r.1.fid == old(self).fid,
            final(self).clean() ==> final(self).splits(*old(self)) && pattern_toks(final(self).read(*old(self)), r.0),
            old(self).curr.0 is Num || old(self).curr.0 is String || old(self).curr.0 is LParen || old(self).curr.0 is If || old(self).curr.0 is Let ==> final(self).curr == old(self).curr,
            old(self).clean() && old(self).curr.0 is Ident && no_bad(old(self).rest()) && (old(self).rest().len() >= 2
                ==> old(self).rest()[1] != tok(Token::At) && old(self).rest()[1] != tok(Token::ColonColon))
                ==> final(self).clean() && final(self).rest() == old(self).rest().skip(1),
            old(self).clean() && old(self).curr.0 is Ident && typed_name(old(self).rest(), term, closers)
                ==> final(self).clean() && after_typed(final(self).rest(), term, closers),
        decreases old(self).remaining(), 15nat,
    {
        let ghost typed = old(self).clean() && old(self).curr.0 is Ident && typed_name(old(self).rest(), term, closers);
        proof {
            if typed {
                Self::lemma_typed_start(old(self).rest(), term, closers);
                lemma_no_bad_skip(old(self).rest(), 1);
            }
        }
        let start = self.curr.1;
        let binding = self.try_parse_ident();
        let ghost after_binding = *self;
        proof {
            if typed {
                Self::lemma_typed_step(*old(self), *self, term, closers);
            }
        }
        proof {
            if old(self).clean() && old(self).curr.0 is Ident && no_bad(old(self).rest()) && (old(self).rest().len() >= 2
                ==> old(self).rest()[1] != tok(Token::At) && old(self).rest()[1] != tok(Token::ColonColon)) {
                if !(self.curr.0 is Eof) {
                    assert(self.rest()[0] == tok(self.curr.0));
                    assert(self.rest()[0] == old(self).rest()[1]);
                }
            }
        }
        let destruct = self.parse_pattern_destruct(binding.is_some());
        let ghost after_destruct = *self;
        proof {
            if typed {
                assert(after_destruct == after_binding);
            }
        }
        let ty = self.parse_pattern_type(Ghost(term), Ghost(closers));
        let pattern = ast::Pattern { binding, destruct, ty };
        proof {
            if self.clean() {
                if binding is None {
                    Self::lemma_read_nothing(after_binding);
                    assert(after_binding.rest() == old(self).rest());
                }
                Self::lemma_read_trans(after_binding, after_destruct, *self);
                Self::lemma_read_trans(*old(self), after_binding, *self);
                let b = after_binding.read(*old(self));
                let d = after_destruct.read(after_binding);
                let t = self.read(after_destruct);
                assert(destruct_toks(d, pattern));
                lemma_pattern_toks(b, d, t, pattern);
                assert(self.read(*old(self)) =~= b + d + t);
            }
        }
        let end = self.last.1;
        Node(pattern, start.merge(end))
    }
}

} // verus!
