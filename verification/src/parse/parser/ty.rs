use vstd::prelude::*;

use super::{Delim, Parser};
use crate::files::Node;
use crate::lex::Token;
use crate::parse::ast;
use crate::parse::grammar::{
    after_type, atom_toks, bars_toks, bracket_rest, fields_rest, lemma_type_clean, no_bad, tfield_items, tfield_toks,
    tfields_sep, tok, tuple_rest, tuple_toks, type_chain, type_end, type_toks, types_sep, union_toks, Tok,
};
use crate::report::parser::UnexpectedTokenExprError;

verus! {

/// The tokens of a set type up to and with its `{`.
pub open spec fn attrset_type_start(name: Option<Node<&str>>) -> Seq<Tok> {
    match name {
        None => seq![tok(Token::LBrace)],
        Some(n) => seq![Tok::Ident(n.0@), tok(Token::LBrace)],
    }
}

impl<'a> Parser<'a> {
    /// When a type inside a group ends, the group's closing token or a `,`
    /// (in a list or set type) comes next.
    proof fn lemma_group_end(p: Self, groups: Seq<Tok>, c: Tok, term: Token, closers: Seq<Tok>)
        requires
            p.wf(),
            type_end(p.rest(), groups.push(c), term, closers),
            c == tok(Token::RParen) || c == tok(Token::RBrack) || c == tok(Token::RBrace),
        ensures
            !(p.curr.0 is Eof),
            p.rest()[0] == tok(p.curr.0),
            no_bad(p.rest()),
            tok(p.curr.0) == c ==> after_type(p.rest().skip(1), groups, term, closers),
            tok(p.curr.0) != c ==> p.curr.0 is Comma && c != tok(Token::RParen),
            p.curr.0 is Comma && c == tok(Token::RBrack) ==> bracket_rest(p.rest().skip(1), groups.push(c), term, closers),
            p.curr.0 is Comma && c == tok(Token::RBrace) ==> fields_rest(p.rest().skip(1), groups.push(c), term, closers),
    {
        lemma_type_clean(p.rest(), groups.push(c), term, closers);
        assert(groups.push(c).drop_last() =~= groups);
        if !(p.curr.0 is Eof) {
            assert(p.rest()[0] == tok(p.curr.0));
        }
    }

    /// Reads a type: union types joined by `->`, which associates to the right.
    pub(super) fn parse_type(&mut self, Ghost(groups): Ghost<Seq<Tok>>, Ghost(term): Ghost<Token<'a>>, Ghost(closers): Ghost<Seq<Tok>>) -> (r: Node<ast::Type<'a>>)
        requires
            old(self).wf(),
        ensures
            final(self).advanced(*old(self)),
            r.1.fid == old(self).fid,
            final(self).clean() ==> final(self).splits(*old(self)) && type_toks(final(self).read(*old(self)), r.0),
            old(self).clean() && type_chain(old(self).rest(), groups, term, closers) ==> final(self).clean() && type_end(final(self).rest(), groups, term, closers),
        decreases old(self).remaining(), 10nat,
    {
        let ghost chain = old(self).clean() && type_chain(old(self).rest(), groups, term, closers);
        let arg = self.parse_union_type(Ghost(groups), Ghost(term), Ghost(closers));
        let ghost after_arg = *self;
        proof {
            if chain {
                lemma_type_clean(self.rest(), groups, term, closers);
                if !(self.curr.0 is Eof) {
                    assert(self.rest()[0] == tok(self.curr.0));
                }
            }
        }
        if !self.consume_if(Token::SmallRArrow) {
            return arg;
        }
        let ghost after_arrow = *self;
        let ret = self.parse_type(Ghost(groups), Ghost(term), Ghost(closers));
        let span = arg.1.merge(ret.1);
        let r = Node(ast::Type::Lambda { arg: Box::new(arg), ret: Box::new(ret) }, span);
        proof {
            if self.clean() {
                Self::lemma_read_trans(after_arg, after_arrow, *self);
                Self::lemma_read_trans(*old(self), after_arg, *self);
                let c = self.read(*old(self));
                let k = after_arg.read(*old(self)).len() as int;
                assert(c.take(k) =~= after_arg.read(*old(self)));
                assert(c[k] == tok(Token::SmallRArrow));
                assert(c.skip(k + 1) =~= self.read(after_arrow));
                assert(type_toks(c, r.0));
            }
        }
        r
    }

    /// Reads type atoms joined by `|`.
    fn parse_union_type(&mut self, Ghost(groups): Ghost<Seq<Tok>>, Ghost(term): Ghost<Token<'a>>, Ghost(closers): Ghost<Seq<Tok>>) -> (r: Node<ast::Type<'a>>)
        requires
            old(self).wf(),
        ensures
            final(self).advanced(*old(self)),
            r.1.fid == old(self).fid,
            final(self).clean() ==> final(self).splits(*old(self)) && union_toks(final(self).read(*old(self)), r.0),
            old(self).clean() && type_chain(old(self).rest(), groups, term, closers) ==> final(self).clean()
                && after_type(final(self).rest(), groups, term, closers) && !(final(self).curr.0 is Bar),
        decreases old(self).remaining(), 9nat,
    {
        let ghost chain = old(self).clean() && type_chain(old(self).rest(), groups, term, closers);
        let first = self.parse_type_atom(Ghost(groups), Ghost(term), Ghost(closers));
        let ghost after_first = *self;
        proof {
            if chain {
                lemma_type_clean(self.rest(), groups, term, closers);
                if !(self.curr.0 is Eof) {
                    assert(self.rest()[0] == tok(self.curr.0));
                }
            }
        }
        if !self.consume_if(Token::Bar) {
            return first;
        }
        let start = first.1;
        let mut variants: Vec<Node<ast::Type<'a>>> = Vec::new();
        variants.push(first);
        proof {
            if self.clean() {
                Self::lemma_read_trans(*old(self), after_first, *self);
                assert(self.read(*old(self)).drop_last() =~= after_first.read(*old(self)));
            }
        }
        loop
            invariant_except_break
                self.clean() ==> self.splits(*old(self)) && self.read(*old(self)).len() >= 1
                    && self.read(*old(self)).last() == tok(Token::Bar)
                    && bars_toks(self.read(*old(self)).drop_last(), variants@),
                chain ==> self.clean() && type_chain(self.rest(), groups, term, closers),
            invariant
                self.advanced(*old(self)),
                self.remaining() < old(self).remaining(),
                start.fid == self.fid,
                variants@.len() >= 1,
            ensures
                self.clean() ==> self.splits(*old(self)) && bars_toks(self.read(*old(self)), variants@),
                variants@.len() >= 2,
                chain ==> self.clean() && after_type(self.rest(), groups, term, closers) && !(self.curr.0 is Bar),
            decreases self.remaining(),
        {
            let ghost at_atom = *self;
            let ghost pre = variants@;
            variants.push(self.parse_type_atom(Ghost(groups), Ghost(term), Ghost(closers)));
            let ghost after_atom = *self;
            proof {
                if chain {
                    lemma_type_clean(self.rest(), groups, term, closers);
                    if !(self.curr.0 is Eof) {
                        assert(self.rest()[0] == tok(self.curr.0));
                    }
                }
            }
            proof {
                assert(variants@.drop_last() =~= pre);
                if self.clean() {
                    Self::lemma_read_trans(*old(self), at_atom, *self);
                    let c = self.read(*old(self));
                    let k = at_atom.read(*old(self)).len() - 1;
                    assert(c.take(k) =~= at_atom.read(*old(self)).drop_last());
                    assert(c.skip(k + 1) =~= self.read(at_atom));
                    assert(bars_toks(c, variants@));
                }
            }
            if !self.consume_if(Token::Bar) {
                break;
            }
            proof {
                if self.clean() {
                    Self::lemma_read_trans(*old(self), after_atom, *self);
                    assert(self.read(*old(self)).drop_last() =~= after_atom.read(*old(self)));
                }
            }
        }
        let span = start.merge(self.last.1);
        Node(ast::Type::Union(variants), span)
    }

    /// Reads `(type)`, `[..]`, `{..}`, `Name` or `Name {..}`.
    #[verifier::rlimit(60)]
    #[verifier::spinoff_prover]
    fn parse_type_atom(&mut self, Ghost(groups): Ghost<Seq<Tok>>, Ghost(term): Ghost<Token<'a>>, Ghost(closers): Ghost<Seq<Tok>>) -> (r: Node<ast::Type<'a>>)
        requires
            old(self).wf(),
        ensures
            final(self).advanced(*old(self)),
            r.1.fid == old(self).fid,
            final(self).clean() ==> final(self).splits(*old(self)) && atom_toks(final(self).read(*old(self)), r.0),
            old(self).clean() && type_chain(old(self).rest(), groups, term, closers) ==> final(self).clean()
                && after_type(final(self).rest(), groups, term, closers),
        decreases old(self).remaining(), 8nat,
    {
        let ghost chain = old(self).clean() && type_chain(old(self).rest(), groups, term, closers);
        proof {
            if chain {
                lemma_type_clean(old(self).rest(), groups, term, closers);
                assert(self.rest()[0] == tok(self.curr.0));
            }
        }
        let start = self.curr.1;
        let ty = if self.consume_if(Token::LParen) {
            let ghost after_open = *self;
            let opening = Node(Delim::Paren, self.last.1);
            let ty = self.parse_type(Ghost(groups.push(tok(Token::RParen))), Ghost(term), Ghost(closers));
            let ghost after_ty = *self;
            proof {
                if chain {
                    Self::lemma_group_end(*self, groups, tok(Token::RParen), term, closers);
                }
            }
            self.close_delim(opening);
            proof {
                if self.clean() {
                    Self::lemma_read_trans(after_open, after_ty, *self);
                    Self::lemma_read_trans(*old(self), after_open, *self);
                    let c = self.read(*old(self));
                    let k: int = 1 + after_ty.read(after_open).len() as int;
                    assert(c.subrange(1, k) =~= after_ty.read(after_open));
                    assert(c.skip(k) =~= self.read(after_ty));
                    assert(atom_toks(c, ty.0));
                }
            }
            ty.0
        } else if self.consume_if(Token::LBrack) {
            let ghost after_open = *self;
            let opening = Node(Delim::Brack, self.last.1);
            let t = self.parse_bracket_type(opening, Ghost(groups), Ghost(term), Ghost(closers));
            proof {
                if self.clean() {
                    Self::lemma_read_trans(*old(self), after_open, *self);
                }
            }
            t
        } else if self.consume_if(Token::LBrace) {
            let ghost after_open = *self;
            let opening = Node(Delim::Brace, self.last.1);
            let t = self.parse_attrset_type(opening, None, Ghost(groups), Ghost(term), Ghost(closers));
            proof {
                if self.clean() {
                    Self::lemma_read_trans(*old(self), after_open, *self);
                }
            }
            t
        } else {
            let name = self.parse_ident();
            let ghost after_name = *self;
            proof {
                if chain {
                    lemma_type_clean(self.rest(), groups, term, closers);
                    if !(self.curr.0 is Eof) {
                        assert(self.rest()[0] == tok(self.curr.0));
                    }
                    assert(old(self).rest().skip(1).skip(1) =~= old(self).rest().skip(2));
                    if old(self).rest().len() >= 2 && old(self).rest()[1] == tok(Token::LBrace) {
                        crate::parse::grammar::lemma_no_bad_skip(old(self).rest(), 1);
                    }
                }
            }
            if self.consume_if(Token::LBrace) {
                let ghost after_open = *self;
                let opening = Node(Delim::Brace, self.last.1);
                let t = self.parse_attrset_type(opening, Some(name), Ghost(groups), Ghost(term), Ghost(closers));
                proof {
                    if self.clean() {
                        Self::lemma_read_trans(after_name, after_open, *self);
                        Self::lemma_read_trans(*old(self), after_name, *self);
                        assert(self.read(*old(self)) =~= seq![Tok::Ident(name.0@), tok(Token::LBrace)] + self.read(after_open));
                    }
                }
                t
            } else {
                ast::Type::Named(name)
            }
        };
        let end = self.last.1;
        Node(ty, start.merge(end))
    }

    /// Reads the rest of `[type]` (a list) or `[type, ..]` (a tuple).
    #[verifier::rlimit(60)]
    #[verifier::spinoff_prover]
    fn parse_bracket_type(&mut self, opening: Node<Delim>, Ghost(groups): Ghost<Seq<Tok>>, Ghost(term): Ghost<Token<'a>>, Ghost(closers): Ghost<Seq<Tok>>) -> (r: ast::Type<'a>)
        requires
            old(self).wf(),
            opening.0 == Delim::Brack,
        ensures
            final(self).advanced(*old(self)),
            final(self).clean() ==> final(self).splits(*old(self)) && atom_toks(seq![tok(Token::LBrack)] + final(self).read(*old(self)), r),
            old(self).clean() && type_chain(old(self).rest(), groups.push(tok(Token::RBrack)), term, closers) ==> final(self).clean()
                && after_type(final(self).rest(), groups, term, closers),
        decreases old(self).remaining(), 11nat,
    {
        let ghost inner = groups.push(tok(Token::RBrack));
        let ghost chain = old(self).clean() && type_chain(old(self).rest(), inner, term, closers);
        let first = self.parse_type(Ghost(inner), Ghost(term), Ghost(closers));
        let ghost after_first = *self;
        proof {
            if chain {
                Self::lemma_group_end(*self, groups, tok(Token::RBrack), term, closers);
            }
        }
        if !self.consume_if(Token::Comma) {
            self.close_delim(opening);
            let r = ast::Type::List(Box::new(first));
            proof {
                if self.clean() {
                    Self::lemma_read_trans(*old(self), after_first, *self);
                    let c = seq![tok(Token::LBrack)] + self.read(*old(self));
                    let k: int = 1 + after_first.read(*old(self)).len() as int;
                    assert(c.subrange(1, k) =~= after_first.read(*old(self)));
                    assert(c.skip(k) =~= self.read(after_first));
                    assert(atom_toks(c, r));
                }
            }
            return r;
        }
        let ghost after_comma = *self;
        proof {
            assert(inner.drop_last() =~= groups);
            if chain {
                lemma_type_clean(self.rest(), inner, term, closers);
            }
        }
        let mut elements: Vec<Node<ast::Type<'a>>> = Vec::new();
        elements.push(first);
        proof {
            Self::lemma_read_nothing(after_comma);
            assert(elements@.skip(1) =~= Seq::<Node<ast::Type<'a>>>::empty());
        }
        while !self.curr.0.is(Token::RBrack) && !self.curr.0.is(Token::Eof)
            invariant_except_break
                self.clean() ==> self.splits(after_comma) && types_sep(self.read(after_comma), elements@.skip(1)),
                chain ==> self.clean() && bracket_rest(self.rest(), inner, term, closers) && no_bad(self.rest()),
            invariant
                chain == (old(self).clean() && type_chain(old(self).rest(), inner, term, closers)),
                inner == groups.push(tok(Token::RBrack)),
                inner.drop_last() == groups,
                self.advanced(*old(self)),
                self.advanced(after_comma),
                self.remaining() < old(self).remaining(),
                elements@.len() >= 1,
                elements@[0] == first,
            ensures
                self.clean() ==> self.splits(after_comma) && tuple_rest(self.read(after_comma), elements@.skip(1)),
                chain ==> self.clean() && self.curr.0 is RBrack && after_type(self.rest().skip(1), groups, term, closers)
                    && no_bad(self.rest()),
            decreases self.remaining(),
        {
            let ghost at_el = *self;
            let ghost pre = elements@;
            proof {
                if chain {
                    assert(self.rest()[0] == tok(self.curr.0));
                }
            }
            elements.push(self.parse_type(Ghost(inner), Ghost(term), Ghost(closers)));
            let ghost after_el = *self;
            proof {
                if chain {
                    Self::lemma_group_end(*self, groups, tok(Token::RBrack), term, closers);
                }
            }
            proof {
                assert(elements@.skip(1).drop_last() =~= pre.skip(1));
                assert(elements@.skip(1).last() == elements@.last());
                assert(elements@[0] == first);
                if self.clean() {
                    Self::lemma_read_trans(after_comma, at_el, *self);
                }
            }
            if !self.consume_if(Token::Comma) {
                proof {
                    if self.clean() {
                        let c = self.read(after_comma);
                        let k = at_el.read(after_comma).len() as int;
                        assert(c.take(k) =~= at_el.read(after_comma));
                        assert(c.skip(k) =~= self.read(at_el));
                    }
                }
                break;
            }
            proof {
                if chain {
                    lemma_type_clean(self.rest(), inner, term, closers);
                }
            }
            proof {
                if self.clean() {
                    Self::lemma_read_trans(at_el, after_el, *self);
                    Self::lemma_read_trans(after_comma, at_el, *self);
                    let c = self.read(after_comma);
                    let k = at_el.read(after_comma).len() as int;
                    assert(c.take(k) =~= at_el.read(after_comma));
                    assert(c.subrange(k, c.len() - 1) =~= after_el.read(at_el));
                }
            }
        }
        let ghost after_items = *self;
        self.close_delim(opening);
        let r = ast::Type::Tuple(elements);
        proof {
            if self.clean() {
                Self::lemma_read_trans(after_comma, after_items, *self);
                Self::lemma_read_trans(after_first, after_comma, *self);
                Self::lemma_read_trans(*old(self), after_first, *self);
                let c = seq![tok(Token::LBrack)] + self.read(*old(self));
                let inner = c.subrange(1, 1 + after_items.read(*old(self)).len() as int);
                let k = after_first.read(*old(self)).len() as int;
                Self::lemma_read_trans(*old(self), after_first, after_comma);
                Self::lemma_read_trans(*old(self), after_comma, after_items);
                assert(inner =~= after_items.read(*old(self)));
                assert(inner.take(k) =~= after_first.read(*old(self)));
                assert(inner.skip(k + 1) =~= after_items.read(after_comma));
                assert(tuple_toks(inner, elements@));
                let m: int = 1 + after_items.read(*old(self)).len() as int;
                assert(c.skip(m) =~= self.read(after_items));
                assert(atom_toks(c, r));
            }
        }
        r
    }

    /// Reads the rest of `{ name :: type, .. }`.
    #[verifier::rlimit(60)]
    #[verifier::spinoff_prover]
    fn parse_attrset_type(&mut self, opening: Node<Delim>, name: Option<Node<&'a str>>, Ghost(groups): Ghost<Seq<Tok>>, Ghost(term): Ghost<Token<'a>>, Ghost(closers): Ghost<Seq<Tok>>) -> (r: ast::Type<'a>)
        requires
            old(self).wf(),
            opening.0 == Delim::Brace,
        ensures
            final(self).advanced(*old(self)),
            final(self).clean() ==> final(self).splits(*old(self)) && atom_toks(attrset_type_start(name) + final(self).read(*old(self)), r),
            old(self).clean() && fields_rest(old(self).rest(), groups.push(tok(Token::RBrace)), term, closers) ==> final(self).clean()
                && after_type(final(self).rest(), groups, term, closers),
        decreases old(self).remaining(), 11nat,
    {
        let ghost inner = groups.push(tok(Token::RBrace));
        let ghost chain = old(self).clean() && fields_rest(old(self).rest(), inner, term, closers);
        proof {
            assert(inner.drop_last() =~= groups);
            if chain {
                lemma_type_clean(self.rest(), inner, term, closers);
            }
        }
        let mut fields: Vec<Node<ast::TypeAttr<'a>>> = Vec::new();
        proof {
            Self::lemma_read_nothing(*old(self));
        }
        while !self.curr.0.is(Token::RBrace) && !self.curr.0.is(Token::Eof)
            invariant_except_break
                self.clean() ==> self.splits(*old(self)) && tfields_sep(self.read(*old(self)), fields@),
                chain ==> self.clean() && fields_rest(self.rest(), inner, term, closers) && no_bad(self.rest()),
            invariant
                self.advanced(*old(self)),
                inner.drop_last() == groups,
                chain == (old(self).clean() && fields_rest(old(self).rest(), inner, term, closers)),
                inner == groups.push(tok(Token::RBrace)),
            ensures
                self.clean() ==> self.splits(*old(self)) && tfield_items(self.read(*old(self)), fields@),
                chain ==> self.clean() && self.curr.0 is RBrace && after_type(self.rest().skip(1), groups, term, closers)
                    && no_bad(self.rest()),
            decreases self.remaining(),
        {
            let ghost at_field = *self;
            let ghost pre = fields@;
            proof {
                if chain {
                    lemma_type_clean(self.rest(), inner, term, closers);
                    assert(self.rest()[0] == tok(self.curr.0));
                    assert(self.rest().skip(1).skip(1) =~= self.rest().skip(2));
                    crate::parse::grammar::lemma_no_bad_skip(self.rest(), 1);
                }
            }
            let start = self.curr.1;
            let field_name = self.parse_ident();
            let ghost after_name = *self;
            if !self.consume_if(Token::ColonColon) {
                self.reports.emit(UnexpectedTokenExprError { span: self.curr.1, token: self.curr.0, expected: Some(Token::ColonColon) }.to_report());
            }
            let ghost after_cc = *self;
            let ty = self.parse_type(Ghost(inner), Ghost(term), Ghost(closers));
            proof {
                if chain {
                    Self::lemma_group_end(*self, groups, tok(Token::RBrace), term, closers);
                }
            }
            let span = start.merge(ty.1);
            let field = ast::TypeAttr { name: field_name, ty };
            let ghost after_field = *self;
            proof {
                if self.clean() {
                    Self::lemma_read_trans(after_name, after_cc, *self);
                    Self::lemma_read_trans(at_field, after_name, *self);
                    let f = self.read(at_field);
                    assert(f.skip(2) =~= self.read(after_cc));
                    assert(tfield_toks(f, field));
                    Self::lemma_read_trans(*old(self), at_field, *self);
                }
            }
            fields.push(Node(field, span));
            proof {
                assert(fields@.drop_last() =~= pre);
            }
            if !self.consume_if(Token::Comma) {
                proof {
                    if self.clean() {
                        let c = self.read(*old(self));
                        let k = at_field.read(*old(self)).len() as int;
                        assert(c.take(k) =~= at_field.read(*old(self)));
                        assert(c.skip(k) =~= self.read(at_field));
                    }
                }
                break;
            }
            proof {
                if chain {
                    lemma_type_clean(self.rest(), inner, term, closers);
                }
            }
            proof {
                if self.clean() {
                    Self::lemma_read_trans(at_field, after_field, *self);
                    Self::lemma_read_trans(*old(self), at_field, *self);
                    let c = self.read(*old(self));
                    let k = at_field.read(*old(self)).len() as int;
                    assert(c.take(k) =~= at_field.read(*old(self)));
                    assert(c.subrange(k, c.len() - 1) =~= after_field.read(at_field));
                }
            }
        }
        let ghost after_items = *self;
        self.close_delim(opening);
        let r = ast::Type::AttrSet { name, fields };
        proof {
            if self.clean() {
                Self::lemma_read_trans(*old(self), after_items, *self);
                let s = attrset_type_start(name);
                let c = s + self.read(*old(self));
                let k: int = s.len() + after_items.read(*old(self)).len() as int;
                assert(c.subrange(s.len() as int, k) =~= after_items.read(*old(self)));
                assert(c.skip(k) =~= self.read(after_items));
                assert(atom_toks(c, r));
            }
        }
        r
    }
}

} // verus!
