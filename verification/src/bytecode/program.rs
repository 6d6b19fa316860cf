use vstd::prelude::*;

use super::op::OpCode;
use crate::compiler::{lets_named, top_level_code, Compiler};
use crate::files::{Node, Span};
use crate::mir::ast as mir;

verus! {

/// A position in the code of a program.
#[derive(Clone, Copy, Debug, PartialEq, Eq, Hash, Structural)]
pub struct CodePos(usize);

impl CodePos {
    pub closed spec fn pos(self) -> usize {
        self.0
    }

    pub fn index(self) -> (r: usize)
        ensures
            r == self.pos(),
    {
        self.0
    }

    pub fn from_index(index: usize) -> (r: Self)
        ensures
            r.pos() == index,
    {
        CodePos(index)
    }

    /// The position `offset` instructions further.
    pub fn plus(self, offset: CodeLocOffset) -> (r: Self)
        requires
            self.pos() + offset.len() <= usize::MAX,
        ensures
            r.pos() == self.pos() + offset.len(),
    {
        CodePos(self.0 + offset.0)
    }
}

/// A number of instructions, as jumps count them.
#[derive(Clone, Copy, Debug, PartialEq, Eq, Hash, Structural)]
pub struct CodeLocOffset(pub usize);

impl CodeLocOffset {
    pub open spec fn len(self) -> usize {
        self.0
    }

    pub fn offset(self) -> (r: usize)
        ensures
            r == self.len(),
    {
        self.0
    }
}

/// Where the code of an expression starts.
pub type ExprLoc = CodePos;

/// An interned string, numbered from 1.
#[derive(Clone, Copy, Debug, PartialEq, Eq, Hash, Structural)]
pub struct StrId(usize);

impl StrId {
    pub closed spec fn id(self) -> usize {
        self.0
    }

    /// The id numbered `n`.
    pub closed spec fn from_id(n: usize) -> StrId {
        StrId(n)
    }

    pub fn index(self) -> (r: usize)
        ensures
            r == self.id(),
    {
        self.0
    }
}

/// A function of a program, numbered from 1.
#[derive(Clone, Copy, Debug, PartialEq, Eq, Hash, Structural)]
pub struct LambdaId(usize);

impl LambdaId {
    pub closed spec fn id(self) -> usize {
        self.0
    }

    /// The id numbered `n`.
    pub closed spec fn from_id(n: usize) -> LambdaId {
        LambdaId(n)
    }

    pub fn index(self) -> (r: usize)
        ensures
            r == self.id(),
    {
        self.0
    }
}

/// An expression of a program, numbered from 1.
#[derive(Clone, Copy, Debug, PartialEq, Eq, Hash, Structural)]
pub struct ExprId(usize);

impl ExprId {
    pub closed spec fn id(self) -> usize {
        self.0
    }

    /// The id numbered `n`.
    pub closed spec fn from_id(n: usize) -> ExprId {
        ExprId(n)
    }
}

#[derive(Clone, Copy, Debug)]
pub struct Lambda {
    pub code: CodePos,
    pub span: Span,
}

#[derive(Clone, Copy, Debug)]
pub struct Expr {
    pub start: CodePos,
    pub end: CodePos,
    pub span: Span,
}

/// Compiled code: the instructions of all expressions one after the other,
/// each ending with `Ret`, the functions and expressions found in it, and
/// the strings it loads.
#[derive(Debug)]
pub struct Program {
    code: Vec<OpCode>,
    lambdas: Vec<Lambda>,
    expressions: Vec<Expr>,
    strings: Vec<String>,
}

#[verifier::ext_equal]
pub struct ProgramView {
    pub code: Seq<OpCode>,
    pub lambdas: Seq<Lambda>,
    pub expressions: Seq<Expr>,
    pub strings: Seq<Seq<char>>,
}

impl View for Program {
    type V = ProgramView;

    closed spec fn view(&self) -> ProgramView {
        ProgramView {
            code: self.code@,
            lambdas: self.lambdas@,
            expressions: self.expressions@,
            strings: self.strings@.map_values(|s: String| s@),
        }
    }
}

/// The program after interning `s`.
pub open spec fn with_str(p: ProgramView, s: Seq<char>) -> ProgramView {
    ProgramView { code: p.code, lambdas: p.lambdas, expressions: p.expressions, strings: p.strings.push(s) }
}

/// The program after adding the code of an expression, ended by `Ret`.
pub open spec fn with_expr(p: ProgramView, span: Span, code: Seq<OpCode>) -> ProgramView {
    ProgramView {
        code: p.code + code.push(OpCode::Ret),
        lambdas: p.lambdas,
        expressions: p.expressions.push(Expr {
            start: CodePos::from_index_spec(p.code.len() as usize),
            end: CodePos::from_index_spec((p.code.len() + code.len() + 1) as usize),
            span,
        }),
        strings: p.strings,
    }
}

/// The program after adding the code of a function.
pub open spec fn with_lambda(p: ProgramView, span: Span, code: Seq<OpCode>) -> ProgramView {
    let q = with_expr(p, span, code);
    ProgramView {
        code: q.code,
        lambdas: q.lambdas.push(Lambda { code: CodePos::from_index_spec(p.code.len() as usize), span }),
        expressions: q.expressions,
        strings: q.strings,
    }
}

/// Whether `b` holds everything `a` holds, at the same places, and maybe
/// more after it.
pub open spec fn grows(a: ProgramView, b: ProgramView) -> bool {
    &&& a.code.len() <= b.code.len() && b.code.subrange(0, a.code.len() as int) == a.code
    &&& a.lambdas.len() <= b.lambdas.len() && b.lambdas.subrange(0, a.lambdas.len() as int) == a.lambdas
    &&& a.expressions.len() <= b.expressions.len() && b.expressions.subrange(0, a.expressions.len() as int) == a.expressions
    &&& a.strings.len() <= b.strings.len() && b.strings.subrange(0, a.strings.len() as int) == a.strings
}

pub proof fn lemma_grows_refl(a: ProgramView)
    ensures
        grows(a, a),
{
    assert(a.code.subrange(0, a.code.len() as int) =~= a.code);
    assert(a.lambdas.subrange(0, a.lambdas.len() as int) =~= a.lambdas);
    assert(a.expressions.subrange(0, a.expressions.len() as int) =~= a.expressions);
    assert(a.strings.subrange(0, a.strings.len() as int) =~= a.strings);
}

pub proof fn lemma_grows_trans(a: ProgramView, b: ProgramView, c: ProgramView)
    requires
        grows(a, b),
        grows(b, c),
    ensures
        grows(a, c),
{
    assert(c.code.subrange(0, a.code.len() as int) =~= b.code.subrange(0, a.code.len() as int));
    assert(c.lambdas.subrange(0, a.lambdas.len() as int) =~= b.lambdas.subrange(0, a.lambdas.len() as int));
    assert(c.expressions.subrange(0, a.expressions.len() as int) =~= b.expressions.subrange(0, a.expressions.len() as int));
    assert(c.strings.subrange(0, a.strings.len() as int) =~= b.strings.subrange(0, a.strings.len() as int));
}

/// Interning a string keeps what was there.
pub proof fn lemma_with_str_grows(p: ProgramView, s: Seq<char>)
    ensures
        grows(p, with_str(p, s)),
{
    assert(with_str(p, s).strings.subrange(0, p.strings.len() as int) =~= p.strings);
    lemma_grows_refl(p);
}

/// Adding an expression or a function keeps what was there.
pub proof fn lemma_with_code_grows(p: ProgramView, span: Span, code: Seq<OpCode>)
    ensures
        grows(p, with_expr(p, span, code)),
        grows(p, with_lambda(p, span, code)),
{
    let q = with_expr(p, span, code);
    assert(q.code.subrange(0, p.code.len() as int) =~= p.code);
    assert(q.expressions.subrange(0, p.expressions.len() as int) =~= p.expressions);
    assert(with_lambda(p, span, code).lambdas.subrange(0, p.lambdas.len() as int) =~= p.lambdas);
    lemma_grows_refl(p);
}

/// Whether `pos` lies in the code of `e`.
pub open spec fn covers(e: Expr, pos: CodePos) -> bool {
    e.start.pos() <= pos.pos() < e.end.pos()
}

/// The expressions of `exprs` that cover `pos`, the smallest first found:
/// the index of the first of least length, if any covers it.
pub open spec fn smallest_cover(exprs: Seq<Expr>, pos: CodePos) -> Option<int>
    decreases exprs.len(),
{
    if exprs.len() == 0 {
        None
    } else {
        let prev = smallest_cover(exprs.drop_last(), pos);
        let last = exprs.last();
        if !covers(last, pos) {
            prev
        } else {
            match prev {
                Some(i) => if last.end.pos() - last.start.pos() < exprs[i].end.pos() - exprs[i].start.pos() { Some(exprs.len() - 1) } else { Some(i) },
                None => Some(exprs.len() - 1),
            }
        }
    }
}

pub proof fn lemma_smallest_cover_in_range(exprs: Seq<Expr>, pos: CodePos)
    ensures
        smallest_cover(exprs, pos) matches Some(i) ==> 0 <= i < exprs.len(),
    decreases exprs.len(),
{
    if exprs.len() > 0 {
        lemma_smallest_cover_in_range(exprs.drop_last(), pos);
    }
}

impl Program {
    pub fn new() -> (p: Self)
        ensures
            p@.code == Seq::<OpCode>::empty(),
            p@.lambdas == Seq::<Lambda>::empty(),
            p@.expressions == Seq::<Expr>::empty(),
            p@.strings == Seq::<Seq<char>>::empty(),
    {
        let p = Program { code: Vec::new(), lambdas: Vec::new(), expressions: Vec::new(), strings: Vec::new() };
        assert(p@.strings =~= Seq::<Seq<char>>::empty());
        p
    }

    /// Compiles a program's expression into this program and returns where
    /// its code starts.
    pub fn compile(&mut self, expr: &Node<mir::Expr<'_>>) -> (r: CodePos)
        requires
            lets_named(expr.0),
        ensures
            (final(self)@, r) == top_level_code(old(self)@, *expr),
    {
        let compiler = Compiler::new();
        compiler.compile_top_level(self, expr)
    }

    /// The instruction at `loc` and the position after it.
    pub fn get(&self, loc: CodePos) -> (r: Option<(OpCode, CodePos)>)
        ensures
            match r {
                Some((op, next)) => loc.pos() < self@.code.len() && op == self@.code[loc.pos() as int] && next.pos() == loc.pos() + 1,
                None => loc.pos() >= self@.code.len(),
            },
    {
        if loc.0 < self.code.len() {
            Some((self.code[loc.0], CodePos(loc.0 + 1)))
        } else {
            None
        }
    }

    /// The interned string `id`.
    pub fn get_str(&self, id: StrId) -> (r: Option<&String>)
        ensures
            match r {
                Some(s) => 1 <= id.id() <= self@.strings.len() && s@ == self@.strings[id.id() - 1],
                None => !(1 <= id.id() <= self@.strings.len()),
            },
    {
        if id.0 >= 1 && id.0 <= self.strings.len() {
            Some(&self.strings[id.0 - 1])
        } else {
            None
        }
    }

    pub fn get_lambda(&self, lambda: LambdaId) -> (r: Option<&Lambda>)
        ensures
            match r {
                Some(l) => 1 <= lambda.id() <= self@.lambdas.len() && *l == self@.lambdas[lambda.id() - 1],
                None => !(1 <= lambda.id() <= self@.lambdas.len()),
            },
    {
        if lambda.0 >= 1 && lambda.0 <= self.lambdas.len() {
            Some(&self.lambdas[lambda.0 - 1])
        } else {
            None
        }
    }

    pub fn ops(&self) -> (r: &Vec<OpCode>)
        ensures
            r@ == self@.code,
    {
        &self.code
    }

    pub fn lambdas(&self) -> (r: &Vec<Lambda>)
        ensures
            r@ == self@.lambdas,
    {
        &self.lambdas
    }

    pub fn expressions(&self) -> (r: &Vec<Expr>)
        ensures
            r@ == self@.expressions,
    {
        &self.expressions
    }

    /// The source of the instruction at `pos`: the span of the smallest
    /// expression whose code covers it (the first such), else that of the
    /// last expression. A program without expressions has none to give.
    pub fn find_pos(&self, pos: CodePos) -> (r: Span)
        requires
            self@.expressions.len() > 0,
        ensures
            r == (match smallest_cover(self@.expressions, pos) {
                Some(i) => self@.expressions[i].span,
                None => self@.expressions.last().span,
            }),
    {
        let mut best: Option<usize> = None;
        let mut i: usize = 0;
        assert(self.expressions@.take(0) =~= Seq::<Expr>::empty());
        while i < self.expressions.len()
            invariant
                i <= self.expressions@.len(),
                match best {
                    Some(b) => smallest_cover(self.expressions@.take(i as int), pos) == Some(b as int) && b < i && covers(self.expressions@[b as int], pos),
                    None => smallest_cover(self.expressions@.take(i as int), pos) is None,
                },
            decreases self.expressions@.len() - i,
        {
            assert(self.expressions@.take(i + 1).drop_last() =~= self.expressions@.take(i as int));
            assert(self.expressions@.take(i + 1).last() == self.expressions@[i as int]);
            let e = self.expressions[i];
            if e.start.0 <= pos.0 && pos.0 < e.end.0 {
                match best {
                    Some(b) => {
                        let cur = self.expressions[b];
                        assert(self.expressions@.take(i + 1)[b as int] == cur);
                        if e.end.0 - e.start.0 < cur.end.0 - cur.start.0 {
                            best = Some(i);
                        }
                    },
                    None => {
                        best = Some(i);
                    },
                }
            }
            i = i + 1;
        }
        assert(self.expressions@.take(i as int) =~= self.expressions@);
        match best {
            Some(b) => self.expressions[b].span,
            None => self.expressions[self.expressions.len() - 1].span,
        }
    }

    /// Interns a string; its id is its number among the strings, from 1.
    pub fn emit_str(&mut self, s: &str) -> (r: StrId)
        ensures
            final(self)@ == with_str(old(self)@, s@),
            r == StrId::from_id(final(self)@.strings.len() as usize),
            r.id() == final(self)@.strings.len(),
    {
        self.strings.push(String::from_str(s));
        assert(self@ =~= with_str(old(self)@, s@));
        StrId(self.strings.len())
    }

    /// Adds the code of an expression, ended by `Ret`, and returns its id and
    /// where it starts.
    pub fn emit_expr(&mut self, span: Span, code: Vec<OpCode>) -> (r: (ExprId, CodePos))
        ensures
            final(self)@ == with_expr(old(self)@, span, code@),
            r.0 == ExprId::from_id(final(self)@.expressions.len() as usize),
            r.1 == CodePos::from_index_spec(old(self)@.code.len() as usize),
            r.1.pos() == old(self)@.code.len(),
    {
        let start = CodePos(self.code.len());
        let ghost before = self.code@;
        let mut i: usize = 0;
        while i < code.len()
            invariant
                i <= code@.len(),
                self.code@ == before + code@.take(i as int),
                before == old(self).code@,
                start.0 == before.len(),
                self.expressions == old(self).expressions,
                self.lambdas == old(self).lambdas,
                self.strings == old(self).strings,
            decreases code@.len() - i,
        {
            self.code.push(code[i]);
            i = i + 1;
            assert(self.code@ =~= before + code@.take(i as int));
        }
        self.code.push(OpCode::Ret);
        let end = CodePos(self.code.len());
        self.expressions.push(Expr { start, end, span });
        let id = ExprId(self.expressions.len());
        assert(code@.take(i as int) =~= code@);
        assert(self@ =~= with_expr(old(self)@, span, code@));
        (id, start)
    }

    /// Adds the code of a function, as an expression, and returns its id and
    /// where it starts.
    pub fn emit_lambda(&mut self, span: Span, code: Vec<OpCode>) -> (r: (LambdaId, CodePos))
        ensures
            final(self)@ == with_lambda(old(self)@, span, code@),
            r.0 == LambdaId::from_id(final(self)@.lambdas.len() as usize),
            r.1 == CodePos::from_index_spec(old(self)@.code.len() as usize),
    {
        let (_, code_pos) = self.emit_expr(span, code);
        self.lambdas.push(Lambda { code: code_pos, span });
        assert(self@ =~= with_lambda(old(self)@, span, code@));
        (LambdaId(self.lambdas.len()), code_pos)
    }
}

pub proof fn lemma_code_pos_eq(p: CodePos, index: usize)
    requires
        p.pos() == index,
    ensures
        p == CodePos::from_index_spec(index),
{
}

impl CodePos {
    pub closed spec fn from_index_spec(index: usize) -> CodePos {
        CodePos(index)
    }
}

} // verus!
