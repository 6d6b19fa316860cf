use vstd::prelude::*;

use super::op::OpCode;
use super::program::{with_lambda, with_str, CodeLocOffset, CodePos, LambdaId, Program, StrId};
use crate::files::Span;

verus! {

/// Builds the code of one expression. Code that a construct places after a
/// jump is built first, on its own, and then laid out with the jump.
pub struct ByteCodeBuilder {
    code: Vec<OpCode>,
}

/// The code of the attribute lookups `parts`, laid out from `base`: each
/// part's code, then `GetAttrOr` jumping to `target`, with `EvalThunk`
/// between parts.
pub open spec fn lookup_chain(parts: Seq<Seq<OpCode>>, n: int, base: int, target: int) -> Seq<OpCode> {
    lookup_chain_patched(parts, n, base, target, n)
}

/// `lookup_chain` while it is being laid out: only the jumps of the first
/// `patched` parts point at `target` yet, the others at the next
/// instruction.
pub open spec fn lookup_chain_patched(parts: Seq<Seq<OpCode>>, n: int, base: int, target: int, patched: int) -> Seq<OpCode>
    decreases n,
{
    if n <= 0 || n > parts.len() {
        Seq::empty()
    } else {
        let prev = lookup_chain_patched(parts, n - 1, base, target, patched);
        let at = base + prev.len() + parts[n - 1].len();
        let offset = if n - 1 < patched { (target - at - 1) as usize } else { 0usize };
        prev + parts[n - 1] + seq![OpCode::GetAttrOr(CodeLocOffset(offset))] + (if n < parts.len() { seq![OpCode::EvalThunk] } else { Seq::empty() })
    }
}

/// The length of `lookup_chain`, which does not depend on where it jumps.
pub open spec fn lookup_chain_len(parts: Seq<Seq<OpCode>>, n: int) -> int
    decreases n,
{
    if n <= 0 || n > parts.len() {
        0
    } else {
        lookup_chain_len(parts, n - 1) + parts[n - 1].len() + 1 + (if n < parts.len() { 1int } else { 0 })
    }
}

pub(crate) proof fn lemma_lookup_chain_len(parts: Seq<Seq<OpCode>>, n: int, base: int, target: int, patched: int)
    ensures
        lookup_chain_patched(parts, n, base, target, patched).len() == lookup_chain_len(parts, n),
    decreases n,
{
    if n > 0 && n <= parts.len() {
        lemma_lookup_chain_len(parts, n - 1, base, target, patched);
    }
}

/// Where the `GetAttrOr` of part `k` stands.
pub open spec fn lookup_jump_at(parts: Seq<Seq<OpCode>>, k: int, base: int) -> int {
    base + lookup_chain_len(parts, k) + parts[k].len()
}

/// Patching the jump of part `k` turns the chain patched up to `k` into the
/// chain patched up to `k + 1`.
proof fn lemma_patch_step(parts: Seq<Seq<OpCode>>, n: int, base: int, target: int, k: int)
    requires
        0 <= k < n <= parts.len(),
        target >= lookup_jump_at(parts, k, base) + 1,
    ensures
        lookup_chain_patched(parts, n, base, target, k + 1) == lookup_chain_patched(parts, n, base, target, k).update(
            lookup_jump_at(parts, k, base) - base,
            OpCode::GetAttrOr(CodeLocOffset((target - lookup_jump_at(parts, k, base) - 1) as usize)),
        ),
    decreases n,
{
    lemma_lookup_chain_len(parts, n - 1, base, target, k);
    lemma_lookup_chain_len(parts, n - 1, base, target, k + 1);
    lemma_lookup_chain_len(parts, k, base, target, k);
    let a = lookup_chain_patched(parts, n, base, target, k + 1);
    let b = lookup_chain_patched(parts, n, base, target, k).update(
        lookup_jump_at(parts, k, base) - base,
        OpCode::GetAttrOr(CodeLocOffset((target - lookup_jump_at(parts, k, base) - 1) as usize)),
    );
    if k < n - 1 {
        lemma_patch_step(parts, n - 1, base, target, k);
        lemma_lookup_chain_len_mono(parts, k + 1, n - 1);
        assert(a =~= b);
    } else {
        lemma_lookup_chain_unpatched(parts, n - 1, base, target, k);
        assert(a =~= b);
    }
}

/// Parts beyond `patched` do not see the patch count.
proof fn lemma_lookup_chain_unpatched(parts: Seq<Seq<OpCode>>, n: int, base: int, target: int, k: int)
    requires
        n <= k,
    ensures
        lookup_chain_patched(parts, n, base, target, k) == lookup_chain_patched(parts, n, base, target, k + 1),
    decreases n,
{
    if n > 0 && n <= parts.len() {
        lemma_lookup_chain_unpatched(parts, n - 1, base, target, k);
    }
}

/// An attribute lookup with a fallback: the lookups of `parts`, then
/// `success` and a `Branch` over `fallback`, then `fallback`, where every
/// lookup that fails jumps.
pub open spec fn attr_or_code(parts: Seq<Seq<OpCode>>, success: Seq<OpCode>, fallback: Seq<OpCode>) -> Seq<OpCode> {
    lookup_chain(parts, parts.len() as int, 0, lookup_chain_len(parts, parts.len() as int) + success.len() + 1) + success
        + seq![OpCode::Branch(CodeLocOffset(fallback.len() as usize))] + fallback
}

/// Jumps are relative: where the chain starts does not change it.
proof fn lemma_lookup_chain_shift(parts: Seq<Seq<OpCode>>, n: int, base: int, t: int, k: int)
    ensures
        lookup_chain_patched(parts, n, base, base + t, k) == lookup_chain_patched(parts, n, 0, t, k),
    decreases n,
{
    if n > 0 && n <= parts.len() {
        lemma_lookup_chain_shift(parts, n - 1, base, t, k);
        lemma_lookup_chain_len(parts, n - 1, base, base + t, k);
        lemma_lookup_chain_len(parts, n - 1, 0, t, k);
    }
}

pub open spec fn views_of(parts: Seq<Vec<OpCode>>) -> Seq<Seq<OpCode>> {
    parts.map_values(|p: Vec<OpCode>| p@)
}

impl ByteCodeBuilder {
    pub closed spec fn code(&self) -> Seq<OpCode> {
        self.code@
    }

    pub fn new() -> (b: Self)
        ensures
            b.code() == Seq::<OpCode>::empty(),
    {
        ByteCodeBuilder { code: Vec::new() }
    }

    pub fn finish(self) -> (code: Vec<OpCode>)
        ensures
            code@ == self.code(),
    {
        self.code
    }

    pub fn emit(&mut self, op: OpCode)
        ensures
            final(self).code() == old(self).code().push(op),
    {
        self.code.push(op);
    }

    fn emit_all(&mut self, ops: &Vec<OpCode>)
        ensures
            final(self).code() == old(self).code() + ops@,
    {
        let mut i: usize = 0;
        while i < ops.len()
            invariant
                i <= ops@.len(),
                self.code@ == old(self).code@ + ops@.take(i as int),
            decreases ops@.len() - i,
        {
            self.code.push(ops[i]);
            i = i + 1;
            assert(self.code@ =~= old(self).code@ + ops@.take(i as int));
        }
        assert(ops@.take(i as int) =~= ops@);
    }

    /// `&&`: when the first operand is false, jumps over the code of the
    /// second.
    pub fn emit_and(&mut self, second: Vec<OpCode>)
        ensures
            final(self).code() == old(self).code() + seq![OpCode::And(CodeLocOffset(second@.len() as usize))] + second@,
    {
        self.emit(OpCode::And(CodeLocOffset(second.len())));
        self.emit_all(&second);
        assert(self.code() =~= old(self).code() + seq![OpCode::And(CodeLocOffset(second@.len() as usize))] + second@);
    }

    /// `||`: when the first operand is true, jumps over the code of the
    /// second.
    pub fn emit_or(&mut self, second: Vec<OpCode>)
        ensures
            final(self).code() == old(self).code() + seq![OpCode::Or(CodeLocOffset(second@.len() as usize))] + second@,
    {
        self.emit(OpCode::Or(CodeLocOffset(second.len())));
        self.emit_all(&second);
        assert(self.code() =~= old(self).code() + seq![OpCode::Or(CodeLocOffset(second@.len() as usize))] + second@);
    }

    /// `->`: when the first operand is false, jumps over the code of the
    /// second.
    pub fn emit_log_imp(&mut self, second: Vec<OpCode>)
        ensures
            final(self).code() == old(self).code() + seq![OpCode::LogImp(CodeLocOffset(second@.len() as usize))] + second@,
    {
        self.emit(OpCode::LogImp(CodeLocOffset(second.len())));
        self.emit_all(&second);
        assert(self.code() =~= old(self).code() + seq![OpCode::LogImp(CodeLocOffset(second@.len() as usize))] + second@);
    }

    /// Starts a conditional with the code of its `then` branch.
    pub fn emit_if_then(&mut self, then_code: Vec<OpCode>) -> (t: ThenBuilder)
        ensures
            t.code@ == then_code@,
            final(self).code() == old(self).code(),
    {
        ThenBuilder { code: then_code }
    }

    /// Looks up the path whose parts are computed by `parts` in the value on
    /// the stack: after each part, `GetAttrOr` jumps to the code of
    /// `fallback` when the attribute is missing; when every part is found,
    /// `success` runs and then jumps over the fallback.
    pub fn emit_get_attr_or(&mut self, parts: Vec<Vec<OpCode>>, success: Vec<OpCode>, fallback: Vec<OpCode>)
        ensures
            final(self).code() == old(self).code() + attr_or_code(views_of(parts@), success@, fallback@),
            ({
                let base = old(self).code().len() as int;
                let chain_len = lookup_chain_len(views_of(parts@), parts@.len() as int);
                let target = base + chain_len + success@.len() + 1;
                final(self).code() == old(self).code() + lookup_chain(views_of(parts@), parts@.len() as int, base, target) + success@
                    + seq![OpCode::Branch(CodeLocOffset(fallback@.len() as usize))] + fallback@
            }),
    {
        let ghost ps = views_of(parts@);
        let ghost base = self.code@.len() as int;
        let n = parts.len();
        assert(ps.len() == n);
        let mut to_update: Vec<usize> = Vec::new();
        let mut i: usize = 0;
        proof {
            lemma_lookup_chain_len(ps, 0, base, 0, 0);
        }
        while i < n
            invariant
                n == parts@.len(),
                ps == views_of(parts@),
                ps.len() == n,
                i <= n,
                base == old(self).code@.len(),
                self.code@ == old(self).code@ + lookup_chain_patched(ps, i as int, base, 0, 0),
                to_update@.len() == i,
                forall|k: int| 0 <= k < i ==> to_update@[k] == lookup_jump_at(ps, k, base),
            decreases n - i,
        {
            proof {
                lemma_lookup_chain_len(ps, i as int, base, 0, 0);
                assert(ps[i as int] == parts@[i as int]@);
            }
            self.emit_all(&parts[i]);
            to_update.push(self.code.len());
            self.emit(OpCode::GetAttrOr(CodeLocOffset(0)));
            if i + 1 < n {
                self.emit(OpCode::EvalThunk);
            }
            i = i + 1;
            assert(self.code@ =~= old(self).code@ + lookup_chain_patched(ps, i as int, base, 0, 0));
        }
        self.emit_all(&success);
        self.emit(OpCode::Branch(CodeLocOffset(fallback.len())));
        let target = self.code.len();
        let ghost chain_len = lookup_chain_len(ps, n as int);
        proof {
            lemma_lookup_chain_len(ps, n as int, base, 0, 0);
            assert(target == base + chain_len + success@.len() + 1);
            assert(lookup_chain_patched(ps, n as int, base, 0, 0) == lookup_chain_patched(ps, n as int, base, target as int, 0)) by {
                lemma_chain_target_irrelevant(ps, n as int, base, target as int);
            }
        }
        let mut k: usize = 0;
        while k < to_update.len()
            invariant
                n == parts@.len(),
                ps == views_of(parts@),
                ps.len() == n,
                to_update@.len() == n,
                k <= n,
                base == old(self).code@.len(),
                target == base + chain_len + success@.len() + 1,
                chain_len == lookup_chain_len(ps, n as int),
                forall|j: int| 0 <= j < n ==> to_update@[j] == lookup_jump_at(ps, j, base),
                self.code@ == old(self).code@ + lookup_chain_patched(ps, n as int, base, target as int, k as int) + success@
                    + seq![OpCode::Branch(CodeLocOffset(fallback@.len() as usize))],
            decreases n - k,
        {
            let pos = to_update[k];
            proof {
                lemma_lookup_chain_len_mono(ps, k as int + 1, n as int);
                lemma_lookup_chain_len(ps, n as int, base, target as int, k as int);
                assert(lookup_chain_len(ps, k as int + 1) >= lookup_chain_len(ps, k as int) + ps[k as int].len() + 1);
                lemma_patch_step(ps, n as int, base, target as int, k as int);
            }
            let ghost before = self.code@;
            let ghost chain_k = lookup_chain_patched(ps, n as int, base, target as int, k as int);
            assert(pos == lookup_jump_at(ps, k as int, base));
            proof {
                lemma_lookup_chain_len_nonneg(ps, k as int);
            }
            assert(pos - base < chain_k.len());
            self.code.set(pos, OpCode::GetAttrOr(CodeLocOffset(target - pos - 1)));
            proof {
                let x = OpCode::GetAttrOr(CodeLocOffset((target - pos - 1) as usize));
                assert(self.code@ == before.update(pos as int, x));
                assert(before == old(self).code@ + chain_k + success@ + seq![OpCode::Branch(CodeLocOffset(fallback@.len() as usize))]);
                assert(lookup_chain_patched(ps, n as int, base, target as int, k + 1) == chain_k.update(pos - base, x));
                lemma_update_middle(old(self).code@, chain_k, success@ + seq![OpCode::Branch(CodeLocOffset(fallback@.len() as usize))], pos - base, x);
                assert(old(self).code@ + chain_k + success@ + seq![OpCode::Branch(CodeLocOffset(fallback@.len() as usize))]
                    == old(self).code@ + chain_k + (success@ + seq![OpCode::Branch(CodeLocOffset(fallback@.len() as usize))]));
                assert(old(self).code@ + chain_k.update(pos - base, x) + success@ + seq![OpCode::Branch(CodeLocOffset(fallback@.len() as usize))]
                    == old(self).code@ + chain_k.update(pos - base, x) + (success@ + seq![OpCode::Branch(CodeLocOffset(fallback@.len() as usize))]));
            }
            k = k + 1;
            assert(self.code@ =~= old(self).code@ + lookup_chain_patched(ps, n as int, base, target as int, k as int) + success@
                + seq![OpCode::Branch(CodeLocOffset(fallback@.len() as usize))]);
        }
        self.emit_all(&fallback);
        proof {
            let t = chain_len + success@.len() + 1;
            lemma_lookup_chain_shift(ps, n as int, base, t, n as int);
            assert(self.code@ =~= old(self).code@ + attr_or_code(ps, success@, fallback@));
        }
    }

    /// Creates a thunk of the code at `loc`, when the operand needed one.
    pub fn maybe_emit_create_thunk(&mut self, loc: Option<CodePos>)
        ensures
            final(self).code() == old(self).code() + match loc {
                Some(l) => seq![OpCode::CreateThunk(l)],
                None => Seq::<OpCode>::empty(),
            },
    {
        match loc {
            Some(l) => self.emit(OpCode::CreateThunk(l)),
            None => {},
        }
        assert(self.code() =~= old(self).code() + match loc {
            Some(l) => seq![OpCode::CreateThunk(l)],
            None => Seq::<OpCode>::empty(),
        });
    }

    pub fn emit_add(&mut self)
        ensures
            final(self).code() == old(self).code().push(OpCode::Add),
    {
        self.emit(OpCode::Add)
    }

    pub fn emit_sub(&mut self)
        ensures
            final(self).code() == old(self).code().push(OpCode::Sub),
    {
        self.emit(OpCode::Sub)
    }

    pub fn emit_mul(&mut self)
        ensures
            final(self).code() == old(self).code().push(OpCode::Mul),
    {
        self.emit(OpCode::Mul)
    }

    pub fn emit_div(&mut self)
        ensures
            final(self).code() == old(self).code().push(OpCode::Div),
    {
        self.emit(OpCode::Div)
    }

    pub fn emit_rem(&mut self)
        ensures
            final(self).code() == old(self).code().push(OpCode::Rem),
    {
        self.emit(OpCode::Rem)
    }

    pub fn emit_eq(&mut self)
        ensures
            final(self).code() == old(self).code().push(OpCode::Eq),
    {
        self.emit(OpCode::Eq)
    }

    pub fn emit_ne(&mut self)
        ensures
            final(self).code() == old(self).code().push(OpCode::Ne),
    {
        self.emit(OpCode::Ne)
    }

    pub fn emit_lt(&mut self)
        ensures
            final(self).code() == old(self).code().push(OpCode::Lt),
    {
        self.emit(OpCode::Lt)
    }

    pub fn emit_gt(&mut self)
        ensures
            final(self).code() == old(self).code().push(OpCode::Gt),
    {
        self.emit(OpCode::Gt)
    }

    pub fn emit_lte(&mut self)
        ensures
            final(self).code() == old(self).code().push(OpCode::Lte),
    {
        self.emit(OpCode::Lte)
    }

    pub fn emit_gte(&mut self)
        ensures
            final(self).code() == old(self).code().push(OpCode::Gte),
    {
        self.emit(OpCode::Gte)
    }

    pub fn emit_not(&mut self)
        ensures
            final(self).code() == old(self).code().push(OpCode::Not),
    {
        self.emit(OpCode::Not)
    }

    pub fn emit_neg(&mut self)
        ensures
            final(self).code() == old(self).code().push(OpCode::Neg),
    {
        self.emit(OpCode::Neg)
    }

    /// A lookup whose jump is not yet known.
    pub fn emit_get_attr_or_jump(&mut self)
        ensures
            final(self).code() == old(self).code().push(OpCode::GetAttrOr(CodeLocOffset(0))),
    {
        self.emit(OpCode::GetAttrOr(CodeLocOffset(0)))
    }

    pub fn emit_create_list(&mut self, len: usize)
        ensures
            final(self).code() == old(self).code().push(OpCode::CreateList(len)),
    {
        self.emit(OpCode::CreateList(len))
    }

    /// Interns `s` in `program` and loads it.
    pub fn emit_load_str(&mut self, program: &mut Program, s: &str)
        ensures
            final(program)@ == with_str(old(program)@, s@),
            final(self).code() == old(self).code().push(OpCode::LoadStr(StrId::from_id(final(program)@.strings.len() as usize))),
    {
        let id = program.emit_str(s);
        self.emit(OpCode::LoadStr(id));
    }

    pub fn emit_load_int(&mut self, value: i64)
        ensures
            final(self).code() == old(self).code().push(OpCode::LoadInt(value)),
    {
        self.emit(OpCode::LoadInt(value))
    }

    /// Interns the literal text of a float in `program` and loads it.
    pub fn emit_load_float(&mut self, program: &mut Program, text: &str)
        ensures
            final(program)@ == with_str(old(program)@, text@),
            final(self).code() == old(self).code().push(OpCode::LoadFloat(StrId::from_id(final(program)@.strings.len() as usize))),
    {
        let id = program.emit_str(text);
        self.emit(OpCode::LoadFloat(id));
    }

    pub fn emit_load_bool(&mut self, value: bool)
        ensures
            final(self).code() == old(self).code().push(OpCode::LoadBool(value)),
    {
        self.emit(OpCode::LoadBool(value))
    }

    /// Adds the code of a function body to `program` and loads the function.
    pub fn emit_load_lambda(&mut self, program: &mut Program, span: Span, body: Vec<OpCode>)
        ensures
            final(program)@ == with_lambda(old(program)@, span, body@),
            final(self).code() == old(self).code().push(OpCode::LoadLambda(LambdaId::from_id(final(program)@.lambdas.len() as usize))),
    {
        let (lambda, _) = program.emit_lambda(span, body);
        self.emit(OpCode::LoadLambda(lambda));
    }
}

/// A conditional whose `then` branch is built: the `else` branch completes
/// it.
pub struct ThenBuilder {
    pub code: Vec<OpCode>,
}

impl ThenBuilder {
    /// Lays out the conditional: `If` jumps, when the condition is false,
    /// over the `then` branch and the `Branch` that ends it, which jumps over
    /// the `else` branch.
    pub fn emit_else(self, builder: &mut ByteCodeBuilder, else_code: Vec<OpCode>)
        ensures
            final(builder).code() == old(builder).code() + seq![OpCode::If(CodeLocOffset((self.code@.len() + 1) as usize))] + self.code@
                + seq![OpCode::Branch(CodeLocOffset(else_code@.len() as usize))] + else_code@,
    {
        let mut then_code = self.code;
        then_code.push(OpCode::Branch(CodeLocOffset(else_code.len())));
        builder.emit(OpCode::If(CodeLocOffset(then_code.len())));
        builder.emit_all(&then_code);
        builder.emit_all(&else_code);
        assert(builder.code() =~= old(builder).code() + seq![OpCode::If(CodeLocOffset((self.code@.len() + 1) as usize))] + self.code@
            + seq![OpCode::Branch(CodeLocOffset(else_code@.len() as usize))] + else_code@);
    }
}

proof fn lemma_update_middle<A>(o: Seq<A>, c: Seq<A>, t: Seq<A>, j: int, x: A)
    requires
        0 <= j < c.len(),
    ensures
        (o + c + t).update(o.len() + j, x) == o + c.update(j, x) + t,
{
    assert((o + c + t).update(o.len() + j, x) =~= o + c.update(j, x) + t);
}

/// Before any jump is patched, where they will point does not matter.
proof fn lemma_chain_target_irrelevant(parts: Seq<Seq<OpCode>>, n: int, base: int, target: int)
    ensures
        lookup_chain_patched(parts, n, base, 0, 0) == lookup_chain_patched(parts, n, base, target, 0),
    decreases n,
{
    if n > 0 && n <= parts.len() {
        lemma_chain_target_irrelevant(parts, n - 1, base, target);
    }
}

proof fn lemma_lookup_chain_len_mono(parts: Seq<Seq<OpCode>>, i: int, n: int)
    requires
        0 <= i <= n <= parts.len(),
    ensures
        lookup_chain_len(parts, i) <= lookup_chain_len(parts, n),
        lookup_chain_len(parts, i) >= 0,
    decreases n - i,
{
    if i < n {
        lemma_lookup_chain_len_mono(parts, i, n - 1);
    } else {
        lemma_lookup_chain_len_nonneg(parts, i);
    }
}

proof fn lemma_lookup_chain_len_nonneg(parts: Seq<Seq<OpCode>>, n: int)
    ensures
        lookup_chain_len(parts, n) >= 0,
    decreases n,
{
    if n > 0 && n <= parts.len() {
        lemma_lookup_chain_len_nonneg(parts, n - 1);
    }
}

} // verus!
