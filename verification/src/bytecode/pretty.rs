use vstd::prelude::*;
use vstd::string::*;
use vstd::utf8::*;

use super::op::OpCode;
use super::program::{lemma_code_pos_eq, lemma_smallest_cover_in_range, smallest_cover, CodeLocOffset, CodePos, Expr, Lambda, Program, StrId};
use crate::files::Span;
use crate::formatter::layout::{float_text, push_float_text};
use crate::text::{
    char_width, chars_of, decimal, lemma_utf8_len_mono, lemma_utf8_len_step, push_char, push_decimal,
    push_signed_decimal, push_str, push_zero_padded, signed_decimal, str_debug, str_debug_text, utf8_len,
    zero_padded,
};

verus! {

/// A code position as listings write it: at least four digits.
pub open spec fn pos_text(p: nat) -> Seq<char> {
    zero_padded(p, 4)
}

pub fn fmt_pos(pos: CodePos) -> (r: String)
    ensures
        r@ == pos_text(pos.pos() as nat),
{
    let mut out = String::new();
    push_zero_padded(&mut out, pos.index() as u64, 4);
    assert(out@ =~= pos_text(pos.pos() as nat));
    out
}

/// A jump: its name, its offset, and the position it lands on, one past the
/// instructions it skips.
pub open spec fn jump_text(name: Seq<char>, pos: nat, offset: nat) -> Seq<char> {
    name + " +"@ + decimal(offset) + " -> "@ + pos_text(pos + offset + 1)
}

pub fn format_jump(name: &str, pos: CodePos, offset: CodeLocOffset) -> (r: String)
    requires
        pos.pos() + offset.len() + 1 <= usize::MAX,
    ensures
        r@ == jump_text(name@, pos.pos() as nat, offset.len() as nat),
{
    let target = CodePos::from_index(pos.index() + offset.offset() + 1);
    let mut out = String::from_str(name);
    push_str(&mut out, " +");
    push_decimal(&mut out, offset.offset() as u64);
    push_str(&mut out, " -> ");
    let t = fmt_pos(target);
    push_str(&mut out, t.as_str());
    assert(out@ =~= jump_text(name@, pos.pos() as nat, offset.len() as nat));
    out
}

/// The line and column, both counted from 1, that follow the chars `cs`.
pub open spec fn line_col_after(cs: Seq<char>) -> (nat, nat)
    decreases cs.len(),
{
    if cs.len() == 0 {
        (1, 1)
    } else {
        let (line, col) = line_col_after(cs.drop_last());
        if cs.last() == '\n' { (line + 1, 1) } else { (line, col + 1) }
    }
}

/// How many chars of `cs` start before the byte offset `offset`.
pub open spec fn chars_before(cs: Seq<char>, offset: nat) -> nat
    decreases cs.len(),
{
    if cs.len() == 0 {
        0
    } else if utf8_len(cs.drop_last()) < offset {
        chars_before(cs.drop_last(), offset) + 1
    } else {
        chars_before(cs.drop_last(), offset)
    }
}

proof fn lemma_line_col_bound(cs: Seq<char>)
    ensures
        line_col_after(cs).0 <= cs.len() + 1,
        line_col_after(cs).1 <= cs.len() + 1,
    decreases cs.len(),
{
    if cs.len() > 0 {
        lemma_line_col_bound(cs.drop_last());
    }
}

proof fn lemma_chars_before_bound(cs: Seq<char>, offset: nat)
    ensures
        chars_before(cs, offset) <= cs.len(),
    decreases cs.len(),
{
    if cs.len() > 0 {
        lemma_chars_before_bound(cs.drop_last(), offset);
    }
}

proof fn lemma_chars_before_stops(cs: Seq<char>, offset: nat, i: int, k: int)
    requires
        0 <= i <= k <= cs.len(),
        chars_before(cs.take(i), offset) == i,
        i == cs.len() || utf8_len(cs.take(i)) >= offset,
    ensures
        chars_before(cs.take(k), offset) == i,
    decreases k - i,
{
    if k > i {
        lemma_chars_before_stops(cs, offset, i, k - 1);
        assert(cs.take(k).drop_last() =~= cs.take(k - 1));
        lemma_utf8_len_mono(cs, i, k - 1);
    }
}

/// The line and column, both from 1, of the byte offset `offset` of
/// `source`.
pub fn line_col(source: &str, offset: usize) -> (r: (usize, usize))
    requires
        source@.len() < usize::MAX,
    ensures
        r.0 == line_col_after(source@.take(chars_before(source@, offset as nat) as int)).0,
        r.1 == line_col_after(source@.take(chars_before(source@, offset as nat) as int)).1,
{
    let chars = chars_of(source);
    let total = source.as_bytes().len();
    let ghost cs = source@;
    assert(utf8_len(cs) == total);
    let mut line: usize = 1;
    let mut col: usize = 1;
    let mut byte: usize = 0;
    let mut i: usize = 0;
    assert(cs.take(0) =~= Seq::<char>::empty());
    while i < chars.len() && byte < offset
        invariant
            chars@ == cs,
            cs.len() < usize::MAX,
            i <= cs.len(),
            byte == utf8_len(cs.take(i as int)),
            utf8_len(cs) == total,
            chars_before(cs.take(i as int), offset as nat) == i,
            (line as nat, col as nat) == line_col_after(cs.take(i as int)),
        decreases cs.len() - i,
    {
        proof {
            lemma_line_col_bound(cs.take(i + 1));
            assert(cs.take(i + 1).drop_last() =~= cs.take(i as int));
            assert(cs.take(i + 1).last() == cs[i as int]);
            lemma_utf8_len_step(cs, i as int);
            lemma_utf8_len_mono(cs, i + 1, cs.len() as int);
            assert(cs.take(cs.len() as int) =~= cs);
        }
        let c = chars[i];
        if c == '\n' {
            line = line + 1;
            col = 1;
        } else {
            col = col + 1;
        }
        let w = char_width(c);
        byte = byte + w;
        i = i + 1;
    }
    proof {
        lemma_chars_before_stops(cs, offset as nat, i as int, cs.len() as int);
        assert(cs.take(cs.len() as int) =~= cs);
    }
    (line, col)
}

/// The offset of a jump, or `None` for an instruction that does not jump.
pub open spec fn jump_offset(op: OpCode) -> Option<CodeLocOffset> {
    match op {
        OpCode::And(o) => Some(o),
        OpCode::Or(o) => Some(o),
        OpCode::LogImp(o) => Some(o),
        OpCode::If(o) => Some(o),
        OpCode::GetAttrOr(o) => Some(o),
        OpCode::Branch(o) => Some(o),
        _ => None,
    }
}

fn branch_offset(op: OpCode) -> (r: Option<CodeLocOffset>)
    ensures
        r == jump_offset(op),
{
    match op {
        OpCode::And(offset) | OpCode::Or(offset) | OpCode::LogImp(offset) | OpCode::If(offset)
        | OpCode::GetAttrOr(offset) | OpCode::Branch(offset) => Some(offset),
        _ => None,
    }
}

/// A jump of a listing, drawn in a lane: from the instruction at `source`
/// to the one at `target`.
#[derive(Clone, Copy, Debug, PartialEq, Eq, Structural)]
pub struct FlowEdge {
    pub source: usize,
    pub target: usize,
    pub lane: usize,
}

/// The jumps of a listing, each given a lane to draw it in.
#[derive(Clone, Debug)]
pub struct FlowPrinter {
    pub edges: Vec<FlowEdge>,
    pub lanes: usize,
}

/// Whether every jump of `ops` lands at a position that fits in `usize`.
pub open spec fn jumps_fit(ops: Seq<OpCode>) -> bool {
    forall|i: int| 0 <= i < ops.len() ==> ((#[trigger] jump_offset(ops[i])) matches Some(o) ==> i + 1 + o.len() <= usize::MAX)
}

/// The first lane free at `source`: whose last jump lands before it.
pub open spec fn first_free_lane(ends: Seq<usize>, source: int) -> Option<int>
    decreases ends.len(),
{
    if ends.len() == 0 {
        None
    } else {
        match first_free_lane(ends.drop_last(), source) {
            Some(l) => Some(l),
            None => if ends.last() < source { Some(ends.len() - 1) } else { None },
        }
    }
}

/// The jumps among the first `n` instructions of `ops`, each in the first
/// lane free at its source (a new lane when none is), and where the last
/// jump of each lane lands.
pub open spec fn flow_edges(ops: Seq<OpCode>, n: int) -> (Seq<FlowEdge>, Seq<usize>)
    decreases n,
{
    if n <= 0 || n > ops.len() {
        (Seq::empty(), Seq::empty())
    } else {
        let (edges, ends) = flow_edges(ops, n - 1);
        let source = n - 1;
        match jump_offset(ops[source]) {
            None => (edges, ends),
            Some(o) => {
                let target = (source + 1 + o.len()) as usize;
                match first_free_lane(ends, source) {
                    Some(l) => (edges.push(FlowEdge { source: source as usize, target, lane: l as usize }), ends.update(l, target)),
                    None => (edges.push(FlowEdge { source: source as usize, target, lane: ends.len() as usize }), ends.push(target)),
                }
            },
        }
    }
}

/// Jumps drawn in one lane never overlap: each lands before the next starts.
pub open spec fn lanes_disjoint(edges: Seq<FlowEdge>) -> bool {
    forall|a: int, b: int| 0 <= a < b < edges.len() && edges[a].lane == edges[b].lane ==> edges[a].target < edges[b].source
}

proof fn lemma_first_free_lane(ends: Seq<usize>, source: int)
    ensures
        match first_free_lane(ends, source) {
            Some(l) => 0 <= l < ends.len() && ends[l] < source && forall|j: int| 0 <= j < l ==> ends[j] >= source,
            None => forall|j: int| 0 <= j < ends.len() ==> ends[j] >= source,
        },
    decreases ends.len(),
{
    if ends.len() > 0 {
        lemma_first_free_lane(ends.drop_last(), source);
        assert forall|j: int| 0 <= j < ends.len() - 1 implies ends.drop_last()[j] == ends[j] by {}
        match first_free_lane(ends.drop_last(), source) {
            Some(l) => {
                assert(ends.drop_last()[l] == ends[l]);
            },
            None => {
                assert(ends.last() == ends[ends.len() - 1]);
            },
        }
    }
}

impl FlowPrinter {
    pub fn new(ops: &Vec<OpCode>) -> (r: Self)
        requires
            jumps_fit(ops@),
        ensures
            r.edges@ == flow_edges(ops@, ops@.len() as int).0,
            r.lanes == flow_edges(ops@, ops@.len() as int).1.len(),
            lanes_disjoint(r.edges@),
            forall|e: int| 0 <= e < r.edges@.len() ==> (#[trigger] r.edges@[e]).lane < r.lanes && r.edges@[e].source < r.edges@[e].target,
    {
        let mut edges: Vec<FlowEdge> = Vec::new();
        let mut lane_ends: Vec<usize> = Vec::new();
        let mut source: usize = 0;
        while source < ops.len()
            invariant
                jumps_fit(ops@),
                source <= ops@.len(),
                (edges@, lane_ends@) == flow_edges(ops@, source as int),
                lanes_disjoint(edges@),
                forall|e: int| 0 <= e < edges@.len() ==> (#[trigger] edges@[e]).lane < lane_ends@.len() && edges@[e].target <= lane_ends@[edges@[e].lane as int] && edges@[e].source < edges@[e].target && edges@[e].source < source,
            decreases ops@.len() - source,
        {
            let op = ops[source];
            match branch_offset(op) {
                None => {},
                Some(offset) => {
                    assert(jump_offset(ops@[source as int]) == Some(offset));
                    let target = source + 1 + offset.offset();
                    let ghost prev_edges = edges@;
                    let ghost prev_ends = lane_ends@;
                    proof {
                        lemma_first_free_lane(prev_ends, source as int);
                    }
                    let mut lane: usize = 0;
                    while lane < lane_ends.len() && lane_ends[lane] >= source
                        invariant
                            lane <= lane_ends@.len(),
                            forall|j: int| 0 <= j < lane ==> lane_ends@[j] >= source,
                        decreases lane_ends@.len() - lane,
                    {
                        lane = lane + 1;
                    }
                    if lane < lane_ends.len() {
                        assert(first_free_lane(prev_ends, source as int) == Some(lane as int));
                        lane_ends.set(lane, target);
                    } else {
                        assert(first_free_lane(prev_ends, source as int) is None);
                        lane_ends.push(target);
                    }
                    edges.push(FlowEdge { source, target, lane });
                    proof {
                        assert(edges@ == prev_edges.push(FlowEdge { source, target, lane }));
                        assert forall|a: int, b: int| 0 <= a < b < edges@.len() && edges@[a].lane == edges@[b].lane implies edges@[a].target < edges@[b].source by {
                            if b == prev_edges.len() {
                                assert(edges@[a] == prev_edges[a]);
                                if lane < prev_ends.len() {
                                    assert(prev_ends[lane as int] < source);
                                } else {
                                    assert(prev_edges[a].lane < prev_ends.len());
                                }
                            } else {
                                assert(edges@[a] == prev_edges[a]);
                                assert(edges@[b] == prev_edges[b]);
                            }
                        }
                        assert forall|e: int| 0 <= e < edges@.len() implies (#[trigger] edges@[e]).lane < lane_ends@.len() && edges@[e].target <= lane_ends@[edges@[e].lane as int] && edges@[e].source < edges@[e].target && edges@[e].source < source + 1 by {
                            if e < prev_edges.len() {
                                assert(edges@[e] == prev_edges[e]);
                                if prev_edges[e].lane == lane {
                                    assert(prev_edges[e].target <= prev_ends[lane as int]);
                                }
                            }
                        }
                    }
                },
            }
            source = source + 1;
        }
        let lanes = lane_ends.len();
        FlowPrinter { edges, lanes }
    }
}

/// The first jump of `lane` that spans the position `idx`.
pub open spec fn edge_at(edges: Seq<FlowEdge>, lane: int, idx: int) -> Option<FlowEdge>
    decreases edges.len(),
{
    if edges.len() == 0 {
        None
    } else if edges[0].lane == lane && edges[0].source <= idx <= edges[0].target {
        Some(edges[0])
    } else {
        edge_at(edges.drop_first(), lane, idx)
    }
}

/// What a lane shows at `idx`: the start of its jump, its end, the line
/// between, or nothing.
pub open spec fn lane_glyph(edge: Option<FlowEdge>, idx: int) -> Seq<char> {
    match edge {
        Some(e) => if idx == e.source {
            "┌─ "@
        } else if idx == e.target {
            "└▶ "@
        } else {
            "│  "@
        },
        None => "   "@,
    }
}

/// The guide drawn before the instruction at `idx`: one glyph per lane.
pub open spec fn guide_text(edges: Seq<FlowEdge>, lanes: int, idx: int) -> Seq<char>
    decreases lanes,
{
    if lanes <= 0 {
        Seq::empty()
    } else {
        guide_text(edges, lanes - 1, idx) + lane_glyph(edge_at(edges, lanes - 1, idx), idx)
    }
}

impl FlowPrinter {
    pub fn guide_for(&self, pos: CodePos) -> (r: String)
        ensures
            r@ == guide_text(self.edges@, self.lanes as int, pos.pos() as int),
    {
        let idx = pos.index();
        let mut guide = String::new();
        let mut lane: usize = 0;
        while lane < self.lanes
            invariant
                lane <= self.lanes,
                guide@ == guide_text(self.edges@, lane as int, idx as int),
            decreases self.lanes - lane,
        {
            let mut k: usize = 0;
            let mut found: Option<FlowEdge> = None;
            assert(self.edges@.skip(0) =~= self.edges@);
            while k < self.edges.len()
                invariant_except_break
                    found is None,
                    edge_at(self.edges@, lane as int, idx as int) == edge_at(self.edges@.skip(k as int), lane as int, idx as int),
                invariant
                    k <= self.edges@.len(),
                ensures
                    found == edge_at(self.edges@, lane as int, idx as int),
                decreases self.edges@.len() - k,
            {
                let e = self.edges[k];
                assert(self.edges@.skip(k as int)[0] == e);
                assert(self.edges@.skip(k as int).drop_first() =~= self.edges@.skip(k + 1));
                if e.lane == lane && e.source <= idx && idx <= e.target {
                    found = Some(e);
                    break;
                }
                k = k + 1;
                proof {
                    if k == self.edges@.len() {
                        assert(self.edges@.skip(k as int) =~= Seq::<FlowEdge>::empty());
                    }
                }
            }
            match found {
                Some(e) => {
                    if idx == e.source {
                        push_str(&mut guide, "┌─ ");
                    } else if idx == e.target {
                        push_str(&mut guide, "└▶ ");
                    } else {
                        push_str(&mut guide, "│  ");
                    }
                },
                None => push_str(&mut guide, "   "),
            }
            lane = lane + 1;
            assert(guide@ =~= guide_text(self.edges@, lane as int, idx as int));
        }
        guide
    }
}

/// Whether the strings that `op` loads are among the first `n` interned.
pub open spec fn loads_interned(op: OpCode, n: nat) -> bool {
    match op {
        OpCode::LoadStr(id) => 1 <= id.id() <= n,
        OpCode::LoadFloat(id) => 1 <= id.id() <= n,
        _ => true,
    }
}

/// An instruction as a listing shows it at position `pos`.
pub open spec fn op_text(strings: Seq<Seq<char>>, pos: nat, op: OpCode) -> Seq<char> {
    match op {
        OpCode::Add => "Add"@,
        OpCode::Sub => "Sub"@,
        OpCode::Mul => "Mul"@,
        OpCode::Div => "Div"@,
        OpCode::Rem => "Rem"@,
        OpCode::Eq => "Eq"@,
        OpCode::Ne => "Ne"@,
        OpCode::Lt => "Lt"@,
        OpCode::Lte => "Lte"@,
        OpCode::Gt => "Gt"@,
        OpCode::Gte => "Gte"@,
        OpCode::Not => "Not"@,
        OpCode::Neg => "Neg"@,
        OpCode::And(o) => jump_text("And"@, pos, o.len() as nat),
        OpCode::Or(o) => jump_text("Or"@, pos, o.len() as nat),
        OpCode::LogImp(o) => jump_text("LogImp"@, pos, o.len() as nat),
        OpCode::If(o) => jump_text("If"@, pos, o.len() as nat),
        OpCode::CreateAttrSet => "CreateAttrSet"@,
        OpCode::SetAttr => "SetAttr"@,
        OpCode::FinalizeAttrSetRec => "FinalizeAttrSetRec"@,
        OpCode::CreateList(capacity) => "CreateList "@ + decimal(capacity as nat),
        OpCode::AppendList => "AppendList"@,
        OpCode::Apply => "Apply"@,
        OpCode::LoadLambda(l) => "LoadLambda #"@ + decimal(l.id() as nat),
        OpCode::LoadStr(id) => "LoadStr #"@ + decimal(id.id() as nat) + " "@ + str_debug_text(strings[id.id() - 1]),
        OpCode::LoadInt(v) => "LoadInt "@ + signed_decimal(v as int),
        OpCode::LoadFloat(id) => "LoadFloat "@ + float_text(strings[id.id() - 1]),
        OpCode::LoadBool(v) => "LoadBool "@ + if v { "true"@ } else { "false"@ },
        OpCode::LoadScope => "LoadScope"@,
        OpCode::HasAttr => "HasAttr"@,
        OpCode::GetAttr => "GetAttr"@,
        OpCode::GetAttrOr(o) => jump_text("GetAttrOr"@, pos, o.len() as nat),
        OpCode::Branch(o) => jump_text("Branch"@, pos, o.len() as nat),
        OpCode::PopV => "PopV"@,
        OpCode::DupV => "DupV"@,
        OpCode::PopT => "PopT"@,
        OpCode::DupT => "DupT"@,
        OpCode::Ret => "Ret"@,
        OpCode::EvalThunk => "EvalThunk"@,
        OpCode::UnEvalValue => "UnEvalValue"@,
        OpCode::EnterScope => "EnterScope"@,
        OpCode::LeaveScope => "LeaveScope"@,
        OpCode::BindThunkScope => "BindThunkScope"@,
        OpCode::BindValueScope => "BindValueScope"@,
        OpCode::CreateThunk(p) => "CreateThunk @"@ + pos_text(p.pos() as nat),
        OpCode::BeginThunk(p) => "BeginThunk @"@ + pos_text(p.pos() as nat),
        OpCode::FinalizeThunk => "FinalizeThunk"@,
    }
}

/// A listing names each instruction after its own opcode: an instruction
/// without operands by the name of its variant, a jump by that name
/// followed by its offset and target.
pub proof fn law_listing_names(strings: Seq<Seq<char>>, pos: nat, o: CodeLocOffset)
    ensures
        op_text(strings, pos, OpCode::Add) == "Add"@,
        op_text(strings, pos, OpCode::Sub) == "Sub"@,
        op_text(strings, pos, OpCode::Mul) == "Mul"@,
        op_text(strings, pos, OpCode::Div) == "Div"@,
        op_text(strings, pos, OpCode::Rem) == "Rem"@,
        op_text(strings, pos, OpCode::Eq) == "Eq"@,
        op_text(strings, pos, OpCode::Ne) == "Ne"@,
        op_text(strings, pos, OpCode::Lt) == "Lt"@,
        op_text(strings, pos, OpCode::Lte) == "Lte"@,
        op_text(strings, pos, OpCode::Gt) == "Gt"@,
        op_text(strings, pos, OpCode::Gte) == "Gte"@,
        op_text(strings, pos, OpCode::Not) == "Not"@,
        op_text(strings, pos, OpCode::Neg) == "Neg"@,
        op_text(strings, pos, OpCode::CreateAttrSet) == "CreateAttrSet"@,
        op_text(strings, pos, OpCode::SetAttr) == "SetAttr"@,
        op_text(strings, pos, OpCode::FinalizeAttrSetRec) == "FinalizeAttrSetRec"@,
        op_text(strings, pos, OpCode::AppendList) == "AppendList"@,
        op_text(strings, pos, OpCode::Apply) == "Apply"@,
        op_text(strings, pos, OpCode::LoadScope) == "LoadScope"@,
        op_text(strings, pos, OpCode::HasAttr) == "HasAttr"@,
        op_text(strings, pos, OpCode::GetAttr) == "GetAttr"@,
        op_text(strings, pos, OpCode::PopV) == "PopV"@,
        op_text(strings, pos, OpCode::DupV) == "DupV"@,
        op_text(strings, pos, OpCode::PopT) == "PopT"@,
        op_text(strings, pos, OpCode::DupT) == "DupT"@,
        op_text(strings, pos, OpCode::Ret) == "Ret"@,
        op_text(strings, pos, OpCode::EvalThunk) == "EvalThunk"@,
        op_text(strings, pos, OpCode::UnEvalValue) == "UnEvalValue"@,
        op_text(strings, pos, OpCode::EnterScope) == "EnterScope"@,
        op_text(strings, pos, OpCode::LeaveScope) == "LeaveScope"@,
        op_text(strings, pos, OpCode::BindThunkScope) == "BindThunkScope"@,
        op_text(strings, pos, OpCode::BindValueScope) == "BindValueScope"@,
        op_text(strings, pos, OpCode::FinalizeThunk) == "FinalizeThunk"@,
        op_text(strings, pos, OpCode::And(o)) == jump_text("And"@, pos, o.len() as nat),
        op_text(strings, pos, OpCode::Or(o)) == jump_text("Or"@, pos, o.len() as nat),
        op_text(strings, pos, OpCode::LogImp(o)) == jump_text("LogImp"@, pos, o.len() as nat),
        op_text(strings, pos, OpCode::If(o)) == jump_text("If"@, pos, o.len() as nat),
        op_text(strings, pos, OpCode::GetAttrOr(o)) == jump_text("GetAttrOr"@, pos, o.len() as nat),
        op_text(strings, pos, OpCode::Branch(o)) == jump_text("Branch"@, pos, o.len() as nat),
{
}

fn named(name: &str) -> (r: String)
    ensures
        r@ == name@,
{
    String::from_str(name)
}

fn with_pos(name: &str, p: CodePos) -> (r: String)
    ensures
        r@ == name@ + pos_text(p.pos() as nat),
{
    let mut out = String::from_str(name);
    let t = fmt_pos(p);
    push_str(&mut out, t.as_str());
    out
}

fn with_decimal(name: &str, n: usize) -> (r: String)
    ensures
        r@ == name@ + decimal(n as nat),
{
    let mut out = String::from_str(name);
    push_decimal(&mut out, n as u64);
    out
}

pub fn format_op(program: &Program, pos: CodePos, op: OpCode) -> (r: String)
    requires
        loads_interned(op, program@.strings.len()),
        jump_offset(op) matches Some(o) ==> pos.pos() + o.len() + 1 <= usize::MAX,
    ensures
        r@ == op_text(program@.strings, pos.pos() as nat, op),
{
    match op {
        OpCode::Add => named("Add"),
        OpCode::Sub => named("Sub"),
        OpCode::Mul => named("Mul"),
        OpCode::Div => named("Div"),
        OpCode::Rem => named("Rem"),
        OpCode::Eq => named("Eq"),
        OpCode::Ne => named("Ne"),
        OpCode::Lt => named("Lt"),
        OpCode::Lte => named("Lte"),
        OpCode::Gt => named("Gt"),
        OpCode::Gte => named("Gte"),
        OpCode::Not => named("Not"),
        OpCode::Neg => named("Neg"),
        OpCode::And(offset) => format_jump("And", pos, offset),
        OpCode::Or(offset) => format_jump("Or", pos, offset),
        OpCode::LogImp(offset) => format_jump("LogImp", pos, offset),
        OpCode::If(offset) => format_jump("If", pos, offset),
        OpCode::CreateAttrSet => named("CreateAttrSet"),
        OpCode::SetAttr => named("SetAttr"),
        OpCode::FinalizeAttrSetRec => named("FinalizeAttrSetRec"),
        OpCode::CreateList(capacity) => with_decimal("CreateList ", capacity),
        OpCode::AppendList => named("AppendList"),
        OpCode::Apply => named("Apply"),
        OpCode::LoadLambda(lambda) => with_decimal("LoadLambda #", lambda.index()),
        OpCode::LoadStr(id) => {
            let mut out = with_decimal("LoadStr #", id.index());
            push_str(&mut out, " ");
            match program.get_str(id) {
                Some(text) => {
                    let shown = str_debug(text.as_str());
                    push_str(&mut out, shown.as_str());
                },
                None => {},
            }
            assert(out@ =~= op_text(program@.strings, pos.pos() as nat, op));
            out
        },
        OpCode::LoadInt(v) => {
            let mut out = String::from_str("LoadInt ");
            push_signed_decimal(&mut out, v);
            out
        },
        OpCode::LoadFloat(id) => {
            let mut out = String::from_str("LoadFloat ");
            match program.get_str(id) {
                Some(text) => push_float_text(&mut out, text.as_str()),
                None => {},
            }
            out
        },
        OpCode::LoadBool(v) => {
            let mut out = String::from_str("LoadBool ");
            push_str(&mut out, if v { "true" } else { "false" });
            out
        },
        OpCode::LoadScope => named("LoadScope"),
        OpCode::HasAttr => named("HasAttr"),
        OpCode::GetAttr => named("GetAttr"),
        OpCode::GetAttrOr(offset) => format_jump("GetAttrOr", pos, offset),
        OpCode::Branch(offset) => format_jump("Branch", pos, offset),
        OpCode::PopV => named("PopV"),
        OpCode::DupV => named("DupV"),
        OpCode::PopT => named("PopT"),
        OpCode::DupT => named("DupT"),
        OpCode::Ret => named("Ret"),
        OpCode::EvalThunk => named("EvalThunk"),
        OpCode::UnEvalValue => named("UnEvalValue"),
        OpCode::EnterScope => named("EnterScope"),
        OpCode::LeaveScope => named("LeaveScope"),
        OpCode::BindThunkScope => named("BindThunkScope"),
        OpCode::BindValueScope => named("BindValueScope"),
        OpCode::CreateThunk(p) => with_pos("CreateThunk @", p),
        OpCode::BeginThunk(p) => with_pos("BeginThunk @", p),
        OpCode::FinalizeThunk => named("FinalizeThunk"),
    }
}

/// A loaded source file, as listings name it.
pub struct SourceFile {
    pub path: String,
    pub source: String,
}

/// Whether the spans of listings can be looked up in `files`: each file's
/// text is short enough that its lines and columns fit in `usize`.
pub open spec fn files_fit(files: Seq<SourceFile>) -> bool {
    forall|i: int| 0 <= i < files.len() ==> (#[trigger] files[i]).source@.len() + 2 <= usize::MAX
}

pub open spec fn span_in(files: Seq<SourceFile>, span: Span) -> bool {
    (span.fid.0 as int) < files.len()
}

/// Where a span lies: `path:line:col-line:col`, the end column at least one
/// past the start one for an empty span.
pub open spec fn span_text(files: Seq<SourceFile>, span: Span) -> Seq<char> {
    let f = files[span.fid.0 as int];
    let cs = f.source@;
    let start = line_col_after(cs.take(chars_before(cs, span.range.start as nat) as int));
    let end = line_col_after(cs.take(chars_before(cs, span.range.end as nat) as int));
    let least = start.1 + if span.range.start == span.range.end { 1nat } else { 0nat };
    let end_col = if end.1 >= least { end.1 } else { least };
    f.path@ + ":"@ + decimal(start.0) + ":"@ + decimal(start.1) + "-"@ + decimal(end.0) + ":"@ + decimal(end_col)
}

fn format_span(files: &Vec<SourceFile>, span: Span) -> (r: String)
    requires
        files_fit(files@),
        span_in(files@, span),
    ensures
        r@ == span_text(files@, span),
{
    let f = &files[span.fid.0 as usize];
    assert(f.source@.len() + 2 <= usize::MAX);
    let (start_line, start_col) = line_col(f.source.as_str(), span.range.start);
    let (end_line, end_col) = line_col(f.source.as_str(), span.range.end);
    proof {
        lemma_chars_before_bound(f.source@, span.range.start as nat);
        lemma_line_col_bound(f.source@.take(chars_before(f.source@, span.range.start as nat) as int));
    }
    let least = start_col + if span.range.start == span.range.end { 1 } else { 0 };
    let end_col = if end_col >= least { end_col } else { least };
    let mut out = String::new();
    push_str(&mut out, f.path.as_str());
    push_str(&mut out, ":");
    push_decimal(&mut out, start_line as u64);
    push_str(&mut out, ":");
    push_decimal(&mut out, start_col as u64);
    push_str(&mut out, "-");
    push_decimal(&mut out, end_line as u64);
    push_str(&mut out, ":");
    push_decimal(&mut out, end_col as u64);
    assert(out@ =~= span_text(files@, span));
    out
}

/// `s` padded with spaces to `width` chars, as `{: <width}` does.
pub open spec fn pad_right(s: Seq<char>, width: nat) -> Seq<char> {
    if s.len() < width { s + Seq::new((width - s.len()) as nat, |i: int| ' ') } else { s }
}

fn push_padded(out: &mut String, s: &str, width: usize)
    ensures
        final(out)@ == old(out)@ + pad_right(s@, width as nat),
{
    push_str(out, s);
    let len = s.unicode_len();
    if len < width {
        let mut k: usize = 0;
        let ghost mid = out@;
        while k < width - len
            invariant
                len < width,
                k <= width - len,
                out@ == mid + Seq::new(k as nat, |i: int| ' '),
            decreases width - len - k,
        {
            push_char(out, ' ');
            k = k + 1;
            assert(out@ =~= mid + Seq::new(k as nat, |i: int| ' '));
        }
    }
    assert(final(out)@ =~= old(out)@ + pad_right(s@, width as nat));
}

/// The first expression whose code starts at `idx`.
pub open spec fn expr_starting_at(exprs: Seq<Expr>, idx: int) -> Option<int>
    decreases exprs.len(),
{
    if exprs.len() == 0 {
        None
    } else {
        match expr_starting_at(exprs.drop_last(), idx) {
            Some(j) => Some(j),
            None => if exprs.last().start.pos() == idx { Some(exprs.len() - 1) } else { None },
        }
    }
}

/// Whether a program can be listed: its strings are interned, its jumps
/// fit, and its spans are in `files`.
pub open spec fn listable(p: crate::bytecode::program::ProgramView, files: Seq<SourceFile>) -> bool {
    &&& files_fit(files)
    &&& jumps_fit(p.code)
    &&& forall|i: int| 0 <= i < p.code.len() ==> loads_interned(#[trigger] p.code[i], p.strings.len())
    &&& forall|i: int| 0 <= i < p.expressions.len() ==> span_in(files, (#[trigger] p.expressions[i]).span)
    &&& forall|i: int| 0 <= i < p.lambdas.len() ==> span_in(files, (#[trigger] p.lambdas[i]).span)
}

pub open spec fn lambda_lines(p: crate::bytecode::program::ProgramView, files: Seq<SourceFile>, n: int) -> Seq<char>
    decreases n,
{
    if n <= 0 || n > p.lambdas.len() {
        Seq::empty()
    } else {
        lambda_lines(p, files, n - 1) + "  lambda#"@ + decimal(n as nat) + " @"@ + pos_text(p.lambdas[n - 1].code.pos() as nat) + " "@ + span_text(files, p.lambdas[n - 1].span) + "\n"@
    }
}

/// The listing lines of the instruction at `idx`: the header of the
/// expression that starts there, if one does, then the instruction with its
/// position, jump guide and source.
pub open spec fn op_lines(p: crate::bytecode::program::ProgramView, files: Seq<SourceFile>, idx: int) -> Seq<char> {
    let flow = flow_edges(p.code, p.code.len() as int);
    let header = match expr_starting_at(p.expressions, idx) {
        Some(j) => (if idx != 0 { "\n"@ } else { Seq::empty() }) + "  expr "@ + pos_text(p.expressions[j].start.pos() as nat) + ".."@ + pos_text(p.expressions[j].end.pos() as nat) + " "@ + span_text(files, p.expressions[j].span) + "\n"@,
        None => Seq::empty(),
    };
    let source = match smallest_cover(p.expressions, CodePos::from_index_spec(idx as usize)) {
        Some(i) => span_text(files, p.expressions[i].span),
        None => if p.expressions.len() == 0 { "<unknown source>"@ } else { span_text(files, p.expressions.last().span) },
    };
    header + "  "@ + pos_text(idx as nat) + "  "@ + guide_text(flow.0, flow.1.len() as int, idx) + pad_right(op_text(p.strings, idx as nat, p.code[idx]), 24) + " "@ + source + "\n"@
}

pub open spec fn ops_lines(p: crate::bytecode::program::ProgramView, files: Seq<SourceFile>, n: int) -> Seq<char>
    decreases n,
{
    if n <= 0 || n > p.code.len() {
        Seq::empty()
    } else {
        ops_lines(p, files, n - 1) + op_lines(p, files, n - 1)
    }
}

/// The listing of a program: its top expression, its functions, and each
/// instruction.
pub open spec fn program_text(p: crate::bytecode::program::ProgramView, files: Seq<SourceFile>) -> Seq<char> {
    head_text(p, files) + "\nops:\n"@ + ops_lines(p, files, p.code.len() as int)
}

/// The head of a listing: its title, its top expression and its functions.
pub open spec fn head_text(p: crate::bytecode::program::ProgramView, files: Seq<SourceFile>) -> Seq<char> {
    "== Bytecode ==\n"@ + (if p.expressions.len() > 0 {
        "top expr @"@ + pos_text(p.expressions[0].start.pos() as nat) + ".."@ + pos_text(p.expressions[0].end.pos() as nat) + " "@ + span_text(files, p.expressions[0].span) + "\n"@
    } else {
        Seq::empty()
    }) + (if p.lambdas.len() > 0 { "\nlambdas:\n"@ + lambda_lines(p, files, p.lambdas.len() as int) } else { Seq::empty() })
}

fn head_listing(program: &Program, files: &Vec<SourceFile>) -> (r: String)
    requires
        listable(program@, files@),
    ensures
        r@ == head_text(program@, files@),
{
    let ghost p = program@;
    let mut out = String::from_str("== Bytecode ==\n");
    let expressions = program.expressions();
    if expressions.len() > 0 {
        let expr = expressions[0];
        push_str(&mut out, "top expr @");
        push_str(&mut out, fmt_pos(expr.start).as_str());
        push_str(&mut out, "..");
        push_str(&mut out, fmt_pos(expr.end).as_str());
        push_str(&mut out, " ");
        push_str(&mut out, format_span(files, expr.span).as_str());
        push_str(&mut out, "\n");
    }
    let ghost head = out@;
    let lambdas = program.lambdas();
    if lambdas.len() > 0 {
        push_str(&mut out, "\nlambdas:\n");
        let ghost start = out@;
        let mut idx: usize = 0;
        while idx < lambdas.len()
            invariant
                p == program@,
                lambdas@ == p.lambdas,
                listable(p, files@),
                idx <= lambdas@.len(),
                out@ == start + lambda_lines(p, files@, idx as int),
            decreases lambdas@.len() - idx,
        {
            let lambda = lambdas[idx];
            push_str(&mut out, "  lambda#");
            push_decimal(&mut out, (idx + 1) as u64);
            push_str(&mut out, " @");
            push_str(&mut out, fmt_pos(lambda.code).as_str());
            push_str(&mut out, " ");
            push_str(&mut out, format_span(files, lambda.span).as_str());
            push_str(&mut out, "\n");
            idx = idx + 1;
            assert(out@ =~= start + lambda_lines(p, files@, idx as int));
        }
    }
    assert(out@ =~= head_text(p, files@));
    out
}

/// Whether `render_program` can list `program` with `files`: no file is too
/// long, every jump lands within `usize`, every loaded string is interned,
/// and every span is in one of the files.
pub fn can_list(program: &Program, files: &Vec<SourceFile>) -> (r: bool)
    ensures
        r == listable(program@, files@),
{
    let mut i: usize = 0;
    while i < files.len()
        invariant
            i <= files@.len(),
            forall|k: int| 0 <= k < i ==> (#[trigger] files@[k]).source@.len() + 2 <= usize::MAX,
        decreases files@.len() - i,
    {
        let n = chars_of(files[i].source.as_str()).len();
        if n > usize::MAX - 2 {
            return false;
        }
        i = i + 1;
    }
    let ops = program.ops();
    let mut j: usize = 0;
    while j < ops.len()
        invariant
            ops@ == program@.code,
            j <= ops@.len(),
            forall|k: int| 0 <= k < j ==> ((#[trigger] jump_offset(ops@[k])) matches Some(o) ==> k + 1 + o.len() <= usize::MAX),
            forall|k: int| 0 <= k < j ==> loads_interned(#[trigger] ops@[k], program@.strings.len()),
        decreases ops@.len() - j,
    {
        match branch_offset(ops[j]) {
            Some(o) => {
                if o.offset() > usize::MAX - 1 - j {
                    return false;
                }
            },
            None => {},
        }
        match ops[j] {
            OpCode::LoadStr(id) | OpCode::LoadFloat(id) => {
                if program.get_str(id).is_none() {
                    return false;
                }
            },
            _ => {},
        }
        j = j + 1;
    }
    let exprs = program.expressions();
    let mut k: usize = 0;
    while k < exprs.len()
        invariant
            exprs@ == program@.expressions,
            k <= exprs@.len(),
            forall|m: int| 0 <= m < k ==> span_in(files@, (#[trigger] exprs@[m]).span),
        decreases exprs@.len() - k,
    {
        if (exprs[k].span.fid.0 as usize) >= files.len() {
            return false;
        }
        k = k + 1;
    }
    let lambdas = program.lambdas();
    let mut l: usize = 0;
    while l < lambdas.len()
        invariant
            lambdas@ == program@.lambdas,
            l <= lambdas@.len(),
            forall|m: int| 0 <= m < l ==> span_in(files@, (#[trigger] lambdas@[m]).span),
        decreases lambdas@.len() - l,
    {
        if (lambdas[l].span.fid.0 as usize) >= files.len() {
            return false;
        }
        l = l + 1;
    }
    true
}

pub fn render_program(program: &Program, files: &Vec<SourceFile>) -> (r: String)
    requires
        listable(program@, files@),
    ensures
        r@ == program_text(program@, files@),
{
    let ghost p = program@;
    let mut out = head_listing(program, files);
    push_str(&mut out, "\nops:\n");
    let ghost ops_start = out@;
    let ops = program.ops();
    let flow = FlowPrinter::new(ops);
    let mut idx: usize = 0;
    while idx < ops.len()
        invariant
            p == program@,
            ops@ == p.code,
            listable(p, files@),
            flow.edges@ == flow_edges(p.code, p.code.len() as int).0,
            flow.lanes == flow_edges(p.code, p.code.len() as int).1.len(),
            idx <= ops@.len(),
            out@ == ops_start + ops_lines(p, files@, idx as int),
        decreases ops@.len() - idx,
    {
        let line = op_listing(program, files, &flow, idx);
        push_str(&mut out, line.as_str());
        idx = idx + 1;
        assert(out@ =~= ops_start + ops_lines(p, files@, idx as int));
    }
    assert(out@ =~= program_text(p, files@));
    out
}

fn first_expr_at(expressions: &Vec<Expr>, idx: usize) -> (r: Option<usize>)
    ensures
        match r {
            Some(k) => k < expressions@.len() && expr_starting_at(expressions@, idx as int) == Some(k as int),
            None => expr_starting_at(expressions@, idx as int) is None,
        },
{
    let mut j: usize = 0;
    assert(expressions@.take(0) =~= Seq::<Expr>::empty());
    while j < expressions.len()
        invariant
            j <= expressions@.len(),
            expr_starting_at(expressions@.take(j as int), idx as int) is None,
        decreases expressions@.len() - j,
    {
        assert(expressions@.take(j + 1).drop_last() =~= expressions@.take(j as int));
        if expressions[j].start.index() == idx {
            proof {
                lemma_expr_starting_at_prefix(expressions@, idx as int, j as int + 1);
            }
            return Some(j);
        }
        j = j + 1;
    }
    assert(expressions@.take(j as int) =~= expressions@);
    None
}

/// The listing lines of the instruction at `idx`.
fn op_listing(program: &Program, files: &Vec<SourceFile>, flow: &FlowPrinter, idx: usize) -> (r: String)
    requires
        listable(program@, files@),
        idx < program@.code.len(),
        flow.edges@ == flow_edges(program@.code, program@.code.len() as int).0,
        flow.lanes == flow_edges(program@.code, program@.code.len() as int).1.len(),
    ensures
        r@ == op_lines(program@, files@, idx as int),
{
    let ghost p = program@;
    let expressions = program.expressions();
    let op = program.ops()[idx];
    let pos = CodePos::from_index(idx);
    let mut out = String::new();
    match first_expr_at(expressions, idx) {
        Some(k) => {
            let expr = expressions[k];
            if idx != 0 {
                push_str(&mut out, "\n");
            }
            push_str(&mut out, "  expr ");
            push_str(&mut out, fmt_pos(expr.start).as_str());
            push_str(&mut out, "..");
            push_str(&mut out, fmt_pos(expr.end).as_str());
            push_str(&mut out, " ");
            push_str(&mut out, format_span(files, expr.span).as_str());
            push_str(&mut out, "\n");
        },
        None => {},
    }
    let span = if expressions.len() == 0 {
        None
    } else {
        Some(program.find_pos(pos))
    };
    proof {
        lemma_smallest_cover_in_range(p.expressions, pos);
        lemma_code_pos_eq(pos, idx);
    }
    let guide = flow.guide_for(pos);
    push_str(&mut out, "  ");
    push_str(&mut out, fmt_pos(pos).as_str());
    push_str(&mut out, "  ");
    push_str(&mut out, guide.as_str());
    assert(loads_interned(p.code[idx as int], p.strings.len()));
    assert(jump_offset(p.code[idx as int]) matches Some(o) ==> idx + 1 + o.len() <= usize::MAX);
    let shown = format_op(program, pos, op);
    push_padded(&mut out, shown.as_str(), 24);
    push_str(&mut out, " ");
    match span {
        Some(sp) => {
            push_str(&mut out, format_span(files, sp).as_str());
        },
        None => push_str(&mut out, "<unknown source>"),
    }
    push_str(&mut out, "\n");
    assert(out@ =~= op_lines(p, files@, idx as int));
    out
}

proof fn lemma_expr_starting_at_prefix(exprs: Seq<Expr>, idx: int, k: int)
    requires
        0 <= k <= exprs.len(),
        expr_starting_at(exprs.take(k), idx) is Some,
    ensures
        expr_starting_at(exprs, idx) == expr_starting_at(exprs.take(k), idx),
    decreases exprs.len() - k,
{
    if k < exprs.len() {
        assert(exprs.take(k + 1).drop_last() =~= exprs.take(k));
        lemma_expr_starting_at_prefix(exprs, idx, k + 1);
    } else {
        assert(exprs.take(k) =~= exprs);
    }
}

} // verus!
