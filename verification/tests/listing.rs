use mix::bytecode::pretty::{format_jump, line_col, render_program, FlowPrinter, SourceFile};
use mix::bytecode::{CodeLocOffset, CodePos, OpCode, Program};
use mix::files::{ByteRange, FileId, Span};

#[test]
fn positions_have_four_digits() {
    assert_eq!(mix::bytecode::pretty::fmt_pos(CodePos::from_index(7)), "0007");
    assert_eq!(mix::bytecode::pretty::fmt_pos(CodePos::from_index(12345)), "12345");
}

#[test]
fn jumps_show_where_they_land() {
    assert_eq!(format_jump("If", CodePos::from_index(3), CodeLocOffset(2)), "If +2 -> 0006");
}

#[test]
fn line_col_counts_from_one() {
    assert_eq!(line_col("ab\ncd", 0), (1, 1));
    assert_eq!(line_col("ab\ncd", 1), (1, 2));
    assert_eq!(line_col("ab\ncd", 3), (2, 1));
    assert_eq!(line_col("ab\ncd", 4), (2, 2));
    assert_eq!(line_col("é\nx", 2), (1, 2));
    assert_eq!(line_col("é\nx", 3), (2, 1));
}

#[test]
fn overlapping_jumps_take_separate_lanes() {
    let ops = vec![
        OpCode::If(CodeLocOffset(3)),
        OpCode::And(CodeLocOffset(1)),
        OpCode::Add,
        OpCode::Sub,
        OpCode::Branch(CodeLocOffset(0)),
        OpCode::Ret,
    ];
    let flow = FlowPrinter::new(&ops);
    assert_eq!(flow.lanes, 2);
    assert_eq!(flow.edges.len(), 3);
    assert_eq!((flow.edges[0].source, flow.edges[0].target, flow.edges[0].lane), (0, 4, 0));
    assert_eq!((flow.edges[1].source, flow.edges[1].target, flow.edges[1].lane), (1, 3, 1));
    assert_eq!((flow.edges[2].source, flow.edges[2].target, flow.edges[2].lane), (4, 5, 1));
    assert_eq!(flow.guide_for(CodePos::from_index(0)), "┌─    ");
    assert_eq!(flow.guide_for(CodePos::from_index(2)), "│  │  ");
    assert_eq!(flow.guide_for(CodePos::from_index(4)), "└▶ ┌─ ");
}

#[test]
fn programs_are_listed_with_their_sources() {
    let mut program = Program::new();
    let span = Span::new(ByteRange { start: 0, end: 5 }, FileId(0));
    let s = program.emit_str("x");
    program.emit_expr(span, vec![OpCode::LoadStr(s), OpCode::LoadScope]);
    let files = vec![SourceFile { path: "a.mix".to_string(), source: "x + 1".to_string() }];
    let listing = render_program(&program, &files);
    assert_eq!(
        listing,
        "== Bytecode ==\ntop expr @0000..0003 a.mix:1:1-1:6\n\nops:\n  expr 0000..0003 a.mix:1:1-1:6\n  0000  LoadStr #1 \"x\"           a.mix:1:1-1:6\n  0001  LoadScope                a.mix:1:1-1:6\n  0002  Ret                      a.mix:1:1-1:6\n"
    );
}

#[test]
fn find_pos_prefers_the_smallest_expression() {
    let mut program = Program::new();
    let outer = Span::new(ByteRange { start: 0, end: 9 }, FileId(0));
    let inner = Span::new(ByteRange { start: 2, end: 3 }, FileId(0));
    program.emit_expr(outer, vec![OpCode::Add, OpCode::Add, OpCode::Add]);
    program.emit_expr(inner, vec![OpCode::Sub]);
    assert_eq!(program.find_pos(CodePos::from_index(5)), inner);
    assert_eq!(program.find_pos(CodePos::from_index(1)), outer);
    assert_eq!(program.find_pos(CodePos::from_index(40)), inner);
}
