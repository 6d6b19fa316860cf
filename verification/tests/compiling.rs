use mix::bytecode::pretty::{can_list, render_program, SourceFile};
use mix::bytecode::{CodeLocOffset, CodePos, OpCode, Program};
use mix::compiler::Compiler;
use mix::files::FileId;
use mix::mir::MirLowerer;
use mix::parse::Parser;

fn compile_into(program: &mut Program, source: &str) -> CodePos {
    let (expr, reports) = Parser::parse(source, FileId(0));
    assert!(!reports.has_errors(), "source failed to parse");
    let (expr, reports) = MirLowerer::new(reports).lower(expr.unwrap());
    assert!(!reports.has_errors(), "source failed to lower");
    Compiler::new().compile_top_level(program, &expr.unwrap())
}

fn compile(source: &str) -> (Program, CodePos) {
    let mut program = Program::new();
    let start = compile_into(&mut program, source);
    (program, start)
}

fn string_of(program: &Program, op: OpCode) -> String {
    match op {
        OpCode::LoadStr(id) | OpCode::LoadFloat(id) => program.get_str(id).unwrap().clone(),
        other => panic!("expected a string load, got {other:?}"),
    }
}

#[test]
fn arithmetic_compiles_operands_then_operator() {
    let (program, start) = compile("1 + 2 * 3");
    assert_eq!(start, CodePos::from_index(0));
    assert_eq!(
        program.ops(),
        &vec![OpCode::LoadInt(1), OpCode::LoadInt(2), OpCode::LoadInt(3), OpCode::Mul, OpCode::Add, OpCode::Ret]
    );
    assert_eq!(program.expressions().len(), 1);
}

#[test]
fn and_jumps_over_its_right_operand() {
    let (program, _) = compile("a && b");
    let ops = program.ops();
    assert_eq!(ops.len(), 8);
    assert_eq!(string_of(&program, ops[0]), "a");
    assert_eq!(&ops[1..3], &[OpCode::LoadScope, OpCode::EvalThunk]);
    assert_eq!(ops[3], OpCode::And(CodeLocOffset(3)));
    assert_eq!(string_of(&program, ops[4]), "b");
    assert_eq!(&ops[5..], &[OpCode::LoadScope, OpCode::EvalThunk, OpCode::Ret]);
}

#[test]
fn if_then_else_jumps_are_relative() {
    let (program, _) = compile("if true then 1 else 2");
    assert_eq!(
        program.ops(),
        &vec![
            OpCode::LoadBool(true),
            OpCode::If(CodeLocOffset(2)),
            OpCode::LoadInt(1),
            OpCode::Branch(CodeLocOffset(1)),
            OpCode::LoadInt(2),
            OpCode::Ret,
        ]
    );
}

#[test]
fn function_body_is_its_own_expression() {
    let (program, start) = compile("x: x");
    let ops = program.ops();
    assert_eq!(string_of(&program, ops[0]), "x");
    assert_eq!(ops[1], OpCode::BindThunkScope);
    assert_eq!(string_of(&program, ops[2]), "x");
    assert_eq!(&ops[3..6], &[OpCode::LoadScope, OpCode::EvalThunk, OpCode::Ret]);
    assert!(matches!(ops[6], OpCode::LoadLambda(_)));
    assert_eq!(ops[7], OpCode::Ret);
    assert_eq!(start, CodePos::from_index(6));
    assert_eq!(program.lambdas().len(), 1);
    assert_eq!(program.lambdas()[0].code, CodePos::from_index(0));
    assert_eq!(program.expressions().len(), 2);
}

#[test]
fn let_binds_values_in_a_scope() {
    let (program, _) = compile("let a = 1 in a");
    let ops = program.ops();
    assert_eq!(&ops[0..3], &[OpCode::EnterScope, OpCode::LoadInt(1), OpCode::UnEvalValue]);
    assert_eq!(string_of(&program, ops[3]), "a");
    assert_eq!(ops[4], OpCode::BindThunkScope);
    assert_eq!(string_of(&program, ops[5]), "a");
    assert_eq!(&ops[6..], &[OpCode::LoadScope, OpCode::EvalThunk, OpCode::LeaveScope, OpCode::Ret]);
}

#[test]
fn let_of_a_computation_starts_a_thunk_and_finalizes_it() {
    let (program, start) = compile("let a = 1 + 2 in a");
    let ops = program.ops();
    // The value of `a` is an expression of its own, placed first.
    assert_eq!(&ops[0..4], &[OpCode::LoadInt(1), OpCode::LoadInt(2), OpCode::Add, OpCode::Ret]);
    assert_eq!(start, CodePos::from_index(4));
    assert_eq!(ops[4], OpCode::EnterScope);
    assert_eq!(ops[5], OpCode::BeginThunk(CodePos::from_index(0)));
    assert_eq!(ops[6], OpCode::DupT);
    assert_eq!(string_of(&program, ops[7]), "a");
    assert_eq!(&ops[8..10], &[OpCode::BindThunkScope, OpCode::FinalizeThunk]);
    assert_eq!(ops[10], OpCode::PopT);
    assert_eq!(ops.last(), Some(&OpCode::Ret));
}

#[test]
fn float_literal_is_loaded_by_its_text() {
    let (program, _) = compile("2.5");
    let ops = program.ops();
    assert_eq!(ops.len(), 2);
    assert_eq!(string_of(&program, ops[0]), "2.5");
}

#[test]
fn list_elements_are_appended_one_by_one() {
    let (program, _) = compile("[1, x]");
    let ops = program.ops();
    assert_eq!(&ops[0..4], &[OpCode::CreateList(2), OpCode::LoadInt(1), OpCode::UnEvalValue, OpCode::AppendList]);
    assert_eq!(string_of(&program, ops[4]), "x");
    assert_eq!(&ops[5..], &[OpCode::LoadScope, OpCode::AppendList, OpCode::Ret]);
}

#[test]
fn attribute_set_sets_each_value() {
    let (program, _) = compile("{ a = 1; }");
    let ops = program.ops();
    assert_eq!(ops[0], OpCode::CreateAttrSet);
    assert_eq!(string_of(&program, ops[1]), "a");
    assert_eq!(&ops[2..], &[OpCode::LoadInt(1), OpCode::UnEvalValue, OpCode::SetAttr, OpCode::Ret]);
}

#[test]
fn compiling_again_keeps_earlier_code() {
    let mut program = Program::new();
    compile_into(&mut program, "1 - 2");
    let before = program.ops().clone();
    let strings_before = program.expressions().len();
    let start = compile_into(&mut program, "\"s\"");
    assert_eq!(start, CodePos::from_index(before.len()));
    assert_eq!(&program.ops()[..before.len()], &before[..]);
    assert_eq!(program.expressions().len(), strings_before + 1);
}

fn lowered_lets_are_named(source: &str) -> bool {
    let (expr, reports) = Parser::parse(source, FileId(0));
    assert!(!reports.has_errors(), "source failed to parse");
    let (expr, reports) = MirLowerer::new(reports).lower(expr.unwrap());
    assert!(!reports.has_errors(), "source failed to lower");
    mix::compiler::lets_are_named(&expr.unwrap().0)
}

#[test]
fn lowered_let_bindings_are_named() {
    assert!(lowered_lets_are_named("let a = 1; b = { c = let d = 2 in d; }; in [a, b]"));
}

/// Parses, lowers and compiles `source`: `Err` when a report is an error.
fn load(source: &str) -> Result<(Program, CodePos), ()> {
    let (expr, reports) = Parser::parse(source, FileId(0));
    let expr = expr?;
    let (expr, _) = MirLowerer::new(reports).lower(expr);
    let expr = expr?;
    let mut program = Program::new();
    let start = program.compile(&expr);
    Ok((program, start))
}

#[test]
fn destructuring_let_bindings_are_rejected() {
    assert!(load("let { x } = { x = 1; } in x").is_err());
    assert!(load("let [x, y] = [1, 2]; in x").is_err());
}

#[test]
fn unnamed_let_binding_is_reported_when_lowering() {
    let (expr, reports) = Parser::parse("let { x } = { x = 1; } in x", FileId(0));
    let (expr, reports) = MirLowerer::new(reports).lower(expr.unwrap());
    assert!(expr.is_err());
    let reports = reports.reports();
    assert_eq!(reports.len(), 1);
    assert_eq!(reports[0].title, "let bindings must bind a name");
    assert_eq!((reports[0].span.range.start, reports[0].span.range.end), (4, 9));
}

#[test]
fn program_compile_uses_the_compiler() {
    let (expr, reports) = Parser::parse("-1", FileId(0));
    let (expr, _) = MirLowerer::new(reports).lower(expr.unwrap());
    let mut program = Program::new();
    let start = program.compile(&expr.unwrap());
    assert_eq!(start, CodePos::from_index(0));
    assert_eq!(program.ops(), &vec![OpCode::LoadInt(1), OpCode::Neg, OpCode::Ret]);
}

#[test]
fn compiled_program_can_be_listed_with_its_source() {
    let source = "if a then 1 else 2";
    let (program, _) = compile(source);
    let files = vec![SourceFile { path: "main.mix".to_string(), source: source.to_string() }];
    assert!(can_list(&program, &files));
    let listing = render_program(&program, &files);
    assert!(listing.contains("If +2 -> 0006"));
    assert!(!can_list(&program, &Vec::new()));
}

fn jump_of(op: OpCode) -> Option<usize> {
    match op {
        OpCode::And(o) | OpCode::Or(o) | OpCode::LogImp(o) | OpCode::If(o) | OpCode::GetAttrOr(o) | OpCode::Branch(o) => {
            Some(o.0)
        }
        _ => None,
    }
}

#[test]
fn jumps_stay_inside_the_code_of_their_expression() {
    let (program, start) = compile("if (a.b.c ? 1) && (x ? y) || z then (if p || q then 1 else 2) else 3");
    let ops = program.ops();
    let begin = start.index();
    let end = ops.len() - 1;
    assert_eq!(ops[end], OpCode::Ret);
    let mut jumps = 0;
    for i in begin..end {
        if let Some(k) = jump_of(ops[i]) {
            jumps += 1;
            assert!(i + k + 1 <= end, "jump at {i} by {k} leaves the code");
        }
    }
    assert!(jumps >= 6);
}
