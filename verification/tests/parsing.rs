use mix::files::FileId;
use mix::parse::{ast, Parser};

#[test]
fn chains_of_operands_parse() {
    for source in [
        "a",
        "f x 1 + -g \"s\"",
        "!a || b == c * 2",
        "1 * 2 + 3",
        "1 - 2 - 3",
        "- - x |> f",
        "f (x + 1) * -(g \"s\")",
        "((a))",
        "!(a || b) == c",
        "(f) (x) y",
        "if a then 1 else 2 + 3",
        "f (if x then y else z) w",
        "if a then if b then c else d else e",
        "!(if a then b else c) == d",
        "x: x + 1",
        "(x: x * 2) 3",
        "map (x: -x) xs",
        "f: x: f (f x)",
        "let x = 1; y = x + 2 in f y",
        "let x = 1 in x",
        "let f = x: x; in f 2",
        "(let a = 1, in a) + 1",
        "let a = let b = 2 in b; in a",
        "x :: A -> B -> C: x",
        "x :: [A]: x",
        "x :: [A, B,]: x",
        "x :: { a :: A, b :: B }: x",
        "x :: Type { a :: A, }: x",
        "x :: A | B -> C | D: x",
        "x :: (A -> B) -> C: x",
        "let f :: [A, B] -> [C] = x: x in f",
    ] {
        let (expr, reports) = Parser::parse(source, FileId(0));
        assert!(!reports.has_errors(), "{source}");
        assert!(expr.is_ok(), "{source}");
    }
}

#[test]
fn multiplication_binds_tighter_than_addition() {
    let (expr, _) = Parser::parse("1 * 2 + 3", FileId(0));
    let ast::Expr::BinOp { lhs, op, .. } = expr.unwrap().0 else {
        panic!("expected an operator");
    };
    assert_eq!(op.0, ast::BinOp::Add);
    assert!(matches!(lhs.0, ast::Expr::BinOp { op, .. } if op.0 == ast::BinOp::Mul));
}

#[test]
fn subtraction_is_left_associative() {
    let (expr, _) = Parser::parse("1 - 2 - 3", FileId(0));
    let ast::Expr::BinOp { lhs, op, rhs } = expr.unwrap().0 else {
        panic!("expected an operator");
    };
    assert_eq!(op.0, ast::BinOp::Sub);
    assert!(matches!(lhs.0, ast::Expr::BinOp { op, .. } if op.0 == ast::BinOp::Sub));
    assert!(matches!(rhs.0, ast::Expr::Num(_)));
}

#[test]
fn a_leftover_token_fails_the_parse() {
    let (expr, reports) = Parser::parse("1 )", FileId(0));
    assert!(expr.is_err());
    assert_eq!(reports.reports().len(), 1);
    assert_eq!(reports.reports()[0].title, "expected eof but got token ')'");
}

#[test]
fn an_unclosed_parenthesis_fails_the_parse() {
    let (expr, reports) = Parser::parse("(a + 1", FileId(0));
    assert!(expr.is_err());
    assert!(reports.has_errors());
    let titles: Vec<&str> = reports.reports().iter().map(|r| r.title.as_str()).collect();
    assert_eq!(titles, vec!["unclosed delimiter"]);
    assert_eq!(reports.reports()[0].span.range.start, 6);
}

#[test]
fn a_wrong_closing_delimiter_is_reported_once() {
    let (expr, reports) = Parser::parse("(1]", FileId(0));
    assert!(expr.is_err());
    let titles: Vec<&str> = reports.reports().iter().map(|r| r.title.as_str()).collect();
    assert_eq!(titles, vec!["mismatched delimiter"]);
    assert_eq!(reports.reports()[0].span.range.start, 2);
    assert_eq!(reports.reports()[0].span.range.end, 3);
}

#[test]
fn the_else_branch_reaches_as_far_as_it_can() {
    let (expr, _) = Parser::parse("if a then 1 else 2 + 3", FileId(0));
    let ast::Expr::IfThenElse { else_expr, .. } = expr.unwrap().0 else {
        panic!("expected a conditional");
    };
    assert!(matches!(else_expr.0, ast::Expr::BinOp { .. }));
}
