use mix::files::{FileId, Node};
use mix::mir::MirLowerer;
use mix::parse::{ast, Parser};

fn parse_ok(source: &str) -> Node<ast::Expr<'_>> {
    let (expr, reports) = Parser::parse(source, FileId(0));
    assert!(!reports.has_errors());
    expr.unwrap()
}

#[test]
fn function_types_are_right_associative() {
    let expr = parse_ok("x :: A -> B -> C: x");
    let ast::Expr::Lambda(lambda) = expr.0 else {
        panic!("expected lambda expression");
    };
    let ty = lambda.arg.0.ty.unwrap();
    let ast::Type::Lambda { arg, ret } = ty.0 else {
        panic!("expected function type");
    };
    assert!(matches!(arg.0, ast::Type::Named(Node("A", _))));
    assert!(matches!(
        ret.0,
        ast::Type::Lambda {
            arg,
            ret
        } if matches!(arg.0, ast::Type::Named(Node("B", _)))
            && matches!(ret.0, ast::Type::Named(Node("C", _)))
    ));
}

#[test]
fn bracket_types_distinguish_lists_and_tuples() {
    for (source, tuple) in [
        ("x :: [A]: x", false),
        ("x :: [A,]: x", true),
        ("x :: [A, B]: x", true),
        ("x :: [A, B,]: x", true),
    ] {
        let (expr, reports) = Parser::parse(source, FileId(0));
        assert!(!reports.has_errors());
        let ast::Expr::Lambda(lambda) = expr.unwrap().0 else {
            panic!("expected lambda expression");
        };
        let ty = lambda.arg.0.ty.unwrap().0;

        if tuple {
            assert!(matches!(ty, ast::Type::Tuple(_)));
        } else {
            assert!(matches!(
                ty,
                ast::Type::List(element)
                    if matches!(element.0, ast::Type::Named(Node("A", _)))
            ));
        }
    }
}

#[test]
fn let_bindings_accept_type_annotations() {
    let (expr, reports) = Parser::parse("let f :: [A, B] -> [C] = x: x in f", FileId(0));
    assert!(!reports.has_errors());

    let (expr, reports) = MirLowerer::new(reports).lower(expr.unwrap());
    assert!(!reports.has_errors());
    assert!(expr.is_ok());
}

#[test]
fn attrset_types_can_be_anonymous_or_named() {
    for (source, expected_name, field_count) in [
        ("x :: { a :: A, b :: B }: x", None, 2),
        ("x :: Type { a :: A, }: x", Some("Type"), 1),
    ] {
        let (expr, reports) = Parser::parse(source, FileId(0));
        assert!(!reports.has_errors());
        let ast::Expr::Lambda(lambda) = expr.unwrap().0 else {
            panic!("expected lambda expression");
        };
        let ast::Type::AttrSet { name, fields } = lambda.arg.0.ty.unwrap().0 else {
            panic!("expected attrset type");
        };
        assert_eq!(name.map(|name| name.0), expected_name);
        assert_eq!(fields.len(), field_count);
    }
}

#[test]
fn union_types_bind_tighter_than_function_types() {
    let expr = parse_ok("x :: A | B -> C | D: x");
    let ast::Expr::Lambda(lambda) = expr.0 else {
        panic!("expected lambda expression");
    };
    let ast::Type::Lambda { arg, ret } = lambda.arg.0.ty.unwrap().0 else {
        panic!("expected function type");
    };
    assert!(matches!(arg.0, ast::Type::Union(ref variants) if variants.len() == 2));
    assert!(matches!(ret.0, ast::Type::Union(ref variants) if variants.len() == 2));
}
