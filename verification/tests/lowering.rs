use mix::files::FileId;
use mix::mir::{self, MirLowerer};
use mix::parse::Parser;
use mix::report::{ReportLevel, Reports};

fn lower(source: &str) -> (Result<mix::files::Node<mir::Expr<'_>>, ()>, Reports) {
    let (expr, reports) = Parser::parse(source, FileId(0));
    assert!(!reports.has_errors(), "source failed to parse");
    MirLowerer::new(reports).lower(expr.unwrap())
}

#[test]
fn duplicate_inherited_attr_is_rejected() {
    let (expr, reports) = lower("let x = 1 in { x; x = 2; }");
    assert!(expr.is_err());
    let reports = reports.reports();
    assert_eq!(reports.len(), 1);
    assert_eq!(reports[0].level, ReportLevel::Error);
    assert_eq!(reports[0].title, "duplicate attribute x");
}

#[test]
fn nested_paths_merge_into_one_attribute() {
    let (expr, reports) = lower("{ a.b = 1; a.c = 2; d = 3; }");
    assert!(!reports.has_errors());
    let mir::Expr::AttrSet(set) = expr.unwrap().0 else {
        panic!("expected attribute set");
    };
    assert_eq!(set.static_attrs.len(), 2);
    assert_eq!(set.static_attrs[0].0.name.0, "a");
    let Some(value) = &set.static_attrs[0].0.value else {
        panic!("expected a value");
    };
    let mir::Expr::AttrSet(inner) = &value.0 else {
        panic!("expected nested set");
    };
    assert_eq!(inner.static_attrs.len(), 2);
    assert_eq!(inner.static_attrs[1].0.name.0, "c");
    assert_eq!(set.static_attrs[1].0.name.0, "d");
    assert!(set.dynamic_attrs.is_empty());
}

#[test]
fn value_then_nested_path_is_a_duplicate() {
    let (expr, reports) = lower("{ a = { b = 1; }; a.c = 2; }");
    assert!(expr.is_err());
    assert_eq!(reports.reports()[0].title, "duplicate attribute a");
}

#[test]
fn dotted_duplicate_is_named_by_its_path() {
    let (expr, reports) = lower("{ a.b = 1; a.b = 2; }");
    assert!(expr.is_err());
    assert_eq!(reports.reports()[0].title, "duplicate attribute a.b");
}

#[test]
fn dynamic_attrs_stay_apart() {
    let (expr, reports) = lower("{ ${\"k\"}.x = 1; y = 2; }");
    assert!(!reports.has_errors());
    let mir::Expr::AttrSet(set) = expr.unwrap().0 else {
        panic!("expected attribute set");
    };
    assert_eq!(set.static_attrs.len(), 1);
    assert_eq!(set.dynamic_attrs.len(), 1);
    let Some(value) = &set.dynamic_attrs[0].0.value else {
        panic!("expected nested value");
    };
    let mir::Expr::AttrSet(inner) = &value.0 else {
        panic!("expected nested set");
    };
    assert_eq!(inner.dynamic_attrs.len(), 1);
}

#[test]
fn pipes_become_applications() {
    let (expr, reports) = lower("x |> f");
    assert!(!reports.has_errors());
    let mir::Expr::FuncApp { func, arg } = expr.unwrap().0 else {
        panic!("expected application");
    };
    assert!(matches!(func.0, mir::Expr::Ident("f")));
    assert!(matches!(arg.0, mir::Expr::Ident("x")));
}

#[test]
fn duplicate_pattern_names_are_reported() {
    let (expr, reports) = lower("{ a, b = a }: a");
    assert!(expr.is_err());
    assert_eq!(reports.reports()[0].title, "duplicate bound attribute a");
    let (expr, _) = lower("let x = 1; x = 2; in x");
    assert!(expr.is_err());
    let (expr, reports) = lower("let x = 1; y = 2; in x");
    assert!(expr.is_ok());
    assert!(!reports.has_errors());
}

#[test]
fn underscore_may_be_bound_twice() {
    let (expr, _) = lower("[_, _]: 1");
    assert!(expr.is_ok());
}
