use clawgic::{ExpressionTree, ExpressionVar, ExpressionVars};

#[test]
fn expression_var_tests_op_construction() {
    let expected = ExpressionTree::new("~(((~A v B) & C) -> D <-> E)").unwrap();
    let a = ExpressionVar::new("A").unwrap();
    let b = ExpressionVar::new("B").unwrap();
    let c = ExpressionVar::new("C").unwrap();
    let d = ExpressionVar::new("D").unwrap();
    let e = ExpressionVar::new("E").unwrap();
    let expression = a.expr().not().or(b.expr()).and(c.expr()).con(d.expr()).bicon(e.expr()).not();

    assert!(expression.lit_eq(&expected));
}

#[test]
fn expression_var_tests_assignop_construction() {
    let expected = ExpressionTree::new("~(((~A v B) & C) -> D <-> E)").unwrap();
    let a = ExpressionVar::new("A").unwrap();
    let b = ExpressionVar::new("B").unwrap();
    let c = ExpressionVar::new("C").unwrap();
    let d = ExpressionVar::new("D").unwrap();
    let e = ExpressionVar::new("E").unwrap();
    let mut expression = a.expr().not();
    expression = expression.or(b.expr());
    expression = expression.and(c.expr());
    expression = expression.con(d.expr());
    expression = expression.bicon(e.expr()).not();

    assert!(expression.lit_eq(&expected));
}

#[test]
fn new_vars_ex() {
    let expected = ExpressionTree::new("A1 & A2 -> A3").unwrap();
    let a = ExpressionVars::new("A", 1, 3, true).unwrap();

    let expr = a.index(1).expr().and(a.index(2).expr()).con(a.index(3).expr());

    assert!(expr.lit_eq(&expected));
}

#[test]
fn new_vars_in() {
    let expected = ExpressionTree::new("A1 & A2 -> A3").unwrap();
    let a = ExpressionVars::new("A", 1, 3, true).unwrap();

    let expr = a.index(1).expr().and(a.index(2).expr()).con(a.index(3).expr());

    assert!(expr.lit_eq(&expected));
}

#[test]
fn relative_index_normal() {
    let a = ExpressionVars::new("A", 1, 3, true).unwrap();
    assert_eq!(a.index(1).name(), "A1");
    assert_eq!(a.index(2).name(), "A2");
    assert_eq!(a.index(3).name(), "A3");
    assert_eq!((a.start(), a.end()), (1, 3));
}

#[test]
fn absolute_index_normal() {
    let a = ExpressionVars::new("A", 1, 3, false).unwrap();
    assert_eq!(a.index(0).name(), "A1");
    assert_eq!(a.index(1).name(), "A2");
    assert_eq!(a.index(2).name(), "A3");
    assert_eq!((a.start(), a.end()), (0, 2));
}

#[test]
fn vars_iter() {
    let a = ExpressionVars::new("A", 1, 3, false).unwrap();
    let mut iter = a.into_iter();
    assert_eq!(iter.next().unwrap().name(), "A1");
    assert_eq!(iter.next().unwrap().name(), "A2");
    assert_eq!(iter.next().unwrap().name(), "A3");
    assert!(iter.next().is_none());
}

#[test]
fn var_names_are_checked() {
    assert!(ExpressionVar::new("  B12 ").is_ok());
    assert_eq!(ExpressionVar::new(" B12 ").unwrap().name(), "B12");
    assert!(ExpressionVar::new("b").is_err());
    assert!(ExpressionVar::new("").is_err());
    assert!(ExpressionVar::new("AB").is_err());
    assert!(ExpressionVars::new("a", 1, 2, true).is_err());
    assert!(ExpressionVars::new("A", 3, 1, true).is_err());
    let big = ExpressionVars::new("X", 9, 11, true).unwrap();
    assert_eq!(big.index(10).name(), "X10");
}
