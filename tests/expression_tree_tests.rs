use clawgic::{ExpressionTree, ExpressionTreeError, OperatorNotation, VarMap};

fn tree(s: &str) -> ExpressionTree {
    ExpressionTree::new(s).unwrap()
}

fn err_of(s: &str) -> ExpressionTreeError {
    ExpressionTree::new(s).unwrap_err()
}

fn assign(pairs: &[(&str, bool)]) -> VarMap<bool> {
    let mut m = VarMap::new();
    for (name, value) in pairs {
        m.insert(name.to_string(), *value);
    }
    m
}

#[test]
fn new_ok_single_variable() {
    assert!(ExpressionTree::new("A").is_ok());
}

#[test]
fn new_ok_one_connective() {
    assert!(ExpressionTree::new("A&B").is_ok());
}

#[test]
fn new_ok_two_connectives() {
    assert!(ExpressionTree::new("(A&B)vC").is_ok());
}

#[test]
fn new_ok_two_arrows() {
    assert!(ExpressionTree::new("A->B<->C").is_ok());
}

#[test]
fn new_ok_many_connectives() {
    assert!(ExpressionTree::new("(~(A&B)vC->~D<->~~E)").is_ok());
}

#[test]
fn new_err_missing_close_parentheses() {
    assert_eq!(err_of("(A&B"), ExpressionTreeError::InvalidParentheses);
}

#[test]
fn new_err_missing_open_parentheses() {
    assert_eq!(err_of("A&B)"), ExpressionTreeError::InvalidParentheses);
}

#[test]
fn new_err_lowercase_variable() {
    assert_eq!(err_of("A&b"), ExpressionTreeError::LowercaseVariables('b'));
}

#[test]
fn new_err_too_many_operators() {
    assert_eq!(err_of("(A&B)&"), ExpressionTreeError::TooManyOperators);
}

#[test]
fn new_err_not_enough_operators() {
    assert_eq!(err_of("AB"), ExpressionTreeError::NotEnoughOperators);
}

#[test]
fn new_err_tilde_nothing() {
    assert_eq!(err_of("A&~"), ExpressionTreeError::InvalidExpression);
}

#[test]
fn new_err_bad_double_arrow() {
    assert_eq!(err_of("A&<-"), ExpressionTreeError::UnknownSymbol);
}

#[test]
fn new_err_bad_single_arrow() {
    assert_eq!(err_of("A&-"), ExpressionTreeError::UnknownSymbol);
}

#[test]
fn new_err_random_symbol() {
    assert_eq!(err_of("A&?"), ExpressionTreeError::UnknownSymbol);
}

#[test]
fn new_err_ambiguous_conjunctions() {
    assert_eq!(err_of("A&B&C"), ExpressionTreeError::AmbiguousExpression);
}

#[test]
fn new_err_empty() {
    assert_eq!(err_of(""), ExpressionTreeError::InvalidExpression);
    assert_eq!(err_of("   "), ExpressionTreeError::InvalidExpression);
}

#[test]
fn new_err_lone_greater_than() {
    assert_eq!(err_of("A>B"), ExpressionTreeError::UnknownSymbol);
}

#[test]
fn new_err_negated_parenthesised_variable() {
    assert_eq!(err_of("~(A)"), ExpressionTreeError::InvalidExpression);
}

#[test]
fn new_accepts_aliases() {
    let a = tree("A*B");
    let b = tree("A^B");
    let c = tree("A∧B");
    let d = tree("A⋅B");
    let e = tree("A&B");
    assert!(a.lit_eq(&e) && b.lit_eq(&e) && c.lit_eq(&e) && d.lit_eq(&e));
    let o = tree("A|B");
    assert!(o.lit_eq(&tree("AvB")) && tree("A+B").lit_eq(&o) && tree("A∨B").lit_eq(&o));
    assert!(tree("A--->B").lit_eq(&tree("A->B")) && tree("A➞B").lit_eq(&tree("A->B")));
    assert!(tree("A<--->B").lit_eq(&tree("A<->B")) && tree("A⟷B").lit_eq(&tree("A<->B")));
    assert!(tree("!A").lit_eq(&tree("~A")) && tree("¬A").lit_eq(&tree("~A")));
}

#[test]
fn new_with_notation() {
    let t = ExpressionTree::new_with("!(A|B3)", &OperatorNotation::boolean_ascii()).unwrap();
    assert_eq!(t.infix(), "~(AvB3)");
    assert_eq!(
        ExpressionTree::new_with("A&B", &OperatorNotation::bits()).unwrap_err(),
        ExpressionTreeError::UnknownSymbol
    );
}

#[test]
fn constants() {
    let mut t = tree("~TRUE v FALSE");
    assert_eq!(t.evaluate(), Ok(false));
    assert_eq!(t.prefix(), "v~TRUEFALSE");
    let mut f = ExpressionTree::FALSE();
    assert_eq!(f.evaluate(), Ok(false));
    let mut c = ExpressionTree::constant(true);
    assert_eq!(c.evaluate(), Ok(true));
    let mut d = ExpressionTree::default();
    assert_eq!(d.evaluate(), Ok(false));
    assert!(ExpressionTree::TRUE().is_tautology());
}

#[test]
fn set_variable() {
    let mut t = ExpressionTree::new("A&B->A").unwrap();
    assert!(t.evaluate().is_err());
    t.set_variable("A", true);
    assert!(t.evaluate().is_err());
    t.set_variable("B", true);
    assert!(t.evaluate().is_ok());
}

#[test]
fn set_variable_absent_name() {
    let mut t = tree("A");
    t.set_variable("Z", true);
    assert_eq!(t.vars().len(), 1);
    assert_eq!(t.evaluate(), Err(ExpressionTreeError::UninitializedVariable("A".to_string())));
}

fn check_evaluate(expression: &str, ex: [bool; 4]) {
    let mut t = tree(expression);
    t.set_variable("A", true);
    t.set_variable("B", true);
    assert_eq!(t.evaluate().unwrap(), ex[0], "failed true true");
    t.set_variable("B", false);
    assert_eq!(t.evaluate().unwrap(), ex[1], "failed true false");
    t.set_variable("A", false);
    assert_eq!(t.evaluate().unwrap(), ex[2], "failed false false");
    t.set_variable("B", true);
    assert_eq!(t.evaluate().unwrap(), ex[3], "failed false true");
}

#[test]
fn evaluate_negated_conjunction() {
    check_evaluate("~(A&B)", [false, true, true, true]);
}

#[test]
fn evaluate_conjunction() {
    check_evaluate("A&B", [true, false, false, false]);
}

#[test]
fn evaluate_disjunction() {
    check_evaluate("AvB", [true, true, false, true]);
}

#[test]
fn evaluate_conditional() {
    check_evaluate("A->B", [true, false, true, true]);
}

#[test]
fn evaluate_biconditional() {
    check_evaluate("A<->B", [true, false, true, false]);
}

fn check_evaluate_with_vars(expression: &str, ex: [bool; 4]) {
    let t = tree(expression);
    let mut v = VarMap::new();
    v.insert("A".to_string(), true);
    v.insert("B".to_string(), true);
    assert_eq!(t.evaluate_with_vars(&v).unwrap(), ex[0], "failed true true");
    v.insert("B".to_string(), false);
    assert_eq!(t.evaluate_with_vars(&v).unwrap(), ex[1], "failed true false");
    v.insert("A".to_string(), false);
    assert_eq!(t.evaluate_with_vars(&v).unwrap(), ex[2], "failed false false");
    v.insert("B".to_string(), true);
    assert_eq!(t.evaluate_with_vars(&v).unwrap(), ex[3], "failed false true");
}

#[test]
fn evaluate_with_vars_negated_conjunction() {
    check_evaluate_with_vars("~(A&B)", [false, true, true, true]);
}

#[test]
fn evaluate_with_vars_conjunction() {
    check_evaluate_with_vars("A&B", [true, false, false, false]);
}

#[test]
fn evaluate_with_vars_disjunction() {
    check_evaluate_with_vars("AvB", [true, true, false, true]);
}

#[test]
fn evaluate_with_vars_conditional() {
    check_evaluate_with_vars("A->B", [true, false, true, true]);
}

#[test]
fn evaluate_with_vars_biconditional() {
    check_evaluate_with_vars("A<->B", [true, false, true, false]);
}

#[test]
fn evaluate_with_vars_missing() {
    let t = tree("A&C");
    let v = assign(&[("A", true)]);
    assert_eq!(
        t.evaluate_with_vars(&v),
        Err(ExpressionTreeError::UninitializedVariable("C".to_string()))
    );
}

#[test]
fn evaluate_is_remembered_until_change() {
    let mut t = tree("A->B");
    t.set_variable("A", true);
    t.set_variable("B", false);
    assert_eq!(t.evaluate(), Ok(false));
    assert_eq!(t.evaluate(), Ok(false));
    t.set_variable("B", true);
    assert_eq!(t.evaluate(), Ok(true));
    t.deny();
    assert_eq!(t.evaluate(), Ok(false));
}

#[test]
fn prefix_one_connective() {
    assert_eq!(tree("A&B").prefix(), "&AB");
}

#[test]
fn prefix_two_connectives() {
    assert_eq!(tree("(A&B)vC").prefix(), "v&ABC");
}

#[test]
fn prefix_three_connectives() {
    assert_eq!(tree("(A&B)vC->D").prefix(), "->v&ABCD");
}

#[test]
fn prefix_four_connectives() {
    assert_eq!(tree("(A&B)vC->(D<->E)").prefix(), "->v&ABC<->DE");
}

#[test]
fn prefix_four_connectives_with_funny_symbols() {
    assert_eq!(tree("(A1&~B)v~C3->~(D<->E)").prefix(), "->v&A1~B~C3~<->DE");
}

#[test]
fn prefix_with_mathematical_notation() {
    assert_eq!(tree("~(A->B)").prefix_with(&OperatorNotation::mathematical()), "¬➞AB");
}

#[test]
fn infix_forms() {
    assert_eq!(tree("A&B").infix(), "A&B");
    assert_eq!(tree("(A&B)vC").infix(), "(A&B)vC");
    assert_eq!(tree("~(A&B)").infix(), "~(A&B)");
    assert_eq!(tree("~~A v ~~~B").infix(), "~~Av~~~B");
    assert_eq!(tree("A").infix(), "A");
    assert_eq!(tree("A->B").infix_with(&OperatorNotation::mathematical()), "A➞B");
}

#[test]
fn monotenize_no_expected_changes() {
    let mut t = tree("A&B");
    t.monotenize();
    assert_eq!(t.infix(), "A&B");
}

#[test]
fn monotenize_just_demorgans() {
    let mut t = tree("~(A&B)");
    t.monotenize();
    assert_eq!(t.infix(), "~~(~Av~B)");
}

#[test]
fn monotenize_just_implication() {
    let mut t = tree("A->B");
    t.monotenize();
    assert_eq!(t.infix(), "~AvB");
}

#[test]
fn monotenize_just_ncon() {
    let mut t = tree("~(A->B)");
    t.monotenize();
    assert_eq!(t.infix(), "~~(A&~B)");
}

#[test]
fn monotenize_just_mat_eq() {
    let mut t = tree("A<->B");
    t.monotenize();
    assert_eq!(t.infix(), "(A&B)v(~A&~B)");
}

#[test]
fn monotenize_negated_biconditional() {
    let mut t = tree("~(A<->B)");
    t.monotenize();
    assert_eq!(t.infix(), "~~((~A&B)v(~~A&~B))");
}

#[test]
fn monotenize_lots_of_stuff() {
    let mut t = tree("~(A&~B)v~C->~(D<->E)");
    let before = tree("~(A&~B)v~C->~(D<->E)");
    t.monotenize();
    assert_eq!(t.infix(), "~~(~~(A&~B)&~~C)v~~((~D&E)v(~~D&~E))");
    assert!(t.log_eq(&before));
}

#[test]
fn monotenize_twice_is_once() {
    let mut once = tree("~(A&~B)v~C->~(D<->E)");
    once.monotenize();
    let mut twice = tree("~(A&~B)v~C->~(D<->E)");
    twice.monotenize();
    twice.monotenize();
    assert!(twice.lit_eq(&once));
    assert_eq!(twice.infix(), once.infix());
}

#[test]
fn func_construction() {
    let expected = ExpressionTree::new("~(A&(BvC->D<->E))").unwrap();
    let a = ExpressionTree::new("A").unwrap();
    let b = ExpressionTree::new("B").unwrap();
    let c = ExpressionTree::new("C").unwrap();
    let d = ExpressionTree::new("D").unwrap();
    let e = ExpressionTree::new("E").unwrap();
    let expression = a.and(b.or(c).con(d).bicon(e)).not();

    assert_eq!(expression.infix(), expected.infix());
}

#[test]
fn expression_tree_tests_op_construction() {
    let expected = ExpressionTree::new("~(((~A v B) & C) -> D <-> E)").unwrap();
    let a = ExpressionTree::new("A").unwrap();
    let b = ExpressionTree::new("B").unwrap();
    let c = ExpressionTree::new("C").unwrap();
    let d = ExpressionTree::new("D").unwrap();
    let e = ExpressionTree::new("E").unwrap();
    let expression = a.not().or(b).and(c).con(d).bicon(e).not();

    assert_eq!(expression.infix(), expected.infix());
}

#[test]
fn expression_tree_tests_assignop_construction() {
    let expected = ExpressionTree::new("~(((~A v B) & C) -> D <-> E)").unwrap();
    let a = ExpressionTree::new("A").unwrap();
    let b = ExpressionTree::new("B").unwrap();
    let c = ExpressionTree::new("C").unwrap();
    let d = ExpressionTree::new("D").unwrap();
    let e = ExpressionTree::new("E").unwrap();
    let mut expression = a.not();
    expression = expression.or(b);
    expression = expression.and(c);
    expression = expression.con(d);
    expression = expression.bicon(e).not();

    assert_eq!(expression.infix(), expected.infix());
}

#[test]
fn log_eq_swapped_operands() {
    assert!(tree("A&B").log_eq(&tree("B&A")));
}

#[test]
fn log_eq_same_expression() {
    assert!(tree("A&B").log_eq(&tree("A&B")));
}

#[test]
fn log_eq_inconsistencies() {
    assert!(tree("A&~A").log_eq(&tree("B&~B")));
}

#[test]
fn log_eq_completely_different() {
    assert!(!tree("A&B").log_eq(&tree("A&C")));
}

#[test]
fn log_eq_reflexive_and_symmetric() {
    let a = tree("(A->B)&C");
    let b = tree("(~AvB)&C");
    assert!(a.log_eq(&a));
    assert!(a.log_eq(&b) && b.log_eq(&a));
    let c = tree("A->C");
    assert_eq!(a.log_eq(&c), c.log_eq(&a));
}

#[test]
fn lit_eq_swapped_operands() {
    assert!(!tree("A&B").lit_eq(&tree("B&A")));
}

#[test]
fn lit_eq_same_expression() {
    assert!(tree("A&B").lit_eq(&tree("A&B")));
}

#[test]
fn lit_eq_inconsistencies() {
    assert!(!tree("A&~A").lit_eq(&tree("B&~B")));
}

#[test]
fn lit_eq_completely_different() {
    assert!(!tree("A&B").lit_eq(&tree("A&C")));
}

#[test]
fn lit_eq_double_negation() {
    assert!(tree("~~A&B").lit_eq(&tree("A&B")));
    assert!(!tree("~A&B").lit_eq(&tree("A&B")));
}

#[test]
fn syn_eq_swapped_operands() {
    assert!(tree("A&B").syn_eq(&tree("B&A")));
}

#[test]
fn syn_eq_same_expression() {
    assert!(tree("A&B").syn_eq(&tree("A&B")));
}

#[test]
fn syn_eq_inconsistencies() {
    assert!(!tree("A&~A").syn_eq(&tree("B&~B")));
}

#[test]
fn syn_eq_completely_different() {
    assert!(!tree("A&B").syn_eq(&tree("A&C")));
}

fn check_set_variables(expr: &str, expected: Result<bool, ExpressionTreeError>) {
    let mut t = tree(expr);
    let vars = assign(&[("A", true), ("B", true), ("C", true)]);
    t.set_variables(&vars);
    assert_eq!(t.evaluate(), expected);
}

#[test]
fn set_variables_over_populating() {
    check_set_variables("A&B", Ok(true));
}

#[test]
fn set_variables_correct_number_of_vars() {
    check_set_variables("A&B->C", Ok(true));
}

#[test]
fn set_variables_under_populating() {
    check_set_variables(
        "A&B->C&D",
        Err(ExpressionTreeError::UninitializedVariable("D".to_string())),
    );
}

#[test]
fn chaining_functions() {
    let mut t1 = ExpressionTree::new("~(A<->B)").unwrap();
    let t2 = ExpressionTree::new("~(~(A->B)v~(B->A))").unwrap();

    t1.deny().mat_eq().unwrap().demorgans();

    assert!(t1.lit_eq(&t2));
}

#[test]
fn rules_report_when_they_do_not_apply() {
    let mut t = tree("A->B");
    assert!(t.demorgans().is_none());
    assert!(t.mat_eq().is_none());
    assert!(t.mat_eq_mono().is_none());
    assert_eq!(t.infix(), "A->B");
    assert!(t.implication().is_some());
    assert_eq!(t.infix(), "~AvB");
    assert!(t.implication().is_some());
    assert_eq!(t.infix(), "~~A->B");
    let mut u = tree("A->B");
    assert!(u.ncon().is_some());
    assert_eq!(u.infix(), "~(A&~B)");
    let mut w = tree("(A->B)&(B->A)");
    assert!(w.mat_eq().is_some());
    assert_eq!(w.infix(), "A<->B");
    let mut x = tree("(A->B)&(A->B)");
    assert!(x.mat_eq().is_none());
}

#[test]
fn rules_keep_truth_values() {
    let inputs = ["A&~B", "~(AvB)", "A->~B", "~(A->B)", "A<->B", "~(A<->~B)"];
    for s in inputs.iter() {
        let before = tree(s);
        let mut t = tree(s);
        t.demorgans();
        assert!(t.log_eq(&before), "demorgans {}", s);
        let mut t = tree(s);
        t.implication();
        assert!(t.log_eq(&before), "implication {}", s);
        let mut t = tree(s);
        t.ncon();
        assert!(t.log_eq(&before), "ncon {}", s);
        let mut t = tree(s);
        t.mat_eq();
        assert!(t.log_eq(&before), "mat_eq {}", s);
        let mut t = tree(s);
        t.mat_eq_mono();
        assert!(t.log_eq(&before), "mat_eq_mono {}", s);
    }
}

#[test]
fn round_trip_through_infix() {
    let inputs = ["A", "~~A", "~(A&B)vC", "(A1->~B2)<->~~(C&TRUE)", "~FALSE", "((A&B)v(C&D))->E"];
    for s in inputs.iter() {
        let t = tree(s);
        let again = tree(&t.infix());
        assert!(again.lit_eq(&t), "{}", s);
    }
}

#[test]
fn scenario_lowercase() {
    assert_eq!(err_of("A&b"), ExpressionTreeError::LowercaseVariables('b'));
}

#[test]
fn scenario_ambiguous() {
    assert_eq!(err_of("A&B&C"), ExpressionTreeError::AmbiguousExpression);
}

#[test]
fn scenario_negated_conjunction() {
    let mut t = tree("~(A&B)");
    t.set_variable("A", true);
    t.set_variable("B", false);
    assert_eq!(t.evaluate(), Ok(true));
}

#[test]
fn scenario_monotonize_conditional() {
    let mut t = tree("A->B");
    t.monotenize();
    assert_eq!(t.infix(), "~AvB");
}

#[test]
fn scenario_satisfiability() {
    assert!(tree("Av~A").is_tautology());
    assert!(tree("A&~A").is_inconsistency());
    assert_eq!(tree("A").satisfy_count(), vec![1u64]);
}

#[test]
fn scenario_equivalences() {
    assert!(tree("A&B").log_eq(&tree("B&A")));
    assert!(!tree("A&B").lit_eq(&tree("B&A")));
}

#[test]
fn satisfiable_family() {
    let t = tree("A&~B");
    assert!(t.is_satisfiable());
    assert!(!t.is_tautology());
    assert!(!t.is_inconsistency());
    assert!(t.is_contingency());
    let one = t.satisfy_one().unwrap();
    assert_eq!(one.get("A"), Some(true));
    assert_eq!(one.get("B"), Some(false));
    assert_eq!(t.satisfy_all().len(), 1);
    assert_eq!(t.satisfy_count(), vec![1u64]);
    let u = tree("A&~A");
    assert!(!u.is_satisfiable());
    assert!(u.satisfy_one().is_none());
    assert!(u.satisfy_all().is_empty());
    assert_eq!(u.satisfy_count(), vec![0u64]);
    assert!(!u.is_contingency());
    let k = ExpressionTree::TRUE();
    assert_eq!(k.satisfy_count(), vec![1u64]);
    assert!(!k.is_contingency());
}

#[test]
fn satisfy_all_in_enumeration_order() {
    let t = tree("AvB");
    let all = t.satisfy_all();
    assert_eq!(all.len(), 3);
    assert_eq!((all[0].get("A"), all[0].get("B")), (Some(true), Some(false)));
    assert_eq!((all[1].get("A"), all[1].get("B")), (Some(false), Some(true)));
    assert_eq!((all[2].get("A"), all[2].get("B")), (Some(true), Some(true)));
    assert_eq!(tree("AvB").satisfy_count(), vec![3u64]);
    assert_eq!(tree("(AvB)v(CvD)").satisfy_count(), vec![15u64]);
}

#[test]
fn replace_variable_substitutes() {
    let mut t = tree("A&~B");
    t.set_variable("A", true);
    let b = tree("CvA");
    t.replace_variable("B", &b);
    assert_eq!(t.infix(), "A&~(CvA)");
    assert_eq!(t.vars().len(), 2);
    assert_eq!(t.vars().get("A"), Some(Some(true)));
    assert_eq!(t.vars().get("C"), Some(None));
    let before = t.infix();
    t.replace_variable("Z", &b);
    assert_eq!(t.infix(), before);
}

#[test]
fn replace_variables_at_once() {
    let mut t = tree("A->B");
    let a = tree("B");
    let b = tree("A");
    let mut m: VarMap<&ExpressionTree> = VarMap::new();
    m.insert("A".to_string(), &a);
    m.insert("B".to_string(), &b);
    t.replace_variables(&m);
    assert_eq!(t.infix(), "B->A");
}

#[test]
fn replace_expression_swaps_subtrees() {
    let mut t = tree("(A&B)v~(A&B)");
    let old = tree("A&B");
    let new = tree("C");
    t.replace_expression(&old, &new);
    assert_eq!(t.infix(), "Cv~C");
    assert_eq!(t.vars().len(), 1);
    assert!(t.vars().get("C").is_some());
}

#[test]
fn notation_setters_reject_prefix_clashes() {
    let mut n = OperatorNotation::ascii();
    assert!(!n.set_and("-".to_string()));
    assert_eq!(n.and(), "&");
    assert!(n.set_and("AND".to_string()));
    assert_eq!(n.and(), "AND");
    assert!(!n.set_or("<".to_string()));
    assert!(n.set_neg("NOT ".to_string()));
    assert_eq!(n.neg(), "NOT ");
    assert!(n.set_con("=>".to_string()));
    assert!(n.set_bicon("<=>".to_string()));
    assert_eq!(n.con(), "=>");
    assert_eq!(n.bicon(), "<=>");
    assert_eq!(n.or(), "v");
}

#[test]
fn into_node_gives_the_root() {
    let t = tree("A&B");
    let n = t.into_node();
    assert!(n.is_operator());
}

#[test]
fn many_variables_counter() {
    let t = tree("(((AvB)v(CvD))v((EvF)v(GvH)))v(((IvJ)v(KvL))v((MvN)v(OvP)))");
    assert_eq!(t.satisfy_count(), vec![65535u64]);
}

#[test]
fn with_variants_use_the_conjunction() {
    let t = tree("AvB");
    let aux = tree("~A");
    assert!(t.is_satisfiable_with(&aux));
    assert!(!t.is_tautology_with(&aux));
    assert!(!t.is_inconsistency_with(&aux));
    assert!(t.is_contingency_with(&aux));
    assert_eq!(t.satisfy_count_with(&aux), vec![1u64]);
    let one = t.satisfy_one_with(&aux).unwrap();
    assert_eq!((one.get("A"), one.get("B")), (Some(false), Some(true)));
    assert_eq!(t.satisfy_all_with(&aux).len(), 1);
    let never = tree("A&~A");
    assert!(t.is_inconsistency_with(&never));
    assert!(t.satisfy_one_with(&never).is_none());
    assert!(tree("Av~A").is_tautology_with(&tree("Bv~B")));
}

#[test]
fn notation_with_longer_symbols() {
    let mut m = OperatorNotation::boolean_ascii();
    assert!(m.set_and("/\\".to_string()));
    let t = ExpressionTree::new_with("!A /\\ B", &m).unwrap();
    assert!(t.lit_eq(&tree("~A&B")));
    assert_eq!(t.infix_with(&m), "!A/\\B");
}
