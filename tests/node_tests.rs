use clawgic::{Negation, Node, Operator, OperatorNotation, VarMap};

fn var(neg: u32, name: &str) -> Node {
    Node::Variable { denied: Negation::new(neg), name: name.to_string() }
}

fn konst(neg: u32, value: bool) -> Node {
    Node::Constant(Negation::new(neg), value)
}

fn op(neg: u32, o: Operator, left: Node, right: Node) -> Node {
    Node::Operator { denied: Negation::new(neg), op: o, left: Box::new(left), right: Box::new(right) }
}

#[test]
fn constant_node() {
    let empty: VarMap<Option<bool>> = VarMap::new();
    assert_eq!(konst(0, true).evaluate(&empty).unwrap(), true);
    assert_eq!(konst(0, false).evaluate(&empty).unwrap(), false);
    assert_eq!(konst(1, false).evaluate(&empty).unwrap(), true);
}

#[test]
fn variable_node() {
    let cases = [(0, Some(true), true), (0, Some(false), false), (1, Some(true), false), (1, Some(false), true)];
    for (neg, value, expected) in cases.iter() {
        let mut vars = VarMap::new();
        vars.insert("A".to_string(), *value);
        assert_eq!(var(*neg, "A").evaluate(&vars).unwrap(), *expected);
    }
}

#[test]
fn variable_node_empty() {
    let n = var(0, "A");
    let mut vars = VarMap::new();
    vars.insert("A".to_string(), None);
    assert!(n.evaluate(&vars).is_err());
}

#[test]
fn operator_nodes() {
    let cases = [
        (Operator::AND, [true, false, false, false]),
        (Operator::OR, [true, true, true, false]),
        (Operator::CON, [true, false, true, true]),
        (Operator::BICON, [true, false, false, true]),
    ];
    let empty: VarMap<bool> = VarMap::new();
    for (o, ex) in cases.iter() {
        let pairs = [(true, true), (true, false), (false, true), (false, false)];
        for (k, (l, r)) in pairs.iter().enumerate() {
            let n = op(0, *o, konst(0, *l), konst(0, *r));
            assert_eq!(n.evaluate_with_vars(&empty).unwrap(), ex[k]);
        }
    }
}

#[test]
fn to_string() {
    assert_eq!(var(0, "A").to_ascii(), "A");
    assert_eq!(var(1, "A").to_ascii(), "~A");
    assert_eq!(var(2, "A").to_ascii(), "~~A");
    assert_eq!(konst(0, true).to_ascii(), "TRUE");
    assert_eq!(konst(0, false).to_ascii(), "FALSE");
    assert_eq!(op(0, Operator::AND, konst(0, true), konst(0, true)).to_ascii(), "&");
    assert_eq!(op(1, Operator::AND, konst(0, true), konst(0, true)).to_ascii(), "~&");
    assert_eq!(op(0, Operator::OR, konst(0, true), konst(0, true)).to_ascii(), "v");
    assert_eq!(op(0, Operator::CON, konst(0, true), konst(0, true)).to_ascii(), "->");
    assert_eq!(op(0, Operator::BICON, konst(0, true), konst(0, true)).to_ascii(), "<->");
    assert_eq!(var(1, "A").print(&OperatorNotation::mathematical()), "¬A");
}

#[test]
fn demorgans() {
    let mut n = op(1, Operator::AND, konst(0, true), var(0, "A"));
    n.demorgans();
    assert!(n == op(2, Operator::OR, konst(1, true), var(1, "A")));
    let mut m = op(0, Operator::OR, konst(0, true), var(0, "A"));
    m.demorgans();
    assert!(m == op(1, Operator::AND, konst(1, true), var(1, "A")));
    let mut c = op(0, Operator::CON, konst(0, true), var(0, "A"));
    assert!(c.demorgans().is_none());
}

#[test]
fn mat_eq() {
    let mut n = op(0, Operator::BICON, var(0, "A"), var(0, "B"));
    n.mat_eq();
    let split = op(
        0,
        Operator::AND,
        op(0, Operator::CON, var(0, "A"), var(0, "B")),
        op(0, Operator::CON, var(0, "B"), var(0, "A")),
    );
    assert!(n == split);
    let mut m = op(
        0,
        Operator::AND,
        op(0, Operator::CON, var(0, "A"), var(0, "B")),
        op(0, Operator::CON, var(0, "B"), var(0, "A")),
    );
    m.mat_eq();
    assert!(m == op(0, Operator::BICON, var(0, "A"), var(0, "B")));
}

#[test]
fn implication() {
    let mut n = op(0, Operator::CON, konst(0, true), var(0, "A"));
    n.implication();
    assert!(n == op(0, Operator::OR, konst(1, true), var(0, "A")));
    let mut m = op(0, Operator::OR, konst(0, true), var(0, "A"));
    m.implication();
    assert!(m == op(0, Operator::CON, konst(1, true), var(0, "A")));
}

#[test]
fn ncon() {
    let mut n = op(1, Operator::AND, konst(0, true), var(0, "A"));
    n.ncon();
    assert!(n == op(2, Operator::CON, konst(0, true), var(1, "A")));
    let mut m = op(0, Operator::CON, konst(0, true), var(0, "A"));
    m.ncon();
    assert!(m == op(1, Operator::AND, konst(0, true), var(1, "A")));
}

#[test]
fn mat_eq_mono() {
    let mut n = op(0, Operator::BICON, var(0, "A"), var(0, "B"));
    n.mat_eq_mono();
    let expected = op(
        0,
        Operator::OR,
        op(0, Operator::AND, var(0, "A"), var(0, "B")),
        op(0, Operator::AND, var(1, "A"), var(1, "B")),
    );
    assert!(n == expected);
}

#[test]
fn negation_counts() {
    let mut n = Negation::new(u32::MAX);
    assert!(n.is_denied());
    n.deny();
    assert_eq!(n.count(), 0);
    assert!(n.tval());
    n.double_deny();
    assert_eq!(n.count(), 2);
    n.negate();
    n.reduce();
    assert_eq!(n.count(), 1);
    n.double_negate();
    assert_eq!(n.count(), 3);
}

#[test]
fn operator_facts() {
    assert_eq!(Operator::AND.precedence(), 3);
    assert_eq!(Operator::OR.precedence(), 3);
    assert_eq!(Operator::CON.precedence(), 2);
    assert_eq!(Operator::BICON.precedence(), 1);
    assert!(Operator::CON.execute(false, false));
    assert!(!Operator::BICON.execute(true, false));
    assert!(Operator::AND.is_and() && Operator::OR.is_or() && Operator::CON.is_con() && Operator::BICON.is_bicon());
}
