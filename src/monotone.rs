use vstd::prelude::*;

use crate::negation::{bump, odd};
use crate::node::{
    deny_f, eval, formula_lt, lemma_demorgan_eval, lemma_implication_eval, lemma_mat_eq_mono_eval,
    lemma_ncon_eval, names_in, plain, Formula,
};
use crate::operator::Operator;

verus! {

/// `k` more negation signs on a count.
pub open spec fn bumps(n: u32, k: nat) -> u32
    decreases k,
{
    if k == 0 {
        n
    } else {
        bump(bumps(n, (k - 1) as nat))
    }
}

/// The number of nodes.
pub open spec fn size(f: Formula) -> nat
    decreases f,
{
    match f {
        Formula::Op { left, right, .. } => 1 + size(*left) + size(*right),
        _ => 1,
    }
}

/// Whether a formula is in monotone form: only unnegated conjunctions and
/// disjunctions above its leaves.
pub open spec fn is_monotone(f: Formula) -> bool
    decreases f,
{
    match f {
        Formula::Op { neg, op, left, right } => (op == Operator::AND || op == Operator::OR) && !odd(
            neg,
        ) && is_monotone(*left) && is_monotone(*right),
        _ => true,
    }
}

/// Monotonization of `f` with `k` more negation signs on its root, top
/// down: a negated AND or OR takes De Morgan's rule, a CON the rule of
/// negated conditional or implication, a BICON monotone material
/// equivalence; then the operands are treated the same way.
pub open spec fn mono_k(f: Formula, k: nat) -> Formula
    decreases f,
{
    match f {
        Formula::Op { neg: n0, op, left, right } => {
            let neg = bumps(n0, k);
            if (op == Operator::AND || op == Operator::OR) && odd(neg) {
                Formula::Op {
                    neg: bump(neg),
                    op: if op == Operator::AND { Operator::OR } else { Operator::AND },
                    left: Box::new(mono_k(*left, 1)),
                    right: Box::new(mono_k(*right, 1)),
                }
            } else if op == Operator::CON && odd(neg) {
                Formula::Op {
                    neg: bump(neg),
                    op: Operator::AND,
                    left: Box::new(mono_k(*left, 0)),
                    right: Box::new(mono_k(*right, 1)),
                }
            } else if op == Operator::CON {
                Formula::Op {
                    neg,
                    op: Operator::OR,
                    left: Box::new(mono_k(*left, 1)),
                    right: Box::new(mono_k(*right, 0)),
                }
            } else if op == Operator::BICON {
                let lt = formula_lt(*left, *right);
                let kl: nat = if odd(neg) && lt { 1 } else { 0 };
                let kr: nat = if odd(neg) && !lt { 1 } else { 0 };
                Formula::Op {
                    neg: if odd(neg) { bump(neg) } else { neg },
                    op: Operator::OR,
                    left: Box::new(plain(Operator::AND, mono_k(*left, kl), mono_k(*right, kr))),
                    right: Box::new(
                        plain(Operator::AND, mono_k(*left, kl + 1), mono_k(*right, kr + 1)),
                    ),
                }
            } else {
                Formula::Op {
                    neg,
                    op,
                    left: Box::new(mono_k(*left, 0)),
                    right: Box::new(mono_k(*right, 0)),
                }
            }
        },
        Formula::Var { neg, name } => Formula::Var { neg: bumps(neg, k), name },
        Formula::Const { neg, value } => Formula::Const { neg: bumps(neg, k), value },
    }
}

/// The monotone form of a formula.
pub open spec fn mono(f: Formula) -> Formula {
    mono_k(f, 0)
}

pub proof fn lemma_bumps_shift(n: u32, k: nat)
    ensures
        bumps(bump(n), k) == bumps(n, k + 1),
    decreases k,
{
    reveal_with_fuel(bumps, 2);
    if k > 0 {
        lemma_bumps_shift(n, (k - 1) as nat);
    }
}

/// A sign added to the root is a sign more for monotonization.
pub proof fn lemma_mono_deny(f: Formula, k: nat)
    ensures
        mono_k(deny_f(f), k) == mono_k(f, k + 1),
{
    match f {
        Formula::Op { neg, .. } => lemma_bumps_shift(neg, k),
        Formula::Var { neg, .. } => lemma_bumps_shift(neg, k),
        Formula::Const { neg, .. } => lemma_bumps_shift(neg, k),
    }
}

pub proof fn lemma_size_deny(f: Formula)
    ensures
        size(deny_f(f)) == size(f),
{
    match f {
        Formula::Op { .. } => {},
        _ => {},
    }
}

/// What monotonization returns is in monotone form.
pub proof fn lemma_mono_is_monotone(f: Formula, k: nat)
    ensures
        is_monotone(mono_k(f, k)),
    decreases f,
{
    reveal_with_fuel(is_monotone, 2);
    match f {
        Formula::Op { neg, op, left, right } => {
            lemma_mono_is_monotone(*left, 0);
            lemma_mono_is_monotone(*left, 1);
            lemma_mono_is_monotone(*left, 2);
            lemma_mono_is_monotone(*right, 0);
            lemma_mono_is_monotone(*right, 1);
            lemma_mono_is_monotone(*right, 2);
            crate::negation::lemma_bump_flips(bumps(neg, k));
        },
        _ => {},
    }
}

/// A formula in monotone form is its own monotone form.
pub proof fn lemma_mono_fixes_monotone(f: Formula)
    requires
        is_monotone(f),
    ensures
        mono_k(f, 0) == f,
    decreases f,
{
    match f {
        Formula::Op { left, right, .. } => {
            lemma_mono_fixes_monotone(*left);
            lemma_mono_fixes_monotone(*right);
        },
        _ => {},
    }
}

/// Monotonization keeps the set of variable names.
pub proof fn lemma_names_mono(f: Formula, k: nat)
    ensures
        names_in(mono_k(f, k)) == names_in(f),
    decreases f,
{
    reveal_with_fuel(names_in, 2);
    match f {
        Formula::Op { left, right, .. } => {
            lemma_names_mono(*left, 0);
            lemma_names_mono(*left, 1);
            lemma_names_mono(*left, 2);
            lemma_names_mono(*right, 0);
            lemma_names_mono(*right, 1);
            lemma_names_mono(*right, 2);
            assert(names_in(mono_k(f, k)) =~= names_in(f));
        },
        _ => {},
    }
}

/// The formula with `k` more negation signs on its root.
pub open spec fn signs_k(f: Formula, k: nat) -> Formula {
    match f {
        Formula::Op { neg, op, left, right } => Formula::Op { neg: bumps(neg, k), op, left, right },
        Formula::Var { neg, name } => Formula::Var { neg: bumps(neg, k), name },
        Formula::Const { neg, value } => Formula::Const { neg: bumps(neg, k), value },
    }
}

proof fn lemma_signs_small(f: Formula)
    ensures
        signs_k(f, 0) == f,
        signs_k(f, 1) == deny_f(f),
        signs_k(f, 2) == deny_f(deny_f(f)),
{
    reveal_with_fuel(bumps, 3);
    match f {
        Formula::Op { .. } => {},
        Formula::Var { .. } => {},
        Formula::Const { .. } => {},
    }
}

/// Monotonization keeps the truth value under every assignment.
pub proof fn lemma_mono_eval(f: Formula, k: nat, env: Map<Seq<char>, bool>)
    ensures
        eval(mono_k(f, k), env) == eval(signs_k(f, k), env),
    decreases f,
{
    match f {
        Formula::Op { neg: n0, op, left, right } => {
            let neg = bumps(n0, k);
            let g = signs_k(f, k);
            lemma_signs_small(*left);
            lemma_signs_small(*right);
            lemma_mono_eval(*left, 0, env);
            lemma_mono_eval(*left, 1, env);
            lemma_mono_eval(*left, 2, env);
            lemma_mono_eval(*right, 0, env);
            lemma_mono_eval(*right, 1, env);
            lemma_mono_eval(*right, 2, env);
            if (op == Operator::AND || op == Operator::OR) && odd(neg) {
                lemma_demorgan_eval(g, env);
            } else if op == Operator::CON && odd(neg) {
                lemma_ncon_eval(g, env);
            } else if op == Operator::CON {
                lemma_implication_eval(g, env);
            } else if op == Operator::BICON {
                lemma_mat_eq_mono_eval(g, env);
                reveal_with_fuel(eval, 2);
            }
        },
        _ => {},
    }
}

} // verus!
