use vstd::prelude::*;

use crate::expression_tree::{infix_top, lit_eq_f, log_equiv, ExpressionTree};
use crate::notation::ascii_symbols;
use crate::parser::parse;
use crate::round_trip::{lemma_parse_well_named, lemma_print_parse};
use crate::monotone::{
    is_monotone, lemma_mono_eval, lemma_mono_fixes_monotone, lemma_mono_is_monotone, mono, signs_k,
};
use crate::node::{
    demorgan_f, eval, implication_f, lemma_demorgan_eval, lemma_implication_eval,
    lemma_mat_eq_eval, lemma_mat_eq_mono_eval, lemma_ncon_eval, mat_eq_f, mat_eq_mono_f, ncon_f,
    Formula,
};
use crate::operator::Operator;

verus! {

/// Literal equality is reflexive.
pub proof fn lit_eq_reflexive(f: Formula)
    ensures
        lit_eq_f(f, f),
    decreases f,
{
    match f {
        Formula::Op { left, right, .. } => {
            lit_eq_reflexive(*left);
            lit_eq_reflexive(*right);
        },
        _ => {},
    }
}

/// Monotonizing twice gives what monotonizing once gives, and the result
/// holds no conditional, no biconditional and no negated conjunction or
/// disjunction.
pub proof fn monotonize_idempotent(f: Formula)
    ensures
        mono(mono(f)) == mono(f),
        lit_eq_f(mono(mono(f)), mono(f)),
        is_monotone(mono(f)),
{
    lemma_mono_is_monotone(f, 0);
    lemma_mono_fixes_monotone(mono(f));
    lit_eq_reflexive(mono(f));
}

/// Monotonizing a formula keeps its truth value (or the missing variable)
/// under every assignment.
pub proof fn monotonize_preserves_truth(f: Formula, env: Map<Seq<char>, bool>)
    ensures
        eval(mono(f), env) == eval(f, env),
{
    lemma_mono_eval(f, 0, env);
    assert(signs_k(f, 0) == f) by {
        match f {
            Formula::Op { .. } => {},
            Formula::Var { .. } => {},
            Formula::Const { .. } => {},
        }
    }
}

/// Each rewrite rule, where it applies, keeps the truth value (or the
/// missing variable) under every assignment.
pub proof fn rewrite_rules_preserve_truth(f: Formula, env: Map<Seq<char>, bool>)
    ensures
        f is Op && (f->Op_op == Operator::AND || f->Op_op == Operator::OR) ==> eval(demorgan_f(f), env)
            == eval(f, env),
        f is Op && (f->Op_op == Operator::CON || f->Op_op == Operator::OR) ==> eval(
            implication_f(f),
            env,
        ) == eval(f, env),
        f is Op && (f->Op_op == Operator::CON || f->Op_op == Operator::AND) ==> eval(ncon_f(f), env)
            == eval(f, env),
        eval(mat_eq_f(f), env) == eval(f, env),
        eval(mat_eq_mono_f(f), env) == eval(f, env),
{
    if f is Op && (f->Op_op == Operator::AND || f->Op_op == Operator::OR) {
        lemma_demorgan_eval(f, env);
    }
    if f is Op && (f->Op_op == Operator::CON || f->Op_op == Operator::OR) {
        lemma_implication_eval(f, env);
    }
    if f is Op && (f->Op_op == Operator::CON || f->Op_op == Operator::AND) {
        lemma_ncon_eval(f, env);
    }
    lemma_mat_eq_eval(f, env);
    lemma_mat_eq_mono_eval(f, env);
}

/// Every tree is logically equivalent to itself.
pub proof fn log_eq_reflexive(a: &ExpressionTree)
    ensures
        log_equiv(a.formula(), a.var_map().dom(), a.formula(), a.var_map().dom()),
{
}

/// Logical equivalence is symmetric.
pub proof fn log_eq_symmetric(a: &ExpressionTree, b: &ExpressionTree)
    requires
        log_equiv(a.formula(), a.var_map().dom(), b.formula(), b.var_map().dom()),
    ensures
        log_equiv(b.formula(), b.var_map().dom(), a.formula(), a.var_map().dom()),
{
    assert(a.var_map().dom().union(b.var_map().dom()) =~= b.var_map().dom().union(a.var_map().dom()));
}

/// Reading an expression, printing the tree in the default notation and
/// reading the print again gives a tree literally equal to the first (in
/// fact the same tree).
pub proof fn parse_print_parse(e: Seq<char>)
    requires
        parse(e, None) is Ok,
    ensures
        parse(infix_top(parse(e, None)->Ok_0, ascii_symbols()), None) == parse(e, None),
        lit_eq_f(parse(infix_top(parse(e, None)->Ok_0, ascii_symbols()), None)->Ok_0, parse(e, None)->Ok_0),
{
    let f = parse(e, None)->Ok_0;
    lemma_parse_well_named(e, None);
    lemma_print_parse(f);
    lit_eq_reflexive(f);
}

} // verus!
