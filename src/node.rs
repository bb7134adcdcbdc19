use vstd::prelude::*;
use vstd::string::StringExecFns;

use crate::error::ExpressionTreeError;
use crate::negation::{bump, lemma_bump_flips, merge, odd, Negation};
use crate::notation::{OperatorNotation, Symbols};
use crate::operator::{apply, Operator};
use crate::var_map::VarMap;

verus! {

/// The mathematical shape of a node: a binary connective, a variable or a
/// constant, each with its count of negation signs.
pub enum Formula {
    Op { neg: u32, op: Operator, left: Box<Formula>, right: Box<Formula> },
    Var { neg: u32, name: Seq<char> },
    Const { neg: u32, value: bool },
}

/// A node of an expression tree. Every operator owns its two operands.
#[derive(Debug)]
pub enum Node {
    /// A binary connective.
    Operator { denied: Negation, op: Operator, left: Box<Node>, right: Box<Node> },
    /// A variable, such as `A` or `B3`.
    Variable { denied: Negation, name: String },
    /// `TRUE` or `FALSE`.
    Constant(Negation, bool),
}

impl View for Node {
    type V = Formula;

    open spec fn view(&self) -> Formula
        decreases self,
    {
        match self {
            Node::Operator { denied, op, left, right } => Formula::Op {
                neg: denied@,
                op: *op,
                left: Box::new((**left).view()),
                right: Box::new((**right).view()),
            },
            Node::Variable { denied, name } => Formula::Var { neg: denied@, name: name@ },
            Node::Constant(denied, value) => Formula::Const { neg: denied@, value: *value },
        }
    }
}

/// The count of negation signs of a formula's top node.
pub open spec fn neg_of(f: Formula) -> u32 {
    match f {
        Formula::Op { neg, .. } => neg,
        Formula::Var { neg, .. } => neg,
        Formula::Const { neg, .. } => neg,
    }
}

/// The truth value of a formula under an assignment, or the first variable
/// (left to right) that the assignment lacks.
pub open spec fn eval(f: Formula, env: Map<Seq<char>, bool>) -> Result<bool, Seq<char>>
    decreases f,
{
    match f {
        Formula::Op { neg, op, left, right } => match eval(*left, env) {
            Err(e) => Err(e),
            Ok(l) => match eval(*right, env) {
                Err(e) => Err(e),
                Ok(r) => Ok(apply(op, l, r) != odd(neg)),
            },
        },
        Formula::Var { neg, name } => if env.contains_key(name) {
            Ok(env[name] != odd(neg))
        } else {
            Err(name)
        },
        Formula::Const { neg, value } => Ok(value != odd(neg)),
    }
}

/// The values that a map of optional values does hold.
pub open spec fn known(m: Map<Seq<char>, Option<bool>>) -> Map<Seq<char>, bool> {
    Map::new(|k: Seq<char>| m.contains_key(k) && m[k] is Some, |k: Seq<char>| m[k]->Some_0)
}

/// Whether an evaluation result is the one that `eval` gives.
pub open spec fn eval_matches(r: Result<bool, ExpressionTreeError>, s: Result<bool, Seq<char>>) -> bool {
    match r {
        Ok(b) => s == Ok::<bool, Seq<char>>(b),
        Err(ExpressionTreeError::UninitializedVariable(n)) => s == Err::<bool, Seq<char>>(n@),
        Err(_) => false,
    }
}

/// Every variable name in a formula.
pub open spec fn names_in(f: Formula) -> Set<Seq<char>>
    decreases f,
{
    match f {
        Formula::Op { left, right, .. } => names_in(*left).union(names_in(*right)),
        Formula::Var { name, .. } => set![name],
        Formula::Const { .. } => Set::empty(),
    }
}

/// The formula with one more negation sign on its top node.
pub open spec fn deny_f(f: Formula) -> Formula {
    match f {
        Formula::Op { neg, op, left, right } => Formula::Op { neg: bump(neg), op, left, right },
        Formula::Var { neg, name } => Formula::Var { neg: bump(neg), name },
        Formula::Const { neg, value } => Formula::Const { neg: bump(neg), value },
    }
}

/// De Morgan: AND and OR swap, the node and both operands gain a sign.
pub open spec fn demorgan_f(f: Formula) -> Formula {
    match f {
        Formula::Op { neg, op, left, right } => Formula::Op {
            neg: bump(neg),
            op: if op == Operator::AND { Operator::OR } else { Operator::AND },
            left: Box::new(deny_f(*left)),
            right: Box::new(deny_f(*right)),
        },
        _ => f,
    }
}

/// Implication: CON and OR swap, the left operand gains a sign.
pub open spec fn implication_f(f: Formula) -> Formula {
    match f {
        Formula::Op { neg, op, left, right } => Formula::Op {
            neg,
            op: if op == Operator::CON { Operator::OR } else { Operator::CON },
            left: Box::new(deny_f(*left)),
            right,
        },
        _ => f,
    }
}

/// Negated conditional: CON and AND swap, the node and the right operand gain a sign.
pub open spec fn ncon_f(f: Formula) -> Formula {
    match f {
        Formula::Op { neg, op, left, right } => Formula::Op {
            neg: bump(neg),
            op: if op == Operator::CON { Operator::AND } else { Operator::CON },
            left,
            right: Box::new(deny_f(*right)),
        },
        _ => f,
    }
}

/// A formula of one connective and no negation sign.
pub open spec fn plain(op: Operator, left: Formula, right: Formula) -> Formula {
    Formula::Op { neg: 0, op, left: Box::new(left), right: Box::new(right) }
}

/// Whether a formula is a conjunction of two unnegated conditionals that
/// mirror each other.
pub open spec fn is_split_bicon(f: Formula) -> bool {
    match f {
        Formula::Op { op: Operator::AND, left, right, .. } => match (*left, *right) {
            (
                Formula::Op { neg: ln, op: Operator::CON, left: ll, right: lr },
                Formula::Op { neg: rn, op: Operator::CON, left: rl, right: rr },
            ) => !odd(ln) && !odd(rn) && *ll == *rr && *lr == *rl,
            _ => false,
        },
        _ => false,
    }
}

/// Whether material equivalence applies.
pub open spec fn mat_eq_applies(f: Formula) -> bool {
    (f is Op && f->Op_op == Operator::BICON) || is_split_bicon(f)
}

/// Material equivalence: a biconditional becomes a conjunction of two
/// conditionals, and such a conjunction becomes a biconditional again.
pub open spec fn mat_eq_f(f: Formula) -> Formula {
    match f {
        Formula::Op { neg, op, left, right } => if op == Operator::BICON {
            Formula::Op {
                neg,
                op: Operator::AND,
                left: Box::new(plain(Operator::CON, *left, *right)),
                right: Box::new(plain(Operator::CON, *right, *left)),
            }
        } else if is_split_bicon(f) {
            Formula::Op {
                neg,
                op: Operator::BICON,
                left: left->Op_left,
                right: left->Op_right,
            }
        } else {
            f
        },
        _ => f,
    }
}

/// Lexicographic order on names.
pub open spec fn name_lt(a: Seq<char>, b: Seq<char>) -> bool
    decreases a.len(),
{
    if a.len() == 0 {
        b.len() > 0
    } else if b.len() == 0 {
        false
    } else if a[0] != b[0] {
        (a[0] as u32) < (b[0] as u32)
    } else {
        name_lt(a.drop_first(), b.drop_first())
    }
}

pub open spec fn kind_rank(f: Formula) -> int {
    match f {
        Formula::Op { .. } => 0,
        Formula::Var { .. } => 1,
        Formula::Const { .. } => 2,
    }
}

pub open spec fn op_rank(op: Operator) -> int {
    match op {
        Operator::AND => 0,
        Operator::OR => 1,
        Operator::CON => 2,
        Operator::BICON => 3,
    }
}

/// A fixed total order on formulas: by kind, connective, count of signs,
/// then name or value, then operands from the left.
pub open spec fn formula_lt(a: Formula, b: Formula) -> bool
    decreases a,
{
    if kind_rank(a) != kind_rank(b) {
        kind_rank(a) < kind_rank(b)
    } else {
        match (a, b) {
            (
                Formula::Op { neg: an, op: ao, left: al, right: ar },
                Formula::Op { neg: bn, op: bo, left: bl, right: br },
            ) => if ao != bo {
                op_rank(ao) < op_rank(bo)
            } else if an != bn {
                an < bn
            } else if *al != *bl {
                formula_lt(*al, *bl)
            } else {
                formula_lt(*ar, *br)
            },
            (Formula::Var { neg: an, name: a_name }, Formula::Var { neg: bn, name: b_name }) => if an
                != bn {
                an < bn
            } else {
                name_lt(a_name, b_name)
            },
            (Formula::Const { neg: an, value: av }, Formula::Const { neg: bn, value: bv }) => if an
                != bn {
                an < bn
            } else {
                !av && bv
            },
            _ => false,
        }
    }
}

/// Monotone material equivalence: `L <-> R` becomes `(L & R) v (~L & ~R)`.
/// A negation on the biconditional moves to the lesser operand.
pub open spec fn mat_eq_mono_f(f: Formula) -> Formula {
    match f {
        Formula::Op { neg, op, left, right } => if op == Operator::BICON {
            let l = if odd(neg) && formula_lt(*left, *right) { deny_f(*left) } else { *left };
            let r = if odd(neg) && !formula_lt(*left, *right) { deny_f(*right) } else { *right };
            Formula::Op {
                neg: if odd(neg) { bump(neg) } else { neg },
                op: Operator::OR,
                left: Box::new(plain(Operator::AND, l, r)),
                right: Box::new(plain(Operator::AND, deny_f(l), deny_f(r))),
            }
        } else {
            f
        },
        _ => f,
    }
}

/// The formula with `k` more negation signs on its root.
pub open spec fn with_signs(g: Formula, k: u32) -> Formula {
    match g {
        Formula::Op { neg, op, left, right } => Formula::Op { neg: merge(neg, k), op, left, right },
        Formula::Var { neg, name } => Formula::Var { neg: merge(neg, k), name },
        Formula::Const { neg, value } => Formula::Const { neg: merge(neg, k), value },
    }
}

/// Every occurrence of a variable named in `sub` replaced by its formula,
/// which takes on the occurrence's negation signs.
pub open spec fn subst(f: Formula, sub: Map<Seq<char>, Formula>) -> Formula
    decreases f,
{
    match f {
        Formula::Op { neg, op, left, right } => Formula::Op {
            neg,
            op,
            left: Box::new(subst(*left, sub)),
            right: Box::new(subst(*right, sub)),
        },
        Formula::Var { neg, name } => if sub.contains_key(name) {
            with_signs(sub[name], neg)
        } else {
            f
        },
        Formula::Const { .. } => f,
    }
}

/// The names of a substituted formula come from the untouched names and
/// from the formulas substituted in.
pub proof fn lemma_names_subst(f: Formula, sub: Map<Seq<char>, Formula>, d: Set<Seq<char>>)
    requires
        forall|k| #[trigger] sub.contains_key(k) ==> names_in(sub[k]).subset_of(d),
        names_in(f).difference(sub.dom()).subset_of(d),
    ensures
        names_in(subst(f, sub)).subset_of(d),
    decreases f,
{
    match f {
        Formula::Op { left, right, .. } => {
            lemma_names_subst(*left, sub, d);
            lemma_names_subst(*right, sub, d);
        },
        Formula::Var { name, .. } => {
            if sub.contains_key(name) {
                assert(names_in(with_signs(sub[name], f->Var_neg)) == names_in(sub[name]));
            } else {
                assert(names_in(f).difference(sub.dom()).contains(name));
            }
        },
        _ => {},
    }
}

/// `n` copies of a symbol.
pub open spec fn repeat(s: Seq<char>, n: nat) -> Seq<char>
    decreases n,
{
    if n == 0 {
        Seq::empty()
    } else {
        repeat(s, (n - 1) as nat) + s
    }
}

pub open spec fn op_symbol(op: Operator, sym: Symbols) -> Seq<char> {
    match op {
        Operator::AND => sym.and,
        Operator::OR => sym.or,
        Operator::CON => sym.con,
        Operator::BICON => sym.bicon,
    }
}

pub open spec fn true_word() -> Seq<char> {
    seq!['T', 'R', 'U', 'E']
}

pub open spec fn false_word() -> Seq<char> {
    seq!['F', 'A', 'L', 'S', 'E']
}

/// The printed token of a formula's top node: its negation signs, then its
/// connective, name or constant.
pub open spec fn token(f: Formula, sym: Symbols) -> Seq<char> {
    match f {
        Formula::Op { neg, op, .. } => repeat(sym.neg, neg as nat) + op_symbol(op, sym),
        Formula::Var { neg, name } => repeat(sym.neg, neg as nat) + name,
        Formula::Const { neg, value } => repeat(sym.neg, neg as nat) + if value {
            true_word()
        } else {
            false_word()
        },
    }
}

pub proof fn lemma_eval_deny(f: Formula, env: Map<Seq<char>, bool>)
    ensures
        eval(deny_f(f), env) == match eval(f, env) {
            Ok(b) => Ok::<bool, Seq<char>>(!b),
            Err(e) => Err(e),
        },
{
    lemma_bump_flips(neg_of(f));
    match f {
        Formula::Op { .. } => {},
        Formula::Var { .. } => {},
        Formula::Const { .. } => {},
    }
}


/// De Morgan's rule keeps the truth value under every assignment.
pub proof fn lemma_demorgan_eval(f: Formula, env: Map<Seq<char>, bool>)
    requires
        f is Op,
        f->Op_op == Operator::AND || f->Op_op == Operator::OR,
    ensures
        eval(demorgan_f(f), env) == eval(f, env),
{
    lemma_eval_deny(*f->Op_left, env);
    lemma_eval_deny(*f->Op_right, env);
    lemma_bump_flips(f->Op_neg);
}

/// Implication keeps the truth value under every assignment.
pub proof fn lemma_implication_eval(f: Formula, env: Map<Seq<char>, bool>)
    requires
        f is Op,
        f->Op_op == Operator::CON || f->Op_op == Operator::OR,
    ensures
        eval(implication_f(f), env) == eval(f, env),
{
    lemma_eval_deny(*f->Op_left, env);
}

/// Negated conditional keeps the truth value under every assignment.
pub proof fn lemma_ncon_eval(f: Formula, env: Map<Seq<char>, bool>)
    requires
        f is Op,
        f->Op_op == Operator::CON || f->Op_op == Operator::AND,
    ensures
        eval(ncon_f(f), env) == eval(f, env),
{
    lemma_eval_deny(*f->Op_right, env);
    lemma_bump_flips(f->Op_neg);
}

/// Material equivalence keeps the truth value under every assignment.
pub proof fn lemma_mat_eq_eval(f: Formula, env: Map<Seq<char>, bool>)
    ensures
        eval(mat_eq_f(f), env) == eval(f, env),
{
    reveal_with_fuel(eval, 3);
}

/// Monotone material equivalence keeps the truth value under every assignment.
pub proof fn lemma_mat_eq_mono_eval(f: Formula, env: Map<Seq<char>, bool>)
    ensures
        eval(mat_eq_mono_f(f), env) == eval(f, env),
{
    reveal_with_fuel(eval, 3);
    match f {
        Formula::Op { neg, op, left, right } => {
            lemma_bump_flips(neg);
            lemma_eval_deny(*left, env);
            lemma_eval_deny(*right, env);
            lemma_eval_deny(deny_f(*left), env);
            lemma_eval_deny(deny_f(*right), env);
        },
        _ => {},
    }
}

pub proof fn lemma_name_lt_step(a: Seq<char>, b: Seq<char>, i: int)
    requires
        0 <= i < a.len(),
        i < b.len(),
        a[i] == b[i],
    ensures
        name_lt(a.subrange(i, a.len() as int), b.subrange(i, b.len() as int)) == name_lt(
            a.subrange(i + 1, a.len() as int),
            b.subrange(i + 1, b.len() as int),
        ),
{
    let sa = a.subrange(i, a.len() as int);
    let sb = b.subrange(i, b.len() as int);
    assert(sa.drop_first() =~= a.subrange(i + 1, a.len() as int));
    assert(sb.drop_first() =~= b.subrange(i + 1, b.len() as int));
}

fn names_precede(a: &String, b: &String) -> (r: bool)
    ensures
        r == name_lt(a@, b@),
{
    let av = crate::notation::chars_of(a.as_str());
    let bv = crate::notation::chars_of(b.as_str());
    let mut i: usize = 0;
    assert(av@.subrange(0, av@.len() as int) =~= av@);
    assert(bv@.subrange(0, bv@.len() as int) =~= bv@);
    while i < av.len() && i < bv.len()
        invariant
            i <= av@.len(),
            i <= bv@.len(),
            name_lt(a@, b@) == name_lt(
                av@.subrange(i as int, av@.len() as int),
                bv@.subrange(i as int, bv@.len() as int),
            ),
        decreases av@.len() - i,
    {
        if av[i] != bv[i] {
            return (av[i] as u32) < (bv[i] as u32);
        }
        proof {
            lemma_name_lt_step(av@, bv@, i as int);
        }
        i = i + 1;
    }
    i == av.len() && i < bv.len()
}

pub proof fn lemma_names_deny(f: Formula)
    ensures
        names_in(deny_f(f)) == names_in(f),
{
    match f {
        Formula::Op { .. } => {},
        Formula::Var { .. } => {},
        Formula::Const { .. } => {},
    }
}

/// The rewrite rules keep the set of variable names.
pub proof fn lemma_names_rules(f: Formula)
    ensures
        names_in(demorgan_f(f)) == names_in(f),
        names_in(implication_f(f)) == names_in(f),
        names_in(ncon_f(f)) == names_in(f),
        names_in(mat_eq_f(f)) == names_in(f),
        names_in(mat_eq_mono_f(f)) == names_in(f),
{
    reveal_with_fuel(names_in, 3);
    match f {
        Formula::Op { left, right, .. } => {
            lemma_names_deny(*left);
            lemma_names_deny(*right);
            lemma_names_deny(deny_f(*left));
            lemma_names_deny(deny_f(*right));
            assert(names_in(demorgan_f(f)) =~= names_in(f));
            assert(names_in(implication_f(f)) =~= names_in(f));
            assert(names_in(ncon_f(f)) =~= names_in(f));
            assert(names_in(mat_eq_f(f)) =~= names_in(f));
            assert(names_in(mat_eq_mono_f(f)) =~= names_in(f));
        },
        _ => {},
    }
}

/// Appends `n` copies of `s` to `out`.
pub fn push_repeat(out: &mut String, s: &str, n: u32)
    ensures
        final(out)@ == old(out)@ + repeat(s@, n as nat),
{
    let mut i: u32 = 0;
    while i < n
        invariant
            i <= n,
            out@ == old(out)@ + repeat(s@, i as nat),
        decreases n - i,
    {
        out.append(s);
        i = i + 1;
        assert(out@ =~= old(out)@ + repeat(s@, i as nat));
    }
}

impl Node {
    /// A copy of the node.
    pub fn copy(&self) -> (r: Node)
        ensures
            r@ == self@,
        decreases self,
    {
        match self {
            Node::Operator { denied, op, left, right } => Node::Operator {
                denied: *denied,
                op: *op,
                left: Box::new(left.copy()),
                right: Box::new(right.copy()),
            },
            Node::Variable { denied, name } => Node::Variable { denied: *denied, name: name.clone() },
            Node::Constant(denied, value) => Node::Constant(*denied, *value),
        }
    }

    /// Structural equality, counts of negation signs included.
    pub fn same(&self, other: &Node) -> (r: bool)
        ensures
            r == (self@ == other@),
        decreases self,
    {
        match (self, other) {
            (
                Node::Operator { denied: d1, op: o1, left: l1, right: r1 },
                Node::Operator { denied: d2, op: o2, left: l2, right: r2 },
            ) => d1.count() == d2.count() && *o1 == *o2 && l1.same(l2) && r1.same(r2),
            (Node::Variable { denied: d1, name: n1 }, Node::Variable { denied: d2, name: n2 }) => {
                d1.count() == d2.count() && *n1 == *n2
            },
            (Node::Constant(d1, v1), Node::Constant(d2, v2)) => d1.count() == d2.count() && *v1
                == *v2,
            _ => false,
        }
    }

    /// Whether this node comes before `other` in the fixed order on nodes.
    pub fn precedes(&self, other: &Node) -> (r: bool)
        ensures
            r == formula_lt(self@, other@),
        decreases self,
    {
        let rank_a: u8 = match self {
            Node::Operator { .. } => 0,
            Node::Variable { .. } => 1,
            Node::Constant(..) => 2,
        };
        let rank_b: u8 = match other {
            Node::Operator { .. } => 0,
            Node::Variable { .. } => 1,
            Node::Constant(..) => 2,
        };
        if rank_a != rank_b {
            return rank_a < rank_b;
        }
        match (self, other) {
            (
                Node::Operator { denied: d1, op: o1, left: l1, right: r1 },
                Node::Operator { denied: d2, op: o2, left: l2, right: r2 },
            ) => {
                if *o1 != *o2 {
                    let k1: u8 = match o1 {
                        Operator::AND => 0,
                        Operator::OR => 1,
                        Operator::CON => 2,
                        Operator::BICON => 3,
                    };
                    let k2: u8 = match o2 {
                        Operator::AND => 0,
                        Operator::OR => 1,
                        Operator::CON => 2,
                        Operator::BICON => 3,
                    };
                    k1 < k2
                } else if d1.count() != d2.count() {
                    d1.count() < d2.count()
                } else if !l1.same(l2) {
                    l1.precedes(l2)
                } else {
                    r1.precedes(r2)
                }
            },
            (Node::Variable { denied: d1, name: n1 }, Node::Variable { denied: d2, name: n2 }) => {
                if d1.count() != d2.count() {
                    d1.count() < d2.count()
                } else {
                    names_precede(n1, n2)
                }
            },
            (Node::Constant(d1, v1), Node::Constant(d2, v2)) => {
                if d1.count() != d2.count() {
                    d1.count() < d2.count()
                } else {
                    !*v1 && *v2
                }
            },
            _ => false,
        }
    }

    /// The negation signs on the node itself.
    pub fn signs(&self) -> (r: Negation)
        ensures
            r@ == neg_of(self@),
    {
        match self {
            Node::Operator { denied, .. } => *denied,
            Node::Variable { denied, .. } => *denied,
            Node::Constant(denied, _) => *denied,
        }
    }

    /// Adds the signs of `k` to the node's own.
    pub fn add_signs(&mut self, k: Negation)
        ensures
            final(self)@ == with_signs(old(self)@, k@),
    {
        match self {
            Node::Operator { denied, .. } => *denied = Negation::combine(*denied, k),
            Node::Variable { denied, .. } => *denied = Negation::combine(*denied, k),
            Node::Constant(denied, _) => *denied = Negation::combine(*denied, k),
        }
    }

    /// Adds a negation sign to the node; returns the node.
    pub fn deny(&mut self) -> (r: &mut Self)
        ensures
            r@ == deny_f(old(self)@),
            *final(self) == *final(r),
    {
        match self {
            Node::Operator { denied, .. } => denied.deny(),
            Node::Variable { denied, .. } => denied.deny(),
            Node::Constant(denied, _) => denied.deny(),
        }
        self
    }

    /// Applies De Morgan's rule to a conjunction or disjunction; otherwise
    /// leaves the node as it is and returns `None`.
    pub fn demorgans(&mut self) -> (r: Option<&mut Self>)
        ensures
            match r {
                Some(x) => {
                    &&& old(self)@ is Op
                    &&& (old(self)@->Op_op == Operator::AND || old(self)@->Op_op == Operator::OR)
                    &&& x@ == demorgan_f(old(self)@)
                    &&& *final(self) == *final(x)
                },
                None => {
                    &&& !(old(self)@ is Op && (old(self)@->Op_op == Operator::AND || old(self)@->Op_op
                        == Operator::OR))
                    &&& *final(self) == *old(self)
                },
            },
    {
        let applies = match self {
            Node::Operator { denied, op, left, right } => {
                if op.is_and() || op.is_or() {
                    *op = if op.is_and() {
                        Operator::OR
                    } else {
                        Operator::AND
                    };
                    denied.deny();
                    left.deny();
                    right.deny();
                    true
                } else {
                    false
                }
            },
            _ => false,
        };
        if applies {
            Some(self)
        } else {
            None
        }
    }

    /// Applies the rule of implication to a conditional or disjunction;
    /// otherwise leaves the node as it is and returns `None`.
    pub fn implication(&mut self) -> (r: Option<&mut Self>)
        ensures
            match r {
                Some(x) => {
                    &&& old(self)@ is Op
                    &&& (old(self)@->Op_op == Operator::CON || old(self)@->Op_op == Operator::OR)
                    &&& x@ == implication_f(old(self)@)
                    &&& *final(self) == *final(x)
                },
                None => {
                    &&& !(old(self)@ is Op && (old(self)@->Op_op == Operator::CON || old(self)@->Op_op
                        == Operator::OR))
                    &&& *final(self) == *old(self)
                },
            },
    {
        let applies = match self {
            Node::Operator { op, left, .. } => {
                if op.is_con() || op.is_or() {
                    *op = if op.is_con() {
                        Operator::OR
                    } else {
                        Operator::CON
                    };
                    left.deny();
                    true
                } else {
                    false
                }
            },
            _ => false,
        };
        if applies {
            Some(self)
        } else {
            None
        }
    }

    /// Applies the rule of negated conditional to a conditional or
    /// conjunction; otherwise leaves the node as it is and returns `None`.
    pub fn ncon(&mut self) -> (r: Option<&mut Self>)
        ensures
            match r {
                Some(x) => {
                    &&& old(self)@ is Op
                    &&& (old(self)@->Op_op == Operator::CON || old(self)@->Op_op == Operator::AND)
                    &&& x@ == ncon_f(old(self)@)
                    &&& *final(self) == *final(x)
                },
                None => {
                    &&& !(old(self)@ is Op && (old(self)@->Op_op == Operator::CON || old(self)@->Op_op
                        == Operator::AND))
                    &&& *final(self) == *old(self)
                },
            },
    {
        let applies = match self {
            Node::Operator { denied, op, right, .. } => {
                if op.is_con() || op.is_and() {
                    *op = if op.is_con() {
                        Operator::AND
                    } else {
                        Operator::CON
                    };
                    denied.deny();
                    right.deny();
                    true
                } else {
                    false
                }
            },
            _ => false,
        };
        if applies {
            Some(self)
        } else {
            None
        }
    }

    /// Applies material equivalence: a biconditional becomes a conjunction of
    /// two conditionals, and a conjunction of two unnegated mirrored
    /// conditionals becomes a biconditional. Otherwise leaves the node as it
    /// is and returns `None`.
    pub fn mat_eq(&mut self) -> (r: Option<&mut Self>)
        ensures
            match r {
                Some(x) => {
                    &&& mat_eq_applies(old(self)@)
                    &&& x@ == mat_eq_f(old(self)@)
                    &&& *final(self) == *final(x)
                },
                None => {
                    &&& !mat_eq_applies(old(self)@)
                    &&& *final(self) == *old(self)
                },
            },
    {
        let applies = match self {
            Node::Operator { op, left, right, .. } => {
                if op.is_bicon() {
                    let l1 = left.copy();
                    let l2 = left.copy();
                    let r1 = right.copy();
                    let r2 = right.copy();
                    let ghost lv = l1@;
                    let ghost rv = r1@;
                    *op = Operator::AND;
                    *left = Box::new(
                        Node::Operator {
                            denied: Negation::none(),
                            op: Operator::CON,
                            left: Box::new(l1),
                            right: Box::new(r1),
                        },
                    );
                    *right = Box::new(
                        Node::Operator {
                            denied: Negation::none(),
                            op: Operator::CON,
                            left: Box::new(r2),
                            right: Box::new(l2),
                        },
                    );
                    assert((**left)@ == plain(Operator::CON, lv, rv));
                    assert((**right)@ == plain(Operator::CON, rv, lv));
                    true
                } else if op.is_and() {
                    let parts = match (&**left, &**right) {
                        (
                            Node::Operator { denied: ld, op: lo, left: ll, right: lr },
                            Node::Operator { denied: rd, op: ro, left: rl, right: rr },
                        ) => {
                            assert((**left)@ == Formula::Op {
                                neg: ld@,
                                op: *lo,
                                left: Box::new((**ll)@),
                                right: Box::new((**lr)@),
                            });
                            assert((**right)@ == Formula::Op {
                                neg: rd@,
                                op: *ro,
                                left: Box::new((**rl)@),
                                right: Box::new((**rr)@),
                            });
                            if lo.is_con() && ro.is_con() && !ld.is_denied() && !rd.is_denied()
                                && ll.same(rr) && lr.same(rl) {
                                Some((ll.copy(), lr.copy()))
                            } else {
                                None
                            }
                        },
                        _ => None,
                    };
                    match parts {
                        Some((a, b)) => {
                            *op = Operator::BICON;
                            *left = Box::new(a);
                            *right = Box::new(b);
                            true
                        },
                        None => false,
                    }
                } else {
                    false
                }
            },
            _ => false,
        };
        if applies {
            Some(self)
        } else {
            None
        }
    }

    /// Applies monotone material equivalence to a biconditional: `L <-> R`
    /// becomes `(L & R) v (~L & ~R)`; a negation of the biconditional moves to
    /// the lesser of `L` and `R`. Otherwise leaves the node as it is and
    /// returns `None`.
    pub fn mat_eq_mono(&mut self) -> (r: Option<&mut Self>)
        ensures
            match r {
                Some(x) => {
                    &&& old(self)@ is Op
                    &&& old(self)@->Op_op == Operator::BICON
                    &&& x@ == mat_eq_mono_f(old(self)@)
                    &&& *final(self) == *final(x)
                },
                None => {
                    &&& !(old(self)@ is Op && old(self)@->Op_op == Operator::BICON)
                    &&& *final(self) == *old(self)
                },
            },
    {
        let applies = match self {
            Node::Operator { denied, op, left, right } => {
                if op.is_bicon() {
                    let mut l = left.copy();
                    let mut r = right.copy();
                    if denied.is_denied() {
                        denied.deny();
                        if l.precedes(&r) {
                            l.deny();
                        } else {
                            r.deny();
                        }
                    }
                    let mut nl = l.copy();
                    let mut nr = r.copy();
                    nl.deny();
                    nr.deny();
                    let ghost lv = l@;
                    let ghost rv = r@;
                    *op = Operator::OR;
                    *left = Box::new(
                        Node::Operator {
                            denied: Negation::none(),
                            op: Operator::AND,
                            left: Box::new(l),
                            right: Box::new(r),
                        },
                    );
                    *right = Box::new(
                        Node::Operator {
                            denied: Negation::none(),
                            op: Operator::AND,
                            left: Box::new(nl),
                            right: Box::new(nr),
                        },
                    );
                    assert((**left)@ == plain(Operator::AND, lv, rv));
                    assert((**right)@ == plain(Operator::AND, deny_f(lv), deny_f(rv)));
                    true
                } else {
                    false
                }
            },
            _ => false,
        };
        if applies {
            Some(self)
        } else {
            None
        }
    }

    /// The node's own token in the given notation: its negation signs, then
    /// its connective, name, `TRUE` or `FALSE`.
    pub fn print(&self, notation: &OperatorNotation) -> (r: String)
        ensures
            r@ == token(self@, notation@),
    {
        let mut s = String::new();
        match self {
            Node::Operator { denied, op, .. } => {
                push_repeat(&mut s, notation.neg(), denied.count());
                match op {
                    Operator::AND => s.append(notation.and()),
                    Operator::OR => s.append(notation.or()),
                    Operator::CON => s.append(notation.con()),
                    Operator::BICON => s.append(notation.bicon()),
                }
            },
            Node::Variable { denied, name } => {
                push_repeat(&mut s, notation.neg(), denied.count());
                s.append(name.as_str());
            },
            Node::Constant(denied, value) => {
                push_repeat(&mut s, notation.neg(), denied.count());
                proof {
                    reveal_strlit("TRUE");
                    reveal_strlit("FALSE");
                    assert("TRUE"@ =~= true_word());
                    assert("FALSE"@ =~= false_word());
                }
                if *value {
                    s.append("TRUE");
                } else {
                    s.append("FALSE");
                }
            },
        }
        s
    }

    /// The node's own token in ASCII notation.
    pub fn to_ascii(&self) -> (r: String)
        ensures
            r@ == token(self@, crate::notation::ascii_symbols()),
    {
        self.print(&OperatorNotation::ascii())
    }
    /// Whether the node is an operator.
    pub fn is_operator(&self) -> (r: bool)
        ensures
            r == (self@ is Op),
    {
        match self {
            Node::Operator { .. } => true,
            _ => false,
        }
    }

    /// Whether the node is a variable.
    pub fn is_variable(&self) -> (r: bool)
        ensures
            r == (self@ is Var),
    {
        match self {
            Node::Variable { .. } => true,
            _ => false,
        }
    }

    /// Whether the node is a constant.
    pub fn is_constant(&self) -> (r: bool)
        ensures
            r == (self@ is Const),
    {
        match self {
            Node::Constant(..) => true,
            _ => false,
        }
    }

    /// Evaluates the node where variables may lack a value; a variable that is
    /// absent or has none gives `UninitializedVariable`.
    pub fn evaluate(&self, vars: &VarMap<Option<bool>>) -> (r: Result<bool, ExpressionTreeError>)
        requires
            vars.wf(),
        ensures
            eval_matches(r, eval(self@, known(vars.map()))),
        decreases self,
    {
        match self {
            Node::Operator { denied, op, left, right } => {
                let l = match left.evaluate(vars) {
                    Ok(b) => b,
                    Err(e) => return Err(e),
                };
                let r = match right.evaluate(vars) {
                    Ok(b) => b,
                    Err(e) => return Err(e),
                };
                Ok(op.execute(l, r) != denied.is_denied())
            },
            Node::Variable { denied, name } => match vars.get(name.as_str()) {
                Some(Some(b)) => Ok(b != denied.is_denied()),
                _ => Err(ExpressionTreeError::UninitializedVariable(name.clone())),
            },
            Node::Constant(denied, value) => Ok(*value != denied.is_denied()),
        }
    }

    /// Evaluates the node under an assignment; a variable that the assignment
    /// lacks gives `UninitializedVariable`.
    pub fn evaluate_with_vars(&self, vars: &VarMap<bool>) -> (r: Result<bool, ExpressionTreeError>)
        requires
            vars.wf(),
        ensures
            eval_matches(r, eval(self@, vars.map())),
        decreases self,
    {
        match self {
            Node::Operator { denied, op, left, right } => {
                let l = match left.evaluate_with_vars(vars) {
                    Ok(b) => b,
                    Err(e) => return Err(e),
                };
                let r = match right.evaluate_with_vars(vars) {
                    Ok(b) => b,
                    Err(e) => return Err(e),
                };
                Ok(op.execute(l, r) != denied.is_denied())
            },
            Node::Variable { denied, name } => match vars.get(name.as_str()) {
                Some(b) => Ok(b != denied.is_denied()),
                None => Err(ExpressionTreeError::UninitializedVariable(name.clone())),
            },
            Node::Constant(denied, value) => Ok(*value != denied.is_denied()),
        }
    }
}

impl PartialEq for Node {
    fn eq(&self, other: &Node) -> (r: bool) {
        self.same(other)
    }
}

impl vstd::std_specs::cmp::PartialEqSpecImpl for Node {
    open spec fn obeys_eq_spec() -> bool {
        true
    }

    open spec fn eq_spec(&self, other: &Node) -> bool {
        self@ == other@
    }
}

} // verus!
