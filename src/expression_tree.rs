use vstd::prelude::*;
use vstd::string::StringExecFns;

use crate::error::ExpressionTreeError;
use crate::negation::{odd, Negation};
use crate::node::{
    deny_f, demorgan_f, eval, eval_matches, lemma_eval_deny, implication_f, known, lemma_names_deny, lemma_names_rules,
    lemma_names_subst, mat_eq_applies, neg_of, mat_eq_f, mat_eq_mono_f, names_in, ncon_f, subst, op_symbol, plain, push_repeat, repeat, token, Formula,
    Node,
};
use crate::notation::{ascii_symbols, OperatorNotation, Symbols};
use crate::operator::Operator;
use crate::parser::{
    build, construct_tree, fails_with, lemma_build_shrinks, parse, shunting_yard, table_of, Reader,
};
use crate::shell::tokens_of;
use crate::monotone::{lemma_mono_deny, lemma_names_mono, lemma_size_deny, mono, mono_k, size};
use crate::truth_table::{
    advance, bits_of, count_up, lemma_bits_len, lemma_bits_zero, lemma_eval_total, lemma_incr,
    lemma_pow2_pos, lemma_table_complete, lemma_table_over, over, pow2, table, words_value,
};
use crate::var_map::{lemma_to_map_dom, to_map, VarMap};

verus! {

/// The map of a freshly read tree: every variable of `f`, with no value.
pub open spec fn fresh_vars(f: Formula) -> Map<Seq<char>, Option<bool>> {
    Map::new(|k: Seq<char>| names_in(f).contains(k), |k: Seq<char>| None::<bool>)
}

/// `m` with every name of `s` that it lacks added, without a value.
pub open spec fn add_unknown(m: Map<Seq<char>, Option<bool>>, s: Set<Seq<char>>) -> Map<
    Seq<char>,
    Option<bool>,
> {
    Map::new(
        |k: Seq<char>| m.contains_key(k) || s.contains(k),
        |k: Seq<char>| if m.contains_key(k) { m[k] } else { None::<bool> },
    )
}

/// The variables of two trees joined: the left tree's values win.
pub open spec fn join_vars(a: Map<Seq<char>, Option<bool>>, b: Map<Seq<char>, Option<bool>>) -> Map<
    Seq<char>,
    Option<bool>,
> {
    b.union_prefer_right(a)
}

/// `m` with the values of `a` on the names both hold.
pub open spec fn overlay(m: Map<Seq<char>, Option<bool>>, a: Map<Seq<char>, bool>) -> Map<
    Seq<char>,
    Option<bool>,
> {
    Map::new(
        |k: Seq<char>| m.contains_key(k),
        |k: Seq<char>| if a.contains_key(k) { Some(a[k]) } else { m[k] },
    )
}

/// The names of two trees joined: the left tree's, then the right tree's
/// that the left lacks.
pub open spec fn join_names(a: Seq<Seq<char>>, b: Seq<Seq<char>>) -> Seq<Seq<char>> {
    a + b.filter(|n: Seq<char>| !a.contains(n))
}

/// Equality up to the parity of every count of negation signs.
pub open spec fn lit_eq_f(a: Formula, b: Formula) -> bool
    decreases a,
{
    match (a, b) {
        (
            Formula::Op { neg: an, op: ao, left: al, right: ar },
            Formula::Op { neg: bn, op: bo, left: bl, right: br },
        ) => odd(an) == odd(bn) && ao == bo && lit_eq_f(*al, *bl) && lit_eq_f(*ar, *br),
        (Formula::Var { neg: an, name: a_name }, Formula::Var { neg: bn, name: b_name }) => odd(an)
            == odd(bn) && a_name == b_name,
        (Formula::Const { neg: an, value: av }, Formula::Const { neg: bn, value: bv }) => odd(an)
            == odd(bn) && av == bv,
        _ => false,
    }
}

/// The tokens of every node in pre-order.
pub open spec fn prefix_of(f: Formula, sym: Symbols) -> Seq<char>
    decreases f,
{
    match f {
        Formula::Op { left, right, .. } => token(f, sym) + prefix_of(*left, sym) + prefix_of(
            *right,
            sym,
        ),
        _ => token(f, sym),
    }
}

/// The fully parenthesised infix form; a negated operator prints its signs
/// before its opening parenthesis.
pub open spec fn infix_of(f: Formula, sym: Symbols) -> Seq<char>
    decreases f,
{
    match f {
        Formula::Op { neg, op, left, right } => repeat(sym.neg, neg as nat) + seq!['('] + infix_of(
            *left,
            sym,
        ) + op_symbol(op, sym) + infix_of(*right, sym) + seq![')'],
        _ => token(f, sym),
    }
}

/// The infix form without the outermost parentheses, which an operator
/// without negation signs at the top does not need.
pub open spec fn infix_top(f: Formula, sym: Symbols) -> Seq<char> {
    match f {
        Formula::Op { neg, op, left, right } => if neg == 0 {
            infix_of(*left, sym) + op_symbol(op, sym) + infix_of(*right, sym)
        } else {
            infix_of(f, sym)
        },
        _ => infix_of(f, sym),
    }
}

/// The formula of each tree of a map.
pub open spec fn formulas_of(m: Map<Seq<char>, &ExpressionTree>) -> Map<Seq<char>, Formula> {
    Map::new(|k: Seq<char>| m.contains_key(k), |k: Seq<char>| m[k].formula())
}

/// `m` after the variables of `trees[i]` came in, in order, for each
/// `names[i]` that `d` holds.
pub open spec fn absorb_all(
    m: Map<Seq<char>, Option<bool>>,
    names: Seq<Seq<char>>,
    trees: Seq<&ExpressionTree>,
    d: Set<Seq<char>>,
) -> Map<Seq<char>, Option<bool>>
    decreases names.len(),
{
    if names.len() == 0 || trees.len() == 0 {
        m
    } else {
        let m1 = absorb_all(m, names.drop_last(), trees.drop_last(), d);
        if d.contains(names.last()) {
            join_vars(m1, trees.last().var_map())
        } else {
            m1
        }
    }
}

pub proof fn lemma_absorb_all_dom(
    m: Map<Seq<char>, Option<bool>>,
    names: Seq<Seq<char>>,
    trees: Seq<&ExpressionTree>,
    d: Set<Seq<char>>,
)
    requires
        names.len() == trees.len(),
    ensures
        m.dom().subset_of(absorb_all(m, names, trees, d).dom()),
        forall|j: int|
            0 <= j < names.len() && d.contains(#[trigger] names[j]) ==> trees[j].var_map().dom().subset_of(
                absorb_all(m, names, trees, d).dom(),
            ),
    decreases names.len(),
{
    if names.len() > 0 {
        lemma_absorb_all_dom(m, names.drop_last(), trees.drop_last(), d);
        assert forall|j: int|
            0 <= j < names.len() && d.contains(#[trigger] names[j]) implies trees[j].var_map().dom().subset_of(
            absorb_all(m, names, trees, d).dom(),
        ) by {
            if j < names.len() - 1 {
                assert(names.drop_last()[j] == names[j]);
                assert(trees.drop_last()[j] == trees[j]);
            }
        }
    }
}

/// Substituting only where a formula has variables changes nothing.
pub proof fn lemma_subst_restrict(f: Formula, sub: Map<Seq<char>, Formula>, d: Set<Seq<char>>)
    requires
        names_in(f).subset_of(d),
    ensures
        subst(f, sub) == subst(f, sub.restrict(d)),
    decreases f,
{
    match f {
        Formula::Op { left, right, .. } => {
            lemma_subst_restrict(*left, sub, d);
            lemma_subst_restrict(*right, sub, d);
        },
        _ => {},
    }
}

pub proof fn lemma_subst_empty(f: Formula, sub: Map<Seq<char>, Formula>)
    requires
        sub.dom().disjoint(names_in(f)),
    ensures
        subst(f, sub) == f,
    decreases f,
{
    match f {
        Formula::Op { left, right, .. } => {
            lemma_subst_empty(*left, sub);
            lemma_subst_empty(*right, sub);
        },
        Formula::Var { name, .. } => {
            assert(names_in(f).contains(name));
        },
        _ => {},
    }
}

/// The formula without the negation signs on its root.
pub open spec fn bare(f: Formula) -> Formula {
    match f {
        Formula::Op { op, left, right, .. } => Formula::Op { neg: 0, op, left, right },
        Formula::Var { name, .. } => Formula::Var { neg: 0, name },
        Formula::Const { value, .. } => Formula::Const { neg: 0, value },
    }
}

/// Every subtree of `f` that equals `pat` up to the signs on its own root
/// replaced by `g`, denied once more where the parities of those signs differ.
pub open spec fn swap_in(f: Formula, pat: Formula, g: Formula) -> Formula
    decreases f,
{
    if bare(f) == bare(pat) {
        if odd(neg_of(f)) != odd(neg_of(pat)) {
            deny_f(g)
        } else {
            g
        }
    } else {
        match f {
            Formula::Op { neg, op, left, right } => Formula::Op {
                neg,
                op,
                left: Box::new(swap_in(*left, pat, g)),
                right: Box::new(swap_in(*right, pat, g)),
            },
            _ => f,
        }
    }
}

/// The variables `names`, each with the value `old` gives it, else the
/// value `new` gives it, else none.
pub open spec fn revalued(
    old: Map<Seq<char>, Option<bool>>,
    new: Map<Seq<char>, Option<bool>>,
    names: Set<Seq<char>>,
) -> Map<Seq<char>, Option<bool>> {
    Map::new(
        |k: Seq<char>| names.contains(k),
        |k: Seq<char>| if old.contains_key(k) && old[k] is Some {
            old[k]
        } else if new.contains_key(k) {
            new[k]
        } else {
            None::<bool>
        },
    )
}

fn same_bare(a: &Node, b: &Node) -> (r: bool)
    ensures
        r == (bare(a@) == bare(b@)),
{
    match (a, b) {
        (
            Node::Operator { op: o1, left: l1, right: r1, .. },
            Node::Operator { op: o2, left: l2, right: r2, .. },
        ) => *o1 == *o2 && l1.same(l2) && r1.same(r2),
        (Node::Variable { name: n1, .. }, Node::Variable { name: n2, .. }) => *n1 == *n2,
        (Node::Constant(_, v1), Node::Constant(_, v2)) => *v1 == *v2,
        _ => false,
    }
}

/// The assignments, in enumeration order, that make both trees true.
pub open spec fn joint_models(a: &ExpressionTree, b: &ExpressionTree) -> Seq<Map<Seq<char>, bool>> {
    table(join_names(a.names(), b.names())).filter(
        |e: Map<Seq<char>, bool>|
            eval(plain(Operator::AND, a.formula(), b.formula()), e) == Ok::<bool, Seq<char>>(true),
    )
}

/// Whether two formulas agree under every assignment of the names of both.
pub open spec fn log_equiv(a: Formula, da: Set<Seq<char>>, b: Formula, db: Set<Seq<char>>) -> bool {
    forall|env: Map<Seq<char>, bool>| env.dom() == da.union(db) ==> eval(a, env) == eval(b, env)
}

/// Where no element satisfies `p`, the filtered sequence is empty.
pub proof fn lemma_filter_none<A>(s: Seq<A>, p: spec_fn(A) -> bool)
    requires
        forall|j: int| 0 <= j < s.len() ==> !p(s[j]),
    ensures
        s.filter(p).len() == 0,
    decreases s.len(),
{
    reveal(Seq::filter);
    if s.len() > 0 {
        assert forall|j: int| 0 <= j < s.drop_last().len() implies !p(s.drop_last()[j]) by {
            assert(s.drop_last()[j] == s[j]);
        }
        lemma_filter_none(s.drop_last(), p);
    }
}

/// The first element that satisfies `p` is the first of the filtered sequence.
pub proof fn lemma_first_model<A>(s: Seq<A>, p: spec_fn(A) -> bool, i: int)
    requires
        0 <= i < s.len(),
        p(s[i]),
        forall|j: int| 0 <= j < i ==> !p(s[j]),
    ensures
        s.filter(p).len() > 0,
        s.filter(p)[0] == s[i],
    decreases s.len(),
{
    reveal(Seq::filter);
    if i < s.len() - 1 {
        lemma_first_model(s.drop_last(), p, i);
        assert(s.drop_last()[i] == s[i]);
    } else {
        lemma_filter_none(s.drop_last(), p);
    }
}

/// The symbol of a connective in a notation.
pub fn op_text(op: Operator, notation: &OperatorNotation) -> (r: &str)
    ensures
        r@ == op_symbol(op, notation@),
{
    match op {
        Operator::AND => notation.and(),
        Operator::OR => notation.or(),
        Operator::CON => notation.con(),
        Operator::BICON => notation.bicon(),
    }
}

fn lit_same(a: &Node, b: &Node) -> (r: bool)
    ensures
        r == lit_eq_f(a@, b@),
    decreases a,
{
    match (a, b) {
        (
            Node::Operator { denied: d1, op: o1, left: l1, right: r1 },
            Node::Operator { denied: d2, op: o2, left: l2, right: r2 },
        ) => d1.is_denied() == d2.is_denied() && *o1 == *o2 && lit_same(l1, l2) && lit_same(r1, r2),
        (Node::Variable { denied: d1, name: n1 }, Node::Variable { denied: d2, name: n2 }) => {
            d1.is_denied() == d2.is_denied() && *n1 == *n2
        },
        (Node::Constant(d1, v1), Node::Constant(d2, v2)) => d1.is_denied() == d2.is_denied() && *v1
            == *v2,
        _ => false,
    }
}

/// Expression tree for a logical expression in sentential logic: the tree,
/// the value of each of its variables, and the last result of `evaluate`.
#[derive(Debug)]
pub struct ExpressionTree {
    vars: VarMap<Option<bool>>,
    root: Node,
    value: Option<bool>,
}

impl ExpressionTree {
    /// The formula the tree holds.
    pub closed spec fn formula(&self) -> Formula {
        self.root@
    }

    /// The names of the variables, in the order assignments are enumerated.
    pub closed spec fn names(&self) -> Seq<Seq<char>> {
        self.vars.names()
    }

    /// The values of the variables, in the order of `names`.
    pub closed spec fn values(&self) -> Seq<Option<bool>> {
        self.vars.vals()
    }

    /// The remembered result of the last evaluation, if any.
    pub closed spec fn cache(&self) -> Option<bool> {
        self.value
    }

    /// Each variable with its value, if it has one.
    pub open spec fn var_map(&self) -> Map<Seq<char>, Option<bool>> {
        to_map(self.names(), self.values())
    }

    /// The tree's own assignment: the variables that have values.
    pub open spec fn assignment(&self) -> Map<Seq<char>, bool> {
        known(self.var_map())
    }

    /// Names are distinct, every variable of the tree has an entry, and a
    /// remembered result is the tree's value.
    pub open spec fn wf(&self) -> bool {
        &&& self.names().no_duplicates()
        &&& self.names().len() == self.values().len()
        &&& names_in(self.formula()).subset_of(self.var_map().dom())
        &&& (self.cache() matches Some(b) ==> eval(self.formula(), self.assignment()) == Ok::<
            bool,
            Seq<char>,
        >(b))
    }

    proof fn lemma_dom(&self)
        ensures
            self.var_map().dom() == self.names().to_set(),
    {
        lemma_to_map_dom(self.names(), self.values());
    }

    /// A tree that is just `TRUE`.
    #[allow(non_snake_case)]
    pub fn TRUE() -> (r: Self)
        ensures
            r.wf(),
            r.formula() == (Formula::Const { neg: 0, value: true }),
            r.var_map() == Map::<Seq<char>, Option<bool>>::empty(),
    {
        Self::constant(true)
    }

    /// A tree that is just `FALSE`.
    #[allow(non_snake_case)]
    pub fn FALSE() -> (r: Self)
        ensures
            r.wf(),
            r.formula() == (Formula::Const { neg: 0, value: false }),
            r.var_map() == Map::<Seq<char>, Option<bool>>::empty(),
    {
        Self::constant(false)
    }

    /// A tree that is just the constant `b`.
    pub fn constant(b: bool) -> (r: Self)
        ensures
            r.wf(),
            r.formula() == (Formula::Const { neg: 0, value: b }),
            r.var_map() == Map::<Seq<char>, Option<bool>>::empty(),
    {
        let r = ExpressionTree {
            vars: VarMap::new(),
            root: Node::Constant(Negation::none(), b),
            value: Some(b),
        };
        proof {
            r.lemma_dom();
            assert(names_in(r.formula()) =~= Set::empty());
        }
        r
    }

    /// Wraps a node in a tree whose variables have no values.
    pub fn from_node(root: Node) -> (r: Self)
        ensures
            r.wf(),
            r.formula() == root@,
            r.var_map() == fresh_vars(root@),
            r.cache() is None,
    {
        proof {
            assert(fresh_vars(root@).dom() == names_in(root@));
        }
        let mut vars = VarMap::new();
        Self::create_vars(&root, &mut vars);
        proof {
            assert(add_unknown(Map::empty(), names_in(root@)) =~= fresh_vars(root@));
        }
        let r = ExpressionTree { vars, root, value: None };
        proof {
            r.lemma_dom();
        }
        r
    }

    /// Reads an infix expression in the default notation.
    pub fn new(expression: &str) -> (r: Result<Self, ExpressionTreeError>)
        ensures
            match parse(expression@, None) {
                Ok(f) => r is Ok && r->Ok_0.wf() && r->Ok_0.formula() == f && r->Ok_0.var_map()
                    == fresh_vars(f) && r->Ok_0.cache() is None,
                Err(e) => fails_with(r, e),
            },
    {
        Self::read(expression, None)
    }

    /// Reads an infix expression in which only the given notation's symbols
    /// stand for the negation and the four connectives.
    pub fn new_with(expression: &str, notation: &OperatorNotation) -> (r: Result<
        Self,
        ExpressionTreeError,
    >)
        ensures
            match parse(expression@, Some(notation@)) {
                Ok(f) => r is Ok && r->Ok_0.wf() && r->Ok_0.formula() == f && r->Ok_0.var_map()
                    == fresh_vars(f) && r->Ok_0.cache() is None,
                Err(e) => fails_with(r, e),
            },
    {
        let reader = Reader::new(notation);
        Self::read(expression, Some(&reader))
    }

    fn read(expression: &str, table: Option<&Reader>) -> (r: Result<Self, ExpressionTreeError>)
        ensures
            match parse(expression@, table_of(table)) {
                Ok(f) => r is Ok && r->Ok_0.wf() && r->Ok_0.formula() == f && r->Ok_0.var_map()
                    == fresh_vars(f) && r->Ok_0.cache() is None,
                Err(e) => fails_with(r, e),
            },
    {
        let mut shells = match shunting_yard(expression, table) {
            Ok(s) => s,
            Err(e) => {
                return Err(e);
            },
        };
        let ghost before = shells@;
        let ghost t = tokens_of(shells@);
        assert(t.len() == shells@.len());
        if shells.len() == 0 {
            return Err(ExpressionTreeError::InvalidExpression);
        }
        let root = match construct_tree(&mut shells) {
            Ok(n) => n,
            Err(e) => {
                return Err(e);
            },
        };
        proof {
            lemma_build_shrinks(t, t.len());
            assert(shells@ == before.subrange(0, build(t, t.len())->Ok_0.1 as int));
        }
        if shells.len() > 0 {
            return Err(ExpressionTreeError::NotEnoughOperators);
        }
        Ok(Self::from_node(root))
    }


    /// A copy of the tree.
    pub fn duplicate(&self) -> (r: Self)
        requires
            self.wf(),
        ensures
            r.wf(),
            r.formula() == self.formula(),
            r.names() == self.names(),
            r.values() == self.values(),
            r.cache() == self.cache(),
    {
        ExpressionTree { vars: self.vars.duplicate(), root: self.root.copy(), value: self.value }
    }

    /// Gives the variable `name` the value `value`, where the tree has it.
    pub fn set_variable(&mut self, name: &str, value: bool)
        requires
            old(self).wf(),
        ensures
            final(self).wf(),
            final(self).formula() == old(self).formula(),
            final(self).names() == old(self).names(),
            final(self).var_map() == if old(self).var_map().contains_key(name@) {
                old(self).var_map().insert(name@, Some(value))
            } else {
                old(self).var_map()
            },
    {
        proof {
            self.lemma_dom();
        }
        match self.vars.get(name) {
            Some(v) => {
                let changed = match v {
                    Some(b) => b != value,
                    None => true,
                };
                if changed {
                    self.vars.insert(name.to_owned(), Some(value));
                    self.value = None;
                } else {
                    assert(self.var_map().insert(name@, Some(value)) =~= self.var_map());
                }
            },
            None => {},
        }
        proof {
            self.lemma_dom();
        }
    }

    /// Gives each variable of `vars` that the tree has the value `vars` gives it.
    pub fn set_variables(&mut self, vars: &VarMap<bool>)
        requires
            old(self).wf(),
            vars.wf(),
        ensures
            final(self).wf(),
            final(self).formula() == old(self).formula(),
            final(self).var_map() == overlay(old(self).var_map(), vars.map()),
    {
        let ghost m0 = self.var_map();
        let mut i: usize = 0;
        proof {
            assert(to_map(vars.names().subrange(0, 0), vars.vals().subrange(0, 0)) =~= Map::empty());
            assert(overlay(m0, Map::empty()) =~= m0);
        }
        while i < vars.len()
            invariant
                self.wf(),
                vars.wf(),
                i <= vars.names().len(),
                self.formula() == old(self).formula(),
                m0 == old(self).var_map(),
                self.var_map() == overlay(
                    m0,
                    to_map(vars.names().subrange(0, i as int), vars.vals().subrange(0, i as int)),
                ),
            decreases vars.names().len() - i,
        {
            let name = vars.name_at(i);
            let b = vars.value_at(i);
            let ghost a = to_map(vars.names().subrange(0, i as int), vars.vals().subrange(0, i as int));
            proof {
                let ns = vars.names().subrange(0, i + 1);
                let vs = vars.vals().subrange(0, i + 1);
                assert(ns.drop_last() =~= vars.names().subrange(0, i as int));
                assert(vs.drop_last() =~= vars.vals().subrange(0, i as int));
                self.lemma_dom();
            }
            if self.vars.contains_key(name.as_str()) {
                self.vars.insert(name.clone(), Some(b));
                self.value = None;
                proof {
                    assert(overlay(m0, a.insert(name@, b)) =~= overlay(m0, a).insert(name@, Some(b)));
                }
            } else {
                proof {
                    assert(overlay(m0, a.insert(name@, b)) =~= overlay(m0, a));
                }
            }
            i = i + 1;
            proof {
                self.lemma_dom();
            }
        }
        proof {
            assert(vars.names().subrange(0, i as int) =~= vars.names());
            assert(vars.vals().subrange(0, i as int) =~= vars.vals());
        }
    }

    /// Evaluates the tree under its own variables, remembering the result
    /// until the tree or its variables change.
    pub fn evaluate(&mut self) -> (r: Result<bool, ExpressionTreeError>)
        requires
            old(self).wf(),
        ensures
            final(self).wf(),
            final(self).formula() == old(self).formula(),
            final(self).names() == old(self).names(),
            final(self).values() == old(self).values(),
            eval_matches(r, eval(old(self).formula(), old(self).assignment())),
            r is Ok ==> final(self).cache() == Some(r->Ok_0),
    {
        match self.value {
            Some(v) => Ok(v),
            None => {
                let r = self.root.evaluate(&self.vars);
                match r {
                    Ok(b) => {
                        self.value = Some(b);
                        Ok(b)
                    },
                    Err(e) => Err(e),
                }
            },
        }
    }

    /// Evaluates the tree under the given assignment; the cache is neither
    /// read nor written.
    pub fn evaluate_with_vars(&self, vars: &VarMap<bool>) -> (r: Result<bool, ExpressionTreeError>)
        requires
            vars.wf(),
        ensures
            eval_matches(r, eval(self.formula(), vars.map())),
    {
        self.root.evaluate_with_vars(vars)
    }

    /// The variables and their values.
    pub fn vars(&self) -> (r: &VarMap<Option<bool>>)
        ensures
            r.names() == self.names(),
            r.vals() == self.values(),
    {
        &self.vars
    }

    /// The root node of the tree, whose variables are dropped.
    pub fn into_node(self) -> (r: Node)
        ensures
            r@ == self.formula(),
    {
        self.root
    }

    fn join(self, second: Self, op: Operator) -> (r: Self)
        requires
            self.wf(),
            second.wf(),
        ensures
            r.wf(),
            r.formula() == plain(op, self.formula(), second.formula()),
            r.var_map() == join_vars(self.var_map(), second.var_map()),
            r.names() == join_names(self.names(), second.names()),
            r.cache() is None,
    {
        let ExpressionTree { vars: mut vars, root: left, .. } = self;
        let ExpressionTree { vars: other, root: right, .. } = second;
        Self::absorb_vars(&mut vars, &other);
        let r = ExpressionTree {
            vars,
            root: Node::Operator {
                denied: Negation::none(),
                op,
                left: Box::new(left),
                right: Box::new(right),
            },
            value: None,
        };
        proof {
            lemma_to_map_dom(r.names(), r.values());
        }
        r
    }

    /// The tree `self & second`; the variables of both, with `self`'s values
    /// where both have a name.
    pub fn and(self, second: Self) -> (r: Self)
        requires
            self.wf(),
            second.wf(),
        ensures
            r.wf(),
            r.formula() == plain(Operator::AND, self.formula(), second.formula()),
            r.var_map() == join_vars(self.var_map(), second.var_map()),
            r.names() == join_names(self.names(), second.names()),
    {
        self.join(second, Operator::AND)
    }

    /// The tree `self v second`, with variables joined as in `and`.
    pub fn or(self, second: Self) -> (r: Self)
        requires
            self.wf(),
            second.wf(),
        ensures
            r.wf(),
            r.formula() == plain(Operator::OR, self.formula(), second.formula()),
            r.var_map() == join_vars(self.var_map(), second.var_map()),
    {
        self.join(second, Operator::OR)
    }

    /// The tree `self -> consequent`, with variables joined as in `and`.
    pub fn con(self, consequent: Self) -> (r: Self)
        requires
            self.wf(),
            consequent.wf(),
        ensures
            r.wf(),
            r.formula() == plain(Operator::CON, self.formula(), consequent.formula()),
            r.var_map() == join_vars(self.var_map(), consequent.var_map()),
    {
        self.join(consequent, Operator::CON)
    }

    /// The tree `self <-> second`, with variables joined as in `and`.
    pub fn bicon(self, second: Self) -> (r: Self)
        requires
            self.wf(),
            second.wf(),
        ensures
            r.wf(),
            r.formula() == plain(Operator::BICON, self.formula(), second.formula()),
            r.var_map() == join_vars(self.var_map(), second.var_map()),
    {
        self.join(second, Operator::BICON)
    }

    /// The tree `~self`.
    pub fn not(self) -> (r: Self)
        requires
            self.wf(),
        ensures
            r.wf(),
            r.formula() == deny_f(self.formula()),
            r.var_map() == self.var_map(),
    {
        let ExpressionTree { vars, root: mut root, .. } = self;
        root.deny();
        proof {
            lemma_names_deny(self.formula());
        }
        ExpressionTree { vars, root, value: None }
    }

    /// Adds a negation sign to the root; returns the tree.
    pub fn deny(&mut self) -> (r: &mut Self)
        requires
            old(self).wf(),
        ensures
            r.wf(),
            r.formula() == deny_f(old(self).formula()),
            r.var_map() == old(self).var_map(),
            *final(self) == *final(r),
    {
        self.root.deny();
        self.value = None;
        proof {
            lemma_names_deny(old(self).formula());
        }
        self
    }

    /// De Morgan's rule at the root, where it is a conjunction or
    /// disjunction; otherwise `None` and no change.
    pub fn demorgans(&mut self) -> (r: Option<&mut Self>)
        requires
            old(self).wf(),
        ensures
            match r {
                Some(x) => {
                    &&& old(self).formula() is Op
                    &&& (old(self).formula()->Op_op == Operator::AND || old(self).formula()->Op_op
                        == Operator::OR)
                    &&& x.wf()
                    &&& x.formula() == demorgan_f(old(self).formula())
                    &&& x.var_map() == old(self).var_map()
                    &&& *final(self) == *final(x)
                },
                None => {
                    &&& !(old(self).formula() is Op && (old(self).formula()->Op_op == Operator::AND
                        || old(self).formula()->Op_op == Operator::OR))
                    &&& *final(self) == *old(self)
                },
            },
    {
        proof {
            lemma_names_rules(old(self).formula());
        }
        if match &self.root {
            Node::Operator { op, .. } => op.is_and() || op.is_or(),
            _ => false,
        } {
            self.root.demorgans();
            self.value = None;
            Some(self)
        } else {
            None
        }
    }

    /// The rule of implication at the root, where it is a conditional or
    /// disjunction; otherwise `None` and no change.
    pub fn implication(&mut self) -> (r: Option<&mut Self>)
        requires
            old(self).wf(),
        ensures
            match r {
                Some(x) => {
                    &&& old(self).formula() is Op
                    &&& (old(self).formula()->Op_op == Operator::CON || old(self).formula()->Op_op
                        == Operator::OR)
                    &&& x.wf()
                    &&& x.formula() == implication_f(old(self).formula())
                    &&& x.var_map() == old(self).var_map()
                    &&& *final(self) == *final(x)
                },
                None => {
                    &&& !(old(self).formula() is Op && (old(self).formula()->Op_op == Operator::CON
                        || old(self).formula()->Op_op == Operator::OR))
                    &&& *final(self) == *old(self)
                },
            },
    {
        proof {
            lemma_names_rules(old(self).formula());
        }
        if match &self.root {
            Node::Operator { op, .. } => op.is_con() || op.is_or(),
            _ => false,
        } {
            self.root.implication();
            self.value = None;
            Some(self)
        } else {
            None
        }
    }

    /// The rule of negated conditional at the root, where it is a
    /// conditional or conjunction; otherwise `None` and no change.
    pub fn ncon(&mut self) -> (r: Option<&mut Self>)
        requires
            old(self).wf(),
        ensures
            match r {
                Some(x) => {
                    &&& old(self).formula() is Op
                    &&& (old(self).formula()->Op_op == Operator::CON || old(self).formula()->Op_op
                        == Operator::AND)
                    &&& x.wf()
                    &&& x.formula() == ncon_f(old(self).formula())
                    &&& x.var_map() == old(self).var_map()
                    &&& *final(self) == *final(x)
                },
                None => {
                    &&& !(old(self).formula() is Op && (old(self).formula()->Op_op == Operator::CON
                        || old(self).formula()->Op_op == Operator::AND))
                    &&& *final(self) == *old(self)
                },
            },
    {
        proof {
            lemma_names_rules(old(self).formula());
        }
        if match &self.root {
            Node::Operator { op, .. } => op.is_con() || op.is_and(),
            _ => false,
        } {
            self.root.ncon();
            self.value = None;
            Some(self)
        } else {
            None
        }
    }

    /// Material equivalence at the root, in whichever direction applies;
    /// otherwise `None` and no change.
    pub fn mat_eq(&mut self) -> (r: Option<&mut Self>)
        requires
            old(self).wf(),
        ensures
            match r {
                Some(x) => {
                    &&& mat_eq_applies(old(self).formula())
                    &&& x.wf()
                    &&& x.formula() == mat_eq_f(old(self).formula())
                    &&& x.var_map() == old(self).var_map()
                    &&& *final(self) == *final(x)
                },
                None => {
                    &&& !mat_eq_applies(old(self).formula())
                    &&& *final(self) == *old(self)
                },
            },
    {
        proof {
            lemma_names_rules(old(self).formula());
        }
        let applied = match self.root.mat_eq() {
            Some(_) => true,
            None => false,
        };
        if applied {
            self.value = None;
            Some(self)
        } else {
            None
        }
    }

    /// Monotone material equivalence at the root, where it is a
    /// biconditional; otherwise `None` and no change.
    pub fn mat_eq_mono(&mut self) -> (r: Option<&mut Self>)
        requires
            old(self).wf(),
        ensures
            match r {
                Some(x) => {
                    &&& old(self).formula() is Op
                    &&& old(self).formula()->Op_op == Operator::BICON
                    &&& x.wf()
                    &&& x.formula() == mat_eq_mono_f(old(self).formula())
                    &&& x.var_map() == old(self).var_map()
                    &&& *final(self) == *final(x)
                },
                None => {
                    &&& !(old(self).formula() is Op && old(self).formula()->Op_op == Operator::BICON)
                    &&& *final(self) == *old(self)
                },
            },
    {
        proof {
            lemma_names_rules(old(self).formula());
        }
        let applied = match self.root.mat_eq_mono() {
            Some(_) => true,
            None => false,
        };
        if applied {
            self.value = None;
            Some(self)
        } else {
            None
        }
    }


    /// Brings the tree into monotone form: only unnegated conjunctions and
    /// disjunctions remain above the leaves, with the same truth value.
    pub fn monotenize(&mut self)
        requires
            old(self).wf(),
        ensures
            final(self).wf(),
            final(self).formula() == mono(old(self).formula()),
            final(self).var_map() == old(self).var_map(),
    {
        Self::monotenize_rec(&mut self.root);
        self.value = None;
        proof {
            lemma_names_mono(old(self).formula(), 0);
        }
    }

    fn monotenize_rec(node: &mut Node)
        ensures
            final(node)@ == mono_k(old(node)@, 0),
        decreases size(old(node)@), 1nat,
    {
        let ghost f = node@;
        let kind: u8 = match &*node {
            Node::Operator { denied, op, .. } => {
                if (op.is_and() || op.is_or()) && denied.is_denied() {
                    1
                } else if op.is_con() && denied.is_denied() {
                    2
                } else if op.is_con() {
                    3
                } else if op.is_bicon() {
                    4
                } else {
                    5
                }
            },
            _ => 0,
        };
        if kind == 0 {
            return ;
        }
        if kind == 1 {
            node.demorgans();
        } else if kind == 2 {
            node.ncon();
        } else if kind == 3 {
            node.implication();
        } else if kind == 4 {
            node.mat_eq_mono();
        }
        proof {
            lemma_size_deny(*f->Op_left);
            lemma_size_deny(*f->Op_right);
            lemma_size_deny(deny_f(*f->Op_left));
            lemma_size_deny(deny_f(*f->Op_right));
            lemma_mono_deny(*f->Op_left, 0);
            lemma_mono_deny(*f->Op_right, 0);
            lemma_mono_deny(deny_f(*f->Op_left), 0);
            lemma_mono_deny(deny_f(*f->Op_right), 0);
            lemma_mono_deny(*f->Op_left, 1);
            lemma_mono_deny(*f->Op_right, 1);
        }
        if kind == 4 {
            match node {
                Node::Operator { left, right, .. } => {
                    Self::mono_children(&mut **left);
                    Self::mono_children(&mut **right);
                },
                _ => {},
            }
        } else {
            Self::mono_children(node);
        }
    }

    /// Monotonizes both operands of an operator node, keeping the node's own
    /// sign count and connective.
    fn mono_children(node: &mut Node)
        ensures
            match old(node)@ {
                Formula::Op { neg, op, left, right } => final(node)@ == Formula::Op {
                    neg,
                    op,
                    left: Box::new(mono_k(*left, 0)),
                    right: Box::new(mono_k(*right, 0)),
                },
                _ => final(node)@ == old(node)@,
            },
        decreases size(old(node)@), 0nat,
    {
        match node {
            Node::Operator { left, right, .. } => {
                Self::monotenize_rec(&mut **left);
                Self::monotenize_rec(&mut **right);
            },
            _ => {},
        }
    }

    /// The tokens of all nodes in pre-order, in the default notation.
    pub fn prefix(&self) -> (r: String)
        ensures
            r@ == prefix_of(self.formula(), ascii_symbols()),
    {
        self.prefix_with(&OperatorNotation::ascii())
    }

    /// The tokens of all nodes in pre-order, in the given notation.
    pub fn prefix_with(&self, notation: &OperatorNotation) -> (r: String)
        ensures
            r@ == prefix_of(self.formula(), notation@),
    {
        let mut s = String::new();
        Self::prefix_rec(&self.root, notation, &mut s);
        s
    }

    fn prefix_rec(node: &Node, notation: &OperatorNotation, out: &mut String)
        ensures
            final(out)@ == old(out)@ + prefix_of(node@, notation@),
        decreases node,
    {
        let t = node.print(notation);
        out.append(t.as_str());
        match node {
            Node::Operator { left, right, .. } => {
                Self::prefix_rec(left, notation, out);
                Self::prefix_rec(right, notation, out);
            },
            _ => {},
        }
        proof {
            assert(final(out)@ =~= old(out)@ + prefix_of(node@, notation@));
        }
    }

    /// The infix form in the default notation, without outermost parentheses.
    pub fn infix(&self) -> (r: String)
        ensures
            r@ == infix_top(self.formula(), ascii_symbols()),
    {
        self.infix_with(&OperatorNotation::ascii())
    }

    /// The infix form in the given notation, without outermost parentheses.
    pub fn infix_with(&self, notation: &OperatorNotation) -> (r: String)
        ensures
            r@ == infix_top(self.formula(), notation@),
    {
        let mut s = String::new();
        match &self.root {
            Node::Operator { denied, op, left, right } => {
                if denied.count() == 0 {
                    Self::infix_rec(left, notation, &mut s);
                    s.append(op_text(*op, notation));
                    Self::infix_rec(right, notation, &mut s);
                    proof {
                        assert(s@ =~= infix_top(self.formula(), notation@));
                    }
                    return s;
                }
            },
            _ => {},
        }
        Self::infix_rec(&self.root, notation, &mut s);
        proof {
            assert(s@ =~= infix_top(self.formula(), notation@));
        }
        s
    }

    fn infix_rec(node: &Node, notation: &OperatorNotation, out: &mut String)
        ensures
            final(out)@ == old(out)@ + infix_of(node@, notation@),
        decreases node,
    {
        match node {
            Node::Operator { denied, op, left, right } => {
                proof {
                    reveal_strlit("(");
                    reveal_strlit(")");
                    assert("("@ =~= seq!['(']);
                    assert(")"@ =~= seq![')']);
                }
                push_repeat(out, notation.neg(), denied.count());
                out.append("(");
                Self::infix_rec(left, notation, out);
                out.append(op_text(*op, notation));
                Self::infix_rec(right, notation, out);
                out.append(")");
            },
            _ => {
                let t = node.print(notation);
                out.append(t.as_str());
            },
        }
        proof {
            assert(final(out)@ =~= old(out)@ + infix_of(node@, notation@));
        }
    }

    /// Whether the two trees are equal up to the parity of every count of
    /// negation signs.
    pub fn lit_eq(&self, other: &Self) -> (r: bool)
        ensures
            r == lit_eq_f(self.formula(), other.formula()),
    {
        lit_same(&self.root, &other.root)
    }


    fn all_false(n: usize) -> (r: Vec<bool>)
        ensures
            r@ == bits_of(0, n as nat),
    {
        let mut v: Vec<bool> = Vec::new();
        let mut i: usize = 0;
        while i < n
            invariant
                i <= n,
                v@ == Seq::new(i as nat, |j: int| false),
            decreases n - i,
        {
            v.push(false);
            i = i + 1;
            assert(v@ =~= Seq::new(i as nat, |j: int| false));
        }
        proof {
            lemma_bits_zero(n as nat);
        }
        v
    }

    /// The assignment of enumeration position `bits` to the tree's variables.
    fn assignment_of(&self, bits: &Vec<bool>) -> (r: VarMap<bool>)
        requires
            self.wf(),
            bits@.len() == self.names().len(),
        ensures
            r.wf(),
            r.map() == to_map(self.names(), bits@),
            r.names() == self.names(),
    {
        self.vars.with_values(bits)
    }

    proof fn lemma_table_entry(&self, i: int)
        requires
            self.wf(),
            0 <= i < pow2(self.names().len()),
        ensures
            over(table(self.names())[i], self.names()),
            self.var_map().dom() == table(self.names())[i].dom(),
            eval(self.formula(), table(self.names())[i]) is Ok,
    {
        lemma_table_over(self.names(), i);
        self.lemma_dom();
        lemma_eval_total(self.formula(), table(self.names())[i]);
    }

    /// Whether some assignment of the tree's variables makes it true.
    pub fn is_satisfiable(&self) -> (r: bool)
        requires
            self.wf(),
        ensures
            r == exists|env: Map<Seq<char>, bool>|
                env.dom() == self.var_map().dom() && eval(self.formula(), env) == Ok::<
                    bool,
                    Seq<char>,
                >(true),
    {
        let r = self.search(true);
        proof {
            if r is Some {
                let m = r->Some_0;
                let i = choose|i: int|
                    0 <= i < pow2(self.names().len()) && m.map() == table(self.names())[i]
                        && eval(self.formula(), table(self.names())[i]) == Ok::<bool, Seq<char>>(
                        true,
                    );
                self.lemma_table_entry(i);
            }
        }
        r.is_some()
    }

    /// Whether an assignment makes the tree true.
    pub open spec fn holds(&self) -> spec_fn(Map<Seq<char>, bool>) -> bool {
        |e: Map<Seq<char>, bool>| eval(self.formula(), e) == Ok::<bool, Seq<char>>(true)
    }

    /// The satisfying assignments, in enumeration order.
    pub open spec fn models(&self) -> Seq<Map<Seq<char>, bool>> {
        table(self.names()).filter(self.holds())
    }

    /// The first assignment in enumeration order under which the tree has
    /// the value `target`.
    fn search(&self, target: bool) -> (r: Option<VarMap<bool>>)
        requires
            self.wf(),
        ensures
            match r {
                Some(m) => {
                    &&& m.wf()
                    &&& exists|i: int|
                        0 <= i < pow2(self.names().len()) && m.map() == table(self.names())[i]
                            && eval(self.formula(), table(self.names())[i]) == Ok::<bool, Seq<char>>(
                            target,
                        ) && forall|j: int|
                            0 <= j < i ==> eval(self.formula(), table(self.names())[j]) != Ok::<
                                bool,
                                Seq<char>,
                            >(target)
                },
                None => forall|env: Map<Seq<char>, bool>|
                    env.dom() == self.var_map().dom() ==> eval(self.formula(), env) != Ok::<
                        bool,
                        Seq<char>,
                    >(target),
            },
    {
        let ghost t = table(self.names());
        let n = self.vars.len();
        let mut bits = Self::all_false(n);
        let ghost mut i: nat = 0;
        proof {
            lemma_pow2_pos(n as nat);
            lemma_bits_len(0, n as nat);
        }
        loop
            invariant
                self.wf(),
                n == self.names().len(),
                t == table(self.names()),
                i < pow2(n as nat),
                bits@ == bits_of(i, n as nat),
                forall|j: int| 0 <= j < i ==> eval(self.formula(), t[j]) != Ok::<bool, Seq<char>>(target),
            decreases pow2(n as nat) - i,
        {
            proof {
                lemma_bits_len(i, n as nat);
            }
            let a = self.assignment_of(&bits);
            assert(t[i as int] == a.map());
            let found = match self.root.evaluate_with_vars(&a) {
                Ok(b) => b == target,
                Err(_) => false,
            };
            if found {
                return Some(a);
            }
            assert(eval(self.formula(), t[i as int]) != Ok::<bool, Seq<char>>(target));
            proof {
                lemma_incr(i, n as nat);
            }
            if advance(&mut bits) {
                proof {
                    assert forall|env: Map<Seq<char>, bool>|
                        env.dom() == self.var_map().dom() implies eval(self.formula(), env)
                        != Ok::<bool, Seq<char>>(target) by {
                        self.lemma_dom();
                        let j = lemma_table_complete(self.names(), env);
                    }
                }
                return None;
            }
            proof {
                i = i + 1;
            }
        }
    }

    /// The first satisfying assignment in enumeration order, if there is one.
    pub fn satisfy_one(&self) -> (r: Option<VarMap<bool>>)
        requires
            self.wf(),
        ensures
            match r {
                Some(m) => {
                    &&& m.wf()
                    &&& self.models().len() > 0
                    &&& m.map() == self.models()[0]
                },
                None => forall|env: Map<Seq<char>, bool>|
                    env.dom() == self.var_map().dom() ==> eval(self.formula(), env) != Ok::<
                        bool,
                        Seq<char>,
                    >(true),
            },
    {
        let r = self.search(true);
        proof {
            if r is Some {
                let m = r->Some_0;
                let i = choose|i: int|
                    0 <= i < pow2(self.names().len()) && m.map() == table(self.names())[i]
                        && eval(self.formula(), table(self.names())[i]) == Ok::<bool, Seq<char>>(
                        true,
                    ) && forall|j: int|
                        0 <= j < i ==> eval(self.formula(), table(self.names())[j]) != Ok::<
                            bool,
                            Seq<char>,
                        >(true);
                lemma_first_model(table(self.names()), self.holds(), i);
            }
        }
        r
    }

    /// Whether every assignment of the tree's variables makes it true.
    pub fn is_tautology(&self) -> (r: bool)
        requires
            self.wf(),
        ensures
            r == forall|env: Map<Seq<char>, bool>|
                env.dom() == self.var_map().dom() ==> eval(self.formula(), env) == Ok::<
                    bool,
                    Seq<char>,
                >(true),
    {
        let r = self.search(false);
        proof {
            self.lemma_dom();
            if r is None {
                assert forall|env: Map<Seq<char>, bool>|
                    env.dom() == self.var_map().dom() implies eval(self.formula(), env) == Ok::<
                        bool,
                        Seq<char>,
                    >(true) by {
                    lemma_eval_total(self.formula(), env);
                }
            } else {
                let m = r->Some_0;
                let i = choose|i: int|
                    0 <= i < pow2(self.names().len()) && m.map() == table(self.names())[i]
                        && eval(self.formula(), table(self.names())[i]) == Ok::<bool, Seq<char>>(
                        false,
                    );
                self.lemma_table_entry(i);
            }
        }
        r.is_none()
    }

    /// Whether no assignment of the tree's variables makes it true.
    pub fn is_inconsistency(&self) -> (r: bool)
        requires
            self.wf(),
        ensures
            r == forall|env: Map<Seq<char>, bool>|
                env.dom() == self.var_map().dom() ==> eval(self.formula(), env) != Ok::<
                    bool,
                    Seq<char>,
                >(true),
    {
        let r = self.search(true);
        proof {
            if r is Some {
                let m = r->Some_0;
                let i = choose|i: int|
                    0 <= i < pow2(self.names().len()) && m.map() == table(self.names())[i]
                        && eval(self.formula(), table(self.names())[i]) == Ok::<bool, Seq<char>>(
                        true,
                    );
                self.lemma_table_entry(i);
            }
        }
        r.is_none()
    }

    /// Whether some assignment makes the tree true and another makes it false.
    pub fn is_contingency(&self) -> (r: bool)
        requires
            self.wf(),
        ensures
            r == ((exists|env: Map<Seq<char>, bool>|
                env.dom() == self.var_map().dom() && eval(self.formula(), env) == Ok::<
                    bool,
                    Seq<char>,
                >(true)) && (exists|env: Map<Seq<char>, bool>|
                env.dom() == self.var_map().dom() && eval(self.formula(), env) == Ok::<
                    bool,
                    Seq<char>,
                >(false))),
    {
        let t = self.search(true);
        let f = self.search(false);
        proof {
            if t is Some {
                let m = t->Some_0;
                let i = choose|i: int|
                    0 <= i < pow2(self.names().len()) && m.map() == table(self.names())[i]
                        && eval(self.formula(), table(self.names())[i]) == Ok::<bool, Seq<char>>(
                        true,
                    );
                self.lemma_table_entry(i);
            }
            if f is Some {
                let m = f->Some_0;
                let i = choose|i: int|
                    0 <= i < pow2(self.names().len()) && m.map() == table(self.names())[i]
                        && eval(self.formula(), table(self.names())[i]) == Ok::<bool, Seq<char>>(
                        false,
                    );
                self.lemma_table_entry(i);
            }
        }
        t.is_some() && f.is_some()
    }

    /// Every satisfying assignment, in enumeration order.
    pub fn satisfy_all(&self) -> (r: Vec<VarMap<bool>>)
        requires
            self.wf(),
        ensures
            r@.map_values(|m: VarMap<bool>| m.map()) == self.models(),
            forall|k: int| 0 <= k < r@.len() ==> (#[trigger] r@[k]).wf(),
    {
        let ghost t = table(self.names());
        let n = self.vars.len();
        let mut bits = Self::all_false(n);
        let mut found: Vec<VarMap<bool>> = Vec::new();
        let ghost mut i: nat = 0;
        proof {
            lemma_pow2_pos(n as nat);
            lemma_bits_len(0, n as nat);
            assert(found@.map_values(|m: VarMap<bool>| m.map()) =~= t.subrange(0, 0).filter(self.holds()));
        }
        loop
            invariant
                self.wf(),
                n == self.names().len(),
                t == table(self.names()),
                i < pow2(n as nat),
                bits@ == bits_of(i, n as nat),
                found@.map_values(|m: VarMap<bool>| m.map()) == t.subrange(0, i as int).filter(self.holds()),
                forall|k: int| 0 <= k < found@.len() ==> (#[trigger] found@[k]).wf(),
            decreases pow2(n as nat) - i,
        {
            proof {
                lemma_bits_len(i, n as nat);
            }
            let a = self.assignment_of(&bits);
            assert(t[i as int] == a.map());
            let ghost before = found@;
            let hit = match self.root.evaluate_with_vars(&a) {
                Ok(b) => b,
                Err(_) => false,
            };
            if hit {
                found.push(a);
            }
            proof {
                let p = self.holds();
                let sub = t.subrange(0, i as int + 1);
                assert(sub.drop_last() =~= t.subrange(0, i as int));
                assert(sub.last() == t[i as int]);
                assert(hit == p(t[i as int]));
                reveal(Seq::filter);
                assert(sub.filter(p) == if p(sub.last()) {
                    sub.drop_last().filter(p).push(sub.last())
                } else {
                    sub.drop_last().filter(p)
                });
                if hit {
                    assert(found@.map_values(|m: VarMap<bool>| m.map()) =~= before.map_values(
                        |m: VarMap<bool>| m.map(),
                    ).push(t[i as int]));
                }
                assert(found@.map_values(|m: VarMap<bool>| m.map()) =~= sub.filter(p));
                lemma_incr(i, n as nat);
            }
            if advance(&mut bits) {
                proof {
                    assert(t.subrange(0, i as int + 1) =~= t);
                }
                return found;
            }
            proof {
                i = i + 1;
            }
        }
    }

    /// The number of satisfying assignments, as little-endian 64-bit words.
    pub fn satisfy_count(&self) -> (r: Vec<u64>)
        requires
            self.wf(),
        ensures
            words_value(r@) == self.models().len(),
    {
        let ghost t = table(self.names());
        let n = self.vars.len();
        let mut bits = Self::all_false(n);
        let mut count: Vec<u64> = vec![0u64];
        let ghost mut i: nat = 0;
        proof {
            lemma_pow2_pos(n as nat);
            lemma_bits_len(0, n as nat);
            reveal_with_fuel(words_value, 2);
            assert(count@.drop_first() =~= Seq::<u64>::empty());
            assert(t.subrange(0, 0).filter(self.holds()).len() == 0);
        }
        loop
            invariant
                self.wf(),
                n == self.names().len(),
                t == table(self.names()),
                i < pow2(n as nat),
                bits@ == bits_of(i, n as nat),
                words_value(count@) == t.subrange(0, i as int).filter(self.holds()).len(),
            decreases pow2(n as nat) - i,
        {
            proof {
                lemma_bits_len(i, n as nat);
            }
            let a = self.assignment_of(&bits);
            assert(t[i as int] == a.map());
            let hit = match self.root.evaluate_with_vars(&a) {
                Ok(b) => b,
                Err(_) => false,
            };
            if hit {
                count_up(&mut count);
            }
            proof {
                let p = self.holds();
                let sub = t.subrange(0, i as int + 1);
                assert(sub.drop_last() =~= t.subrange(0, i as int));
                assert(sub.last() == t[i as int]);
                assert(hit == p(t[i as int]));
                reveal(Seq::filter);
                assert(sub.filter(p) == if p(sub.last()) {
                    sub.drop_last().filter(p).push(sub.last())
                } else {
                    sub.drop_last().filter(p)
                });
                lemma_incr(i, n as nat);
            }
            if advance(&mut bits) {
                proof {
                    assert(t.subrange(0, i as int + 1) =~= t);
                }
                return count;
            }
            proof {
                i = i + 1;
            }
        }
    }


    /// The conjunction of copies of the tree and `aux`.
    fn with_aux(&self, aux: &Self) -> (r: Self)
        requires
            self.wf(),
            aux.wf(),
        ensures
            r.wf(),
            r.formula() == plain(Operator::AND, self.formula(), aux.formula()),
            r.var_map().dom() == self.var_map().dom().union(aux.var_map().dom()),
            r.names() == join_names(self.names(), aux.names()),
    {
        let r = self.duplicate().and(aux.duplicate());
        assert(r.var_map().dom() =~= self.var_map().dom().union(aux.var_map().dom()));
        r
    }

    /// `is_satisfiable` of the tree and `aux` together.
    pub fn is_satisfiable_with(&self, aux: &Self) -> (r: bool)
        requires
            self.wf(),
            aux.wf(),
        ensures
            r == exists|env: Map<Seq<char>, bool>|
                env.dom() == self.var_map().dom().union(aux.var_map().dom()) && eval(
                    plain(Operator::AND, self.formula(), aux.formula()),
                    env,
                ) == Ok::<bool, Seq<char>>(true),
    {
        self.with_aux(aux).is_satisfiable()
    }

    /// `satisfy_one` of the tree and `aux` together.
    pub fn satisfy_one_with(&self, aux: &Self) -> (r: Option<VarMap<bool>>)
        requires
            self.wf(),
            aux.wf(),
        ensures
            match r {
                Some(m) => {
                    &&& m.wf()
                    &&& joint_models(self, aux).len() > 0
                    &&& m.map() == joint_models(self, aux)[0]
                },
                None => forall|env: Map<Seq<char>, bool>|
                    env.dom() == self.var_map().dom().union(aux.var_map().dom()) ==> eval(
                        plain(Operator::AND, self.formula(), aux.formula()),
                        env,
                    ) != Ok::<bool, Seq<char>>(true),
            },
    {
        self.with_aux(aux).satisfy_one()
    }

    /// `satisfy_all` of the tree and `aux` together.
    pub fn satisfy_all_with(&self, aux: &Self) -> (r: Vec<VarMap<bool>>)
        requires
            self.wf(),
            aux.wf(),
        ensures
            r@.map_values(|m: VarMap<bool>| m.map()) == joint_models(self, aux),
            forall|k: int| 0 <= k < r@.len() ==> (#[trigger] r@[k]).wf(),
    {
        self.with_aux(aux).satisfy_all()
    }

    /// `satisfy_count` of the tree and `aux` together.
    pub fn satisfy_count_with(&self, aux: &Self) -> (r: Vec<u64>)
        requires
            self.wf(),
            aux.wf(),
        ensures
            words_value(r@) == joint_models(self, aux).len(),
    {
        self.with_aux(aux).satisfy_count()
    }

    /// `is_tautology` of the tree and `aux` together.
    pub fn is_tautology_with(&self, aux: &Self) -> (r: bool)
        requires
            self.wf(),
            aux.wf(),
        ensures
            r == forall|env: Map<Seq<char>, bool>|
                env.dom() == self.var_map().dom().union(aux.var_map().dom()) ==> eval(
                    plain(Operator::AND, self.formula(), aux.formula()),
                    env,
                ) == Ok::<bool, Seq<char>>(true),
    {
        self.with_aux(aux).is_tautology()
    }

    /// `is_inconsistency` of the tree and `aux` together.
    pub fn is_inconsistency_with(&self, aux: &Self) -> (r: bool)
        requires
            self.wf(),
            aux.wf(),
        ensures
            r == forall|env: Map<Seq<char>, bool>|
                env.dom() == self.var_map().dom().union(aux.var_map().dom()) ==> eval(
                    plain(Operator::AND, self.formula(), aux.formula()),
                    env,
                ) != Ok::<bool, Seq<char>>(true),
    {
        self.with_aux(aux).is_inconsistency()
    }

    /// `is_contingency` of the tree and `aux` together.
    pub fn is_contingency_with(&self, aux: &Self) -> (r: bool)
        requires
            self.wf(),
            aux.wf(),
        ensures
            r == ((exists|env: Map<Seq<char>, bool>|
                env.dom() == self.var_map().dom().union(aux.var_map().dom()) && eval(
                    plain(Operator::AND, self.formula(), aux.formula()),
                    env,
                ) == Ok::<bool, Seq<char>>(true)) && (exists|env: Map<Seq<char>, bool>|
                env.dom() == self.var_map().dom().union(aux.var_map().dom()) && eval(
                    plain(Operator::AND, self.formula(), aux.formula()),
                    env,
                ) == Ok::<bool, Seq<char>>(false))),
    {
        self.with_aux(aux).is_contingency()
    }

    /// Whether the two trees agree under every assignment of the variables
    /// of both: `~(self <-> other)` is not satisfiable.
    pub fn log_eq(&self, other: &Self) -> (r: bool)
        requires
            self.wf(),
            other.wf(),
        ensures
            r == log_equiv(self.formula(), self.var_map().dom(), other.formula(), other.var_map().dom()),
    {
        let a = self.duplicate();
        let b = other.duplicate();
        let t = a.bicon(b).not();
        let sat = t.is_satisfiable();
        proof {
            let d = self.var_map().dom().union(other.var_map().dom());
            assert(t.var_map().dom() =~= d);
            let g = plain(Operator::BICON, self.formula(), other.formula());
            assert forall|env: Map<Seq<char>, bool>| env.dom() == d implies (eval(t.formula(), env)
                == Ok::<bool, Seq<char>>(true)) == (eval(self.formula(), env) != eval(
                other.formula(),
                env,
            )) by {
                lemma_eval_deny(g, env);
                lemma_eval_total(self.formula(), env);
                lemma_eval_total(other.formula(), env);
            }
        }
        !sat
    }

    /// Whether the two trees have the same variables and are logically equivalent.
    pub fn syn_eq(&self, other: &Self) -> (r: bool)
        requires
            self.wf(),
            other.wf(),
        ensures
            r == (self.var_map().dom() == other.var_map().dom() && log_equiv(
                self.formula(),
                self.var_map().dom(),
                other.formula(),
                other.var_map().dom(),
            )),
    {
        let mut sub1 = true;
        let mut i: usize = 0;
        proof {
            self.lemma_dom();
            other.lemma_dom();
        }
        while i < self.vars.len()
            invariant
                self.wf(),
                other.wf(),
                i <= self.names().len(),
                sub1 == forall|j: int| 0 <= j < i ==> other.var_map().dom().contains(#[trigger] self.names()[j]),
            decreases self.names().len() - i,
        {
            if !other.vars.contains_key(self.vars.name_at(i).as_str()) {
                sub1 = false;
            }
            i = i + 1;
        }
        let mut sub2 = true;
        let mut k: usize = 0;
        while k < other.vars.len()
            invariant
                self.wf(),
                other.wf(),
                k <= other.names().len(),
                sub2 == forall|j: int| 0 <= j < k ==> self.var_map().dom().contains(#[trigger] other.names()[j]),
            decreases other.names().len() - k,
        {
            if !self.vars.contains_key(other.vars.name_at(k).as_str()) {
                sub2 = false;
            }
            k = k + 1;
        }
        let same = sub1 && sub2;
        proof {
            self.lemma_dom();
            other.lemma_dom();
            if same {
                assert forall|x| self.var_map().dom().contains(x) implies other.var_map().dom().contains(x) by {
                    let j = choose|j: int| 0 <= j < self.names().len() && self.names()[j] == x;
                }
                assert forall|x| other.var_map().dom().contains(x) implies self.var_map().dom().contains(x) by {
                    let j = choose|j: int| 0 <= j < other.names().len() && other.names()[j] == x;
                }
                assert(self.var_map().dom() =~= other.var_map().dom());
            } else {
                if self.var_map().dom() == other.var_map().dom() {
                    assert forall|j: int| 0 <= j < self.names().len() implies other.var_map().dom().contains(#[trigger] self.names()[j]) by {
                        assert(self.names().to_set().contains(self.names()[j]));
                    }
                    assert forall|j: int| 0 <= j < other.names().len() implies self.var_map().dom().contains(#[trigger] other.names()[j]) by {
                        assert(other.names().to_set().contains(other.names()[j]));
                    }
                }
            }
        }
        same && self.log_eq(other)
    }


    /// Adds each variable of `other` that `vars` lacks, with its value.
    fn absorb_vars(vars: &mut VarMap<Option<bool>>, other: &VarMap<Option<bool>>)
        requires
            old(vars).wf(),
            other.wf(),
        ensures
            final(vars).wf(),
            final(vars).map() == join_vars(old(vars).map(), other.map()),
            final(vars).names() == join_names(old(vars).names(), other.names()),
    {
        let ghost m0 = vars.map();
        let ghost n0 = vars.names();
        let mut i: usize = 0;
        proof {
            assert(to_map(other.names().subrange(0, 0), other.vals().subrange(0, 0)) =~= Map::empty());
            assert(Map::<Seq<char>, Option<bool>>::empty().union_prefer_right(m0) =~= m0);
            reveal(Seq::filter);
            assert(join_names(n0, other.names().subrange(0, 0)) =~= n0);
        }
        while i < other.len()
            invariant
                vars.wf(),
                other.wf(),
                i <= other.names().len(),
                vars.map() == to_map(
                    other.names().subrange(0, i as int),
                    other.vals().subrange(0, i as int),
                ).union_prefer_right(m0),
                m0 == to_map(n0, old(vars).vals()),
                n0.no_duplicates(),
                vars.names() == join_names(n0, other.names().subrange(0, i as int)),
            decreases other.names().len() - i,
        {
            let name = other.name_at(i);
            let v = other.value_at(i);
            let ghost a = to_map(other.names().subrange(0, i as int), other.vals().subrange(0, i as int));
            proof {
                let ns = other.names().subrange(0, i + 1);
                let vs = other.vals().subrange(0, i + 1);
                assert(ns.drop_last() =~= other.names().subrange(0, i as int));
                assert(vs.drop_last() =~= other.vals().subrange(0, i as int));
                lemma_to_map_dom(vars.names(), vars.vals());
                lemma_to_map_dom(other.names().subrange(0, i as int), other.vals().subrange(0, i as int));
                if other.names().subrange(0, i as int).contains(name@) {
                    let j = choose|j: int| 0 <= j < i && other.names().subrange(0, i as int)[j] == name@;
                    assert(other.names()[j] == other.names()[i as int]);
                }
            }
            let ghost pre = other.names().subrange(0, i as int);
            let ghost pre1 = other.names().subrange(0, i + 1);
            let ghost keep = |n: Seq<char>| !n0.contains(n);
            proof {
                assert(pre1.drop_last() =~= pre);
                assert(pre1.last() == name@);
                reveal(Seq::filter);
                assert(pre1.filter(keep) == if keep(name@) {
                    pre.filter(keep).push(name@)
                } else {
                    pre.filter(keep)
                });
                lemma_to_map_dom(n0, old(vars).vals());
                lemma_to_map_dom(vars.names(), vars.vals());
            }
            if !vars.contains_key(name.as_str()) {
                vars.insert(name.clone(), v);
                proof {
                    assert(a.insert(name@, v).union_prefer_right(m0) =~= a.union_prefer_right(m0).insert(name@, v));
                    assert(!n0.contains(name@));
                    assert(join_names(n0, pre1) =~= join_names(n0, pre).push(name@));
                }
            } else {
                proof {
                    assert(a.insert(name@, v).union_prefer_right(m0) =~= a.union_prefer_right(m0));
                    assert(n0.contains(name@));
                    assert(join_names(n0, pre1) =~= join_names(n0, pre));
                }
            }
            i = i + 1;
        }
        proof {
            assert(other.names().subrange(0, i as int) =~= other.names());
            assert(other.vals().subrange(0, i as int) =~= other.vals());
        }
    }

    /// Replaces every occurrence of the variable `var` by the root of
    /// `new_expression`, which takes on the occurrence's negation signs, and
    /// takes in the variables of `new_expression` that the tree lacks. Does
    /// nothing where the tree has no variable `var`. Returns the tree.
    pub fn replace_variable(&mut self, var: &str, new_expression: &ExpressionTree) -> (r: &mut Self)
        requires
            old(self).wf(),
            new_expression.wf(),
        ensures
            r.wf(),
            *final(self) == *final(r),
            old(self).var_map().contains_key(var@) ==> r.formula() == subst(
                old(self).formula(),
                map![var@ => new_expression.formula()],
            ) && r.var_map() == join_vars(
                old(self).var_map().remove(var@),
                new_expression.var_map(),
            ),
            !old(self).var_map().contains_key(var@) ==> r.formula() == old(self).formula()
                && r.var_map() == old(self).var_map(),
    {
        let mut one: VarMap<&ExpressionTree> = VarMap::new();
        one.insert(var.to_owned(), new_expression);
        proof {
            lemma_to_map_dom(one.names(), one.vals());
            assert(one.names() =~= seq![var@]);
            assert(one.vals() =~= seq![new_expression]);
            assert(one.map() =~= map![var@ => new_expression]);
            assert(formulas_of(one.map()) =~= map![var@ => new_expression.formula()]);
            let m0 = old(self).var_map();
            assert(m0.remove_keys(one.map().dom()) =~= m0.remove(var@));
            let ns = one.names();
            let vs = one.vals();
            assert(ns.drop_last() =~= Seq::<Seq<char>>::empty());
            assert(vs.drop_last() =~= Seq::<&ExpressionTree>::empty());
            assert(formulas_of(one.map()).dom().intersect(m0.dom()) =~= if m0.contains_key(var@) {
                set![var@]
            } else {
                Set::empty()
            });
            if m0.contains_key(var@) {
                assert(formulas_of(one.map()).restrict(m0.dom()) =~= formulas_of(one.map()));
            }
            reveal_with_fuel(absorb_all, 2);
            assert(ns.last() == var@);
            assert(vs.last() == new_expression);
            assert(absorb_all(m0.remove_keys(one.map().dom()), ns, vs, m0.dom()) == if m0.contains_key(
                var@,
            ) {
                join_vars(m0.remove_keys(one.map().dom()), new_expression.var_map())
            } else {
                m0.remove_keys(one.map().dom())
            });
        }
        let r = self.replace_variables(&one);
        proof {
            let m0 = old(self).var_map();
            if !m0.contains_key(var@) {
                assert(m0.remove_keys(one.map().dom()) =~= m0);
                assert(formulas_of(one.map()).restrict(m0.dom()).dom() =~= Set::empty());
                lemma_subst_empty(old(self).formula(), formulas_of(one.map()).restrict(m0.dom()));
            }
        }
        r
    }

    /// Replaces, at once, every occurrence of each variable that `vars`
    /// names and the tree has by the root of its tree, which takes on the
    /// occurrence's negation signs. The names of `vars` leave the tree's
    /// variables; then, for each name the tree had, in the order of `vars`,
    /// the variables of its tree that the tree lacks come in. Returns the tree.
    pub fn replace_variables(&mut self, vars: &VarMap<&ExpressionTree>) -> (r: &mut Self)
        requires
            old(self).wf(),
            vars.wf(),
            forall|k: int| 0 <= k < vars.vals().len() ==> (#[trigger] vars.vals()[k]).wf(),
        ensures
            r.wf(),
            *final(self) == *final(r),
            r.var_map() == absorb_all(
                old(self).var_map().remove_keys(vars.map().dom()),
                vars.names(),
                vars.vals(),
                old(self).var_map().dom(),
            ),
            r.formula() == subst(
                old(self).formula(),
                formulas_of(vars.map()).restrict(old(self).var_map().dom()),
            ),
    {
        let ghost m0 = self.var_map();
        let ghost d0 = m0.dom();
        let ghost sub = formulas_of(vars.map());
        let mut present: Vec<bool> = Vec::new();
        let mut any = false;
        let mut i: usize = 0;
        proof {
            lemma_to_map_dom(vars.names(), vars.vals());
            assert(m0.remove_keys(vars.names().subrange(0, 0).to_set()) =~= m0);
        }
        while i < vars.len()
            invariant
                self.vars.wf(),
                vars.wf(),
                self.formula() == old(self).formula(),
                m0 == old(self).var_map(),
                d0 == m0.dom(),
                i <= vars.names().len(),
                present@.len() == i,
                forall|j: int| 0 <= j < i ==> present@[j] == d0.contains(vars.names()[j]),
                any == exists|j: int| 0 <= j < i && d0.contains(vars.names()[j]),
                self.var_map() == m0.remove_keys(vars.names().subrange(0, i as int).to_set()),
            decreases vars.names().len() - i,
        {
            let name = vars.name_at(i);
            proof {
                assert(vars.names().subrange(0, i + 1).to_set() =~= vars.names().subrange(
                    0,
                    i as int,
                ).to_set().insert(vars.names()[i as int])) by {
                    assert forall|x| vars.names().subrange(0, i + 1).to_set().contains(x)
                        implies vars.names().subrange(0, i as int).to_set().insert(
                        vars.names()[i as int],
                    ).contains(x) by {
                        let j = choose|j: int| 0 <= j < i + 1 && #[trigger] vars.names().subrange(0, i + 1)[j] == x;
                        if j < i {
                            assert(vars.names().subrange(0, i as int)[j] == x);
                        }
                    }
                    assert forall|x| vars.names().subrange(0, i as int).to_set().insert(
                        vars.names()[i as int],
                    ).contains(x) implies vars.names().subrange(0, i + 1).to_set().contains(x) by {
                        if x == vars.names()[i as int] {
                            assert(vars.names().subrange(0, i + 1)[i as int] == x);
                        } else {
                            let j = choose|j: int| 0 <= j < i && #[trigger] vars.names().subrange(0, i as int)[j] == x;
                            assert(vars.names().subrange(0, i + 1)[j] == x);
                        }
                    }
                }
                self.lemma_dom();
            }
            let ghost cur = self.var_map();
            let here = self.vars.contains_key(name.as_str());
            assert(here == d0.contains(name@));
            if here {
                self.vars.remove(name.as_str());
                any = true;
            }
            proof {
                assert(self.var_map() =~= m0.remove_keys(vars.names().subrange(0, i + 1).to_set()));
            }
            present.push(here);
            i = i + 1;
        }
        proof {
            assert(vars.names().subrange(0, i as int) =~= vars.names());
            assert(vars.names().to_set() == vars.map().dom());
            assert(absorb_all(self.var_map(), vars.names().subrange(0, 0), vars.vals().subrange(0, 0), d0) == self.var_map());
        }
        let ghost m1 = self.var_map();
        let mut k: usize = 0;
        while k < vars.len()
            invariant
                vars.wf(),
                forall|q: int| 0 <= q < vars.vals().len() ==> (#[trigger] vars.vals()[q]).wf(),
                self.vars.wf(),
                self.formula() == old(self).formula(),
                k <= vars.names().len(),
                present@.len() == vars.names().len(),
                forall|j: int| 0 <= j < vars.names().len() ==> present@[j] == d0.contains(vars.names()[j]),
                self.var_map() == absorb_all(
                    m1,
                    vars.names().subrange(0, k as int),
                    vars.vals().subrange(0, k as int),
                    d0,
                ),
            decreases vars.names().len() - k,
        {
            proof {
                assert(vars.names().subrange(0, k + 1).drop_last() =~= vars.names().subrange(0, k as int));
                assert(vars.vals().subrange(0, k + 1).drop_last() =~= vars.vals().subrange(0, k as int));
            }
            if present[k] {
                let t = vars.value_at(k);
                Self::absorb_vars(&mut self.vars, &t.vars);
            }
            k = k + 1;
        }
        proof {
            assert(vars.names().subrange(0, k as int) =~= vars.names());
            assert(vars.vals().subrange(0, k as int) =~= vars.vals());
        }
        if any {
            Self::replace_rec(&mut self.root, vars);
        }
        self.value = None;
        proof {
            lemma_subst_restrict(old(self).formula(), sub, d0);
            if !any {
                assert(sub.restrict(d0).dom() =~= Set::empty());
                lemma_subst_empty(old(self).formula(), sub.restrict(d0));
            }
            lemma_absorb_all_dom(m1, vars.names(), vars.vals(), d0);
            self.lemma_dom();
            assert forall|q| #[trigger] sub.restrict(d0).contains_key(q) implies names_in(
                sub.restrict(d0)[q],
            ).subset_of(self.var_map().dom()) by {
                lemma_to_map_dom(vars.names(), vars.vals());
                let j = choose|j: int| 0 <= j < vars.names().len() && vars.names()[j] == q;
                crate::var_map::lemma_to_map_index(vars.names(), vars.vals(), j);
                let tj = vars.vals()[j];
                assert(names_in(tj.formula()).subset_of(tj.var_map().dom()));
            }
            assert(vars.names().to_set() == sub.dom()) by {
                lemma_to_map_dom(vars.names(), vars.vals());
            }
            assert forall|x| names_in(old(self).formula()).difference(sub.restrict(d0).dom()).contains(
                x,
            ) implies self.var_map().dom().contains(x) by {
                assert(d0.contains(x));
                assert(!sub.contains_key(x));
                assert(m1.contains_key(x));
            }
            lemma_names_subst(old(self).formula(), sub.restrict(d0), self.var_map().dom());
        }
        self
    }

    fn replace_rec(node: &mut Node, vars: &VarMap<&ExpressionTree>)
        requires
            vars.wf(),
            forall|k: int| 0 <= k < vars.vals().len() ==> (#[trigger] vars.vals()[k]).wf(),
        ensures
            final(node)@ == subst(old(node)@, formulas_of(vars.map())),
        decreases old(node)@,
    {
        let hit = match &*node {
            Node::Variable { denied, name } => match vars.get(name.as_str()) {
                Some(t) => Some((*denied, t)),
                None => None,
            },
            _ => None,
        };
        match hit {
            Some((d, t)) => {
                let mut g = t.root.copy();
                g.add_signs(d);
                *node = g;
            },
            None => match node {
                Node::Operator { left, right, .. } => {
                    Self::replace_rec(&mut **left, vars);
                    Self::replace_rec(&mut **right, vars);
                },
                _ => {},
            },
        }
    }


    /// Replaces every subtree that equals the root of `target` up to the
    /// negation signs on its own root by the root of `new`, denied once more
    /// where the parities of those signs differ. The variables become those
    /// of the result: a value the tree had stays, else `new`'s value comes in.
    pub fn replace_expression(&mut self, target: &ExpressionTree, new: &ExpressionTree)
        requires
            old(self).wf(),
            new.wf(),
        ensures
            final(self).wf(),
            final(self).formula() == swap_in(old(self).formula(), target.formula(), new.formula()),
            final(self).var_map() == revalued(
                old(self).var_map(),
                new.var_map(),
                names_in(final(self).formula()),
            ),
    {
        let ghost m0 = self.var_map();
        Self::replace_expression_rec(&mut self.root, &target.root, &new.root);
        let mut fresh: VarMap<Option<bool>> = VarMap::new();
        Self::create_vars(&self.root, &mut fresh);
        let mut vals: Vec<Option<bool>> = Vec::new();
        let mut i: usize = 0;
        proof {
            self.lemma_dom();
            new.lemma_dom();
            assert(add_unknown(Map::empty(), names_in(self.root@)).dom() =~= names_in(self.root@));
            crate::var_map::lemma_to_map_dom(fresh.names(), fresh.vals());
        }
        while i < fresh.len()
            invariant
                fresh.wf(),
                fresh.names().to_set() == names_in(self.root@),
                self.vars.wf(),
                new.wf(),
                m0 == self.var_map(),
                i <= fresh.names().len(),
                vals@.len() == i,
                forall|j: int|
                    0 <= j < i ==> vals@[j] == revalued(
                        m0,
                        new.var_map(),
                        names_in(self.root@),
                    )[#[trigger] fresh.names()[j]],
            decreases fresh.names().len() - i,
        {
            let name = fresh.name_at(i);
            let v = match self.vars.get(name.as_str()) {
                Some(Some(b)) => Some(b),
                _ => match new.vars.get(name.as_str()) {
                    Some(x) => x,
                    None => None,
                },
            };
            proof {
                assert(fresh.names().to_set().contains(name@));
            }
            vals.push(v);
            i = i + 1;
        }
        let vars = fresh.with_values(&vals);
        proof {
            crate::var_map::lemma_to_map_dom(fresh.names(), fresh.vals());
            crate::var_map::lemma_to_map_dom(vars.names(), vars.vals());
            assert(add_unknown(Map::empty(), names_in(self.root@)).dom() =~= names_in(self.root@));
            let target = revalued(m0, new.var_map(), names_in(self.root@));
            assert forall|k| vars.map().contains_key(k) implies target.contains_key(k) && vars.map()[k]
                == target[k] by {
                let j = choose|j: int| 0 <= j < vars.names().len() && vars.names()[j] == k;
                crate::var_map::lemma_to_map_index(vars.names(), vars.vals(), j);
            }
            assert(vars.map().dom() =~= target.dom());
            assert(vars.map() =~= target);
        }
        self.vars = vars;
        self.value = None;
        proof {
            self.lemma_dom();
        }
    }

    fn replace_expression_rec(cur: &mut Node, target: &Node, new: &Node)
        ensures
            final(cur)@ == swap_in(old(cur)@, target@, new@),
        decreases old(cur)@,
    {
        if same_bare(cur, target) {
            let flip = cur.signs().is_denied() != target.signs().is_denied();
            let mut x = new.copy();
            if flip {
                x.deny();
            }
            *cur = x;
            return ;
        }
        match cur {
            Node::Operator { left, right, .. } => {
                Self::replace_expression_rec(&mut **left, target, new);
                Self::replace_expression_rec(&mut **right, target, new);
            },
            _ => {},
        }
    }

    /// Adds every variable of `node` that `vars` lacks, without a value.
    fn create_vars(node: &Node, vars: &mut VarMap<Option<bool>>)
        requires
            old(vars).wf(),
        ensures
            final(vars).wf(),
            final(vars).map() == add_unknown(old(vars).map(), names_in(node@)),
        decreases node,
    {
        match node {
            Node::Operator { left, right, .. } => {
                let ghost m0 = vars.map();
                Self::create_vars(left, vars);
                Self::create_vars(right, vars);
                proof {
                    assert(add_unknown(add_unknown(m0, names_in((**left)@)), names_in((**right)@))
                        =~= add_unknown(m0, names_in(node@)));
                }
            },
            Node::Variable { name, .. } => {
                if !vars.contains_key(name.as_str()) {
                    vars.insert(name.clone(), None);
                }
                proof {
                    assert(vars.map() =~= add_unknown(old(vars).map(), names_in(node@)));
                }
            },
            Node::Constant(..) => {
                proof {
                    assert(vars.map() =~= add_unknown(old(vars).map(), names_in(node@)));
                }
            },
        }
    }
}

impl Default for ExpressionTree {
    /// A tree that is just `FALSE`, with nothing remembered.
    fn default() -> (r: Self)
        ensures
            r.wf(),
            r.formula() == (Formula::Const { neg: 0, value: false }),
            r.var_map() == Map::<Seq<char>, Option<bool>>::empty(),
    {
        Self::from_node(Node::Constant(Negation::none(), false))
    }
}

} // verus!
