use vstd::prelude::*;
use vstd::std_specs::iter::IteratorSpec;
use vstd::string::{StrSliceExecFns, StringExecFns};

use crate::expression_tree::ExpressionTree;
use crate::negation::Negation;
use crate::node::{Formula, Node};
use crate::notation::chars_of;
use crate::parser::{is_digit, is_space, is_upper};

verus! {

/// Whether a name is a variable name: an upper-case letter, then digits.
pub open spec fn valid_name(s: Seq<char>) -> bool {
    s.len() > 0 && is_upper(s[0]) && forall|i: int| 1 <= i < s.len() ==> is_digit(#[trigger] s[i])
}

/// The first position at or after `i` that holds no white space.
pub open spec fn first_solid(s: Seq<char>, i: int) -> int
    decreases s.len() - i,
{
    if 0 <= i < s.len() && is_space(s[i]) {
        first_solid(s, i + 1)
    } else {
        i
    }
}

/// The position just past the last character before `j` that is no white space.
pub open spec fn last_solid(s: Seq<char>, lo: int, j: int) -> int
    decreases j - lo,
{
    if lo < j && is_space(s[j - 1]) {
        last_solid(s, lo, j - 1)
    } else {
        j
    }
}

/// A sequence of characters without white space at either end.
pub open spec fn trimmed(s: Seq<char>) -> Seq<char> {
    let lo = first_solid(s, 0);
    s.subrange(lo, last_solid(s, lo, s.len() as int))
}

/// The decimal digits of a number.
pub open spec fn decimal(n: nat) -> Seq<char>
    decreases n,
{
    if n < 10 {
        seq![digit_char(n)]
    } else {
        decimal(n / 10) + seq![digit_char(n % 10)]
    }
}

pub open spec fn digit_char(d: nat) -> char {
    if d == 0 {
        '0'
    } else if d == 1 {
        '1'
    } else if d == 2 {
        '2'
    } else if d == 3 {
        '3'
    } else if d == 4 {
        '4'
    } else if d == 5 {
        '5'
    } else if d == 6 {
        '6'
    } else if d == 7 {
        '7'
    } else if d == 8 {
        '8'
    } else {
        '9'
    }
}

fn trim_chars(s: &str) -> (r: String)
    ensures
        r@ == trimmed(s@),
{
    let v = chars_of(s);
    let mut lo: usize = 0;
    while lo < v.len() && (v[lo] == ' ' || v[lo] == '\t' || v[lo] == '\n' || v[lo] == '\r')
        invariant
            lo <= v@.len(),
            v@ == s@,
            first_solid(v@, lo as int) == first_solid(v@, 0),
        decreases v@.len() - lo,
    {
        lo = lo + 1;
    }
    let mut hi: usize = v.len();
    while hi > lo && (v[hi - 1] == ' ' || v[hi - 1] == '\t' || v[hi - 1] == '\n' || v[hi - 1] == '\r')
        invariant
            lo <= hi <= v@.len(),
            v@ == s@,
            lo as int == first_solid(v@, 0),
            last_solid(v@, lo as int, hi as int) == last_solid(v@, lo as int, v@.len() as int),
        decreases hi,
    {
        hi = hi - 1;
    }
    s.substring_char(lo, hi).to_owned()
}

fn digit_text(d: usize) -> (r: &'static str)
    requires
        d < 10,
    ensures
        r@ == seq![digit_char(d as nat)],
{
    proof {
        reveal_strlit("0");
        reveal_strlit("1");
        reveal_strlit("2");
        reveal_strlit("3");
        reveal_strlit("4");
        reveal_strlit("5");
        reveal_strlit("6");
        reveal_strlit("7");
        reveal_strlit("8");
        reveal_strlit("9");
    }
    if d == 0 {
        "0"
    } else if d == 1 {
        "1"
    } else if d == 2 {
        "2"
    } else if d == 3 {
        "3"
    } else if d == 4 {
        "4"
    } else if d == 5 {
        "5"
    } else if d == 6 {
        "6"
    } else if d == 7 {
        "7"
    } else if d == 8 {
        "8"
    } else {
        "9"
    }
}

/// Appends the decimal digits of `n`.
fn push_decimal(out: &mut String, n: usize)
    ensures
        final(out)@ == old(out)@ + decimal(n as nat),
    decreases n,
{
    if n >= 10 {
        push_decimal(out, n / 10);
    }
    out.append(digit_text(n % 10));
    proof {
        assert(final(out)@ =~= old(out)@ + decimal(n as nat));
    }
}

/// A variable with its name, for building trees from named parts.
#[derive(Debug)]
pub struct ExpressionVar {
    name: String,
    expr: ExpressionTree,
}

impl ExpressionVar {
    /// The variable's name.
    pub closed spec fn spec_name(&self) -> Seq<char> {
        self.name@
    }

    /// The tree that is just the variable.
    pub closed spec fn spec_expr(&self) -> ExpressionTree {
        self.expr
    }

    pub open spec fn wf(&self) -> bool {
        &&& self.spec_expr().wf()
        &&& self.spec_expr().formula() == (Formula::Var { neg: 0, name: self.spec_name() })
        &&& self.spec_expr().var_map() == map![self.spec_name() => None::<bool>]
    }

    /// A variable named `name` without surrounding white space, where that
    /// is an upper-case letter followed by digits.
    pub fn new(name: &str) -> (r: Result<ExpressionVar, ()>)
        ensures
            r is Ok == valid_name(trimmed(name@)),
            r matches Ok(v) ==> v.wf() && v.spec_name() == trimmed(name@),
    {
        let clean = trim_chars(name);
        let cs = chars_of(clean.as_str());
        assert(cs@ == trimmed(name@));
        if cs.len() == 0 {
            return Err(());
        }
        let c0 = cs[0];
        if !('A' <= c0 && c0 <= 'Z') {
            assert(!is_upper(cs@[0]));
            return Err(());
        }
        let mut i: usize = 1;
        while i < cs.len()
            invariant
                1 <= i <= cs@.len(),
                cs@ == trimmed(name@),
                is_upper(cs@[0]),
                forall|j: int| 1 <= j < i ==> is_digit(#[trigger] cs@[j]),
            decreases cs@.len() - i,
        {
            if !('0' <= cs[i] && cs[i] <= '9') {
                assert(!is_digit(cs@[i as int]));
                assert(!valid_name(cs@));
                assert(!valid_name(trimmed(name@)));
                return Err(());
            }
            i = i + 1;
        }
        let expr = ExpressionTree::from_node(
            Node::Variable { denied: Negation::none(), name: clean.clone() },
        );
        proof {
            assert(crate::expression_tree::fresh_vars(expr.formula()) =~= map![clean@ => None::<bool>]);
        }
        Ok(ExpressionVar { name: clean, expr })
    }

    /// The variable's name.
    pub fn name(&self) -> (r: &str)
        ensures
            r@ == self.spec_name(),
    {
        self.name.as_str()
    }

    /// A tree that is just the variable.
    pub fn expr(&self) -> (r: ExpressionTree)
        requires
            self.wf(),
        ensures
            r.wf(),
            r.formula() == self.spec_expr().formula(),
            r.var_map() == self.spec_expr().var_map(),
    {
        self.expr.duplicate()
    }
}

/// A numbered list of variables sharing a stem: `A1`, `A2`, ...
#[derive(Debug)]
pub struct ExpressionVars {
    vars: Vec<ExpressionVar>,
    first: usize,
    last: usize,
}

impl ExpressionVars {
    /// The variables, in order.
    pub closed spec fn spec_vars(&self) -> Seq<ExpressionVar> {
        self.vars@
    }

    /// The first index.
    pub closed spec fn spec_first(&self) -> usize {
        self.first
    }

    /// The last index.
    pub closed spec fn spec_last(&self) -> usize {
        self.last
    }

    /// The variables `name` followed by each number from `start` to `end`,
    /// both included. With `relative_index` they are indexed by their
    /// numbers; otherwise from 0. An empty range, or a stem that does not
    /// make variable names, gives `Err`.
    pub fn new(name: &str, start: usize, end: usize, relative_index: bool) -> (r: Result<Self, ()>)
        ensures
            r is Ok == (start <= end && forall|i: nat|
                start <= i <= end ==> valid_name(trimmed(name@ + #[trigger] decimal(i)))),
            r matches Ok(v) ==> {
                &&& v.spec_vars().len() == end - start + 1
                &&& v.spec_first() == if relative_index { start } else { 0 }
                &&& v.spec_last() == if relative_index { end } else { (end - start) as usize }
                &&& forall|k: int|
                    0 <= k < v.spec_vars().len() ==> (#[trigger] v.spec_vars()[k]).wf()
                        && v.spec_vars()[k].spec_name() == trimmed(name@ + decimal((start + k) as nat))
            },
    {
        if start > end {
            return Err(());
        }
        let mut vars: Vec<ExpressionVar> = Vec::new();
        let mut i = start;
        loop
            invariant_except_break
                vars@.len() == i - start,
                forall|j: nat| start <= j < i ==> valid_name(trimmed(name@ + #[trigger] decimal(j))),
            invariant
                start <= i <= end,
                forall|k: int|
                    0 <= k < vars@.len() ==> (#[trigger] vars@[k]).wf() && vars@[k].spec_name()
                        == trimmed(name@ + decimal((start + k) as nat)),
            ensures
                vars@.len() == end - start + 1,
                forall|j: nat| start <= j <= end ==> valid_name(trimmed(name@ + #[trigger] decimal(j))),
            decreases end - i,
        {
            let mut full = String::from_str(name);
            push_decimal(&mut full, i);
            match ExpressionVar::new(full.as_str()) {
                Ok(v) => vars.push(v),
                Err(()) => {
                    assert(full@ == name@ + decimal(i as nat));
                    return Err(());
                },
            }
            if i == end {
                break ;
            }
            i = i + 1;
        }
        Ok(
            ExpressionVars {
                vars,
                first: if relative_index {
                    start
                } else {
                    0
                },
                last: if relative_index {
                    end
                } else {
                    end - start
                },
            },
        )
    }

    /// The first index.
    pub fn start(&self) -> (r: usize)
        ensures
            r == self.spec_first(),
    {
        self.first
    }

    /// The last index.
    pub fn end(&self) -> (r: usize)
        ensures
            r == self.spec_last(),
    {
        self.last
    }

    /// The variable at `index`, counted from `start()`.
    pub fn index(&self, index: usize) -> (r: &ExpressionVar)
        requires
            self.spec_first() <= index,
            index - self.spec_first() < self.spec_vars().len(),
        ensures
            *r == self.spec_vars()[index - self.spec_first()],
    {
        &self.vars[index - self.first]
    }

    /// The variables, in order.
    pub fn into_iter(self) -> (r: std::vec::IntoIter<ExpressionVar>)
        ensures
            r.remaining() == self.spec_vars(),
    {
        proof {
            broadcast use vstd::std_specs::vec::axiom_spec_into_iter;
        }
        self.vars.into_iter()
    }
}

} // verus!
