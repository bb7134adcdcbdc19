use vstd::prelude::*;
use vstd::string::StrSliceExecFns;

use crate::error::{fault_of, ExpressionTreeError, ParseFault};
use crate::negation::{bump, merge, Negation};
use crate::node::{Formula, Node};
use crate::notation::{chars_of, starts_with_chars, OperatorNotation, Symbols};
use crate::operator::{spec_precedence, Operator};
use crate::shell::{tokens_of, Shell, Token};

verus! {

pub open spec fn is_space(c: char) -> bool {
    c == ' ' || c == '\t' || c == '\n' || c == '\r'
}

pub open spec fn is_upper(c: char) -> bool {
    'A' <= c && c <= 'Z'
}

pub open spec fn is_digit(c: char) -> bool {
    '0' <= c && c <= '9'
}

pub open spec fn is_lower(c: char) -> bool {
    'a' <= c && c <= 'z'
}

/// Whether `w` stands in `s` at position `i`.
pub open spec fn at(s: Seq<char>, i: nat, w: Seq<char>) -> bool {
    i <= s.len() && w.is_prefix_of(s.subrange(i as int, s.len() as int))
}

/// The first position from `i` on that holds no white space.
pub open spec fn space_end(s: Seq<char>, i: nat) -> nat
    decreases s.len() - i,
{
    if i < s.len() && is_space(s[i as int]) {
        space_end(s, i + 1)
    } else {
        i
    }
}

/// The first position from `i` on that holds no digit.
pub open spec fn digit_end(s: Seq<char>, i: nat) -> nat
    decreases s.len() - i,
{
    if i < s.len() && is_digit(s[i as int]) {
        digit_end(s, i + 1)
    } else {
        i
    }
}

/// The first position from `i` on that holds no `-`.
pub open spec fn dash_end(s: Seq<char>, i: nat) -> nat
    decreases s.len() - i,
{
    if i < s.len() && s[i as int] == '-' {
        dash_end(s, i + 1)
    } else {
        i
    }
}

/// The length of the negation sign at `i`, or 0 where there is none.
/// Without a notation `~`, `!` and `¬` are read; with one, its own symbol.
pub open spec fn neg_len(s: Seq<char>, table: Option<Symbols>, i: nat) -> nat {
    match table {
        None => if i < s.len() && (s[i as int] == '~' || s[i as int] == '!' || s[i as int] == '¬') {
            1
        } else {
            0
        },
        Some(t) => if t.neg.len() > 0 && at(s, i, t.neg) {
            t.neg.len()
        } else {
            0
        },
    }
}

/// The end of the run of negation signs from `i` on.
pub open spec fn neg_end(s: Seq<char>, table: Option<Symbols>, i: nat) -> nat
    decreases s.len() - i,
{
    if i < s.len() && neg_len(s, table, i) > 0 {
        neg_end(s, table, i + neg_len(s, table, i))
    } else {
        i
    }
}

/// The number of negation signs in the run from `i` on.
pub open spec fn neg_count(s: Seq<char>, table: Option<Symbols>, i: nat) -> u32
    decreases s.len() - i,
{
    if i < s.len() && neg_len(s, table, i) > 0 {
        bump(neg_count(s, table, i + neg_len(s, table, i)))
    } else {
        0
    }
}

/// What stands at a position where a binary connective may stand.
pub enum OpMatch {
    Found(Operator, nat),
    Bad,
    NoOp,
}

/// The connective at `i`. Without a notation: `&`, `*`, `∧`, `^`, `⋅` for
/// AND; `v`, `|`, `+`, `∨` for OR; one or more `-` then `>`, or `➞`, for
/// CON; `<`, one or more `-`, then `>`, or `⟷`, for BICON. A `-` or `<`
/// that does not complete an arrow is `Bad`. With a notation: its own four
/// symbols, tried in that order.
pub open spec fn op_at(s: Seq<char>, table: Option<Symbols>, i: nat) -> OpMatch {
    match table {
        None => if i >= s.len() {
            OpMatch::NoOp
        } else {
            let c = s[i as int];
            if c == '&' || c == '*' || c == '∧' || c == '^' || c == '⋅' {
                OpMatch::Found(Operator::AND, 1)
            } else if c == 'v' || c == '|' || c == '+' || c == '∨' {
                OpMatch::Found(Operator::OR, 1)
            } else if c == '➞' {
                OpMatch::Found(Operator::CON, 1)
            } else if c == '⟷' {
                OpMatch::Found(Operator::BICON, 1)
            } else if c == '-' {
                let q = dash_end(s, i);
                if q < s.len() && s[q as int] == '>' {
                    OpMatch::Found(Operator::CON, (q + 1 - i) as nat)
                } else {
                    OpMatch::Bad
                }
            } else if c == '<' {
                let q = dash_end(s, i + 1);
                if q > i + 1 && q < s.len() && s[q as int] == '>' {
                    OpMatch::Found(Operator::BICON, (q + 1 - i) as nat)
                } else {
                    OpMatch::Bad
                }
            } else {
                OpMatch::NoOp
            }
        },
        Some(t) => if t.and.len() > 0 && at(s, i, t.and) {
            OpMatch::Found(Operator::AND, t.and.len())
        } else if t.or.len() > 0 && at(s, i, t.or) {
            OpMatch::Found(Operator::OR, t.or.len())
        } else if t.con.len() > 0 && at(s, i, t.con) {
            OpMatch::Found(Operator::CON, t.con.len())
        } else if t.bicon.len() > 0 && at(s, i, t.bicon) {
            OpMatch::Found(Operator::BICON, t.bicon.len())
        } else {
            OpMatch::NoOp
        },
    }
}

pub open spec fn true_chars() -> Seq<char> {
    seq!['T', 'R', 'U', 'E']
}

pub open spec fn false_chars() -> Seq<char> {
    seq!['F', 'A', 'L', 'S', 'E']
}

/// Moves operators that bind at least as tightly as `op` from the stack to
/// the output; meeting one of equal precedence is an ambiguity.
pub open spec fn fold(out: Seq<Token>, ops: Seq<Token>, op: Operator) -> Result<
    (Seq<Token>, Seq<Token>),
    ParseFault,
>
    decreases ops.len(),
{
    if ops.len() > 0 && ops.last() is Op {
        let top = ops.last()->Op_1;
        if spec_precedence(top) < spec_precedence(op) {
            Ok((out, ops))
        } else if spec_precedence(top) == spec_precedence(op) {
            Err(ParseFault::Ambiguous)
        } else {
            fold(out.push(ops.last()), ops.drop_last(), op)
        }
    } else {
        Ok((out, ops))
    }
}

/// Moves tokens from the stack to the output down to the nearest opening
/// parenthesis, which is dropped.
pub open spec fn close(out: Seq<Token>, ops: Seq<Token>) -> Result<
    (Seq<Token>, Seq<Token>),
    ParseFault,
>
    decreases ops.len(),
{
    if ops.len() == 0 {
        Err(ParseFault::InvalidParentheses)
    } else if ops.last() is Paren {
        Ok((out, ops.drop_last()))
    } else {
        close(out.push(ops.last()), ops.drop_last())
    }
}

/// One step of the shunting-yard algorithm at `j`, which holds no white
/// space: the next position, output and operator stack.
#[verifier::opaque]
pub open spec fn step(
    s: Seq<char>,
    table: Option<Symbols>,
    j: nat,
    out: Seq<Token>,
    ops: Seq<Token>,
) -> Result<(nat, Seq<Token>, Seq<Token>), ParseFault> {
    let p = neg_end(s, table, j);
    let n = neg_count(s, table, j);
    let had = p > j;
    if at(s, p, true_chars()) {
        Ok((p + 4, out.push(Token::Const(n, true)), ops))
    } else if at(s, p, false_chars()) {
        Ok((p + 5, out.push(Token::Const(n, false)), ops))
    } else if p >= s.len() {
        Err(ParseFault::InvalidExpression)
    } else {
        let ops1 = if had { ops.push(Token::Tilde(n)) } else { ops };
        let c = s[p as int];
        if is_upper(c) {
            let q = digit_end(s, p + 1);
            Ok((q, out.push(Token::Var(n, s.subrange(p as int, q as int))), ops))
        } else {
            match op_at(s, table, p) {
                OpMatch::Bad => Err(ParseFault::UnknownSymbol),
                OpMatch::Found(op, len) => match fold(out, ops1, op) {
                    Err(e) => Err(e),
                    Ok((out2, ops2)) => if ops2.len() > 0 && ops2.last() is Tilde {
                        Ok(
                            (
                                p + len,
                                out2,
                                ops2.drop_last().push(Token::Op(ops2.last()->Tilde_0, op)),
                            ),
                        )
                    } else {
                        Ok((p + len, out2, ops2.push(Token::Op(0, op))))
                    },
                },
                OpMatch::NoOp => if c == '(' {
                    Ok((p + 1, out, ops1.push(Token::Paren)))
                } else if c == ')' {
                    match close(out, ops1) {
                        Err(e) => Err(e),
                        Ok((out2, ops2)) => if ops2.len() > 0 && ops2.last() is Tilde {
                            if out2.len() > 0 && out2.last() is Op {
                                Ok(
                                    (
                                        p + 1,
                                        out2.drop_last().push(
                                            Token::Op(
                                                merge(out2.last()->Op_0, ops2.last()->Tilde_0),
                                                out2.last()->Op_1,
                                            ),
                                        ),
                                        ops2.drop_last(),
                                    ),
                                )
                            } else {
                                Err(ParseFault::InvalidExpression)
                            }
                        } else {
                            Ok((p + 1, out2, ops2))
                        },
                    }
                } else if is_lower(c) {
                    Err(ParseFault::Lowercase(c))
                } else {
                    Err(ParseFault::UnknownSymbol)
                },
            }
        }
    }
}

/// The postfix token sequence that the shunting-yard algorithm makes of
/// `s` from position `i` on, given the output and stack so far. At the end
/// the stack is emptied onto the output, top first.
pub open spec fn scan(
    s: Seq<char>,
    table: Option<Symbols>,
    i: nat,
    out: Seq<Token>,
    ops: Seq<Token>,
) -> Result<Seq<Token>, ParseFault>
    decreases s.len() - i,
{
    let j = space_end(s, i);
    if j >= s.len() || i >= s.len() {
        Ok(out + ops.reverse())
    } else {
        match step(s, table, j, out, ops) {
            Err(e) => Err(e),
            Ok((k, out2, ops2)) => if i < k <= s.len() {
                scan(s, table, k, out2, ops2)
            } else {
                Ok(out2)
            },
        }
    }
}

/// The tree that the postfix tokens `t[..end]` end with, built from the
/// end, and how many tokens are left before it.
pub open spec fn build(t: Seq<Token>, end: nat) -> Result<(Formula, nat), ParseFault>
    decreases end,
{
    if end == 0 || end > t.len() {
        Err(ParseFault::TooManyOperators)
    } else {
        match t[end - 1] {
            Token::Op(n, op) => match build(t, (end - 1) as nat) {
                Err(e) => Err(e),
                Ok((right, e1)) => if e1 < end {
                    match build(t, e1) {
                        Err(e) => Err(e),
                        Ok((left, e2)) => Ok(
                            (
                                Formula::Op { neg: n, op, left: Box::new(left), right: Box::new(right) },
                                e2,
                            ),
                        ),
                    }
                } else {
                    Err(ParseFault::TooManyOperators)
                },
            },
            Token::Var(n, name) => Ok((Formula::Var { neg: n, name }, (end - 1) as nat)),
            Token::Const(n, v) => Ok((Formula::Const { neg: n, value: v }, (end - 1) as nat)),
            Token::Paren => Err(ParseFault::InvalidParentheses),
            Token::Tilde(_) => Err(ParseFault::InvalidExpression),
        }
    }
}

pub proof fn lemma_build_shrinks(t: Seq<Token>, end: nat)
    ensures
        build(t, end) matches Ok((_, e)) ==> e < end,
    decreases end,
{
    if 0 < end <= t.len() {
        if t[end - 1] is Op {
            lemma_build_shrinks(t, (end - 1) as nat);
            if let Ok((_, e1)) = build(t, (end - 1) as nat) {
                lemma_build_shrinks(t, e1);
            }
        }
    }
}

/// Building from a prefix of the tokens is building from the whole up to that point.
pub proof fn lemma_build_prefix(t: Seq<Token>, end: nat)
    requires
        end <= t.len(),
    ensures
        build(t.subrange(0, end as int), end) == build(t, end),
    decreases end,
{
    lemma_build_prefix_any(t.subrange(0, end as int), t, end);
}

/// Two token sequences that agree below `end` build alike up to `end`.
pub proof fn lemma_build_prefix_any(u: Seq<Token>, t: Seq<Token>, end: nat)
    requires
        end <= u.len(),
        end <= t.len(),
        forall|i: int| 0 <= i < end ==> u[i] == t[i],
    ensures
        build(u, end) == build(t, end),
    decreases end,
{
    if end > 0 {
        lemma_build_prefix_any(u, t, (end - 1) as nat);
        lemma_build_shrinks(u, (end - 1) as nat);
        if let Ok((_, e1)) = build(u, (end - 1) as nat) {
            lemma_build_prefix_any(u, t, e1);
        }
    }
}

/// The tree that an infix expression stands for, or why it stands for none.
pub open spec fn parse(s: Seq<char>, table: Option<Symbols>) -> Result<Formula, ParseFault> {
    match scan(s, table, 0, Seq::empty(), Seq::empty()) {
        Err(e) => Err(e),
        Ok(t) => if t.len() == 0 {
            Err(ParseFault::InvalidExpression)
        } else {
            match build(t, t.len()) {
                Err(e) => Err(e),
                Ok((f, rest)) => if rest > 0 {
                    Err(ParseFault::NotEnoughOperators)
                } else {
                    Ok(f)
                },
            }
        },
    }
}

/// Whether a result is the error that a fault names.
pub open spec fn fails_with<T>(r: Result<T, ExpressionTreeError>, e: ParseFault) -> bool {
    r is Err && fault_of(r->Err_0) == e
}

/// The symbols of a notation given to the parser, as characters.
pub struct Reader {
    neg: Vec<char>,
    and: Vec<char>,
    or: Vec<char>,
    con: Vec<char>,
    bicon: Vec<char>,
}

pub open spec fn table_of(r: Option<&Reader>) -> Option<Symbols> {
    match r {
        None => None,
        Some(x) => Some(x.symbols()),
    }
}

impl Reader {
    pub closed spec fn symbols(&self) -> Symbols {
        Symbols {
            neg: self.neg@,
            and: self.and@,
            or: self.or@,
            con: self.con@,
            bicon: self.bicon@,
        }
    }

    pub fn new(notation: &OperatorNotation) -> (r: Reader)
        ensures
            r.symbols() == notation@,
    {
        Reader {
            neg: chars_of(notation.neg()),
            and: chars_of(notation.and()),
            or: chars_of(notation.or()),
            con: chars_of(notation.con()),
            bicon: chars_of(notation.bicon()),
        }
    }

    fn sym(&self, k: u8) -> (r: &Vec<char>)
        requires
            k < 5,
        ensures
            k == 0 ==> r@ == self.symbols().neg,
            k == 1 ==> r@ == self.symbols().and,
            k == 2 ==> r@ == self.symbols().or,
            k == 3 ==> r@ == self.symbols().con,
            k == 4 ==> r@ == self.symbols().bicon,
    {
        if k == 0 {
            &self.neg
        } else if k == 1 {
            &self.and
        } else if k == 2 {
            &self.or
        } else if k == 3 {
            &self.con
        } else {
            &self.bicon
        }
    }
}

fn present(s: &Vec<char>, i: usize, w: &Vec<char>) -> (r: bool)
    requires
        i <= s@.len(),
    ensures
        r == (w@.len() > 0 && at(s@, i as nat, w@)),
{
    w.len() > 0 && starts_with_chars(s, i, w)
}

fn skip_space(s: &Vec<char>, i: usize) -> (r: usize)
    requires
        i <= s@.len(),
    ensures
        r == space_end(s@, i as nat),
        i <= r <= s@.len(),
{
    let mut k = i;
    while k < s.len() && (s[k] == ' ' || s[k] == '\t' || s[k] == '\n' || s[k] == '\r')
        invariant
            i <= k <= s@.len(),
            space_end(s@, k as nat) == space_end(s@, i as nat),
        decreases s@.len() - k,
    {
        k = k + 1;
    }
    k
}

fn skip_digits(s: &Vec<char>, i: usize) -> (r: usize)
    requires
        i <= s@.len(),
    ensures
        r == digit_end(s@, i as nat),
        i <= r <= s@.len(),
{
    let mut k = i;
    while k < s.len() && '0' <= s[k] && s[k] <= '9'
        invariant
            i <= k <= s@.len(),
            digit_end(s@, k as nat) == digit_end(s@, i as nat),
        decreases s@.len() - k,
    {
        k = k + 1;
    }
    k
}

fn skip_dashes(s: &Vec<char>, i: usize) -> (r: usize)
    requires
        i <= s@.len(),
    ensures
        r == dash_end(s@, i as nat),
        i <= r <= s@.len(),
{
    let mut k = i;
    while k < s.len() && s[k] == '-'
        invariant
            i <= k <= s@.len(),
            dash_end(s@, k as nat) == dash_end(s@, i as nat),
        decreases s@.len() - k,
    {
        k = k + 1;
    }
    k
}

fn neg_len_at(s: &Vec<char>, table: Option<&Reader>, i: usize) -> (r: usize)
    requires
        i <= s@.len(),
    ensures
        r == neg_len(s@, table_of(table), i as nat),
        r > 0 ==> i + r <= s@.len(),
{
    match table {
        None => if i < s.len() && (s[i] == '~' || s[i] == '!' || s[i] == '¬') {
            1
        } else {
            0
        },
        Some(t) => if present(s, i, t.sym(0)) {
            t.sym(0).len()
        } else {
            0
        },
    }
}

fn neg_run(s: &Vec<char>, table: Option<&Reader>, i: usize) -> (r: (usize, Negation))
    requires
        i <= s@.len(),
    ensures
        r.0 == neg_end(s@, table_of(table), i as nat),
        r.1@ == neg_count(s@, table_of(table), i as nat),
        i <= r.0 <= s@.len(),
    decreases s@.len() - i,
{
    let len = neg_len_at(s, table, i);
    if i < s.len() && len > 0 {
        let (e, mut n) = neg_run(s, table, i + len);
        n.deny();
        (e, n)
    } else {
        (i, Negation::none())
    }
}

/// What stands where a connective may stand.
enum OpScan {
    Found(Operator, usize),
    Bad,
    NoOp,
}

spec fn scan_view(o: OpScan) -> OpMatch {
    match o {
        OpScan::Found(op, n) => OpMatch::Found(op, n as nat),
        OpScan::Bad => OpMatch::Bad,
        OpScan::NoOp => OpMatch::NoOp,
    }
}

fn op_scan(s: &Vec<char>, table: Option<&Reader>, i: usize) -> (r: OpScan)
    requires
        i <= s@.len(),
    ensures
        scan_view(r) == op_at(s@, table_of(table), i as nat),
        r matches OpScan::Found(_, n) ==> n > 0 && i + n <= s@.len(),
{
    match table {
        None => {
            if i >= s.len() {
                return OpScan::NoOp;
            }
            let c = s[i];
            if c == '&' || c == '*' || c == '∧' || c == '^' || c == '⋅' {
                OpScan::Found(Operator::AND, 1)
            } else if c == 'v' || c == '|' || c == '+' || c == '∨' {
                OpScan::Found(Operator::OR, 1)
            } else if c == '➞' {
                OpScan::Found(Operator::CON, 1)
            } else if c == '⟷' {
                OpScan::Found(Operator::BICON, 1)
            } else if c == '-' {
                let q = skip_dashes(s, i);
                if q < s.len() && s[q] == '>' {
                    OpScan::Found(Operator::CON, q + 1 - i)
                } else {
                    OpScan::Bad
                }
            } else if c == '<' {
                let q = skip_dashes(s, i + 1);
                if q > i + 1 && q < s.len() && s[q] == '>' {
                    OpScan::Found(Operator::BICON, q + 1 - i)
                } else {
                    OpScan::Bad
                }
            } else {
                OpScan::NoOp
            }
        },
        Some(t) => {
            if present(s, i, t.sym(1)) {
                OpScan::Found(Operator::AND, t.sym(1).len())
            } else if present(s, i, t.sym(2)) {
                OpScan::Found(Operator::OR, t.sym(2).len())
            } else if present(s, i, t.sym(3)) {
                OpScan::Found(Operator::CON, t.sym(3).len())
            } else if present(s, i, t.sym(4)) {
                OpScan::Found(Operator::BICON, t.sym(4).len())
            } else {
                OpScan::NoOp
            }
        },
    }
}

proof fn lemma_tokens_push(v: Seq<Shell>, x: Shell)
    ensures
        tokens_of(v.push(x)) == tokens_of(v).push(x@),
{
    assert(tokens_of(v.push(x)) =~= tokens_of(v).push(x@));
}

proof fn lemma_tokens_drop_last(v: Seq<Shell>)
    requires
        v.len() > 0,
    ensures
        tokens_of(v.drop_last()) == tokens_of(v).drop_last(),
        tokens_of(v).last() == v.last()@,
{
    assert(tokens_of(v.drop_last()) =~= tokens_of(v).drop_last());
}

fn fold_ops(out: &mut Vec<Shell>, ops: &mut Vec<Shell>, op: Operator) -> (r: Result<
    (),
    ExpressionTreeError,
>)
    ensures
        match fold(tokens_of(old(out)@), tokens_of(old(ops)@), op) {
            Ok((o, p)) => r is Ok && tokens_of(final(out)@) == o && tokens_of(final(ops)@) == p,
            Err(e) => fails_with(r, e),
        },
{
    loop
        invariant
            fold(tokens_of(out@), tokens_of(ops@), op) == fold(
                tokens_of(old(out)@),
                tokens_of(old(ops)@),
                op,
            ),
        decreases ops@.len(),
    {
        let n = ops.len();
        if n == 0 {
            return Ok(());
        }
        proof {
            lemma_tokens_drop_last(ops@);
        }
        let top = match &ops[n - 1] {
            Shell::Operator(_, o) => Some(*o),
            _ => None,
        };
        match top {
            None => {
                return Ok(());
            },
            Some(o) => {
                if o.precedence() < op.precedence() {
                    return Ok(());
                } else if o.precedence() == op.precedence() {
                    return Err(ExpressionTreeError::AmbiguousExpression);
                }
                let ghost before = ops@;
                let ghost out_before = out@;
                match ops.pop() {
                    Some(t) => {
                        out.push(t);
                    },
                    None => {},
                }
                proof {
                    lemma_tokens_push(out_before, before.last());
                }
            },
        }
    }
}

fn close_ops(out: &mut Vec<Shell>, ops: &mut Vec<Shell>) -> (r: Result<(), ExpressionTreeError>)
    ensures
        match close(tokens_of(old(out)@), tokens_of(old(ops)@)) {
            Ok((o, p)) => r is Ok && tokens_of(final(out)@) == o && tokens_of(final(ops)@) == p,
            Err(e) => fails_with(r, e),
        },
{
    loop
        invariant
            close(tokens_of(out@), tokens_of(ops@)) == close(
                tokens_of(old(out)@),
                tokens_of(old(ops)@),
            ),
        decreases ops@.len(),
    {
        let ghost before = ops@;
        let ghost out_before = out@;
        match ops.pop() {
            None => {
                return Err(ExpressionTreeError::InvalidParentheses);
            },
            Some(t) => {
                proof {
                    lemma_tokens_drop_last(before);
                }
                if t.is_parentheses() {
                    return Ok(());
                }
                out.push(t);
                proof {
                    lemma_tokens_push(out_before, before.last());
                }
            },
        }
    }
}

/// Takes pending negation signs off the top of the stack, if any are there.
fn take_tilde(ops: &mut Vec<Shell>) -> (r: Option<Negation>)
    ensures
        tokens_of(old(ops)@).len() > 0 && tokens_of(old(ops)@).last() is Tilde ==> r is Some
            && r->Some_0@ == tokens_of(old(ops)@).last()->Tilde_0 && tokens_of(final(ops)@)
            == tokens_of(old(ops)@).drop_last(),
        !(tokens_of(old(ops)@).len() > 0 && tokens_of(old(ops)@).last() is Tilde) ==> r is None
            && final(ops)@ == old(ops)@,
{
    let n = ops.len();
    if n > 0 && ops[n - 1].is_tilde() {
        proof {
            lemma_tokens_drop_last(ops@);
        }
        match ops.pop() {
            Some(Shell::Tilde(k)) => Some(k),
            _ => None,
        }
    } else {
        proof {
            if n > 0 {
                lemma_tokens_drop_last(ops@);
            }
        }
        None
    }
}

fn step_at(
    text: &str,
    s: &Vec<char>,
    table: Option<&Reader>,
    j: usize,
    out: &mut Vec<Shell>,
    ops: &mut Vec<Shell>,
) -> (r: Result<usize, ExpressionTreeError>)
    requires
        text@ == s@,
        j < s@.len(),
    ensures
        match step(s@, table_of(table), j as nat, tokens_of(old(out)@), tokens_of(old(ops)@)) {
            Ok((k, o, p)) => r is Ok && r->Ok_0 == k && tokens_of(final(out)@) == o && tokens_of(
                final(ops)@,
            ) == p,
            Err(e) => fails_with(r, e),
        },
        r is Ok ==> j < r->Ok_0 <= s@.len(),
{
    proof {
        reveal(step);
    }
    let ghost out0 = out@;
    let ghost ops0 = ops@;
    let (p, n) = neg_run(s, table, j);
    let had = p > j;
    let true_word = vec!['T', 'R', 'U', 'E'];
    let false_word = vec!['F', 'A', 'L', 'S', 'E'];
    assert(true_word@ =~= true_chars());
    assert(false_word@ =~= false_chars());
    let sl = s.len();
    if starts_with_chars(s, p, &true_word) {
        assert(s@.subrange(p as int, s@.len() as int).len() >= 4);
        assert(p + 4 <= sl);
        out.push(Shell::Constant(n, true));
        proof {
            lemma_tokens_push(out0, Shell::Constant(n, true));
        }
        return Ok(p + 4);
    }
    if starts_with_chars(s, p, &false_word) {
        assert(s@.subrange(p as int, s@.len() as int).len() >= 5);
        assert(p + 5 <= sl);
        out.push(Shell::Constant(n, false));
        proof {
            lemma_tokens_push(out0, Shell::Constant(n, false));
        }
        return Ok(p + 5);
    }
    if p >= s.len() {
        return Err(ExpressionTreeError::InvalidExpression);
    }
    let c = s[p];
    if 'A' <= c && c <= 'Z' {
        let q = skip_digits(s, p + 1);
        let name = text.substring_char(p, q).to_owned();
        out.push(Shell::Variable(n, name));
        proof {
            lemma_tokens_push(out0, Shell::Variable(n, name));
        }
        return Ok(q);
    }
    if had {
        ops.push(Shell::Tilde(n));
        proof {
            lemma_tokens_push(ops0, Shell::Tilde(n));
        }
    }
    match op_scan(s, table, p) {
        OpScan::Bad => Err(ExpressionTreeError::UnknownSymbol),
        OpScan::Found(op, len) => {
            match fold_ops(out, ops, op) {
                Err(e) => {
                    return Err(e);
                },
                Ok(()) => {},
            }
            let ghost ops2 = ops@;
            let neg = match take_tilde(ops) {
                Some(k) => k,
                None => Negation::none(),
            };
            let ghost ops3 = ops@;
            ops.push(Shell::Operator(neg, op));
            proof {
                lemma_tokens_push(ops3, Shell::Operator(neg, op));
            }
            Ok(p + len)
        },
        OpScan::NoOp => {
            if c == '(' {
                let ghost ops1 = ops@;
                ops.push(Shell::Parentheses);
                proof {
                    lemma_tokens_push(ops1, Shell::Parentheses);
                }
                Ok(p + 1)
            } else if c == ')' {
                match close_ops(out, ops) {
                    Err(e) => {
                        return Err(e);
                    },
                    Ok(()) => {},
                }
                match take_tilde(ops) {
                    None => Ok(p + 1),
                    Some(k) => {
                        let ghost out2 = out@;
                        if out.len() > 0 {
                            proof {
                                lemma_tokens_drop_last(out@);
                            }
                            match out.pop() {
                                Some(Shell::Operator(m, o)) => {
                                    let ghost out3 = out@;
                                    let mm = Negation::combine(m, k);
                                    out.push(Shell::Operator(mm, o));
                                    proof {
                                        lemma_tokens_push(out3, Shell::Operator(mm, o));
                                    }
                                    Ok(p + 1)
                                },
                                _ => Err(ExpressionTreeError::InvalidExpression),
                            }
                        } else {
                            Err(ExpressionTreeError::InvalidExpression)
                        }
                    },
                }
            } else if 'a' <= c && c <= 'z' {
                Err(ExpressionTreeError::LowercaseVariables(c))
            } else {
                Err(ExpressionTreeError::UnknownSymbol)
            }
        },
    }
}

proof fn lemma_flush_step(out: Seq<Token>, ops: Seq<Token>)
    requires
        ops.len() > 0,
    ensures
        out.push(ops.last()) + ops.drop_last().reverse() == out + ops.reverse(),
{
    assert(out.push(ops.last()) + ops.drop_last().reverse() =~= out + ops.reverse());
}

/// Runs the shunting-yard algorithm on `text`: its postfix tokens, or the
/// first error met.
pub fn shunting_yard(text: &str, table: Option<&Reader>) -> (r: Result<Vec<Shell>, ExpressionTreeError>)
    ensures
        match scan(text@, table_of(table), 0, Seq::empty(), Seq::empty()) {
            Ok(t) => r is Ok && tokens_of(r->Ok_0@) == t,
            Err(e) => fails_with(r, e),
        },
{
    let s = chars_of(text);
    let mut out: Vec<Shell> = Vec::new();
    let mut ops: Vec<Shell> = Vec::new();
    let mut i: usize = 0;
    assert(tokens_of(out@) =~= Seq::<Token>::empty());
    assert(tokens_of(ops@) =~= Seq::<Token>::empty());
    let mut j = skip_space(&s, 0);
    while j < s.len()
        invariant
            s@ == text@,
            i <= j <= s@.len(),
            j == space_end(s@, i as nat),
            scan(s@, table_of(table), i as nat, tokens_of(out@), tokens_of(ops@)) == scan(
                s@,
                table_of(table),
                0,
                Seq::empty(),
                Seq::empty(),
            ),
        decreases s@.len() - i,
    {
        let ghost out0 = tokens_of(out@);
        let ghost ops0 = tokens_of(ops@);
        let ghost whole = scan(s@, table_of(table), i as nat, out0, ops0);
        assert(whole == match step(s@, table_of(table), j as nat, out0, ops0) {
            Err(e) => Err(e),
            Ok((k, out2, ops2)) => if i < k <= s@.len() {
                scan(s@, table_of(table), k, out2, ops2)
            } else {
                Ok(out2)
            },
        });
        match step_at(text, &s, table, j, &mut out, &mut ops) {
            Err(e) => {
                return Err(e);
            },
            Ok(k) => {
                i = k;
                j = skip_space(&s, i);
            },
        }
    }
    assert(scan(s@, table_of(table), i as nat, tokens_of(out@), tokens_of(ops@)) == Ok::<
        Seq<Token>,
        ParseFault,
    >(tokens_of(out@) + tokens_of(ops@).reverse()));
    while ops.len() > 0
        invariant
            tokens_of(out@) + tokens_of(ops@).reverse() == scan(
                s@,
                table_of(table),
                0,
                Seq::empty(),
                Seq::empty(),
            )->Ok_0,
            scan(s@, table_of(table), 0, Seq::empty(), Seq::empty()) is Ok,
        decreases ops@.len(),
    {
        let ghost out0 = out@;
        let ghost ops0 = ops@;
        match ops.pop() {
            None => {},
            Some(t) => {
                out.push(t);
                proof {
                    lemma_tokens_drop_last(ops0);
                    lemma_tokens_push(out0, t);
                    lemma_flush_step(tokens_of(out0), tokens_of(ops0));
                }
            },
        }
    }
    assert(tokens_of(ops@).reverse() =~= Seq::<Token>::empty());
    assert(tokens_of(out@) + tokens_of(ops@).reverse() =~= tokens_of(out@));
    Ok(out)
}

/// Builds the tree that the postfix tokens end with, taking its tokens off
/// the end of `shells`.
pub fn construct_tree(shells: &mut Vec<Shell>) -> (r: Result<Node, ExpressionTreeError>)
    ensures
        match build(tokens_of(old(shells)@), old(shells)@.len()) {
            Ok((f, e)) => r is Ok && r->Ok_0@ == f && final(shells)@ == old(shells)@.subrange(
                0,
                e as int,
            ),
            Err(x) => fails_with(r, x),
        },
    decreases old(shells)@.len(),
{
    let ghost t = tokens_of(shells@);
    let ghost n = shells@.len();
    proof {
        if n > 0 {
            lemma_tokens_drop_last(shells@);
        }
    }
    match shells.pop() {
        None => Err(ExpressionTreeError::TooManyOperators),
        Some(Shell::Operator(denied, op)) => {
            proof {
                assert(tokens_of(shells@) =~= t.subrange(0, n - 1));
                lemma_build_prefix(t, (n - 1) as nat);
                lemma_build_shrinks(t, (n - 1) as nat);
            }
            let ghost mid = shells@;
            let right = match construct_tree(shells) {
                Ok(x) => x,
                Err(e) => {
                    return Err(e);
                },
            };
            let ghost e1 = shells@.len();
            let ghost after_right = shells@;
            proof {
                lemma_build_shrinks(t, e1 as nat);
                assert(shells@ =~= old(shells)@.subrange(0, e1 as int));
                assert(tokens_of(shells@) =~= t.subrange(0, e1 as int));
                lemma_build_prefix(t, e1 as nat);
            }
            let left = match construct_tree(shells) {
                Ok(x) => x,
                Err(e) => {
                    return Err(e);
                },
            };
            proof {
                let e2 = shells@.len();
                assert(shells@ =~= old(shells)@.subrange(0, e2 as int));
            }
            Ok(Node::Operator { denied, op, left: Box::new(left), right: Box::new(right) })
        },
        Some(Shell::Variable(denied, name)) => Ok(Node::Variable { denied, name }),
        Some(Shell::Constant(denied, value)) => Ok(Node::Constant(denied, value)),
        Some(Shell::Parentheses) => Err(ExpressionTreeError::InvalidParentheses),
        Some(Shell::Tilde(_)) => Err(ExpressionTreeError::InvalidExpression),
    }
}

} // verus!
