use vstd::prelude::*;

use crate::error::ParseFault;
use crate::expression_tree::{infix_of, infix_top};
use crate::expression_var::valid_name;
use crate::negation::merge;
use crate::node::{op_symbol, repeat, Formula};
use crate::notation::ascii_symbols;
use crate::operator::Operator;
use crate::parser::{
    at, build, close, digit_end, false_chars, fold, is_digit, is_space, is_upper, lemma_build_prefix,
    lemma_build_shrinks, neg_count, neg_end, neg_len, op_at, dash_end, parse, scan, step, true_chars,
    OpMatch,
};
use crate::shell::Token;

verus! {

/// Whether every variable of a formula has a variable name.
pub open spec fn well_named(f: Formula) -> bool
    decreases f,
{
    match f {
        Formula::Op { left, right, .. } => well_named(*left) && well_named(*right),
        Formula::Var { name, .. } => valid_name(name),
        Formula::Const { .. } => true,
    }
}

/// The postfix tokens of a formula.
pub open spec fn postfix(f: Formula) -> Seq<Token>
    decreases f,
{
    match f {
        Formula::Op { neg, op, left, right } => postfix(*left) + postfix(*right) + seq![
            Token::Op(neg, op),
        ],
        Formula::Var { neg, name } => seq![Token::Var(neg, name)],
        Formula::Const { neg, value } => seq![Token::Const(neg, value)],
    }
}

/// Whether what follows position `k` ends a printed operand.
pub open spec fn delimited(s: Seq<char>, k: int) -> bool {
    k == s.len() || (0 <= k < s.len() && (s[k] == ')' || s[k] == '&' || s[k] == 'v' || s[k] == '-'
        || s[k] == '<'))
}

pub proof fn lemma_build_postfix(t: Seq<Token>, f: Formula)
    ensures
        build(t + postfix(f), (t.len() + postfix(f).len()) as nat) == Ok::<(Formula, nat), ParseFault>(
            (f, t.len()),
        ),
    decreases f,
{
    let u = t + postfix(f);
    match f {
        Formula::Op { neg, op, left, right } => {
            let pl = postfix(*left);
            let pr = postfix(*right);
            let end = u.len();
            assert(u[end - 1] == Token::Op(neg, op));
            lemma_build_postfix(t + pl, *right);
            assert(u.subrange(0, end - 1) =~= (t + pl) + pr);
            lemma_build_prefix(u, (end - 1) as nat);
            lemma_build_postfix(t, *left);
            assert(u.subrange(0, (t.len() + pl.len()) as int) =~= t + pl);
            lemma_build_prefix(u, (t.len() + pl.len()) as nat);
        },
        _ => {
            assert(u[u.len() - 1] == postfix(f)[0]);
        },
    }
}

proof fn lemma_repeat_tilde(c: nat)
    ensures
        repeat(seq!['~'], c).len() == c,
        forall|j: int| 0 <= j < c ==> repeat(seq!['~'], c)[j] == '~',
    decreases c,
{
    if c > 0 {
        lemma_repeat_tilde((c - 1) as nat);
    }
}

proof fn lemma_neg_run(s: Seq<char>, i: nat, c: nat)
    requires
        i + c <= s.len(),
        c <= u32::MAX,
        forall|j: int| i <= j < i + c ==> s[j] == '~',
        i + c == s.len() || (s[(i + c) as int] != '~' && s[(i + c) as int] != '!' && s[(i + c) as int]
            != '¬'),
    ensures
        neg_end(s, None, i) == i + c,
        neg_count(s, None, i) == c as u32,
    decreases c,
{
    if c > 0 {
        lemma_neg_run(s, i + 1, (c - 1) as nat);
        assert(neg_len(s, None, i) == 1);
    }
}

proof fn lemma_digit_run(s: Seq<char>, p: nat, q: nat)
    requires
        p <= q <= s.len(),
        forall|j: int| p <= j < q ==> is_digit(s[j]),
        q == s.len() || !is_digit(s[q as int]),
    ensures
        digit_end(s, p) == q,
    decreases q - p,
{
    if p < q {
        lemma_digit_run(s, p + 1, q);
    }
}

proof fn lemma_scan_unfold(s: Seq<char>, i: nat, out: Seq<Token>, ops: Seq<Token>)
    requires
        i < s.len(),
        !is_space(s[i as int]),
        step(s, None, i, out, ops) is Ok,
        i < step(s, None, i, out, ops)->Ok_0.0 <= s.len(),
    ensures
        scan(s, None, i, out, ops) == scan(
            s,
            None,
            step(s, None, i, out, ops)->Ok_0.0,
            step(s, None, i, out, ops)->Ok_0.1,
            step(s, None, i, out, ops)->Ok_0.2,
        ),
{
}

/// The characters of a printed formula are no white space, and it starts
/// with a negation sign, a parenthesis or a letter.
proof fn lemma_printed_shape(f: Formula)
    requires
        well_named(f),
    ensures
        infix_of(f, ascii_symbols()).len() > 0,
        !is_space(infix_of(f, ascii_symbols())[0]),
{
    let p = infix_of(f, ascii_symbols());
    match f {
        Formula::Op { neg, .. } => {
            lemma_repeat_tilde(neg as nat);
            if neg > 0 {
                assert(p[0] == '~');
            } else {
                assert(p[0] == '(');
            }
        },
        Formula::Var { neg, name } => {
            lemma_repeat_tilde(neg as nat);
            if neg > 0 {
                assert(p[0] == '~');
            } else {
                assert(p[0] == name[0]);
            }
        },
        Formula::Const { neg, value } => {
            lemma_repeat_tilde(neg as nat);
            if neg > 0 {
                assert(p[0] == '~');
            } else if value {
                assert(p[0] == 'T');
            } else {
                assert(p[0] == 'F');
            }
        },
    }
}


proof fn lemma_sub_part(s: Seq<char>, i: int, p: Seq<char>, a: int, b: int)
    requires
        0 <= i,
        i + p.len() <= s.len(),
        s.subrange(i, i + p.len()) == p,
        0 <= a <= b <= p.len(),
    ensures
        s.subrange(i + a, i + b) == p.subrange(a, b),
        forall|k: int| a <= k < b ==> s[i + k] == p[k],
{
    assert forall|k: int| a <= k < b implies s[i + k] == p[k] by {
        assert(s.subrange(i, i + p.len())[k] == s[i + k]);
    }
    assert(s.subrange(i + a, i + b) =~= p.subrange(a, b));
}

proof fn lemma_not_word(s: Seq<char>, p: nat, w: Seq<char>, k: int)
    requires
        0 <= k < w.len(),
        p + k < s.len() ==> s[p + k] != w[k],
    ensures
        !at(s, p, w),
{
    if at(s, p, w) {
        assert(s.subrange(p as int, s.len() as int)[k] == w[k]);
    }
}

proof fn lemma_char(s: Seq<char>, i: int, p: Seq<char>, k: int)
    requires
        0 <= i,
        i + p.len() <= s.len(),
        s.subrange(i, i + p.len()) == p,
        0 <= k < p.len(),
    ensures
        s[i + k] == p[k],
{
    assert(s.subrange(i, i + p.len())[k] == s[i + k]);
}

/// What scanning the printed form of a formula requires: the form stands
/// at `i`, a delimiter follows it, and no pending negation signs are on top
/// of the stack.
pub open spec fn printed_at(s: Seq<char>, f: Formula, i: nat, ops: Seq<Token>) -> bool {
    &&& well_named(f)
    &&& i + infix_of(f, ascii_symbols()).len() <= s.len()
    &&& s.subrange(i as int, i + infix_of(f, ascii_symbols()).len() as int) == infix_of(f, ascii_symbols())
    &&& delimited(s, i + infix_of(f, ascii_symbols()).len() as int)
    &&& !(ops.len() > 0 && ops.last() is Tilde)
}

/// Scanning the printed form of a well-named formula puts its postfix
/// tokens on the output and leaves the stack as it was.
proof fn lemma_scan_term(s: Seq<char>, f: Formula, i: nat, out: Seq<Token>, ops: Seq<Token>)
    requires
        printed_at(s, f, i, ops),
    ensures
        scan(s, None, i, out, ops) == scan(
            s,
            None,
            (i + infix_of(f, ascii_symbols()).len()) as nat,
            out + postfix(f),
            ops,
        ),
    decreases f, 1nat,
{
    match f {
        Formula::Var { .. } => lemma_scan_var(s, f, i, out, ops),
        Formula::Const { .. } => lemma_scan_const(s, f, i, out, ops),
        Formula::Op { .. } => lemma_scan_op(s, f, i, out, ops),
    }
}

#[verifier::rlimit(30)]
proof fn lemma_scan_var(s: Seq<char>, f: Formula, i: nat, out: Seq<Token>, ops: Seq<Token>)
    requires
        printed_at(s, f, i, ops),
        f is Var,
    ensures
        scan(s, None, i, out, ops) == scan(
            s,
            None,
            (i + infix_of(f, ascii_symbols()).len()) as nat,
            out + postfix(f),
            ops,
        ),
{
    reveal(step);
    let pf = infix_of(f, ascii_symbols());
    let n = pf.len();
    let neg = f->Var_neg;
    let name = f->Var_name;
    let c = neg as nat;
    lemma_printed_shape(f);
    lemma_repeat_tilde(c);
    assert(pf == repeat(seq!['~'], c) + name);
    assert forall|j: int| i <= j < i + c implies s[j] == '~' by {
        lemma_char(s, i as int, pf, j - i);
    }
    let p = i + c;
    lemma_char(s, i as int, pf, c as int);
    assert(s[p as int] == name[0]);
    lemma_neg_run(s, i, c);
    if name.len() > 1 {
        lemma_char(s, i as int, pf, c + 1int);
        assert(is_digit(name[1]));
    }
    lemma_not_word(s, p, true_chars(), 1);
    lemma_not_word(s, p, false_chars(), 1);
    assert forall|j: int| p + 1 <= j < i + n implies is_digit(s[j]) by {
        lemma_char(s, i as int, pf, j - i);
        assert(pf[j - i] == name[j - p]);
    }
    lemma_digit_run(s, p + 1, i + n);
    assert forall|k: int| 0 <= k < name.len() implies s.subrange(p as int, (i + n) as int)[k] == name[k] by {
        lemma_char(s, i as int, pf, c + k);
    }
    assert(s.subrange(p as int, (i + n) as int) =~= name);
    lemma_scan_unfold(s, i, out, ops);
    assert(out.push(Token::Var(neg, name)) =~= out + postfix(f));
}

#[verifier::rlimit(30)]
proof fn lemma_scan_const(s: Seq<char>, f: Formula, i: nat, out: Seq<Token>, ops: Seq<Token>)
    requires
        printed_at(s, f, i, ops),
        f is Const,
    ensures
        scan(s, None, i, out, ops) == scan(
            s,
            None,
            (i + infix_of(f, ascii_symbols()).len()) as nat,
            out + postfix(f),
            ops,
        ),
{
    reveal(step);
    let pf = infix_of(f, ascii_symbols());
    let n = pf.len();
    let neg = f->Const_neg;
    let value = f->Const_value;
    let c = neg as nat;
    lemma_printed_shape(f);
    lemma_repeat_tilde(c);
    let w = if value { true_chars() } else { false_chars() };
    assert(pf == repeat(seq!['~'], c) + w);
    assert forall|j: int| i <= j < i + c implies s[j] == '~' by {
        lemma_char(s, i as int, pf, j - i);
    }
    let p = i + c;
    lemma_char(s, i as int, pf, c as int);
    assert(s[p as int] == w[0]);
    lemma_neg_run(s, i, c);
    assert forall|k: int| 0 <= k < w.len() implies s.subrange(p as int, s.len() as int)[k] == w[k] by {
        lemma_char(s, i as int, pf, c + k);
    }
    assert(s.subrange(p as int, s.len() as int).subrange(0, w.len() as int) =~= w);
    if !value {
        lemma_not_word(s, p, true_chars(), 0);
    }
    lemma_scan_unfold(s, i, out, ops);
    assert(out.push(Token::Const(neg, value)) =~= out + postfix(f));
}

pub open spec fn pending(ops: Seq<Token>, neg: u32) -> Seq<Token> {
    if neg > 0 {
        ops.push(Token::Tilde(neg))
    } else {
        ops
    }
}

proof fn lemma_step_open(s: Seq<char>, i: nat, neg: u32, out: Seq<Token>, ops: Seq<Token>)
    requires
        i + neg < s.len(),
        forall|q: int| i <= q < i + neg ==> s[q] == '~',
        s[i + neg] == '(',
    ensures
        step(s, None, i, out, ops) == Ok::<(nat, Seq<Token>, Seq<Token>), ParseFault>(
            ((i + neg + 1) as nat, out, pending(ops, neg).push(Token::Paren)),
        ),
{
    reveal(step);
    let p = (i + neg) as nat;
    lemma_neg_run(s, i, neg as nat);
    lemma_not_word(s, p, true_chars(), 0);
    lemma_not_word(s, p, false_chars(), 0);
    assert(op_at(s, None, p) == OpMatch::NoOp);
}

proof fn lemma_step_connective(s: Seq<char>, j: nat, op: Operator, out: Seq<Token>, ops: Seq<Token>)
    requires
        j + op_symbol(op, ascii_symbols()).len() < s.len(),
        forall|q: int|
            0 <= q < op_symbol(op, ascii_symbols()).len() ==> s[j + q] == op_symbol(
                op,
                ascii_symbols(),
            )[q],
        ops.len() == 0 || ops.last() is Paren,
    ensures
        step(s, None, j, out, ops) == Ok::<(nat, Seq<Token>, Seq<Token>), ParseFault>(
            ((j + op_symbol(op, ascii_symbols()).len()) as nat, out, ops.push(Token::Op(0, op))),
        ),
{
    reveal(step);
    let o = op_symbol(op, ascii_symbols());
    assert(s[j as int] == o[0]);
    assert(neg_len(s, None, j) == 0);
    assert(neg_end(s, None, j) == j);
    assert(neg_count(s, None, j) == 0);
    lemma_not_word(s, j, true_chars(), 0);
    lemma_not_word(s, j, false_chars(), 0);
    if op == Operator::CON {
        assert(s[j + 1int] == '>');
        assert(dash_end(s, j) == j + 1) by {
            reveal_with_fuel(dash_end, 2);
        }
    } else if op == Operator::BICON {
        assert(s[j + 1int] == '-');
        assert(s[j + 2int] == '>');
        assert(dash_end(s, j + 1) == j + 2) by {
            reveal_with_fuel(dash_end, 2);
        }
    }
    assert(op_at(s, None, j) == OpMatch::Found(op, o.len()));
    assert(fold(out, ops, op) == Ok::<(Seq<Token>, Seq<Token>), ParseFault>((out, ops)));
}

proof fn lemma_step_close(s: Seq<char>, m: nat, neg: u32, op: Operator, out: Seq<Token>, ops: Seq<Token>)
    requires
        m < s.len(),
        s[m as int] == ')',
        !(ops.len() > 0 && ops.last() is Tilde),
    ensures
        step(s, None, m, out, pending(ops, neg).push(Token::Paren).push(Token::Op(0, op))) == Ok::<
            (nat, Seq<Token>, Seq<Token>),
            ParseFault,
        >(((m + 1) as nat, out.push(Token::Op(neg, op)), ops)),
{
    reveal(step);
    let ops1 = pending(ops, neg);
    let ops2 = ops1.push(Token::Paren);
    let ops3 = ops2.push(Token::Op(0, op));
    assert(neg_len(s, None, m) == 0);
    assert(neg_end(s, None, m) == m);
    lemma_not_word(s, m, true_chars(), 0);
    lemma_not_word(s, m, false_chars(), 0);
    assert(op_at(s, None, m) == OpMatch::NoOp);
    let out3 = out.push(Token::Op(0, op));
    assert(ops3.drop_last() =~= ops2);
    assert(ops2.drop_last() =~= ops1);
    assert(close(out, ops3) == close(out3, ops2));
    assert(close(out3, ops2) == Ok::<(Seq<Token>, Seq<Token>), ParseFault>((out3, ops1)));
    if neg > 0 {
        assert(ops1.drop_last() =~= ops);
        assert(merge(0, neg) == neg);
        assert(out3.drop_last() =~= out);
    }
}

proof fn lemma_scan_op(s: Seq<char>, f: Formula, i: nat, out: Seq<Token>, ops: Seq<Token>)
    requires
        printed_at(s, f, i, ops),
        f is Op,
    ensures
        scan(s, None, i, out, ops) == scan(
            s,
            None,
            (i + infix_of(f, ascii_symbols()).len()) as nat,
            out + postfix(f),
            ops,
        ),
    decreases f, 0nat,
{
    let sym = ascii_symbols();
    let pf = infix_of(f, sym);
    let n = pf.len();
    let neg = f->Op_neg;
    let op = f->Op_op;
    let left = *f->Op_left;
    let right = *f->Op_right;
    let c = neg as nat;
    lemma_printed_shape(f);
    lemma_repeat_tilde(c);
    let pl = infix_of(left, sym);
    let pr = infix_of(right, sym);
    let o = op_symbol(op, sym);
    assert(pf == repeat(seq!['~'], c) + seq!['('] + pl + o + pr + seq![')']);
    let p = i + c;
    let j = p + 1 + pl.len();
    let m = j + o.len() + pr.len();
    assert(n == c + 1 + pl.len() + o.len() + pr.len() + 1);
    assert forall|q: int| i <= q < i + c implies s[q] == '~' by {
        lemma_char(s, i as int, pf, q - i);
    }
    lemma_char(s, i as int, pf, c as int);
    let ops2 = pending(ops, neg).push(Token::Paren);
    lemma_step_open(s, i, neg, out, ops);
    lemma_scan_unfold(s, i, out, ops);
    lemma_sub_part(s, i as int, pf, c + 1int, c + 1int + pl.len());
    assert(pf.subrange(c + 1int, c + 1int + pl.len()) =~= pl);
    lemma_char(s, i as int, pf, j - i);
    lemma_scan_term(s, left, p + 1, out, ops2);
    let out1 = out + postfix(left);
    assert forall|q: int| 0 <= q < o.len() implies s[j + q] == o[q] by {
        lemma_char(s, i as int, pf, j + q - i);
    }
    lemma_step_connective(s, j, op, out1, ops2);
    let ops3 = ops2.push(Token::Op(0, op));
    lemma_scan_unfold(s, j, out1, ops2);
    lemma_sub_part(s, i as int, pf, (j + o.len() - i) as int, (m - i) as int);
    assert(pf.subrange((j + o.len() - i) as int, (m - i) as int) =~= pr);
    lemma_char(s, i as int, pf, m - i);
    lemma_scan_term(s, right, (j + o.len()) as nat, out1, ops3);
    let out2 = out1 + postfix(right);
    lemma_step_close(s, m, neg, op, out2, ops);
    lemma_scan_unfold(s, m, out2, ops3);
    assert(out2.push(Token::Op(neg, op)) =~= out + postfix(f));
}

/// A token whose variable, if it is one, has a variable name.
pub open spec fn good(t: Token) -> bool {
    t matches Token::Var(_, name) ==> valid_name(name)
}

pub open spec fn all_good(ts: Seq<Token>) -> bool {
    forall|k: int| 0 <= k < ts.len() ==> good(#[trigger] ts[k])
}

proof fn lemma_good_push(ts: Seq<Token>, t: Token)
    requires
        all_good(ts),
        good(t),
    ensures
        all_good(ts.push(t)),
{
    assert forall|k: int| 0 <= k < ts.push(t).len() implies good(#[trigger] ts.push(t)[k]) by {
        if k < ts.len() {
            assert(ts.push(t)[k] == ts[k]);
        }
    }
}

proof fn lemma_good_drop(ts: Seq<Token>)
    requires
        all_good(ts),
        ts.len() > 0,
    ensures
        all_good(ts.drop_last()),
        good(ts.last()),
{
    assert forall|k: int| 0 <= k < ts.drop_last().len() implies good(#[trigger] ts.drop_last()[k]) by {
        assert(ts.drop_last()[k] == ts[k]);
    }
}

proof fn lemma_fold_good(out: Seq<Token>, ops: Seq<Token>, op: Operator)
    requires
        all_good(out),
        all_good(ops),
    ensures
        fold(out, ops, op) matches Ok((o, p)) ==> all_good(o) && all_good(p),
    decreases ops.len(),
{
    if ops.len() > 0 && ops.last() is Op {
        lemma_good_drop(ops);
        lemma_good_push(out, ops.last());
        lemma_fold_good(out.push(ops.last()), ops.drop_last(), op);
    }
}

proof fn lemma_close_good(out: Seq<Token>, ops: Seq<Token>)
    requires
        all_good(out),
        all_good(ops),
    ensures
        close(out, ops) matches Ok((o, p)) ==> all_good(o) && all_good(p),
    decreases ops.len(),
{
    if ops.len() > 0 {
        lemma_good_drop(ops);
        if !(ops.last() is Paren) {
            lemma_good_push(out, ops.last());
            lemma_close_good(out.push(ops.last()), ops.drop_last());
        }
    }
}

proof fn lemma_digit_end_digits(s: Seq<char>, i: nat)
    requires
        i <= s.len(),
    ensures
        i <= digit_end(s, i) <= s.len(),
        forall|j: int| i <= j < digit_end(s, i) ==> is_digit(s[j]),
    decreases s.len() - i,
{
    if i < s.len() && is_digit(s[i as int]) {
        lemma_digit_end_digits(s, i + 1);
    }
}

proof fn lemma_step_good(
    s: Seq<char>,
    table: Option<crate::notation::Symbols>,
    j: nat,
    out: Seq<Token>,
    ops: Seq<Token>,
)
    requires
        all_good(out),
        all_good(ops),
    ensures
        step(s, table, j, out, ops) matches Ok((_, o, p)) ==> all_good(o) && all_good(p),
{
    reveal(step);
    let p = neg_end(s, table, j);
    let n = neg_count(s, table, j);
    if step(s, table, j, out, ops) is Ok {
        if at(s, p, true_chars()) || at(s, p, false_chars()) {
            lemma_good_push(out, Token::Const(n, at(s, p, true_chars())));
        } else if p < s.len() {
            let ops1 = if p > j { ops.push(Token::Tilde(n)) } else { ops };
            if p > j {
                lemma_good_push(ops, Token::Tilde(n));
            }
            let c = s[p as int];
            if is_upper(c) {
                let q = digit_end(s, p + 1);
                lemma_digit_end_digits(s, p + 1);
                let name = s.subrange(p as int, q as int);
                assert forall|k: int| 1 <= k < name.len() implies is_digit(#[trigger] name[k]) by {
                    assert(name[k] == s[p + k]);
                }
                lemma_good_push(out, Token::Var(n, name));
            } else {
                match op_at(s, table, p) {
                    OpMatch::Found(op, len) => {
                        lemma_fold_good(out, ops1, op);
                        let (out2, ops2) = fold(out, ops1, op)->Ok_0;
                        if ops2.len() > 0 && ops2.last() is Tilde {
                            lemma_good_drop(ops2);
                            lemma_good_push(ops2.drop_last(), Token::Op(ops2.last()->Tilde_0, op));
                        } else {
                            lemma_good_push(ops2, Token::Op(0, op));
                        }
                    },
                    _ => {
                        if c == '(' {
                            lemma_good_push(ops1, Token::Paren);
                        } else if c == ')' {
                            lemma_close_good(out, ops1);
                            let (out2, ops2) = close(out, ops1)->Ok_0;
                            if ops2.len() > 0 && ops2.last() is Tilde {
                                lemma_good_drop(ops2);
                                if out2.len() > 0 && out2.last() is Op {
                                    lemma_good_drop(out2);
                                    lemma_good_push(
                                        out2.drop_last(),
                                        Token::Op(merge(out2.last()->Op_0, ops2.last()->Tilde_0), out2.last()->Op_1),
                                    );
                                }
                            }
                        }
                    },
                }
            }
        }
    }
}

proof fn lemma_scan_good(
    s: Seq<char>,
    table: Option<crate::notation::Symbols>,
    i: nat,
    out: Seq<Token>,
    ops: Seq<Token>,
)
    requires
        all_good(out),
        all_good(ops),
    ensures
        scan(s, table, i, out, ops) matches Ok(t) ==> all_good(t),
    decreases s.len() - i,
{
    let j = crate::parser::space_end(s, i);
    if j >= s.len() || i >= s.len() {
        assert forall|k: int| 0 <= k < (out + ops.reverse()).len() implies good(
            #[trigger] (out + ops.reverse())[k],
        ) by {
            if k >= out.len() {
                assert((out + ops.reverse())[k] == ops[ops.len() - 1 - (k - out.len())]);
            }
        }
    } else {
        lemma_step_good(s, table, j, out, ops);
        if let Ok((k, out2, ops2)) = step(s, table, j, out, ops) {
            if i < k <= s.len() {
                lemma_scan_good(s, table, k, out2, ops2);
            }
        }
    }
}

proof fn lemma_build_good(t: Seq<Token>, end: nat)
    requires
        all_good(t),
    ensures
        build(t, end) matches Ok((f, _)) ==> well_named(f),
    decreases end,
{
    if 0 < end <= t.len() {
        assert(good(t[end - 1]));
        if t[end - 1] is Op {
            lemma_build_good(t, (end - 1) as nat);
            lemma_build_shrinks(t, (end - 1) as nat);
            if let Ok((_, e1)) = build(t, (end - 1) as nat) {
                lemma_build_good(t, e1);
            }
        }
    }
}

/// Every formula that the parser reads has variable names only.
pub proof fn lemma_parse_well_named(e: Seq<char>, table: Option<crate::notation::Symbols>)
    ensures
        parse(e, table) matches Ok(f) ==> well_named(f),
{
    lemma_scan_good(e, table, 0, Seq::empty(), Seq::empty());
    if let Ok(t) = scan(e, table, 0, Seq::empty(), Seq::empty()) {
        lemma_build_good(t, t.len());
    }
}

/// A well-named formula printed in the default notation reads back as
/// itself.
pub proof fn lemma_print_parse(f: Formula)
    requires
        well_named(f),
    ensures
        parse(infix_top(f, ascii_symbols()), None) == Ok::<Formula, ParseFault>(f),
{
    let sym = ascii_symbols();
    let s = infix_top(f, sym);
    let empty = Seq::<Token>::empty();
    lemma_build_postfix(empty, f);
    assert(empty + postfix(f) =~= postfix(f));
    if f is Op && f->Op_neg == 0 {
        let op = f->Op_op;
        let left = *f->Op_left;
        let right = *f->Op_right;
        let pl = infix_of(left, sym);
        let pr = infix_of(right, sym);
        let o = op_symbol(op, sym);
        assert(s == pl + o + pr);
        lemma_printed_shape(left);
        lemma_printed_shape(right);
        assert(s.subrange(0, pl.len() as int) =~= pl);
        assert(s[pl.len() as int] == o[0]);
        lemma_scan_term(s, left, 0, empty, empty);
        let out1 = empty + postfix(left);
        let j = pl.len();
        assert forall|q: int| 0 <= q < o.len() implies s[j + q] == o[q] by {}
        lemma_step_connective(s, j, op, out1, empty);
        assert(!is_space(s[j as int]));
        lemma_scan_unfold(s, j, out1, empty);
        let ops1 = empty.push(Token::Op(0, op));
        assert(s.subrange((j + o.len()) as int, s.len() as int) =~= pr);
        lemma_scan_term(s, right, (j + o.len()) as nat, out1, ops1);
        let out2 = out1 + postfix(right);
        assert(ops1.reverse() =~= ops1);
        assert(out2 + ops1.reverse() =~= postfix(f));
        assert(scan(s, None, s.len(), out2, ops1) == Ok::<Seq<Token>, ParseFault>(out2 + ops1.reverse()));
    } else {
        assert(s == infix_of(f, sym));
        lemma_printed_shape(f);
        assert(s.subrange(0, s.len() as int) =~= s);
        lemma_scan_term(s, f, 0, empty, empty);
        assert(empty.reverse() =~= empty);
        assert(postfix(f) + empty.reverse() =~= postfix(f));
        assert(scan(s, None, s.len(), postfix(f), empty) == Ok::<Seq<Token>, ParseFault>(postfix(f) + empty.reverse()));
    }
}

} // verus!
