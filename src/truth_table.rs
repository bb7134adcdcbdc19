use vstd::prelude::*;

use crate::node::{eval, names_in, Formula};
use crate::var_map::{lemma_to_map_dom, lemma_to_map_index, to_map};

verus! {

pub open spec fn pow2(n: nat) -> nat
    decreases n,
{
    if n == 0 {
        1
    } else {
        2 * pow2((n - 1) as nat)
    }
}

/// The `i`-th assignment of `n` variables: the first variable is the
/// lowest bit, so it changes fastest.
pub open spec fn bits_of(i: nat, n: nat) -> Seq<bool>
    decreases n,
{
    if n == 0 {
        Seq::empty()
    } else {
        seq![i % 2 == 1] + bits_of(i / 2, (n - 1) as nat)
    }
}

/// One step of the binary counter: the first `false` becomes `true` and
/// the `true`s before it `false`; the flag says that it ran past the end.
pub open spec fn incr(b: Seq<bool>) -> (Seq<bool>, bool)
    decreases b.len(),
{
    if b.len() == 0 {
        (b, true)
    } else if !b[0] {
        (b.update(0, true), false)
    } else {
        let (r, c) = incr(b.drop_first());
        (seq![false] + r, c)
    }
}

/// Every assignment of the variables `names`, in enumeration order.
pub open spec fn table(names: Seq<Seq<char>>) -> Seq<Map<Seq<char>, bool>> {
    Seq::new(pow2(names.len()), |i: int| to_map(names, bits_of(i as nat, names.len())))
}

/// The position of an assignment in enumeration order.
pub open spec fn index_of_bits(b: Seq<bool>) -> nat
    decreases b.len(),
{
    if b.len() == 0 {
        0
    } else {
        (if b[0] { 1nat } else { 0nat }) + 2 * index_of_bits(b.drop_first())
    }
}

pub proof fn lemma_pow2_pos(n: nat)
    ensures
        pow2(n) >= 1,
    decreases n,
{
    if n > 0 {
        lemma_pow2_pos((n - 1) as nat);
    }
}

pub proof fn lemma_bits_len(i: nat, n: nat)
    ensures
        bits_of(i, n).len() == n,
    decreases n,
{
    if n > 0 {
        lemma_bits_len(i / 2, (n - 1) as nat);
    }
}

pub proof fn lemma_bits_zero(n: nat)
    ensures
        bits_of(0, n) == Seq::new(n, |j: int| false),
    decreases n,
{
    if n > 0 {
        lemma_bits_zero((n - 1) as nat);
        assert(bits_of(0, n) =~= Seq::new(n, |j: int| false));
    } else {
        assert(bits_of(0, n) =~= Seq::new(n, |j: int| false));
    }
}

/// The counter step moves each assignment to the next one, and the last
/// one past the end.
pub proof fn lemma_incr(i: nat, n: nat)
    requires
        i < pow2(n),
    ensures
        incr(bits_of(i, n)) == if i + 1 < pow2(n) {
            (bits_of(i + 1, n), false)
        } else {
            (bits_of(0, n), true)
        },
    decreases n,
{
    if n > 0 {
        let b = bits_of(i, n);
        let rest = bits_of(i / 2, (n - 1) as nat);
        assert(b.drop_first() =~= rest);
        lemma_bits_len(i / 2, (n - 1) as nat);
        if i % 2 == 0 {
            assert(b.update(0, true) =~= seq![true] + rest);
            assert((i + 1) / 2 == i / 2);
            assert(i + 1 < pow2(n));
        } else {
            lemma_incr(i / 2, (n - 1) as nat);
            assert((i + 1) / 2 == i / 2 + 1);
            assert((i + 1) % 2 == 0);
            assert((i + 1 < pow2(n)) == (i / 2 + 1 < pow2((n - 1) as nat)));
        }
    }
}

/// Every assignment has its place in enumeration order.
pub proof fn lemma_index_of_bits(b: Seq<bool>)
    ensures
        index_of_bits(b) < pow2(b.len()),
        bits_of(index_of_bits(b), b.len()) == b,
    decreases b.len(),
{
    if b.len() > 0 {
        let rest = b.drop_first();
        lemma_index_of_bits(rest);
        let i = index_of_bits(b);
        assert(i / 2 == index_of_bits(rest));
        assert((i % 2 == 1) == b[0]);
        assert(bits_of(i, b.len()) =~= b);
    }
}

/// Whether an assignment gives a value to exactly the names of `names`.
pub open spec fn over(env: Map<Seq<char>, bool>, names: Seq<Seq<char>>) -> bool {
    env.dom() == names.to_set()
}

pub proof fn lemma_table_over(names: Seq<Seq<char>>, i: int)
    requires
        0 <= i < pow2(names.len()),
    ensures
        over(table(names)[i], names),
{
    lemma_to_map_dom(names, bits_of(i as nat, names.len()));
}

/// Every assignment over distinct names stands in the table.
pub proof fn lemma_table_complete(names: Seq<Seq<char>>, env: Map<Seq<char>, bool>) -> (i: int)
    requires
        names.no_duplicates(),
        over(env, names),
    ensures
        0 <= i < pow2(names.len()),
        table(names)[i] == env,
{
    let b = Seq::new(names.len(), |k: int| env[names[k]]);
    lemma_index_of_bits(b);
    let i = index_of_bits(b) as int;
    let m = to_map(names, b);
    lemma_to_map_dom(names, b);
    assert forall|k| m.contains_key(k) implies env.contains_key(k) && m[k] == env[k] by {
        let j = choose|j: int| 0 <= j < names.len() && names[j] == k;
        lemma_to_map_index(names, b, j);
    }
    assert(m.dom() =~= env.dom());
    assert(m =~= env);
    i
}

/// A formula whose names all have values evaluates without error.
pub proof fn lemma_eval_total(f: Formula, env: Map<Seq<char>, bool>)
    requires
        names_in(f).subset_of(env.dom()),
    ensures
        eval(f, env) is Ok,
    decreases f,
{
    match f {
        Formula::Op { left, right, .. } => {
            lemma_eval_total(*left, env);
            lemma_eval_total(*right, env);
        },
        _ => {},
    }
}

proof fn lemma_incr_skip(b: Seq<bool>, k: int)
    requires
        0 <= k <= b.len(),
        forall|j: int| 0 <= j < k ==> b[j],
    ensures
        incr(b) == (Seq::new(k as nat, |j: int| false) + incr(b.subrange(k, b.len() as int)).0, incr(
            b.subrange(k, b.len() as int),
        ).1),
    decreases k,
{
    if k == 0 {
        assert(b.subrange(0, b.len() as int) =~= b);
        assert(Seq::new(0, |j: int| false) + incr(b).0 =~= incr(b).0);
    } else {
        let rest = b.drop_first();
        lemma_incr_skip(rest, k - 1);
        assert(rest.subrange(k - 1, rest.len() as int) =~= b.subrange(k, b.len() as int));
        assert(seq![false] + (Seq::new((k - 1) as nat, |j: int| false) + incr(
            b.subrange(k, b.len() as int),
        ).0) =~= Seq::new(k as nat, |j: int| false) + incr(b.subrange(k, b.len() as int)).0);
    }
}

/// Moves the assignment to the next one in enumeration order; returns
/// whether it ran past the last one (and is all `false` again).
pub fn advance(bits: &mut Vec<bool>) -> (carry: bool)
    ensures
        (final(bits)@, carry) == incr(old(bits)@),
{
    let mut k: usize = 0;
    while k < bits.len() && bits[k]
        invariant
            k <= bits@.len(),
            bits@.len() == old(bits)@.len(),
            forall|j: int| 0 <= j < k ==> !bits@[j],
            forall|j: int| k <= j < bits@.len() ==> bits@[j] == old(bits)@[j],
            forall|j: int| 0 <= j < k ==> old(bits)@[j],
        decreases bits@.len() - k,
    {
        bits.set(k, false);
        k = k + 1;
    }
    let ghost tail = old(bits)@.subrange(k as int, old(bits)@.len() as int);
    proof {
        lemma_incr_skip(old(bits)@, k as int);
    }
    if k == bits.len() {
        assert(tail.len() == 0);
        assert(bits@ =~= Seq::new(k as nat, |j: int| false) + incr(tail).0);
        true
    } else {
        bits.set(k, true);
        assert(!tail[0]);
        assert(bits@ =~= Seq::new(k as nat, |j: int| false) + incr(tail).0);
        false
    }
}

/// Base of the words of a counter.
pub open spec fn word_base() -> int {
    0x1_0000_0000_0000_0000
}

/// The number that little-endian 64-bit words spell.
pub open spec fn words_value(w: Seq<u64>) -> int
    decreases w.len(),
{
    if w.len() == 0 {
        0
    } else {
        w[0] as int + word_base() * words_value(w.drop_first())
    }
}

pub open spec fn incr_words(w: Seq<u64>) -> Seq<u64>
    decreases w.len(),
{
    if w.len() == 0 {
        seq![1u64]
    } else if w[0] < u64::MAX {
        w.update(0, (w[0] + 1) as u64)
    } else {
        seq![0u64] + incr_words(w.drop_first())
    }
}

proof fn lemma_incr_words(w: Seq<u64>)
    ensures
        words_value(incr_words(w)) == words_value(w) + 1,
    decreases w.len(),
{
    reveal_with_fuel(words_value, 2);
    if w.len() > 0 {
        if w[0] < u64::MAX {
            assert(w.update(0, (w[0] + 1) as u64).drop_first() =~= w.drop_first());
        } else {
            lemma_incr_words(w.drop_first());
            assert((seq![0u64] + incr_words(w.drop_first())).drop_first() =~= incr_words(
                w.drop_first(),
            ));
        }
    } else {
        assert(seq![1u64].drop_first() =~= Seq::<u64>::empty());
    }
}

proof fn lemma_incr_words_skip(w: Seq<u64>, k: int)
    requires
        0 <= k <= w.len(),
        forall|j: int| 0 <= j < k ==> w[j] == u64::MAX,
    ensures
        incr_words(w) == Seq::new(k as nat, |j: int| 0u64) + incr_words(w.subrange(k, w.len() as int)),
    decreases k,
{
    if k == 0 {
        assert(w.subrange(0, w.len() as int) =~= w);
        assert(Seq::new(0, |j: int| 0u64) + incr_words(w) =~= incr_words(w));
    } else {
        let rest = w.drop_first();
        lemma_incr_words_skip(rest, k - 1);
        assert(rest.subrange(k - 1, rest.len() as int) =~= w.subrange(k, w.len() as int));
        assert(seq![0u64] + (Seq::new((k - 1) as nat, |j: int| 0u64) + incr_words(
            w.subrange(k, w.len() as int),
        )) =~= Seq::new(k as nat, |j: int| 0u64) + incr_words(w.subrange(k, w.len() as int)));
    }
}

/// Adds one to a counter of little-endian 64-bit words.
pub fn count_up(w: &mut Vec<u64>)
    ensures
        words_value(final(w)@) == words_value(old(w)@) + 1,
{
    let mut k: usize = 0;
    while k < w.len() && w[k] == u64::MAX
        invariant
            k <= w@.len(),
            w@.len() == old(w)@.len(),
            forall|j: int| 0 <= j < k ==> w@[j] == 0,
            forall|j: int| k <= j < w@.len() ==> w@[j] == old(w)@[j],
            forall|j: int| 0 <= j < k ==> old(w)@[j] == u64::MAX,
        decreases w@.len() - k,
    {
        w.set(k, 0);
        k = k + 1;
    }
    let ghost tail = old(w)@.subrange(k as int, old(w)@.len() as int);
    proof {
        lemma_incr_words_skip(old(w)@, k as int);
        lemma_incr_words(old(w)@);
    }
    if k == w.len() {
        w.push(1);
        assert(w@ =~= Seq::new(k as nat, |j: int| 0u64) + incr_words(tail));
    } else {
        let x = w[k];
        w.set(k, x + 1);
        assert(w@ =~= Seq::new(k as nat, |j: int| 0u64) + incr_words(tail));
    }
}

} // verus!
