//! The token priority order, the value that greedy token stripping assigns to
//! a string, and the proof that it assigns each canonical form its number.
use crate::numeral::{digit_form, form, rep};
use crate::strip::{
    lacks, lemma_lacks_concat, lemma_no_pair, lemma_strip_absent, lemma_strip_len,
    lemma_strip_pair, lemma_strip_run, no_pair, strip,
};
use vstd::prelude::*;

verus! {

/// Number of tokens in the priority order.
pub const TOKEN_COUNT: usize = 13;

/// The `k`-th token of the priority order.
pub open spec fn token(k: int) -> Seq<char> {
    if k == 0 {
        seq!['C', 'M']
    } else if k == 1 {
        seq!['M']
    } else if k == 2 {
        seq!['C', 'D']
    } else if k == 3 {
        seq!['D']
    } else if k == 4 {
        seq!['X', 'C']
    } else if k == 5 {
        seq!['C']
    } else if k == 6 {
        seq!['X', 'L']
    } else if k == 7 {
        seq!['L']
    } else if k == 8 {
        seq!['I', 'X']
    } else if k == 9 {
        seq!['X']
    } else if k == 10 {
        seq!['I', 'V']
    } else if k == 11 {
        seq!['V']
    } else {
        seq!['I']
    }
}

/// The decimal value of the `k`-th token of the priority order.
pub open spec fn worth(k: int) -> nat {
    if k == 0 {
        900
    } else if k == 1 {
        1000
    } else if k == 2 {
        400
    } else if k == 3 {
        500
    } else if k == 4 {
        90
    } else if k == 5 {
        100
    } else if k == 6 {
        40
    } else if k == 7 {
        50
    } else if k == 8 {
        9
    } else if k == 9 {
        10
    } else if k == 10 {
        4
    } else if k == 11 {
        5
    } else {
        1
    }
}

/// The total that stripping the tokens from the `k`-th on adds for `s`.
pub open spec fn reduce_from(s: Seq<char>, k: int) -> nat
    decreases 13 - k,
{
    if k < 0 || k >= 13 {
        0
    } else {
        let r = strip(s, token(k));
        worth(k) * r.1 + reduce_from(r.0, k + 1)
    }
}

/// The value that greedy token stripping assigns to `s`: each token of the
/// priority order in turn is removed wherever it occurs, and its value counted.
pub open spec fn reduce(s: Seq<char>) -> nat {
    reduce_from(s, 0)
}

/// No letter adds more than 1000 to the value that stripping assigns.
pub proof fn lemma_reduce_bound(s: Seq<char>, k: int)
    ensures
        reduce_from(s, k) <= 1000 * s.len(),
    decreases 13 - k,
{
    if 0 <= k < 13 {
        let r = strip(s, token(k));
        lemma_strip_len(s, token(k));
        lemma_reduce_bound(r.0, k + 1);
        let tl = token(k).len();
        assert(worth(k) * r.1 <= 1000 * (r.1 * tl)) by (nonlinear_arith)
            requires
                worth(k) <= 1000,
                tl >= 1,
        ;
    }
}

spec fn is9(d: nat) -> nat {
    if d == 9 { 1 } else { 0 }
}

spec fn is4(d: nat) -> nat {
    if d == 4 { 1 } else { 0 }
}

spec fn fives(d: nat) -> nat {
    if 5 <= d <= 8 { 1 } else { 0 }
}

spec fn ones(d: nat) -> nat {
    if d == 4 || d == 9 { 0 } else { d % 5 }
}

spec fn nine_gone(d: nat, one: char, five: char, ten: char) -> Seq<char> {
    if d == 9 { seq![] } else { digit_form(d, one, five, ten) }
}

spec fn four_gone(d: nat, one: char, five: char) -> Seq<char> {
    rep(five, fives(d)) + rep(one, ones(d))
}

proof fn lemma_form_lacks(d: nat, one: char, five: char, ten: char, c: char)
    requires
        d <= 9,
        c != one,
        c != five,
    ensures
        lacks(nine_gone(d, one, five, ten), c),
        c != ten ==> lacks(digit_form(d, one, five, ten), c),
{
    if d >= 5 && d != 9 {
        lemma_lacks_concat(seq![five], rep(one, (d - 5) as nat), c);
    }
}

proof fn lemma_step_nine(d: nat, p: Seq<char>, q: Seq<char>, one: char, five: char, ten: char)
    requires
        d <= 9,
        one != five,
        one != ten,
        five != ten,
        lacks(p, one),
        lacks(q, ten),
    ensures
        strip(p + digit_form(d, one, five, ten) + q, seq![one, ten]) == (
        p + nine_gone(d, one, five, ten) + q,
        is9(d),
        ),
{
    let f = digit_form(d, one, five, ten);
    if d == 9 {
        lemma_no_pair(p, q, one, ten);
        lemma_strip_pair(p, one, ten, q);
        assert(p + nine_gone(d, one, five, ten) + q == p + q);
    } else {
        lemma_form_lacks(d, one, five, ten, ten);
        lemma_lacks_concat(f, q, ten);
        lemma_no_pair(p, f + q, one, ten);
        assert(p + f + q == p + (f + q));
        lemma_strip_absent(p + f + q, seq![one, ten]);
    }
}

proof fn lemma_step_four(d: nat, q: Seq<char>, one: char, five: char, ten: char)
    requires
        d <= 9,
        one != five,
        one != ten,
        five != ten,
        lacks(q, five),
    ensures
        strip(nine_gone(d, one, five, ten) + q, seq![one, five]) == (
        four_gone(d, one, five) + q,
        is4(d),
        ),
{
    let e: Seq<char> = seq![];
    lemma_no_pair(e, q, one, five);
    if d == 4 {
        lemma_strip_pair(e, one, five, q);
        assert(e + seq![one, five] + q == nine_gone(d, one, five, ten) + q);
        assert(four_gone(d, one, five) + q == e + q);
    } else if d == 9 {
        assert(nine_gone(d, one, five, ten) + q == e + q);
        assert(four_gone(d, one, five) + q == e + q);
        lemma_strip_absent(e + q, seq![one, five]);
    } else {
        let a = rep(five, fives(d));
        let b = rep(one, ones(d));
        if d >= 5 {
            assert(nine_gone(d, one, five, ten) == a + b);
        } else {
            assert(nine_gone(d, one, five, ten) == a + b);
        }
        lemma_lacks_concat(b, q, five);
        lemma_no_pair(a, b + q, one, five);
        assert(a + b + q == a + (b + q));
        lemma_strip_absent(a + b + q, seq![one, five]);
    }
}

proof fn lemma_step_five(d: nat, q: Seq<char>, one: char, five: char)
    requires
        one != five,
        lacks(q, five),
    ensures
        strip(four_gone(d, one, five) + q, seq![five]) == (rep(one, ones(d)) + q, fives(d)),
{
    let b = rep(one, ones(d));
    lemma_lacks_concat(b, q, five);
    assert(four_gone(d, one, five) + q == rep(five, fives(d)) + (b + q));
    lemma_strip_run(five, fives(d), b + q);
}

/// The working string after the first `k` tokens of the priority order have
/// been stripped from the numeral with `m` thousands and digits `h`, `t`, `u`.
spec fn stage(m: nat, h: nat, t: nat, u: nat, k: int) -> Seq<char> {
    let fh = digit_form(h, 'C', 'D', 'M');
    let ft = digit_form(t, 'X', 'L', 'C');
    let fu = digit_form(u, 'I', 'V', 'X');
    if k == 0 {
        rep('M', m) + fh + (ft + fu)
    } else if k == 1 {
        rep('M', m) + (nine_gone(h, 'C', 'D', 'M') + (ft + fu))
    } else if k == 2 {
        nine_gone(h, 'C', 'D', 'M') + (ft + fu)
    } else if k == 3 {
        four_gone(h, 'C', 'D') + (ft + fu)
    } else if k == 4 {
        rep('C', ones(h)) + ft + fu
    } else if k == 5 {
        rep('C', ones(h)) + (nine_gone(t, 'X', 'L', 'C') + fu)
    } else if k == 6 {
        nine_gone(t, 'X', 'L', 'C') + fu
    } else if k == 7 {
        four_gone(t, 'X', 'L') + fu
    } else if k == 8 {
        rep('X', ones(t)) + fu + seq![]
    } else if k == 9 {
        rep('X', ones(t)) + (nine_gone(u, 'I', 'V', 'X') + seq![])
    } else if k == 10 {
        nine_gone(u, 'I', 'V', 'X') + seq![]
    } else if k == 11 {
        four_gone(u, 'I', 'V') + seq![]
    } else if k == 12 {
        rep('I', ones(u)) + seq![]
    } else {
        seq![]
    }
}

/// How many times the `k`-th token occurs, as stripping reaches it.
spec fn count(m: nat, h: nat, t: nat, u: nat, k: int) -> nat {
    if k == 0 {
        is9(h)
    } else if k == 1 {
        m
    } else if k == 2 {
        is4(h)
    } else if k == 3 {
        fives(h)
    } else if k == 4 {
        is9(t)
    } else if k == 5 {
        ones(h)
    } else if k == 6 {
        is4(t)
    } else if k == 7 {
        fives(t)
    } else if k == 8 {
        is9(u)
    } else if k == 9 {
        ones(t)
    } else if k == 10 {
        is4(u)
    } else if k == 11 {
        fives(u)
    } else {
        ones(u)
    }
}

spec fn tail(m: nat, h: nat, t: nat, u: nat, k: int) -> nat
    decreases 13 - k,
{
    if k < 0 || k >= 13 {
        0
    } else {
        worth(k) * count(m, h, t, u, k) + tail(m, h, t, u, k + 1)
    }
}

proof fn lemma_step(m: nat, h: nat, t: nat, u: nat, k: int)
    requires
        h <= 9,
        t <= 9,
        u <= 9,
        0 <= k < 13,
    ensures
        strip(stage(m, h, t, u, k), token(k)) == (stage(m, h, t, u, k + 1), count(m, h, t, u, k)),
{
    let fh = digit_form(h, 'C', 'D', 'M');
    let ft = digit_form(t, 'X', 'L', 'C');
    let fu = digit_form(u, 'I', 'V', 'X');
    let e: Seq<char> = seq![];
    lemma_form_lacks(h, 'C', 'D', 'M', 'X');
    lemma_form_lacks(h, 'C', 'D', 'M', 'I');
    lemma_form_lacks(t, 'X', 'L', 'C', 'M');
    lemma_form_lacks(t, 'X', 'L', 'C', 'D');
    lemma_form_lacks(t, 'X', 'L', 'C', 'I');
    lemma_form_lacks(u, 'I', 'V', 'X', 'M');
    lemma_form_lacks(u, 'I', 'V', 'X', 'D');
    lemma_form_lacks(u, 'I', 'V', 'X', 'C');
    lemma_form_lacks(u, 'I', 'V', 'X', 'L');
    lemma_lacks_concat(ft, fu, 'M');
    lemma_lacks_concat(ft, fu, 'D');
    if k == 0 {
        lemma_step_nine(h, rep('M', m), ft + fu, 'C', 'D', 'M');
    } else if k == 1 {
        lemma_form_lacks(h, 'C', 'D', 'M', 'M');
        lemma_lacks_concat(nine_gone(h, 'C', 'D', 'M'), ft + fu, 'M');
        lemma_strip_run('M', m, nine_gone(h, 'C', 'D', 'M') + (ft + fu));
    } else if k == 2 {
        lemma_step_four(h, ft + fu, 'C', 'D', 'M');
    } else if k == 3 {
        lemma_step_five(h, ft + fu, 'C', 'D');
    } else if k == 4 {
        lemma_step_nine(t, rep('C', ones(h)), fu, 'X', 'L', 'C');
    } else if k == 5 {
        lemma_form_lacks(t, 'X', 'L', 'C', 'C');
        lemma_lacks_concat(nine_gone(t, 'X', 'L', 'C'), fu, 'C');
        lemma_strip_run('C', ones(h), nine_gone(t, 'X', 'L', 'C') + fu);
    } else if k == 6 {
        lemma_step_four(t, fu, 'X', 'L', 'C');
    } else if k == 7 {
        lemma_step_five(t, fu, 'X', 'L');
    } else if k == 8 {
        lemma_step_nine(u, rep('X', ones(t)), e, 'I', 'V', 'X');
    } else if k == 9 {
        lemma_form_lacks(u, 'I', 'V', 'X', 'X');
        lemma_lacks_concat(nine_gone(u, 'I', 'V', 'X'), e, 'X');
        lemma_strip_run('X', ones(t), nine_gone(u, 'I', 'V', 'X') + e);
    } else if k == 10 {
        lemma_step_four(u, e, 'I', 'V', 'X');
    } else if k == 11 {
        lemma_step_five(u, e, 'I', 'V');
    } else {
        lemma_strip_run('I', ones(u), e);
        assert(stage(m, h, t, u, 13) == e);
    }
}

proof fn lemma_reduce_stage(m: nat, h: nat, t: nat, u: nat, k: int)
    requires
        h <= 9,
        t <= 9,
        u <= 9,
        0 <= k <= 13,
    ensures
        reduce_from(stage(m, h, t, u, k), k) == tail(m, h, t, u, k),
    decreases 13 - k,
{
    if k < 13 {
        lemma_step(m, h, t, u, k);
        lemma_reduce_stage(m, h, t, u, k + 1);
    }
}

proof fn lemma_digit_parts(d: nat)
    requires
        d <= 9,
    ensures
        9 * is9(d) + 4 * is4(d) + 5 * fives(d) + ones(d) == d,
{
}

/// Greedy token stripping assigns each canonical form its number.
pub proof fn lemma_reduce_form(m: nat, h: nat, t: nat, u: nat)
    requires
        h <= 9,
        t <= 9,
        u <= 9,
    ensures
        reduce(form(m, h, t, u)) == 1000 * m + 100 * h + 10 * t + u,
{
    assert(form(m, h, t, u) == stage(m, h, t, u, 0));
    lemma_reduce_stage(m, h, t, u, 0);
    lemma_digit_parts(h);
    lemma_digit_parts(t);
    lemma_digit_parts(u);
    reveal_with_fuel(tail, 14);
}

} // verus!
