//! The mathematical model of standard-form Roman numerals: the canonical
//! rendering of a number, the positional grammar, and the value of a numeral.
use vstd::arithmetic::div_mod::lemma_fundamental_div_mod_converse;
use vstd::prelude::*;

verus! {

/// `n` copies of the letter `c`.
pub open spec fn rep(c: char, n: nat) -> Seq<char> {
    Seq::new(n, |_i: int| c)
}

/// The canonical letters of one decimal digit `d`, written with the letters
/// worth one, five and ten of its position.
pub open spec fn digit_form(d: nat, one: char, five: char, ten: char) -> Seq<char> {
    if d == 9 {
        seq![one, ten]
    } else if d == 4 {
        seq![one, five]
    } else if d >= 5 {
        seq![five] + rep(one, (d - 5) as nat)
    } else {
        rep(one, d)
    }
}

pub open spec fn hundreds_form(d: nat) -> Seq<char> {
    digit_form(d, 'C', 'D', 'M')
}

pub open spec fn tens_form(d: nat) -> Seq<char> {
    digit_form(d, 'X', 'L', 'C')
}

pub open spec fn units_form(d: nat) -> Seq<char> {
    digit_form(d, 'I', 'V', 'X')
}

/// The numeral with `m` thousands and the digits `h`, `t`, `u`.
pub open spec fn form(m: nat, h: nat, t: nat, u: nat) -> Seq<char> {
    rep('M', m) + hundreds_form(h) + tens_form(t) + units_form(u)
}

/// The canonical Roman form of `v` (for `v` from 1 to 3999).
pub open spec fn numeral(v: nat) -> Seq<char> {
    form(v / 1000, (v / 100) % 10, (v / 10) % 10, v % 10)
}

/// One positional group: `one ten`, `one five`, or an optional `five`
/// followed by zero to three `one`.
pub open spec fn group(g: Seq<char>, one: char, five: char, ten: char) -> bool {
    ||| g == seq![one, ten]
    ||| g == seq![one, five]
    ||| exists|k: nat| k <= 3 && #[trigger] rep(one, k) == g
    ||| exists|k: nat| k <= 3 && seq![five] + #[trigger] rep(one, k) == g
}

/// The grammar of a standard-form numeral: zero to three `M`, then a hundreds,
/// a tens and a units group, consuming the whole input, which is not empty.
pub open spec fn is_roman(s: Seq<char>) -> bool {
    &&& s.len() > 0
    &&& exists|m: nat, h: Seq<char>, t: Seq<char>, u: Seq<char>|
        #![trigger rep('M', m) + h + t + u]
        m <= 3 && group(h, 'C', 'D', 'M') && group(t, 'X', 'L', 'C') && group(u, 'I', 'V', 'X')
            && s == rep('M', m) + h + t + u
}

/// The number whose canonical form is `s`.
pub open spec fn roman_value(s: Seq<char>) -> nat
    recommends
        is_roman(s),
{
    choose|v: nat| 1 <= v <= 3999 && numeral(v) == s
}

pub proof fn lemma_group_digit(g: Seq<char>, one: char, five: char, ten: char) -> (d: nat)
    requires
        group(g, one, five, ten),
    ensures
        d <= 9,
        g == digit_form(d, one, five, ten),
{
    if g == seq![one, ten] {
        9
    } else if g == seq![one, five] {
        4
    } else if exists|k: nat| k <= 3 && #[trigger] rep(one, k) == g {
        let k = choose|k: nat| k <= 3 && #[trigger] rep(one, k) == g;
        k
    } else {
        let k = choose|k: nat| k <= 3 && seq![five] + #[trigger] rep(one, k) == g;
        assert((k + 5 - 5) as nat == k);
        k + 5
    }
}

pub proof fn lemma_digit_group(d: nat, one: char, five: char, ten: char)
    requires
        d <= 9,
    ensures
        group(digit_form(d, one, five, ten), one, five, ten),
        digit_form(d, one, five, ten).len() == 0 <==> d == 0,
{
    if d == 9 || d == 4 {
    } else if d >= 5 {
        let k = (d - 5) as nat;
        assert(seq![five] + rep(one, k) == digit_form(d, one, five, ten));
    } else {
        assert(rep(one, d) == digit_form(d, one, five, ten));
    }
}

pub proof fn lemma_digits(v: nat)
    requires
        v <= 3999,
    ensures
        v == 1000 * (v / 1000) + 100 * ((v / 100) % 10) + 10 * ((v / 10) % 10) + v % 10,
        v / 1000 <= 3,
{
}

proof fn lemma_digits_of(m: nat, h: nat, t: nat, u: nat)
    requires
        m <= 3,
        h <= 9,
        t <= 9,
        u <= 9,
    ensures
        ({
            let v = 1000 * m + 100 * h + 10 * t + u;
            v / 1000 == m && (v / 100) % 10 == h && (v / 10) % 10 == t && v % 10 == u && v <= 3999
        }),
{
    let v = 1000 * m + 100 * h + 10 * t + u;
    lemma_fundamental_div_mod_converse(v as int, 10, (100 * m + 10 * h + t) as int, u as int);
    lemma_fundamental_div_mod_converse((v / 10) as int, 10, (10 * m + h) as int, t as int);
    lemma_fundamental_div_mod_converse(v as int, 100, (10 * m + h) as int, (10 * t + u) as int);
    lemma_fundamental_div_mod_converse((v / 100) as int, 10, m as int, h as int);
    lemma_fundamental_div_mod_converse(v as int, 1000, m as int, (100 * h + 10 * t + u) as int);
}

/// The grammar accepts exactly the canonical forms of the numbers 1 to 3999.
pub proof fn lemma_roman_iff_numeral(s: Seq<char>)
    ensures
        is_roman(s) <==> exists|v: nat| 1 <= v <= 3999 && #[trigger] numeral(v) == s,
{
    if is_roman(s) {
        let (m, h, t, u) = choose|m: nat, h: Seq<char>, t: Seq<char>, u: Seq<char>|
            #![trigger rep('M', m) + h + t + u]
            m <= 3 && group(h, 'C', 'D', 'M') && group(t, 'X', 'L', 'C') && group(
                u,
                'I',
                'V',
                'X',
            ) && s == rep('M', m) + h + t + u;
        let dh = lemma_group_digit(h, 'C', 'D', 'M');
        let dt = lemma_group_digit(t, 'X', 'L', 'C');
        let du = lemma_group_digit(u, 'I', 'V', 'X');
        lemma_digits_of(m, dh, dt, du);
        let v = 1000 * m + 100 * dh + 10 * dt + du;
        lemma_digit_group(dh, 'C', 'D', 'M');
        lemma_digit_group(dt, 'X', 'L', 'C');
        lemma_digit_group(du, 'I', 'V', 'X');
        assert(numeral(v) == s);
        assert(v >= 1) by {
            if v == 0 {
                assert(s.len() == 0);
            }
        }
    }
    if exists|v: nat| 1 <= v <= 3999 && #[trigger] numeral(v) == s {
        let v = choose|v: nat| 1 <= v <= 3999 && #[trigger] numeral(v) == s;
        lemma_digits(v);
        let (m, dh, dt, du) = (v / 1000, (v / 100) % 10, (v / 10) % 10, v % 10);
        lemma_digit_group(dh, 'C', 'D', 'M');
        lemma_digit_group(dt, 'X', 'L', 'C');
        lemma_digit_group(du, 'I', 'V', 'X');
        let (h, t, u) = (hundreds_form(dh), tens_form(dt), units_form(du));
        assert(s == rep('M', m) + h + t + u);
        assert(s.len() > 0) by {
            if s.len() == 0 {
                assert(rep('M', m).len() == 0);
            }
        }
    }
}

} // verus!
