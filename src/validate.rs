//! The validator: whether a string is a standard-form Roman numeral.
use crate::convert::chars_of;
use crate::numeral::{
    digit_form, hundreds_form, is_roman, lemma_digit_group, lemma_digits, lemma_roman_iff_numeral,
    numeral, rep, roman_value, tens_form, units_form,
};
use vstd::prelude::*;

verus! {

/// `r` is empty or opens with a letter that is none of `one`, `five`, `ten`.
spec fn closes_group(r: Seq<char>, one: char, five: char, ten: char) -> bool {
    r.len() == 0 || (r[0] != one && r[0] != five && r[0] != ten)
}

proof fn lemma_group_shape(d: nat, r: Seq<char>, one: char, five: char, ten: char)
    requires
        d <= 9,
        closes_group(r, one, five, ten),
    ensures
        ({
            let t = digit_form(d, one, five, ten) + r;
            let f: int = if 5 <= d <= 8 { 1 } else { 0 };
            let o: int = if d >= 5 { d - 5 } else { d as int };
            &&& d == 9 ==> t.len() >= 2 && t[0] == one && t[1] == ten
            &&& d == 4 ==> t.len() >= 2 && t[0] == one && t[1] == five
            &&& d != 4 && d != 9 ==> {
                &&& digit_form(d, one, five, ten).len() == f + o
                &&& t.len() >= f + o
                &&& f == 1 ==> t[0] == five
                &&& forall|l: int| f <= l < f + o ==> t[l] == one
                &&& t.len() > f + o ==> t[f + o] != one && t[f + o] != five && t[f + o] != ten
            }
        }),
{
    let g = digit_form(d, one, five, ten);
    let t = g + r;
    if d != 4 && d != 9 {
        assert forall|l: int| 0 <= l < g.len() implies t[l] == g[l] by {}
        assert forall|l: int| g.len() <= l < t.len() implies t[l] == r[l - g.len()] by {}
    }
}

/// Reads one positional group at `i`: returns where it ends and its digit.
/// Where the letters from `i` on are the group of the digit `d2` followed by
/// text `r` that cannot continue the group, it reads exactly that group.
fn scan_group(
    s: &Vec<char>,
    i: usize,
    one: char,
    five: char,
    ten: char,
    Ghost(d2): Ghost<nat>,
    Ghost(r): Ghost<Seq<char>>,
) -> (res: (usize, u64))
    requires
        i <= s@.len(),
        one != five,
        one != ten,
        five != ten,
    ensures
        i <= res.0 <= s@.len(),
        res.1 <= 9,
        s@.subrange(i as int, res.0 as int) == digit_form(res.1 as nat, one, five, ten),
        d2 <= 9 && closes_group(r, one, five, ten) && s@.subrange(i as int, s@.len() as int)
            == digit_form(d2, one, five, ten) + r ==> res.0 == i + digit_form(
            d2,
            one,
            five,
            ten,
        ).len() && res.1 == d2,
{
    let ghost hyp = d2 <= 9 && closes_group(r, one, five, ten) && s@.subrange(
        i as int,
        s@.len() as int,
    ) == digit_form(d2, one, five, ten) + r;
    let ghost t = s@.subrange(i as int, s@.len() as int);
    proof {
        assert forall|l: int| 0 <= l < t.len() implies t[l] == s@[i + l] by {}
        if hyp {
            lemma_group_shape(d2, r, one, five, ten);
        }
    }
    let len = s.len();
    if len - i >= 2 && s[i] == one && s[i + 1] == ten {
        assert(s@.subrange(i as int, i + 2) =~= digit_form(9, one, five, ten));
        assert(hyp ==> d2 == 9) by {
            if hyp && d2 != 9 {
                assert(t[0] == one && t[1] == ten);
                if d2 == 1 {
                    assert(t[1] == r[0]);
                }
            }
        }
        return (i + 2, 9);
    }
    if len - i >= 2 && s[i] == one && s[i + 1] == five {
        assert(s@.subrange(i as int, i + 2) =~= digit_form(4, one, five, ten));
        assert(hyp ==> d2 == 4) by {
            if hyp && d2 != 4 {
                assert(t[0] == one && t[1] == five);
                if d2 == 1 {
                    assert(t[1] == r[0]);
                }
            }
        }
        return (i + 2, 4);
    }
    assert(hyp ==> d2 != 9 && d2 != 4);
    let mut j: usize = i;
    let mut d: u64 = 0;
    if j < len && s[j] == five {
        j += 1;
        d = 5;
    }
    assert(hyp ==> (d == 5 <==> 5 <= d2 <= 8)) by {
        if hyp {
            if 5 <= d2 <= 8 {
                assert(t[0] == five);
            } else if d2 >= 1 {
                assert(t[0] == one);
            } else {
                assert(t.len() > 0 ==> t[0] != five);
            }
        }
    }
    let lead_end = j;
    let ghost o: int = if d2 >= 5 { d2 - 5 } else { d2 as int };
    let mut k: u64 = 0;
    while k < 3 && j < len && s[j] == one
        invariant
            len == s@.len(),
            i <= lead_end <= j <= len,
            j == lead_end + k,
            k <= 3,
            d == 0 || d == 5,
            d == 0 ==> lead_end == i,
            d == 5 ==> lead_end == i + 1 && s@[i as int] == five,
            forall|l: int| lead_end <= l < j ==> s@[l] == one,
            hyp ==> k <= o,
            hyp ==> (d == 5 <==> 5 <= d2 <= 8),
            hyp ==> d2 != 9 && d2 != 4 && o <= 3,
            t == s@.subrange(i as int, s@.len() as int),
            forall|l: int| 0 <= l < t.len() ==> t[l] == s@[i + l],
            hyp ==> ({
                let f: int = if 5 <= d2 <= 8 { 1 } else { 0 };
                &&& lead_end == i + f
                &&& t.len() >= f + o
                &&& forall|l: int| f <= l < f + o ==> t[l] == one
                &&& t.len() > f + o ==> t[f + o] != one
            }),
        decreases 3 - k,
    {
        j += 1;
        k += 1;
    }
    assert(hyp ==> k == o) by {
        if hyp && k < o {
            let f: int = if 5 <= d2 <= 8 { 1 } else { 0 };
            assert(t[f + k] == one);
        }
    }
    assert(s@.subrange(i as int, j as int) =~= digit_form((d + k) as nat, one, five, ten));
    (j, d + k)
}

/// Reads the run of up to three `M` that opens `s`. Where `s` is `m2` letters
/// `M` followed by text `r` that does not open with `M`, it reads all `m2`.
fn scan_thousands(s: &Vec<char>, Ghost(m2): Ghost<nat>, Ghost(r): Ghost<Seq<char>>) -> (m: usize)
    ensures
        m <= 3,
        m <= s@.len(),
        s@.subrange(0, m as int) == rep('M', m as nat),
        m2 <= 3 && (r.len() == 0 || r[0] != 'M') && s@ == rep('M', m2) + r ==> m == m2,
{
    let ghost hyp = m2 <= 3 && (r.len() == 0 || r[0] != 'M') && s@ == rep('M', m2) + r;
    proof {
        if hyp {
            assert forall|l: int| 0 <= l < m2 implies s@[l] == 'M' by {
                assert(s@[l] == rep('M', m2)[l]);
            }
            assert(s@.len() > m2 ==> s@[m2 as int] == r[0]);
        }
    }
    let len = s.len();
    let mut m: usize = 0;
    while m < 3 && m < len && s[m] == 'M'
        invariant
            len == s@.len(),
            m <= 3,
            m <= len,
            forall|l: int| 0 <= l < m ==> s@[l] == 'M',
            hyp ==> m <= m2,
            hyp ==> forall|l: int| 0 <= l < m2 ==> s@[l] == 'M',
            hyp ==> s@.len() >= m2,
            hyp ==> (s@.len() > m2 ==> s@[m2 as int] != 'M'),
        decreases 3 - m,
    {
        m += 1;
    }
    assert(s@.subrange(0, m as int) =~= rep('M', m as nat));
    m
}

proof fn lemma_first_letter(d: nat, one: char, five: char, ten: char)
    requires
        d <= 9,
    ensures
        digit_form(d, one, five, ten).len() > 0 ==> digit_form(d, one, five, ten)[0] == one
            || digit_form(d, one, five, ten)[0] == five,
{
}

proof fn lemma_form_is_roman(s: Seq<char>, m: nat, h: nat, t: nat, u: nat)
    requires
        m <= 3,
        h <= 9,
        t <= 9,
        u <= 9,
        s.len() > 0,
        s == rep('M', m) + hundreds_form(h) + tens_form(t) + units_form(u),
    ensures
        is_roman(s),
{
    lemma_digit_group(h, 'C', 'D', 'M');
    lemma_digit_group(t, 'X', 'L', 'C');
    lemma_digit_group(u, 'I', 'V', 'X');
}

/// How a well-formed numeral splits into its thousands and its three groups.
proof fn lemma_roman_parts(s: Seq<char>)
    requires
        is_roman(s),
    ensures
        ({
            let v = roman_value(s);
            let (m2, dh, dt, du) = (v / 1000, (v / 100) % 10, (v / 10) % 10, v % 10);
            let (fh, ft, fu) = (hundreds_form(dh), tens_form(dt), units_form(du));
            &&& m2 <= 3 && dh <= 9 && dt <= 9 && du <= 9
            &&& s == rep('M', m2) + (fh + ft + fu)
            &&& fh + ft + fu == fh + (ft + fu)
            &&& (fh + ft + fu).len() == 0 || (fh + ft + fu)[0] != 'M'
            &&& closes_group(ft + fu, 'C', 'D', 'M')
            &&& closes_group(fu, 'X', 'L', 'C')
        }),
{
    lemma_roman_iff_numeral(s);
    let v = roman_value(s);
    let (m2, dh, dt, du) = (v / 1000, (v / 100) % 10, (v / 10) % 10, v % 10);
    let (fh, ft, fu) = (hundreds_form(dh), tens_form(dt), units_form(du));
    assert(1 <= v <= 3999 && numeral(v) == s);
    lemma_digits(v);
    lemma_first_letter(dh, 'C', 'D', 'M');
    lemma_first_letter(dt, 'X', 'L', 'C');
    lemma_first_letter(du, 'I', 'V', 'X');
    assert(s == rep('M', m2) + (fh + ft + fu));
    assert(fh + ft + fu == fh + (ft + fu));
    if fh.len() == 0 {
        if ft.len() == 0 {
            assert((fh + ft + fu).len() > 0 ==> (fh + ft + fu)[0] == fu[0]);
        } else {
            assert((fh + ft + fu)[0] == ft[0]);
        }
    } else {
        assert((fh + ft + fu)[0] == fh[0]);
    }
    if ft.len() == 0 {
        assert((ft + fu).len() > 0 ==> (ft + fu)[0] == fu[0]);
    } else {
        assert((ft + fu)[0] == ft[0]);
    }
}

/// Whether `input` is a standard-form Roman numeral: zero to three `M`, then a
/// hundreds, a tens and a units group, and nothing else; the empty string is
/// rejected.
#[verifier::rlimit(40)]
pub fn is_valid(input: &str) -> (r: bool)
    ensures
        r == is_roman(input@),
{
    let s = chars_of(input);
    let ghost v = roman_value(input@);
    let ghost (m2, dh, dt, du) = (v / 1000, (v / 100) % 10, (v / 10) % 10, v % 10);
    let ghost (fh, ft, fu) = (hundreds_form(dh), tens_form(dt), units_form(du));
    let ghost e: Seq<char> = seq![];
    proof {
        if is_roman(input@) {
            lemma_roman_parts(input@);
        }
    }
    if s.len() == 0 {
        return false;
    }
    let m = scan_thousands(&s, Ghost(m2), Ghost(fh + ft + fu));
    proof {
        if is_roman(input@) {
            assert(s@.subrange(m as int, s@.len() as int) =~= fh + (ft + fu));
        }
    }
    let (h_end, h) = scan_group(&s, m, 'C', 'D', 'M', Ghost(dh), Ghost(ft + fu));
    proof {
        if is_roman(input@) {
            assert(s@.subrange(h_end as int, s@.len() as int) =~= ft + fu);
        }
    }
    let (t_end, t) = scan_group(&s, h_end, 'X', 'L', 'C', Ghost(dt), Ghost(fu));
    proof {
        if is_roman(input@) {
            assert(s@.subrange(t_end as int, s@.len() as int) =~= fu + e);
        }
    }
    let (u_end, u) = scan_group(&s, t_end, 'I', 'V', 'X', Ghost(du), Ghost(e));
    let r = u_end == s.len();
    proof {
        if r {
            assert(s@ =~= s@.subrange(0, m as int) + s@.subrange(m as int, h_end as int)
                + s@.subrange(h_end as int, t_end as int) + s@.subrange(
                t_end as int,
                u_end as int,
            ));
            lemma_form_is_roman(input@, m as nat, h as nat, t as nat, u as nat);
        }
    }
    r
}

} // verus!
