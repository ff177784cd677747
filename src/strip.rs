//! Removing every occurrence of a token from a working copy of the input,
//! always the leftmost one first.
use crate::numeral::rep;
use vstd::prelude::*;

verus! {

/// The token `t` stands in `s` at position `i`.
pub open spec fn occurs_at(s: Seq<char>, t: Seq<char>, i: int) -> bool {
    0 <= i && i + t.len() <= s.len() && s.subrange(i, i + t.len()) == t
}

/// The leftmost position at or after `i` where `t` stands in `s`.
pub open spec fn first_from(s: Seq<char>, t: Seq<char>, i: int) -> Option<int>
    decreases s.len() - i,
{
    if i < 0 || i >= s.len() || i + t.len() > s.len() {
        None
    } else if occurs_at(s, t, i) {
        Some(i)
    } else {
        first_from(s, t, i + 1)
    }
}

/// `s` without the `n` letters that start at `i`.
pub open spec fn cut(s: Seq<char>, i: int, n: int) -> Seq<char> {
    s.subrange(0, i) + s.subrange(i + n, s.len() as int)
}

/// What remains of `s` after the leftmost occurrence of `t` is removed again and
/// again until none is left, and how many were removed.
pub open spec fn strip(s: Seq<char>, t: Seq<char>) -> (Seq<char>, nat)
    decreases s.len(),
{
    if t.len() == 0 {
        (s, 0)
    } else {
        match first_from(s, t, 0) {
            Some(i) => if occurs_at(s, t, i) {
                let r = strip(cut(s, i, t.len() as int), t);
                (r.0, r.1 + 1)
            } else {
                (s, 0)
            },
            None => (s, 0),
        }
    }
}

/// Each removal takes away the letters of one occurrence.
pub proof fn lemma_strip_len(s: Seq<char>, t: Seq<char>)
    requires
        t.len() > 0,
    ensures
        strip(s, t).1 * t.len() + strip(s, t).0.len() == s.len(),
    decreases s.len(),
{
    if let Some(i) = first_from(s, t, 0) {
        if occurs_at(s, t, i) {
            let c = cut(s, i, t.len() as int);
            lemma_strip_len(c, t);
            let n = strip(c, t).1;
            assert(c.len() == s.len() - t.len());
            assert(strip(s, t) == (strip(c, t).0, n + 1));
            assert((n + 1) * t.len() == n * t.len() + t.len()) by (nonlinear_arith);
            assert(strip(s, t).1 * t.len() == (n + 1) * t.len());
            assert(strip(s, t).1 * t.len() + strip(s, t).0.len() == s.len());
        } else {
            assert(strip(s, t) == (s, 0nat));
            assert(0 * t.len() == 0);
        }
    } else {
        assert(strip(s, t) == (s, 0nat));
        assert(0 * t.len() == 0);
    }
}

/// The letter `c` does not occur in `s`.
pub open spec fn lacks(s: Seq<char>, c: char) -> bool {
    forall|i: int| 0 <= i < s.len() ==> s[i] != c
}

proof fn lemma_first_none(s: Seq<char>, t: Seq<char>, i: int)
    requires
        0 <= i,
        forall|j: int| i <= j ==> !occurs_at(s, t, j),
    ensures
        first_from(s, t, i) is None,
    decreases s.len() - i,
{
    if i < s.len() && i + t.len() <= s.len() {
        lemma_first_none(s, t, i + 1);
    }
}

proof fn lemma_first_at(s: Seq<char>, t: Seq<char>, i: int, j: int)
    requires
        0 <= i <= j,
        t.len() > 0,
        occurs_at(s, t, j),
        forall|l: int| i <= l < j ==> !occurs_at(s, t, l),
    ensures
        first_from(s, t, i) == Some(j),
    decreases j - i,
{
    if i < j {
        lemma_first_at(s, t, i + 1, j);
    }
}

pub proof fn lemma_first_occurs(s: Seq<char>, t: Seq<char>, i: int, j: int)
    requires
        first_from(s, t, i) == Some(j),
    ensures
        occurs_at(s, t, j),
    decreases s.len() - i,
{
    if !(i < 0 || i >= s.len() || i + t.len() > s.len()) && !occurs_at(s, t, i) {
        lemma_first_occurs(s, t, i + 1, j);
    }
}

pub proof fn lemma_strip_absent(s: Seq<char>, t: Seq<char>)
    requires
        forall|j: int| !occurs_at(s, t, j),
    ensures
        strip(s, t) == (s, 0nat),
{
    lemma_first_none(s, t, 0);
}

pub proof fn lemma_lacks_concat(a: Seq<char>, b: Seq<char>, c: char)
    ensures
        lacks(a + b, c) <==> lacks(a, c) && lacks(b, c),
{
    if lacks(a, c) && lacks(b, c) {
        assert forall|i: int| 0 <= i < (a + b).len() implies (a + b)[i] != c by {
            if i >= a.len() {
                assert((a + b)[i] == b[i - a.len()]);
            }
        }
    }
    if lacks(a + b, c) {
        assert forall|i: int| 0 <= i < b.len() implies b[i] != c by {
            assert((a + b)[i + a.len()] == b[i]);
        }
        assert forall|i: int| 0 <= i < a.len() implies a[i] != c by {
            assert((a + b)[i] == a[i]);
        }
    }
}

/// Stripping a letter that opens `s` in a run, and occurs nowhere after it.
pub proof fn lemma_strip_run(c: char, k: nat, r: Seq<char>)
    requires
        lacks(r, c),
    ensures
        strip(rep(c, k) + r, seq![c]) == (r, k),
    decreases k,
{
    let s = rep(c, k) + r;
    let t = seq![c];
    if k == 0 {
        assert(s == r);
        assert forall|j: int| !occurs_at(s, t, j) by {
            if occurs_at(s, t, j) {
                assert(s.subrange(j, j + 1)[0] == s[j]);
            }
        }
        lemma_strip_absent(s, t);
    } else {
        assert(occurs_at(s, t, 0)) by {
            assert(s.subrange(0, 1) == t);
        }
        lemma_first_at(s, t, 0, 0);
        let rest = rep(c, (k - 1) as nat) + r;
        assert(cut(s, 0, 1) == rest);
        lemma_strip_run(c, (k - 1) as nat, r);
    }
}

/// The two letters `lead trail` never stand side by side in `s`.
pub open spec fn no_pair(s: Seq<char>, lead: char, trail: char) -> bool {
    forall|j: int| !occurs_at(s, seq![lead, trail], j)
}

pub proof fn lemma_no_pair(a: Seq<char>, b: Seq<char>, lead: char, trail: char)
    requires
        lacks(a, lead),
        lacks(b, trail),
    ensures
        no_pair(a + b, lead, trail),
{
    let s = a + b;
    assert forall|j: int| !occurs_at(s, seq![lead, trail], j) by {
        if occurs_at(s, seq![lead, trail], j) {
            assert(s.subrange(j, j + 2)[0] == s[j]);
            assert(s.subrange(j, j + 2)[1] == s[j + 1]);
            if j < a.len() {
                assert(s[j] == a[j]);
            } else {
                assert(s[j + 1] == b[j + 1 - a.len()]);
            }
        }
    }
}

/// Stripping a pair that occurs once, with its first letter nowhere before it.
pub proof fn lemma_strip_pair(a: Seq<char>, lead: char, trail: char, b: Seq<char>)
    requires
        lacks(a, lead),
        no_pair(a + b, lead, trail),
    ensures
        strip(a + seq![lead, trail] + b, seq![lead, trail]) == (a + b, 1nat),
{
    let s = a + seq![lead, trail] + b;
    let t = seq![lead, trail];
    let n = a.len() as int;
    assert(s.subrange(n, n + 2) == t);
    assert forall|l: int| 0 <= l < n implies !occurs_at(s, t, l) by {
        if occurs_at(s, t, l) {
            assert(s.subrange(l, l + 2)[0] == s[l]);
            assert(s[l] == a[l]);
        }
    }
    lemma_first_at(s, t, 0, n);
    assert(cut(s, n, 2) == a + b);
    lemma_strip_absent(a + b, t);
}

} // verus!
