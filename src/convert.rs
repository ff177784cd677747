//! The converter: greedy stripping of the tokens of the priority order.
use crate::numeral::{is_roman, lemma_roman_iff_numeral, numeral, roman_value};
use crate::reduction::{
    lemma_reduce_bound, lemma_reduce_form, reduce, reduce_from, token, worth, TOKEN_COUNT,
};
use crate::strip::{cut, first_from, lemma_first_occurs, occurs_at, strip};
use vstd::prelude::*;

verus! {

/// The letters of `s`, in order.
pub fn chars_of(s: &str) -> (r: Vec<char>)
    ensures
        r@ == s@,
{
    let mut out: Vec<char> = Vec::new();
    for c in it: s.chars()
        invariant
            it.seq() == s@,
            out@ == it.seq().take(it.index()),
    {
        out.push(c);
    }
    assert(out@ == s@);
    out
}

/// The `k`-th token of the priority order.
pub fn priority_token(k: usize) -> (r: Vec<char>)
    requires
        k < TOKEN_COUNT,
    ensures
        r@ == token(k as int),
{
    match k {
        0 => vec!['C', 'M'],
        1 => vec!['M'],
        2 => vec!['C', 'D'],
        3 => vec!['D'],
        4 => vec!['X', 'C'],
        5 => vec!['C'],
        6 => vec!['X', 'L'],
        7 => vec!['L'],
        8 => vec!['I', 'X'],
        9 => vec!['X'],
        10 => vec!['I', 'V'],
        11 => vec!['V'],
        _ => vec!['I'],
    }
}

/// The decimal value of the `k`-th token of the priority order.
pub fn priority_value(k: usize) -> (r: u64)
    requires
        k < TOKEN_COUNT,
    ensures
        r == worth(k as int),
{
    match k {
        0 => 900,
        1 => 1000,
        2 => 400,
        3 => 500,
        4 => 90,
        5 => 100,
        6 => 40,
        7 => 50,
        8 => 9,
        9 => 10,
        10 => 4,
        11 => 5,
        _ => 1,
    }
}

/// Whether `tok` stands in `s` at position `i`.
pub fn occurs_at_pos(s: &Vec<char>, tok: &Vec<char>, i: usize) -> (r: bool)
    ensures
        r == occurs_at(s@, tok@, i as int),
{
    if i > s.len() || tok.len() > s.len() - i {
        return false;
    }
    let tlen = tok.len();
    let slen = s.len();
    let mut j: usize = 0;
    while j < tlen
        invariant
            tlen == tok@.len(),
            slen == s@.len(),
            i + tok@.len() <= s@.len(),
            j <= tok@.len(),
            forall|l: int| 0 <= l < j ==> s@[i + l] == tok@[l],
        decreases tok@.len() - j,
    {
        if s[i + j] != tok[j] {
            assert(s@.subrange(i as int, i + tok@.len())[j as int] != tok@[j as int]);
            return false;
        }
        j += 1;
    }
    assert(s@.subrange(i as int, i + tok@.len()) =~= tok@);
    true
}

/// The leftmost position where `tok` stands in `s`.
pub fn find_token(s: &Vec<char>, tok: &Vec<char>) -> (r: Option<usize>)
    ensures
        match r {
            Some(i) => first_from(s@, tok@, 0) == Some(i as int),
            None => first_from(s@, tok@, 0) is None,
        },
{
    let mut i: usize = 0;
    while i < s.len()
        invariant
            i <= s@.len(),
            first_from(s@, tok@, 0) == first_from(s@, tok@, i as int),
        decreases s@.len() - i,
    {
        if tok.len() > s.len() - i {
            return None;
        }
        if occurs_at_pos(s, tok, i) {
            return Some(i);
        }
        i += 1;
    }
    None
}

/// Removes the leftmost occurrence of `tok` from `work` again and again until
/// none is left, and returns how many were removed.
pub fn strip_token(work: &mut Vec<char>, tok: &Vec<char>) -> (n: usize)
    requires
        tok@.len() > 0,
    ensures
        strip(old(work)@, tok@) == (final(work)@, n as nat),
        n <= old(work)@.len() - final(work)@.len(),
{
    let ghost s = work@;
    let len0 = work.len();
    let mut n: usize = 0;
    loop
        invariant
            tok@.len() > 0,
            s == old(work)@,
            s.len() == len0,
            n <= s.len() - work@.len(),
            strip(s, tok@) == (strip(work@, tok@).0, (n + strip(work@, tok@).1) as nat),
        decreases work@.len(),
    {
        match find_token(work, tok) {
            None => {
                assert(strip(work@, tok@) == (work@, 0nat));
                return n;
            },
            Some(pos) => {
                let ghost before = work@;
                proof {
                    lemma_first_occurs(before, tok@, 0, pos as int);
                }
                let mut j: usize = 0;
                while j < tok.len()
                    invariant
                        pos + tok@.len() <= before.len(),
                        j <= tok@.len(),
                        work@ == before.subrange(0, pos as int) + before.subrange(
                            pos + j,
                            before.len() as int,
                        ),
                    decreases tok@.len() - j,
                {
                    work.remove(pos);
                    j += 1;
                    assert(work@ =~= before.subrange(0, pos as int) + before.subrange(
                        pos + j,
                        before.len() as int,
                    ));
                }
                assert(work@ == cut(before, pos as int, tok@.len() as int));
                assert(strip(before, tok@) == (strip(work@, tok@).0, strip(work@, tok@).1 + 1));
                n += 1;
            },
        }
    }
}

/// The value of a numeral given by its letters: the tokens of the priority
/// order are stripped in turn and their values summed; `Err` where that sum
/// does not fit in a `u64`.
pub fn convert_chars(input: &Vec<char>) -> (r: Result<u64, ()>)
    ensures
        r == if reduce(input@) <= u64::MAX {
            Ok::<u64, ()>(reduce(input@) as u64)
        } else {
            Err::<u64, ()>(())
        },
{
    let mut work = input.clone();
    let mut result: u64 = 0;
    let mut k: usize = 0;
    while k < TOKEN_COUNT
        invariant
            k <= TOKEN_COUNT,
            result + reduce_from(work@, k as int) == reduce(input@),
        decreases TOKEN_COUNT - k,
    {
        let tok = priority_token(k);
        let value = priority_value(k);
        let ghost before = work@;
        let n = strip_token(&mut work, &tok);
        assert(reduce_from(before, k as int) == worth(k as int) * (n as nat) + reduce_from(
            work@,
            k + 1,
        ));
        match value.checked_mul(n as u64) {
            None => {
                return Err(());
            },
            Some(add) => match result.checked_add(add) {
                None => {
                    return Err(());
                },
                Some(sum) => {
                    result = sum;
                },
            },
        }
        k += 1;
    }
    Ok(result)
}

/// The value of the numeral `input` by greedy token stripping. Where `input` is
/// a well-formed numeral this is its number; on other input it is the sum that
/// the stripping reaches, and `Err` only where that sum overflows a `u64`,
/// which no input of fewer than 2^64 / 1000 letters can make happen.
pub fn convert(input: &str) -> (r: Result<u64, ()>)
    ensures
        r == if reduce(input@) <= u64::MAX {
            Ok::<u64, ()>(reduce(input@) as u64)
        } else {
            Err::<u64, ()>(())
        },
        is_roman(input@) ==> r == Ok::<u64, ()>(roman_value(input@) as u64),
        is_roman(input@) ==> r is Ok && 1 <= r->Ok_0 <= 3999,
        1000 * input@.len() <= u64::MAX ==> r is Ok,
{
    proof {
        lemma_reduce_roman(input@);
        lemma_reduce_bound(input@, 0);
    }
    let chars = chars_of(input);
    convert_chars(&chars)
}

/// Greedy token stripping assigns a well-formed numeral its number.
pub proof fn lemma_reduce_roman(s: Seq<char>)
    ensures
        is_roman(s) ==> reduce(s) == roman_value(s) && 1 <= roman_value(s) <= 3999
            && numeral(roman_value(s)) == s,
{
    lemma_roman_iff_numeral(s);
    if is_roman(s) {
        let v = roman_value(s);
        lemma_reduce_numeral(v);
    }
}

/// Greedy token stripping assigns the canonical form of `v` the number `v`.
pub proof fn lemma_reduce_numeral(v: nat)
    requires
        v <= 3999,
    ensures
        reduce(numeral(v)) == v,
{
    lemma_reduce_form(v / 1000, (v / 100) % 10, (v / 10) % 10, v % 10);
    crate::numeral::lemma_digits(v);
}

} // verus!
