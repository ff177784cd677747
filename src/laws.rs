//! Properties that relate the validator, the converter and the canonical
//! rendering of numbers.
use crate::convert::lemma_reduce_numeral;
use crate::numeral::{is_roman, lemma_roman_iff_numeral, numeral, roman_value};
use crate::reduction::reduce;
use vstd::prelude::*;

verus! {

/// Two numbers below 4000 with the same canonical form are equal.
pub proof fn lemma_numeral_injective(v: nat, w: nat)
    requires
        v <= 3999,
        w <= 3999,
        numeral(v) == numeral(w),
    ensures
        v == w,
{
    lemma_reduce_numeral(v);
    lemma_reduce_numeral(w);
}

/// For every `v` from 1 to 3999, the canonical form of `v` is accepted by the
/// validator, and converting it yields exactly `v`.
pub proof fn lemma_round_trip(v: nat)
    requires
        1 <= v <= 3999,
    ensures
        is_roman(numeral(v)),
        roman_value(numeral(v)) == v,
        reduce(numeral(v)) == v,
{
    lemma_roman_iff_numeral(numeral(v));
    lemma_reduce_numeral(v);
    let w = roman_value(numeral(v));
    lemma_numeral_injective(v, w);
}

/// The validator accepts exactly the canonical forms of the numbers 1 to 3999,
/// and rejects every other string.
pub proof fn lemma_accepts_canonical(s: Seq<char>)
    ensures
        is_roman(s) <==> exists|v: nat| 1 <= v <= 3999 && #[trigger] numeral(v) == s,
{
    lemma_roman_iff_numeral(s);
}

/// The results of the validator and of the converter depend on the letters of
/// the input alone, so repeated calls on one input agree.
pub proof fn lemma_deterministic(s1: Seq<char>, s2: Seq<char>)
    requires
        s1 == s2,
    ensures
        is_roman(s1) == is_roman(s2),
        reduce(s1) == reduce(s2),
{
}

} // verus!
