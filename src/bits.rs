//! Bit sequences, most significant bit first, and the numbers they spell.

use vstd::prelude::*;
use vstd::arithmetic::power2::{pow2, lemma2_to64, lemma_pow2_unfold, lemma_pow2_pos};
use vstd::arithmetic::div_mod::lemma_mod_breakdown;

verus! {

/// The `n` low bits of `v`, most significant first.
pub open spec fn bits_of(v: nat, n: nat) -> Seq<bool>
    decreases n,
{
    if n == 0 {
        Seq::empty()
    } else {
        bits_of(v / 2, (n - 1) as nat).push(v % 2 == 1)
    }
}

/// The number that `s` spells, most significant bit first.
pub open spec fn value_of(s: Seq<bool>) -> nat
    decreases s.len(),
{
    if s.len() == 0 {
        0
    } else {
        2 * value_of(s.drop_last()) + if s.last() { 1nat } else { 0nat }
    }
}

/// The number of `true` bits that `s` starts with.
pub open spec fn leading_ones(s: Seq<bool>) -> nat
    decreases s.len(),
{
    if s.len() > 0 && s[0] {
        1 + leading_ones(s.skip(1))
    } else {
        0
    }
}

/// A run of `q` one bits.
pub open spec fn ones(q: nat) -> Seq<bool> {
    Seq::new(q, |i: int| true)
}

/// `n` bits of `v` spell `v` modulo `2^n`.
pub proof fn lemma_value_of_bits(v: nat, n: nat)
    ensures
        bits_of(v, n).len() == n,
        value_of(bits_of(v, n)) == v % pow2(n),
    decreases n,
{
    if n == 0 {
        lemma2_to64();
    } else {
        let m = (n - 1) as nat;
        lemma_value_of_bits(v / 2, m);
        let s = bits_of(v, n);
        assert(s.drop_last() =~= bits_of(v / 2, m));
        lemma_pow2_unfold(n);
        lemma_pow2_pos(m);
        lemma_mod_breakdown(v as int, 2, pow2(m) as int);
    }
}

/// The run of ones is counted exactly when a zero bit ends it.
pub proof fn lemma_leading_ones(s: Seq<bool>, q: nat)
    requires
        q < s.len(),
        forall|i: int| 0 <= i < q ==> s[i],
        !s[q as int],
    ensures
        leading_ones(s) == q,
    decreases q,
{
    if q > 0 {
        lemma_leading_ones(s.skip(1), (q - 1) as nat);
    }
}

/// A sequence of bits spells a number below two to its length.
pub proof fn lemma_value_of_bound(s: Seq<bool>)
    ensures
        value_of(s) < pow2(s.len()),
    decreases s.len(),
{
    if s.len() == 0 {
        lemma2_to64();
    } else {
        lemma_value_of_bound(s.drop_last());
        lemma_pow2_unfold(s.len());
    }
}

/// Every natural number is below two to its power.
pub proof fn lemma_lt_pow2(n: nat)
    ensures
        n < pow2(n),
    decreases n,
{
    if n == 0 {
        lemma2_to64();
    } else {
        lemma_lt_pow2((n - 1) as nat);
        lemma_pow2_unfold(n);
        lemma_pow2_pos((n - 1) as nat);
    }
}

} // verus!
