//! What holds of every code that the codec writes and reads.

use vstd::prelude::*;
use vstd::arithmetic::power2::{pow2, lemma_pow2_pos, lemma_pow2_subtracts};
use vstd::arithmetic::div_mod::{lemma_div_is_ordered, lemma_fundamental_div_mod, lemma_mod_bound, lemma_small_mod};
use crate::bits::{bits_of, lemma_leading_ones, lemma_lt_pow2, lemma_value_of_bits, ones, value_of};
use crate::codec::{compressible, decodes_to, decoding, encoding, quotient};

verus! {

/// Decoding the code of any `w`-bit symbol, whatever bits follow it, gives
/// the symbol back and takes exactly the code's bits.
pub proof fn lemma_round_trip(k: nat, w: nat, x: nat, rest: Seq<bool>)
    requires
        k <= w,
        x < pow2(w),
    ensures
        decoding(k, w, encoding(k, w, x) + rest) == Some((x, encoding(k, w, x).len())),
        decodes_to(k, w, encoding(k, w, x) + rest, x, rest),
{
    let code = encoding(k, w, x);
    let s = code + rest;
    assert(s.skip(code.len() as int) =~= rest);
    lemma_pow2_pos(k);
    if compressible(k, w, x) {
        let q = quotient(k, x);
        let low = bits_of(x % pow2(k), k);
        lemma_value_of_bits(x % pow2(k), k);
        assert(s.skip(1) =~= ones(q) + seq![false] + low + rest);
        lemma_leading_ones(s.skip(1), q);
        assert(s.subrange(q + 2 as int, (q + k + 2) as int) =~= low);
        lemma_mod_bound(x as int, pow2(k) as int);
        lemma_small_mod(x % pow2(k), pow2(k));
        lemma_lt_pow2((w - k) as nat);
        lemma_small_mod(q, pow2((w - k) as nat));
        lemma_fundamental_div_mod(x as int, pow2(k) as int);
        assert(q * pow2(k) == pow2(k) * q) by (nonlinear_arith);
    } else {
        lemma_value_of_bits(x, w);
        assert(s.subrange(1, w + 1 as int) =~= bits_of(x, w));
        lemma_small_mod(x, pow2(w));
    }
}

/// No code is longer than the symbol width plus one bit.
pub proof fn lemma_code_length(k: nat, w: nat, x: nat)
    requires
        k <= w,
    ensures
        encoding(k, w, x).len() <= w + 1,
{
    if compressible(k, w, x) {
        lemma_value_of_bits(x % pow2(k), k);
    } else {
        lemma_value_of_bits(x, w);
    }
}

/// Two streams that took the code of the same symbol with the same codec
/// grew by the same bits.
pub proof fn lemma_deterministic(k: nat, w: nat, x: nat, a0: Seq<bool>, a1: Seq<bool>, b0: Seq<bool>, b1: Seq<bool>)
    requires
        a1 == a0 + encoding(k, w, x),
        b1 == b0 + encoding(k, w, x),
    ensures
        a1.skip(a0.len() as int) == b1.skip(b0.len() as int),
{
    assert(a1.skip(a0.len() as int) =~= encoding(k, w, x));
    assert(b1.skip(b0.len() as int) =~= encoding(k, w, x));
}

/// A symbol whose top bit is set is always sent raw, a zero flag bit and
/// then all its bits, whenever fewer than `w` bits are literal.
pub proof fn lemma_top_bit_escapes(k: nat, w: nat, x: nat)
    requires
        k < w,
        pow2((w - 1) as nat) <= x < pow2(w),
    ensures
        encoding(k, w, x) == seq![false] + bits_of(x, w),
        value_of(bits_of(x, w)) == x,
{
    let top = (w - 1) as nat;
    lemma_pow2_pos(k);
    lemma_pow2_subtracts(k, top);
    lemma_div_is_ordered(pow2(top) as int, x as int, pow2(k) as int);
    lemma_lt_pow2((top - k) as nat);
    assert(!compressible(k, w, x));
    lemma_value_of_bits(x, w);
    lemma_small_mod(x, pow2(w));
}

} // verus!
