//! The bounded-width Golomb-Rice codec.
//!
//! A symbol of `w` bits is sent either in rice form (a one flag bit, the
//! quotient `x >> k` in unary, a zero terminator, then the `k` low bits) or
//! in raw form (a zero flag bit, then all `w` bits), whichever keeps the
//! code within `w + 1` bits.

use vstd::prelude::*;
use vstd::arithmetic::power2::{pow2, lemma2_to64, lemma_pow2_adds, lemma_pow2_pos, lemma_pow2_strictly_increases};
use vstd::arithmetic::div_mod::{
    lemma_basic_div, lemma_fundamental_div_mod, lemma_fundamental_div_mod_converse,
    lemma_mod_bound, lemma_small_mod,
};
use vstd::bits::{lemma_low_bits_mask_values, lemma_u64_low_bits_mask_is_mod, lemma_u64_pow2_no_overflow, lemma_u64_shl_is_mul, lemma_u64_shr_is_div};
use crate::bits::{bits_of, leading_ones, lemma_leading_ones, lemma_value_of_bound, ones, value_of};
use crate::guard::as_big;
use crate::laws::lemma_code_length;
use crate::mask::{low_mask, mask, ConfigError, MAX_WIDTH};
use crate::stream::{bits_unread, bits_written, put_bit, put_bits, take_bit, take_bits, BitSink, BitSource};

verus! {

/// A Golomb-Rice codec. The field is the number of low bits of each symbol
/// that are carried literally rather than in the unary quotient.
pub struct Codec(pub u32);

/// The part of `x` above its `k` low bits.
pub open spec fn quotient(k: nat, x: nat) -> nat {
    x / pow2(k)
}

/// Whether the rice form of `x` (flag, unary quotient, terminator and `k`
/// literal bits) is shorter than the raw form of `w + 1` bits.
pub open spec fn compressible(k: nat, w: nat, x: nat) -> bool {
    quotient(k, x) + k + 2 < w + 1
}

/// The bits that encode the `w`-bit symbol `x` with `k` literal bits.
pub open spec fn encoding(k: nat, w: nat, x: nat) -> Seq<bool> {
    if compressible(k, w, x) {
        seq![true] + ones(quotient(k, x)) + seq![false] + bits_of(x % pow2(k), k)
    } else {
        seq![false] + bits_of(x, w)
    }
}

/// The symbol that the start of `s` encodes, with the number of bits that
/// its code takes, or `None` when `s` ends before a whole code. A unary
/// quotient too long for `w - k` bits keeps only its low bits.
pub open spec fn decoding(k: nat, w: nat, s: Seq<bool>) -> Option<(nat, nat)> {
    if s.len() == 0 {
        None
    } else if s[0] {
        let q = leading_ones(s.skip(1));
        let n = q + k + 2;
        if n > s.len() {
            None
        } else {
            Some(((q % pow2((w - k) as nat)) * pow2(k) + value_of(s.subrange(q + 2 as int, n as int)), n))
        }
    } else if s.len() < w + 1 {
        None
    } else {
        Some((value_of(s.subrange(1, w + 1 as int)), w + 1))
    }
}

/// Whether reading one code from `before` gives `v` and leaves `after`.
pub open spec fn decodes_to(k: nat, w: nat, before: Seq<bool>, v: nat, after: Seq<bool>) -> bool {
    match decoding(k, w, before) {
        Some((d, n)) => d == v && after == before.skip(n as int),
        None => false,
    }
}

impl Codec {
    /// Whether the codec can carry symbols of `width` bits: the width must
    /// not exceed `MAX_WIDTH`, and the literal bits must fit in it.
    pub fn validate(&self, width: u32) -> (r: Result<(), ConfigError>)
        ensures
            width > MAX_WIDTH ==> r == Err::<(), ConfigError>(ConfigError::WidthTooLarge),
            width <= MAX_WIDTH && self.0 > width ==> r == Err::<(), ConfigError>(ConfigError::BitsExceedWidth),
            width <= MAX_WIDTH && self.0 <= width ==> r is Ok,
    {
        match mask(self.0, width) {
            Ok(_) => Ok(()),
            Err(e) => Err(e),
        }
    }

    /// Writes the code of the `width`-bit symbol `src` to `w`. A failure of
    /// the stream is handed back as it came.
    pub fn encode_word(&self, width: u32, src: u64, w: &mut BitSink) -> (r: std::io::Result<()>)
        requires
            self.0 <= width <= MAX_WIDTH,
            src < pow2(width as nat),
        ensures
            r is Ok ==> bits_written(*final(w)) == bits_written(*old(w)) + encoding(
                self.0 as nat,
                width as nat,
                src as nat,
            ),
            r is Ok ==> bits_written(*final(w)).len() <= bits_written(*old(w)).len() + width + 1,
    {
        let k = self.0;
        let ghost start = bits_written(*w);
        let ghost code = encoding(k as nat, width as nat, src as nat);
        proof {
            lemma_code_length(k as nat, width as nat, src as nat);
        }
        let high: u64 = if k < MAX_WIDTH {
            src >> k
        } else {
            0
        };
        proof {
            lemma2_to64();
            if k < MAX_WIDTH {
                lemma_u64_shr_is_div(src, k as u64);
            } else {
                lemma_basic_div(src as int, pow2(64) as int);
            }
        }
        assert(high == quotient(k as nat, src as nat));
        let fits = match high.checked_add(k as u64 + 2) {
            Some(cost) => !as_big(cost, width + 1),
            None => false,
        };
        assert(fits == compressible(k as nat, width as nat, src as nat));
        if fits {
            match put_bit(w, true) {
                Ok(()) => {},
                Err(e) => {
                    return Err(e);
                },
            }
            let mut i: u64 = 0;
            while i < high
                invariant
                    i <= high,
                    bits_written(*w) == start + seq![true] + ones(i as nat),
                decreases high - i,
            {
                match put_bit(w, true) {
                    Ok(()) => {},
                    Err(e) => {
                        return Err(e);
                    },
                }
                assert(ones(i as nat).push(true) =~= ones((i + 1) as nat));
                assert((start + seq![true] + ones(i as nat)).push(true) =~= start + seq![true] + ones(
                    (i + 1) as nat,
                ));
                i = i + 1;
            }
            match put_bit(w, false) {
                Ok(()) => {},
                Err(e) => {
                    return Err(e);
                },
            }
            let low = src & low_mask(k);
            proof {
                if k < MAX_WIDTH {
                    lemma_u64_low_bits_mask_is_mod(src, k as nat);
                    lemma_u64_pow2_no_overflow(k as nat);
                } else {
                    lemma_low_bits_mask_values();
                    assert(src & 0xffff_ffff_ffff_ffffu64 == src) by (bit_vector);
                    lemma_small_mod(src as nat, pow2(64));
                }
                lemma_pow2_pos(k as nat);
                lemma_mod_bound(src as int, pow2(k as nat) as int);
            }
            assert(low as nat == src as nat % pow2(k as nat));
            match put_bits(w, k, low) {
                Ok(()) => {},
                Err(e) => {
                    return Err(e);
                },
            }
            assert(code == seq![true] + ones(high as nat) + seq![false] + bits_of(low as nat, k as nat));
            assert(bits_written(*w) =~= start + code);
        } else {
            match put_bit(w, false) {
                Ok(()) => {},
                Err(e) => {
                    return Err(e);
                },
            }
            match put_bits(w, width, src) {
                Ok(()) => {},
                Err(e) => {
                    return Err(e);
                },
            }
            assert(code == seq![false] + bits_of(src as nat, width as nat));
            assert(bits_written(*w) =~= start + code);
        }
        Ok(())
    }

    /// Reads one code from `r` and returns the `width`-bit symbol it holds.
    /// A failure of the stream, an end of input within the code among them,
    /// is handed back as it came.
    pub fn decode_word(&self, width: u32, r: &mut BitSource) -> (res: std::io::Result<u64>)
        requires
            self.0 <= width <= MAX_WIDTH,
        ensures
            res is Ok ==> decodes_to(
                self.0 as nat,
                width as nat,
                bits_unread(*old(r)),
                res->Ok_0 as nat,
                bits_unread(*final(r)),
            ),
            res is Ok ==> res->Ok_0 < pow2(width as nat),
    {
        let k = self.0;
        let ghost s0 = bits_unread(*r);
        let flag = match take_bit(r) {
            Ok(b) => b,
            Err(e) => {
                return Err(e);
            },
        };
        if flag {
            let m: u32 = width - k;
            let wrap = low_mask(m);
            let ghost p = pow2(m as nat);
            proof {
                lemma_pow2_pos(m as nat);
                lemma2_to64();
                lemma_small_mod(0, p);
            }
            let mut q: u64 = 0;
            let ghost mut count: nat = 0;
            loop
                invariant_except_break
                    1 + count <= s0.len(),
                    bits_unread(*r) == s0.skip((1 + count) as int),
                invariant
                    s0.len() > 0,
                    s0[0],
                    p == pow2(m as nat),
                    p > 0,
                    wrap == p - 1,
                    forall|i: int| 1 <= i < 1 + count ==> s0[i],
                    q as nat == count % p,
                ensures
                    1 + count < s0.len(),
                    forall|i: int| 1 <= i < 1 + count ==> s0[i],
                    !s0[(1 + count) as int],
                    bits_unread(*r) == s0.skip((2 + count) as int),
                    q as nat == count % p,
                decreases bits_unread(*r).len(),
            {
                match take_bit(r) {
                    Ok(true) => {
                        proof {
                            assert(s0.skip((1 + count) as int).skip(1) =~= s0.skip((2 + count) as int));
                            lemma_mod_succ(count, p);
                        }
                        q = if q == wrap {
                            0
                        } else {
                            q + 1
                        };
                        proof {
                            count = count + 1;
                        }
                    },
                    Ok(false) => {
                        assert(s0.skip((1 + count) as int).skip(1) =~= s0.skip((2 + count) as int));
                        break ;
                    },
                    Err(e) => {
                        return Err(e);
                    },
                }
            }
            let rem = match take_bits(r, k) {
                Ok(v) => v,
                Err(e) => {
                    return Err(e);
                },
            };
            let ghost lit = s0.subrange((2 + count) as int, (2 + count + k) as int);
            proof {
                assert(s0.skip((2 + count) as int).take(k as int) =~= lit);
                assert(s0.skip((2 + count) as int).skip(k as int) =~= s0.skip((count + k + 2) as int));
                assert forall|i: int| 0 <= i < count implies #[trigger] s0.skip(1)[i] by {
                    assert(s0[i + 1]);
                }
                lemma_leading_ones(s0.skip(1), count);
                assert(rem as nat == value_of(lit));
                lemma_value_of_bound(lit);
            }
            let high: u64 = if k < MAX_WIDTH {
                proof {
                    lemma_pow2_adds(m as nat, k as nat);
                    lemma_u64_pow2_no_overflow(k as nat);
                    if width < MAX_WIDTH {
                        lemma_pow2_strictly_increases(width as nat, 64);
                    }
                    assert(pow2(width as nat) <= 0x10000000000000000);
                    assert(q * pow2(k as nat) < p * pow2(k as nat)) by (nonlinear_arith)
                        requires
                            q < p,
                            pow2(k as nat) > 0,
                    ;
                    lemma_u64_shl_is_mul(q, k as u64);
                    lemma_u64_shl_is_mul(1, k as u64);
                }
                q << k
            } else {
                0
            };
            proof {
                lemma_pow2_adds(m as nat, k as nat);
                let a = count % p;
                let b = value_of(lit);
                let pk = pow2(k as nat);
                assert(a * pk + b < p * pk) by (nonlinear_arith)
                    requires
                        a < p,
                        b < pk,
                ;
                if k < MAX_WIDTH {
                    assert(rem < (1u64 << k));
                    lemma_or_is_add(q, rem, k as u64);
                    assert(high == (count % p) * pow2(k as nat));
                    assert((high | rem) as nat == (count % p) * pow2(k as nat) + value_of(lit));
                } else {
                    assert(0u64 | rem == rem) by (bit_vector);
                    lemma_mod_bound(count as int, 1);
                    assert(count % p == 0);
                    assert(high | rem == rem);
                    assert((high | rem) as nat == (count % p) * pow2(k as nat) + value_of(lit));
                }
            }
            assert(decoding(k as nat, width as nat, s0) == Some(((high | rem) as nat, (count + k + 2) as nat)));
            Ok(high | rem)
        } else {
            let v = match take_bits(r, width) {
                Ok(v) => v,
                Err(e) => {
                    return Err(e);
                },
            };
            proof {
                assert(s0.skip(1).take(width as int) =~= s0.subrange(1, width + 1));
                assert(s0.skip(1).skip(width as int) =~= s0.skip(width + 1));
                lemma_value_of_bound(s0.subrange(1, width + 1));
            }
            Ok(v)
        }
    }
}

/// Counting up by one modulo `p` wraps from `p - 1` to zero.
proof fn lemma_mod_succ(c: nat, p: nat)
    requires
        p > 0,
    ensures
        (c + 1) % p == if c % p == p - 1 { 0 } else { c % p + 1 },
{
    lemma_fundamental_div_mod(c as int, p as int);
    lemma_mod_bound(c as int, p as int);
    let d = c as int / p as int;
    if c % p == p - 1 {
        assert(c + 1 == (d + 1) * p + 0) by (nonlinear_arith)
            requires
                c == p * d + (p - 1),
        ;
        lemma_fundamental_div_mod_converse((c + 1) as int, p as int, d + 1, 0);
    } else {
        assert(c + 1 == d * p + (c % p + 1)) by (nonlinear_arith)
            requires
                c == p * d + c % p,
        ;
        lemma_fundamental_div_mod_converse((c + 1) as int, p as int, d, (c % p + 1) as int);
    }
}

/// Below a shift by `k`, the `k` low bits are free: or-ing in a number under
/// `2^k` adds it.
proof fn lemma_or_is_add(a: u64, b: u64, k: u64)
    by (bit_vector)
    requires
        k < 64,
        b < (1u64 << k),
    ensures
        (a << k) | b == (a << k) + b,
{
}

} // verus!