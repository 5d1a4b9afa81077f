//! Masks of low-order one bits, correct at the full accumulator width.

use vstd::prelude::*;
use vstd::bits::{low_bits_mask, lemma_low_bits_mask_values, lemma_u64_pow2_no_overflow, lemma_u64_shl_is_mul};
use vstd::arithmetic::power2::lemma2_to64;

verus! {

/// The widest symbol that the codec handles, in bits.
pub const MAX_WIDTH: u32 = 64;

/// A configuration that no symbol width can satisfy.
#[derive(Debug, Clone, Copy, PartialEq, Eq, Structural)]
pub enum ConfigError {
    /// The symbol width is above `MAX_WIDTH`.
    WidthTooLarge,
    /// More low bits were asked for than the symbol width holds.
    BitsExceedWidth,
}

/// The mask of the low `nbits` bits of a `width`-bit value.
pub fn mask(nbits: u32, width: u32) -> (r: Result<u64, ConfigError>)
    ensures
        width > MAX_WIDTH ==> r == Err::<u64, ConfigError>(ConfigError::WidthTooLarge),
        width <= MAX_WIDTH && nbits == 0 ==> r == Ok::<u64, ConfigError>(0),
        width <= MAX_WIDTH && nbits > width ==> r == Err::<u64, ConfigError>(ConfigError::BitsExceedWidth),
        width <= MAX_WIDTH && nbits <= width ==> r == Ok::<u64, ConfigError>(low_bits_mask(nbits as nat) as u64),
{
    if width > MAX_WIDTH {
        return Err(ConfigError::WidthTooLarge);
    }
    if nbits > width {
        return Err(ConfigError::BitsExceedWidth);
    }
    proof {
        lemma2_to64();
    }
    Ok(low_mask(nbits))
}

/// The mask of the low `nbits` bits of a 64-bit value. The full width is
/// handled on its own, since shifting by it is not defined.
pub(crate) fn low_mask(nbits: u32) -> (r: u64)
    requires
        nbits <= MAX_WIDTH,
    ensures
        r == low_bits_mask(nbits as nat),
{
    if nbits == MAX_WIDTH {
        proof {
            lemma_low_bits_mask_values();
        }
        return u64::MAX;
    }
    proof {
        lemma_u64_pow2_no_overflow(nbits as nat);
        lemma_u64_shl_is_mul(1, nbits as u64);
    }
    (1u64 << nbits) - 1
}

} // verus!
