//! Comparison of a magnitude against a 32-bit threshold that never wraps.

use vstd::prelude::*;
use easy_cast::Conv;

verus! {

/// Relies on easy_cast's `Conv<u64> for u32`: `try_conv` succeeds exactly
/// when the value is at most `u32::MAX`, and then keeps it unchanged.
#[verifier::external_body]
fn narrow_to_u32(value: u64) -> (r: Option<u32>)
    ensures
        value <= u32::MAX ==> r == Some(value as u32),
        value > u32::MAX ==> r is None,
{
    u32::try_conv(value).ok()
}

/// Whether `value` is at least `target`. A value too wide for `u32` is
/// reported as large without being compared.
pub fn as_big(value: u64, target: u32) -> (r: bool)
    ensures
        r == (value >= target),
{
    match narrow_to_u32(value) {
        Some(v) => v >= target,
        None => true,
    }
}

} // verus!
