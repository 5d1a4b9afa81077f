//! The bit streams that the codec writes to and reads from, and what the
//! codec relies on of them.

use vstd::prelude::*;
use std::io::Cursor;
use bitstream_io::{BigEndian, BitRead, BitReader, BitWrite, BitWriter};
use crate::bits::{bits_of, value_of};
use vstd::arithmetic::power2::pow2;

verus! {

/// `std::io::Error`, carried back to the caller unchanged; nothing is
/// assumed of what it holds.
#[verifier::external_type_specification]
#[verifier::external_body]
pub struct ExIoError(std::io::Error);

/// A big-endian bit writer of bitstream_io over an in-memory byte buffer.
/// Verus sees it only through `bits_written`; the writer stays behind this
/// struct since Verus refuses a declaration of `BitWriter` with its bounds.
#[verifier::external_body]
pub struct BitSink {
    pub inner: BitWriter<Cursor<Vec<u8>>, BigEndian>,
}

/// A big-endian bit reader of bitstream_io over an in-memory byte buffer.
/// Verus sees it only through `bits_unread`.
#[verifier::external_body]
pub struct BitSource {
    pub inner: BitReader<Cursor<Vec<u8>>, BigEndian>,
}

/// Every bit handed to the writer so far, in order.
pub uninterp spec fn bits_written(w: BitSink) -> Seq<bool>;

/// The bits that the reader has yet to hand out, in order.
pub uninterp spec fn bits_unread(r: BitSource) -> Seq<bool>;

/// Relies on `BitWrite::write_bit` of bitstream_io's `BitWriter`: on success
/// the bit follows every bit written before it.
#[verifier::external_body]
pub(crate) fn put_bit(w: &mut BitSink, bit: bool) -> (r: std::io::Result<()>)
    ensures
        r is Ok ==> bits_written(*final(w)) == bits_written(*old(w)).push(bit),
{
    w.inner.write_bit(bit)
}

/// Relies on `BitWrite::write::<u64>` of bitstream_io's `BitWriter`: on
/// success the low `n` bits of `value` follow, most significant first.
#[verifier::external_body]
pub(crate) fn put_bits(w: &mut BitSink, n: u32, value: u64) -> (r: std::io::Result<()>)
    requires
        n <= 64,
        n < 64 ==> value < pow2(n as nat),
    ensures
        r is Ok ==> bits_written(*final(w)) == bits_written(*old(w)) + bits_of(value as nat, n as nat),
{
    w.inner.write(n, value)
}

/// Relies on `BitRead::read_bit` of bitstream_io's `BitReader`: on success
/// it hands out the next unread bit.
#[verifier::external_body]
pub(crate) fn take_bit(r: &mut BitSource) -> (res: std::io::Result<bool>)
    ensures
        res is Ok ==> bits_unread(*old(r)).len() > 0
            && res->Ok_0 == bits_unread(*old(r))[0]
            && bits_unread(*final(r)) == bits_unread(*old(r)).skip(1),
{
    r.inner.read_bit()
}

/// Relies on `BitRead::read::<u64>` of bitstream_io's `BitReader`: on
/// success it hands out the number that the next `n` unread bits spell,
/// most significant first.
#[verifier::external_body]
pub(crate) fn take_bits(r: &mut BitSource, n: u32) -> (res: std::io::Result<u64>)
    requires
        n <= 64,
    ensures
        res is Ok ==> n <= bits_unread(*old(r)).len()
            && res->Ok_0 == value_of(bits_unread(*old(r)).take(n as int))
            && bits_unread(*final(r)) == bits_unread(*old(r)).skip(n as int),
{
    r.inner.read::<u64>(n)
}

} // verus!
