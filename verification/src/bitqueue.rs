use vstd::prelude::*;

use crate::bitmath::u128_bits;

verus! {

// ---------------------------------------------------------------------------
// The bit queue backing both streaming codecs.
//
// The queue is bitstream_io's `BitQueue<LittleEndian, u128>`: a FIFO of up
// to 128 bits.  With the little-endian parameter, pushed bits enter above
// the bits already queued (each pushed group least-significant bit first)
// and popped bits leave from the least-significant end, so bits come out in
// the order they went in.  `queue_bits` names the queued contents, oldest
// (next to pop) first.
// ---------------------------------------------------------------------------

/// A first-in-first-out queue of up to 128 bits, backed by bitstream_io's
/// `BitQueue<LittleEndian, u128>`.  Opaque to verification: all knowledge
/// of its state goes through `queue_bits` and the wrappers below.
#[verifier::external_body]
pub struct LeBitQueue {
    inner: bitstream_io::BitQueue<bitstream_io::LittleEndian, u128>,
}

pub uninterp spec fn queue_bits(q: LeBitQueue) -> Seq<bool>;

/// Relies on bitstream_io::BitQueue::new: a freshly built queue is empty.
#[verifier::external_body]
pub(crate) fn bq_new() -> (q: LeBitQueue)
    ensures
        queue_bits(q) == Seq::<bool>::empty(),
{
    LeBitQueue { inner: bitstream_io::BitQueue::new() }
}

/// Relies on bitstream_io::BitQueue::from_value: builds a queue holding the
/// given value as 64 bits, least significant first.
#[verifier::external_body]
pub(crate) fn bq_from_u64(v: u64) -> (q: LeBitQueue)
    ensures
        queue_bits(q) == u128_bits(v as u128, 64),
{
    LeBitQueue { inner: bitstream_io::BitQueue::from_value(v as u128, 64) }
}

/// Relies on bitstream_io::BitQueue::push with the little-endian parameter:
/// appends the low `n` bits of `v`, least significant first.
#[verifier::external_body]
pub(crate) fn bq_push(q: &mut LeBitQueue, n: u32, v: u128)
    requires
        1 <= n <= 64,
        v < (1u128 << (n as u128)),
        queue_bits(*old(q)).len() + n <= 128,
    ensures
        queue_bits(*final (q)) == queue_bits(*old(q)) + u128_bits(v, n as nat),
{
    q.inner.push(n, v)
}

/// Relies on bitstream_io::BitQueue::pop with the little-endian parameter:
/// removes the first `n` queued bits and returns them as a value, first
/// removed bit least significant.
#[verifier::external_body]
pub(crate) fn bq_pop(q: &mut LeBitQueue, n: u32) -> (r: u128)
    requires
        1 <= n <= 64,
        n <= queue_bits(*old(q)).len(),
    ensures
        r < (1u128 << (n as u128)),
        u128_bits(r, n as nat) == queue_bits(*old(q)).take(n as int),
        queue_bits(*final (q)) == queue_bits(*old(q)).skip(n as int),
{
    q.inner.pop(n)
}

/// Relies on bitstream_io::BitQueue::len: the number of bits queued.
#[verifier::external_body]
pub(crate) fn bq_len(q: &LeBitQueue) -> (n: u32)
    ensures
        n == queue_bits(*q).len(),
{
    q.inner.len()
}

/// Relies on bitstream_io::BitQueue::max_len: a queue over `u128` holds at
/// most 128 bits.
#[verifier::external_body]
pub(crate) fn bq_max_len(q: &LeBitQueue) -> (n: u32)
    ensures
        n == 128,
{
    q.inner.max_len()
}

} // verus!
