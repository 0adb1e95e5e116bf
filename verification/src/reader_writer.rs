use vstd::prelude::*;

use vstd::arithmetic::div_mod::{lemma_add_mod_noop, lemma_mod_self_0, lemma_small_mod};
use vstd::utf8::encode_utf8;

use crate::bitmath::{bit_at, byte_bit, u128_bits};
use crate::bitqueue::{bq_from_u64, bq_len, bq_max_len, bq_new, bq_pop, bq_push, queue_bits,
    LeBitQueue};
use crate::errors::StegoError;

verus! {

/// Number of bytes in the frame's length header.
pub const HEADER_BYTES: u64 = 8;

// ---------------------------------------------------------------------------
// Frame streams.
//
// A frame is a 64-bit length header followed by the payload bytes, each
// byte expanded to 8 bits least-significant first.  `frame_bit` reads bit
// `k` of that serialization.
// ---------------------------------------------------------------------------

/// Bit `k` of the frame that declares `declared` payload bytes and carries
/// the byte sequence `payload`.
pub open spec fn frame_bit(declared: u64, payload: Seq<u8>, k: int) -> bool {
    if k < 64 {
        bit_at(declared as u128, k)
    } else {
        byte_bit(payload[(k - 64) / 8], (k - 64) % 8)
    }
}

/// Byte `j` of a repeating source: the source cycled indefinitely.
pub open spec fn cycle_byte(content: Seq<u8>, j: int) -> u8
    recommends
        content.len() > 0,
{
    content[j % (content.len() as int)]
}

/// Bit `k` of the frame fed by a repeating text source declaring `declared`
/// payload bytes.
pub open spec fn cycle_frame_bit(declared: u64, content: Seq<u8>, k: int) -> bool
    recommends
        content.len() > 0,
{
    if k < 64 {
        bit_at(declared as u128, k)
    } else {
        byte_bit(cycle_byte(content, (k - 64) / 8), (k - 64) % 8)
    }
}

// ---------------------------------------------------------------------------
// Byte source -> bit sink.
// ---------------------------------------------------------------------------

/// Pumps whole bytes in and single bits out, the 64-bit length header
/// preloaded; tracks how many bytes have been fully consumed bit by bit.
pub struct BytesIntoBits {
    bytes_pushed: u128,
    bits_in_byte_consumed: u8,
    bytes_consumed: u64,
    bit_queue: LeBitQueue,
}

impl BytesIntoBits {
    /// The queued bits, next to pop first.
    pub closed spec fn queue(self) -> Seq<bool> {
        queue_bits(self.bit_queue)
    }

    /// How many payload bytes have been pushed behind the header.
    pub closed spec fn pushed(self) -> int {
        self.bytes_pushed as int
    }

    /// How many whole bytes' worth of bits have been popped.
    pub closed spec fn consumed_bytes(self) -> int {
        self.bytes_consumed as int
    }

    /// Total bits popped since construction.
    pub closed spec fn consumed_bits(self) -> int {
        self.bytes_consumed * 8 + self.bits_in_byte_consumed
    }

    pub closed spec fn wf(self) -> bool {
        &&& self.queue().len() <= 128
        &&& self.bits_in_byte_consumed < 8
    }

    /// A feeder preloaded with the 64 header bits of `header_val`.
    pub fn new(header_val: u64) -> (r: BytesIntoBits)
        ensures
            r.wf(),
            r.queue() == u128_bits(header_val as u128, 64),
            r.pushed() == 0,
            r.consumed_bits() == 0,
            r.consumed_bytes() == 0,
    {
        BytesIntoBits {
            bytes_pushed: 0,
            bits_in_byte_consumed: 0,
            bytes_consumed: 0,
            bit_queue: bq_from_u64(header_val),
        }
    }

    /// Whether a full byte still fits in the queue.
    pub fn can_accept_byte(&self) -> (r: bool)
        requires
            self.wf(),
        ensures
            r == (self.queue().len() + 8 <= 128),
    {
        bq_max_len(&self.bit_queue) - bq_len(&self.bit_queue) >= 8
    }

    /// Number of bits currently queued.
    pub fn queued_bits(&self) -> (r: u32)
        ensures
            r == self.queue().len(),
    {
        bq_len(&self.bit_queue)
    }

    /// Pushes one byte, least-significant bit first.
    pub fn accept_byte(&mut self, byte: u8)
        requires
            old(self).wf(),
            old(self).queue().len() + 8 <= 128,
            old(self).pushed() < u128::MAX,
        ensures
            final (self).wf(),
            final (self).queue() == old(self).queue() + u128_bits(byte as u128, 8),
            final (self).pushed() == old(self).pushed() + 1,
            final (self).consumed_bits() == old(self).consumed_bits(),
            final (self).consumed_bytes() == old(self).consumed_bytes(),
    {
        proof {
            assert((byte as u128) < (1u128 << (8u32 as u128))) by (bit_vector);
        }
        bq_push(&mut self.bit_queue, 8, byte as u128);
        self.bytes_pushed = self.bytes_pushed + 1;
    }

    /// How many whole bytes have been consumed from the queue so far.
    pub fn bytes_consumed(&self) -> (r: u64)
        ensures
            r as int == self.consumed_bytes(),
    {
        self.bytes_consumed
    }

    /// Pops one bit.
    pub fn get_bit(&mut self) -> (r: u8)
        requires
            old(self).wf(),
            old(self).queue().len() >= 1,
            old(self).consumed_bytes() < u64::MAX,
        ensures
            final (self).wf(),
            r == 0 || r == 1,
            (r == 1) == old(self).queue()[0],
            final (self).queue() == old(self).queue().skip(1),
            final (self).consumed_bits() == old(self).consumed_bits() + 1,
            final (self).pushed() == old(self).pushed(),
            final (self).consumed_bytes() * 8 <= final (self).consumed_bits(),
    {
        let popped = bq_pop(&mut self.bit_queue, 1);
        proof {
            assert(popped < (1u128 << (1u32 as u128)) ==> popped == 0 || popped == 1)
                by (bit_vector);
            assert(u128_bits(popped, 1)[0] == bit_at(popped, 0));
            assert((popped >> (0int as u128)) & 1 == popped) by (bit_vector)
                requires
                    popped == 0 || popped == 1,
            ;
            assert(old(self).queue().take(1)[0] == old(self).queue()[0]);
        }
        let res = popped as u8;
        self.bits_in_byte_consumed = self.bits_in_byte_consumed + 1;
        if self.bits_in_byte_consumed == 8 {
            self.bits_in_byte_consumed = 0;
            self.bytes_consumed = self.bytes_consumed + 1;
        }
        res
    }
}

// ---------------------------------------------------------------------------
// Bit source -> byte sink.
// ---------------------------------------------------------------------------

/// Collects single bits and hands back whole bytes (and the 64-bit header);
/// tracks how many bytes have been handed out.
pub struct BitsIntoBytes {
    bytes_pushed: u128,
    bits_in_byte_pushed: u8,
    bytes_consumed: u128,
    bit_queue: LeBitQueue,
}

impl BitsIntoBytes {
    /// The queued bits, next to pop first.
    pub closed spec fn queue(self) -> Seq<bool> {
        queue_bits(self.bit_queue)
    }

    /// Total bits pushed since construction.
    pub closed spec fn pushed_bits(self) -> int {
        self.bytes_pushed * 8 + self.bits_in_byte_pushed
    }

    /// How many bytes have been popped (the header counting as 8).
    pub closed spec fn consumed_bytes(self) -> int {
        self.bytes_consumed as int
    }

    pub closed spec fn wf(self) -> bool {
        &&& self.queue().len() <= 128
        &&& self.bits_in_byte_pushed < 8
    }

    /// An empty collector.
    pub fn new() -> (r: BitsIntoBytes)
        ensures
            r.wf(),
            r.queue().len() == 0,
            r.pushed_bits() == 0,
            r.consumed_bytes() == 0,
    {
        BitsIntoBytes {
            bytes_pushed: 0,
            bits_in_byte_pushed: 0,
            bytes_consumed: 0,
            bit_queue: bq_new(),
        }
    }

    /// Whether one more bit fits in the queue.
    pub fn can_accept_bit(&self) -> (r: bool)
        requires
            self.wf(),
        ensures
            r == (self.queue().len() < 128),
    {
        bq_max_len(&self.bit_queue) - bq_len(&self.bit_queue) >= 1
    }

    /// Pushes one bit.
    pub fn accept_bit(&mut self, bit: u8)
        requires
            old(self).wf(),
            old(self).queue().len() < 128,
            bit == 0 || bit == 1,
            old(self).pushed_bits() + 1 < u128::MAX,
        ensures
            final (self).wf(),
            final (self).queue() == old(self).queue().push(bit == 1),
            final (self).pushed_bits() == old(self).pushed_bits() + 1,
            final (self).consumed_bytes() == old(self).consumed_bytes(),
    {
        proof {
            assert((bit as u128) < (1u128 << (1u32 as u128))) by (bit_vector)
                requires
                    bit == 0 || bit == 1,
            ;
        }
        bq_push(&mut self.bit_queue, 1, bit as u128);
        proof {
            assert(u128_bits(bit as u128, 1) =~= seq![bit == 1]) by {
                assert(((bit as u128) >> (0int as u128)) & 1 == bit as u128) by (bit_vector)
                    requires
                        bit == 0 || bit == 1,
                ;
            }
            assert(old(self).queue() + seq![bit == 1] =~= old(self).queue().push(bit == 1));
        }
        self.bits_in_byte_pushed = self.bits_in_byte_pushed + 1;
        if self.bits_in_byte_pushed == 8 {
            self.bits_in_byte_pushed = 0;
            self.bytes_pushed = self.bytes_pushed + 1;
        }
    }

    /// How many bytes have been popped so far.
    pub fn bytes_consumed(&self) -> (r: u128)
        ensures
            r as int == self.consumed_bytes(),
    {
        self.bytes_consumed
    }

    /// Whole bytes currently queued.
    pub fn bytes_available(&self) -> (r: u32)
        ensures
            r == self.queue().len() / 8,
    {
        bq_len(&self.bit_queue) / 8
    }

    /// Pops eight bits as one byte, first popped bit least significant.
    pub fn get_byte(&mut self) -> (r: u8)
        requires
            old(self).wf(),
            old(self).queue().len() >= 8,
            old(self).consumed_bytes() + 1 < u128::MAX,
        ensures
            final (self).wf(),
            forall|i: int| 0 <= i < 8 ==> #[trigger] byte_bit(r, i) == old(self).queue()[i],
            final (self).queue() == old(self).queue().skip(8),
            final (self).consumed_bytes() == old(self).consumed_bytes() + 1,
            final (self).pushed_bits() == old(self).pushed_bits(),
    {
        let popped = bq_pop(&mut self.bit_queue, 8);
        let res = popped as u8;
        proof {
            assert(popped < (1u128 << (8u32 as u128)) ==> (popped as u8) as u128 == popped)
                by (bit_vector);
            assert forall|i: int| 0 <= i < 8 implies #[trigger] byte_bit(res, i) == old(
                self,
            ).queue()[i] by {
                assert(u128_bits(popped, 8)[i] == bit_at(popped, i));
                assert(old(self).queue().take(8)[i] == old(self).queue()[i]);
            }
        }
        self.bytes_consumed = self.bytes_consumed + 1;
        res
    }

    /// Pops 64 bits as the frame's length header, first popped bit least
    /// significant.
    pub fn get_header_bytes(&mut self) -> (r: u64)
        requires
            old(self).wf(),
            old(self).queue().len() >= 64,
            old(self).consumed_bytes() + 8 < u128::MAX,
        ensures
            final (self).wf(),
            forall|i: int| 0 <= i < 64 ==> #[trigger] bit_at(r as u128, i) == old(self).queue()[i],
            final (self).queue() == old(self).queue().skip(64),
            final (self).consumed_bytes() == old(self).consumed_bytes() + 8,
            final (self).pushed_bits() == old(self).pushed_bits(),
    {
        let popped = bq_pop(&mut self.bit_queue, 64);
        let res = popped as u64;
        proof {
            assert(popped < (1u128 << (64u32 as u128)) ==> (popped as u64) as u128 == popped)
                by (bit_vector);
            assert forall|i: int| 0 <= i < 64 implies #[trigger] bit_at(res as u128, i) == old(
                self,
            ).queue()[i] by {
                assert(u128_bits(popped, 64)[i] == bit_at(popped, i));
                assert(old(self).queue().take(64)[i] == old(self).queue()[i]);
            }
        }
        self.bytes_consumed = self.bytes_consumed + 8;
        res
    }
}

// ---------------------------------------------------------------------------
// The two codec roles.
// ---------------------------------------------------------------------------

/// A source of frame bits on the encode side: emits the length header and
/// the payload, one bit at a time.
pub trait BitFeed: Sized {
    /// Structural invariant of the feed.
    spec fn inv(&self) -> bool;

    /// Bit `k` of the frame this feed serializes; fixed over the feed's
    /// lifetime.
    spec fn stream(&self, k: int) -> bool;

    /// Total frame length in bits (header plus declared payload).
    spec fn frame_len(&self) -> int;

    /// Number of bits already emitted.
    spec fn pos(&self) -> int;

    /// Total bits this feed's byte source can ever emit; a repeating
    /// source supplies at least the whole frame.
    spec fn supply(&self) -> int;

    /// True once every bit of the frame has been emitted.
    fn done(&self) -> (r: bool)
        requires
            self.inv(),
        ensures
            r == (self.pos() >= self.frame_len()),
    ;

    /// Emits the next frame bit, or `PayloadUnderrun` when a finite byte
    /// source ran dry.
    fn get_bit(&mut self) -> (r: Result<u8, StegoError>)
        requires
            old(self).inv(),
            old(self).pos() < old(self).frame_len(),
        ensures
            final (self).inv(),
            final (self).frame_len() == old(self).frame_len(),
            final (self).supply() == old(self).supply(),
            forall|k: int| final (self).stream(k) == old(self).stream(k),
            r matches Ok(b) ==> (b == 0 || b == 1) && ((b == 1) == old(self).stream(
                old(self).pos(),
            )) && final (self).pos() == old(self).pos() + 1,
            old(self).pos() < old(self).supply() ==> r is Ok,
            old(self).pos() >= old(self).supply() ==> r == Err::<u8, StegoError>(
                StegoError::PayloadUnderrun,
            ) && *final (self) == *old(self),
    ;
}

/// A sink of frame bits on the decode side: collects pushed bits and hands
/// back the header and whole payload bytes.
pub trait ByteFeed: Sized {
    /// Structural invariant of the feed.
    spec fn inv(&self) -> bool;

    /// The bits pushed and not yet drained, oldest first.
    spec fn queue(&self) -> Seq<bool>;

    /// Bytes drained so far, the header counting as 8.
    spec fn consumed(&self) -> int;

    /// Total bits pushed since construction.
    spec fn pushed_bits(&self) -> int;

    /// Queues one bit; `QueueOverflow` when no slot is free.
    fn push_bit(&mut self, bit: u8) -> (r: Result<(), StegoError>)
        requires
            old(self).inv(),
            bit == 0 || bit == 1,
            old(self).pushed_bits() + 1 < u128::MAX,
        ensures
            final (self).inv(),
            old(self).queue().len() < 128 ==> r is Ok && final (self).queue() == old(
                self,
            ).queue().push(bit == 1) && final (self).consumed() == old(self).consumed() && final (
            self).pushed_bits() == old(self).pushed_bits() + 1,
            old(self).queue().len() >= 128 ==> r == Err::<(), StegoError>(StegoError::QueueOverflow)
                && *final (self) == *old(self),
    ;

    /// Whole bytes currently queued.
    fn bytes_available(&self) -> (r: u32)
        requires
            self.inv(),
        ensures
            r == self.queue().len() / 8,
    ;

    /// Drains eight bits as one byte, first drained bit least significant.
    fn get_byte(&mut self) -> (r: u8)
        requires
            old(self).inv(),
            old(self).queue().len() >= 8,
            old(self).consumed() + 1 < u128::MAX,
        ensures
            final (self).inv(),
            forall|i: int| 0 <= i < 8 ==> #[trigger] byte_bit(r, i) == old(self).queue()[i],
            final (self).queue() == old(self).queue().skip(8),
            final (self).consumed() == old(self).consumed() + 1,
            final (self).pushed_bits() == old(self).pushed_bits(),
    ;

    /// Drains 64 bits as the declared payload length, first drained bit
    /// least significant.
    fn get_header_bytes(&mut self) -> (r: u64)
        requires
            old(self).inv(),
            old(self).queue().len() >= 64,
            old(self).consumed() + 8 < u128::MAX,
        ensures
            final (self).inv(),
            forall|i: int| 0 <= i < 64 ==> #[trigger] bit_at(r as u128, i) == old(self).queue()[i],
            final (self).queue() == old(self).queue().skip(64),
            final (self).consumed() == old(self).consumed() + 8,
            final (self).pushed_bits() == old(self).pushed_bits(),
    ;

    /// True once the 64 header bits have been drained.
    fn header_was_read(&self) -> (r: bool)
        requires
            self.inv(),
        ensures
            r == (self.consumed() >= 8),
    ;
}

// ---------------------------------------------------------------------------
// Encoders.
// ---------------------------------------------------------------------------

/// Serializes a frame whose payload is a short text repeated: the declared
/// length is independent of the text's own length, and the text's UTF-8
/// bytes cycle for as long as bits are requested.
pub struct StringEncoder {
    content: Vec<u8>,
    pos: usize,
    total_bytes: u64,
    feeder: BytesIntoBits,
}

impl StringEncoder {
    /// The UTF-8 bytes of the repeating text.
    pub closed spec fn bytes(self) -> Seq<u8> {
        self.content@
    }

    /// The declared payload length in bytes.
    pub closed spec fn declared_u64(self) -> u64 {
        (self.total_bytes - 8) as u64
    }

    /// Frame length in bytes, header included.
    pub closed spec fn total(self) -> int {
        self.total_bytes as int
    }

    /// Builds an encoder that declares `text bytes * times` payload bytes
    /// and cycles the text's bytes to supply them.
    pub fn new(content: &String, times: &u64) -> (r: StringEncoder)
        requires
            encode_utf8(content@).len() > 0,
            encode_utf8(content@).len() * (*times as int) + 8 <= u64::MAX,
        ensures
            r.inv(),
            r.bytes() == encode_utf8(content@),
            r.declared_u64() as int == encode_utf8(content@).len() * (*times as int),
            r.frame_len() == 64 + 8 * (r.declared_u64() as int),
            r.pos() == 0,
            r.supply() == r.frame_len(),
            forall|k: int| #[trigger]
                r.stream(k) == cycle_frame_bit(r.declared_u64(), encode_utf8(content@), k),
    {
        let bytes_vec = content.as_str().as_bytes_vec();
        let elen: u64 = bytes_vec.len() as u64;
        let encoded_bytes: u64 = elen * (*times);
        proof {
            assert(elen as int * (*times as int) == encode_utf8(content@).len() * (
            *times as int));
        }
        let r = StringEncoder {
            content: bytes_vec,
            pos: 0,
            total_bytes: HEADER_BYTES + encoded_bytes,
            feeder: BytesIntoBits::new(encoded_bytes),
        };
        proof {
            assert forall|j: int| 0 <= j < r.feeder.queue().len() implies #[trigger] r.feeder.queue()[j]
                == cycle_frame_bit(r.declared_u64(), r.content@, r.feeder.consumed_bits() + j) by {
                assert(r.feeder.queue()[j] == bit_at(encoded_bytes as u128, j));
            }
        }
        r
    }
}

impl BitFeed for StringEncoder {
    closed spec fn inv(&self) -> bool {
        &&& self.feeder.wf()
        &&& self.content@.len() > 0
        &&& self.pos < self.content@.len()
        &&& self.pos as int == self.feeder.pushed() % (self.content@.len() as int)
        &&& self.total_bytes >= 8
        &&& self.feeder.consumed_bits() + self.feeder.queue().len() == 64 + 8 * self.feeder.pushed()
        &&& self.feeder.consumed_bits() <= 8 * self.total()
        &&& self.feeder.pushed() <= self.total() + 16
        &&& forall|j: int|
            0 <= j < self.feeder.queue().len() ==> #[trigger] self.feeder.queue()[j]
                == cycle_frame_bit(
                self.declared_u64(),
                self.content@,
                self.feeder.consumed_bits() + j,
            )
    }

    closed spec fn stream(&self, k: int) -> bool {
        cycle_frame_bit(self.declared_u64(), self.content@, k)
    }

    closed spec fn frame_len(&self) -> int {
        8 * self.total()
    }

    closed spec fn pos(&self) -> int {
        self.feeder.consumed_bits()
    }

    closed spec fn supply(&self) -> int {
        self.frame_len()
    }

    fn done(&self) -> (r: bool) {
        self.feeder.bytes_consumed() >= self.total_bytes
    }

    fn get_bit(&mut self) -> (r: Result<u8, StegoError>) {
        if self.feeder.can_accept_byte() {
            let byte = self.content[self.pos];
            let ghost p = self.feeder.pushed();
            let ghost len = self.content@.len() as int;
            proof {
                assert(byte == cycle_byte(self.content@, p));
            }
            self.feeder.accept_byte(byte);
            proof {
                assert(self.pos < self.content@.len());
            }
            let clen = self.content.len();
            self.pos = if self.pos + 1 == clen {
                0
            } else {
                self.pos + 1
            };
            proof {
                lemma_mod_increment(p, self.pos as int, len);
                assert forall|j: int| 0 <= j < self.feeder.queue().len() implies #[trigger] self.feeder.queue()[j]
                    == cycle_frame_bit(
                    self.declared_u64(),
                    self.content@,
                    self.feeder.consumed_bits() + j,
                ) by {
                    let qold = self.feeder.queue().len() - 8;
                    if j >= qold {
                        let i = j - qold;
                        let k = self.feeder.consumed_bits() + j;
                        assert(self.feeder.queue()[j] == u128_bits(byte as u128, 8)[i]);
                        assert(k - 64 == 8 * p + i);
                        lemma_byte_slot(p, i);
                        assert(cycle_frame_bit(self.declared_u64(), self.content@, k) == byte_bit(
                            cycle_byte(self.content@, p),
                            i,
                        ));
                    }
                }
            }
        }
        let b = self.feeder.get_bit();
        Ok(b)
    }
}

/// In a cycling position update, the stored index tracks `pushed mod len`.
proof fn lemma_mod_increment(p: int, new_pos: int, len: int)
    requires
        0 < len,
        0 <= p,
        new_pos == if p % len + 1 == len {
            0int
        } else {
            p % len + 1
        },
    ensures
        new_pos == (p + 1) % len,
{
    lemma_add_mod_noop(p, 1, len);
    if len == 1 {
        lemma_small_mod(0, 1);
        lemma_mod_self_0(1);
    } else {
        lemma_small_mod(1, len as nat);
        if p % len + 1 == len {
            lemma_mod_self_0(len);
        } else {
            lemma_small_mod((p % len + 1) as nat, len as nat);
        }
    }
}

/// Bit `i` of payload byte `p` sits at frame bit `64 + 8p + i`.
pub(crate) proof fn lemma_byte_slot(p: int, i: int)
    requires
        0 <= p,
        0 <= i < 8,
    ensures
        (8 * p + i) / 8 == p,
        (8 * p + i) % 8 == i,
{
    assert((8 * p + i) / 8 == p && (8 * p + i) % 8 == i) by (nonlinear_arith)
        requires
            0 <= p && 0 <= i < 8,
    ;
}

/// Serializes a frame from an in-memory byte buffer: the declared length
/// may exceed the buffer, in which case the feed underruns once the buffer
/// and the queued bits are exhausted.
pub struct BinaryEncoder {
    data: Vec<u8>,
    pos: usize,
    total_bytes: u64,
    feeder: BytesIntoBits,
}

impl BinaryEncoder {
    /// The payload bytes backing the feed.
    pub closed spec fn data_bytes(self) -> Seq<u8> {
        self.data@
    }

    /// The declared payload length in bytes.
    pub closed spec fn declared_u64(self) -> u64 {
        (self.total_bytes - 8) as u64
    }

    /// Frame length in bytes, header included.
    pub closed spec fn total(self) -> int {
        self.total_bytes as int
    }

    /// Builds an encoder that declares `filesize` payload bytes and pulls
    /// them from `data`.
    pub fn new(data: Vec<u8>, filesize: u64) -> (r: BinaryEncoder)
        requires
            filesize + 8 <= u64::MAX,
        ensures
            r.inv(),
            r.data_bytes() == data@,
            r.declared_u64() == filesize,
            r.frame_len() == 64 + 8 * (filesize as int),
            r.pos() == 0,
            r.supply() == 64 + 8 * data@.len(),
            forall|k: int| #[trigger] r.stream(k) == frame_bit(filesize, data@, k),
    {
        let r = BinaryEncoder {
            data,
            pos: 0,
            total_bytes: HEADER_BYTES + filesize,
            feeder: BytesIntoBits::new(filesize),
        };
        proof {
            assert forall|j: int| 0 <= j < r.feeder.queue().len() implies #[trigger] r.feeder.queue()[j]
                == frame_bit(r.declared_u64(), r.data@, r.feeder.consumed_bits() + j) by {
                assert(r.feeder.queue()[j] == bit_at(filesize as u128, j));
            }
        }
        r
    }
}

impl BitFeed for BinaryEncoder {
    closed spec fn inv(&self) -> bool {
        &&& self.feeder.wf()
        &&& self.pos <= self.data@.len()
        &&& self.pos as int == self.feeder.pushed()
        &&& self.total_bytes >= 8
        &&& self.feeder.consumed_bits() + self.feeder.queue().len() == 64 + 8 * self.feeder.pushed()
        &&& self.feeder.consumed_bits() <= 8 * self.total()
        &&& forall|j: int|
            0 <= j < self.feeder.queue().len() ==> #[trigger] self.feeder.queue()[j] == frame_bit(
                self.declared_u64(),
                self.data@,
                self.feeder.consumed_bits() + j,
            )
    }

    closed spec fn stream(&self, k: int) -> bool {
        frame_bit(self.declared_u64(), self.data@, k)
    }

    closed spec fn frame_len(&self) -> int {
        8 * self.total()
    }

    closed spec fn pos(&self) -> int {
        self.feeder.consumed_bits()
    }

    closed spec fn supply(&self) -> int {
        64 + 8 * (self.data@.len() as int)
    }

    fn done(&self) -> (r: bool) {
        self.feeder.bytes_consumed() >= self.total_bytes
    }

    fn get_bit(&mut self) -> (r: Result<u8, StegoError>) {
        if self.feeder.can_accept_byte() {
            if self.pos < self.data.len() {
                let byte = self.data[self.pos];
                let ghost p = self.feeder.pushed();
                self.feeder.accept_byte(byte);
                self.pos = self.pos + 1;
                proof {
                    assert forall|j: int| 0 <= j < self.feeder.queue().len() implies #[trigger] self.feeder.queue()[j]
                        == frame_bit(
                        self.declared_u64(),
                        self.data@,
                        self.feeder.consumed_bits() + j,
                    ) by {
                        let qold = self.feeder.queue().len() - 8;
                        if j >= qold {
                            let i = j - qold;
                            let k = self.feeder.consumed_bits() + j;
                            assert(self.feeder.queue()[j] == u128_bits(byte as u128, 8)[i]);
                            assert(k - 64 == 8 * p + i);
                            lemma_byte_slot(p, i);
                        }
                    }
                }
            }
        }
        if self.feeder.queued_bits() == 0 {
            proof {
                assert(self.feeder.consumed_bits() >= 64 + 8 * self.data@.len());
            }
            return Err(StegoError::PayloadUnderrun);
        }
        proof {
            if self.pos() < 64 + 8 * self.data@.len() {
            }
        }
        let b = self.feeder.get_bit();
        Ok(b)
    }
}

// ---------------------------------------------------------------------------
// Decoders.
// ---------------------------------------------------------------------------

/// Collects the bit stream read back from a mesh and reassembles the text
/// frame's header and payload bytes.
pub struct StringDecoder {
    feeder: BitsIntoBytes,
}

impl StringDecoder {
    /// An empty decoder.
    pub fn new() -> (r: StringDecoder)
        ensures
            r.inv(),
            r.queue().len() == 0,
            r.consumed() == 0,
            r.pushed_bits() == 0,
    {
        StringDecoder { feeder: BitsIntoBytes::new() }
    }
}

impl ByteFeed for StringDecoder {
    closed spec fn inv(&self) -> bool {
        self.feeder.wf()
    }

    closed spec fn queue(&self) -> Seq<bool> {
        self.feeder.queue()
    }

    closed spec fn consumed(&self) -> int {
        self.feeder.consumed_bytes()
    }

    closed spec fn pushed_bits(&self) -> int {
        self.feeder.pushed_bits()
    }

    fn push_bit(&mut self, bit: u8) -> (r: Result<(), StegoError>) {
        if self.feeder.can_accept_bit() {
            self.feeder.accept_bit(bit);
            Ok(())
        } else {
            Err(StegoError::QueueOverflow)
        }
    }

    fn bytes_available(&self) -> (r: u32) {
        self.feeder.bytes_available()
    }

    fn get_byte(&mut self) -> (r: u8) {
        self.feeder.get_byte()
    }

    fn get_header_bytes(&mut self) -> (r: u64) {
        self.feeder.get_header_bytes()
    }

    fn header_was_read(&self) -> (r: bool) {
        self.feeder.bytes_consumed() >= 8
    }
}

/// Collects the bit stream read back from a mesh and reassembles the binary
/// frame's header and payload bytes.
pub struct BinaryDecoder {
    feeder: BitsIntoBytes,
}

impl BinaryDecoder {
    /// An empty decoder.
    pub fn new() -> (r: BinaryDecoder)
        ensures
            r.inv(),
            r.queue().len() == 0,
            r.consumed() == 0,
            r.pushed_bits() == 0,
    {
        BinaryDecoder { feeder: BitsIntoBytes::new() }
    }
}

impl ByteFeed for BinaryDecoder {
    closed spec fn inv(&self) -> bool {
        self.feeder.wf()
    }

    closed spec fn queue(&self) -> Seq<bool> {
        self.feeder.queue()
    }

    closed spec fn consumed(&self) -> int {
        self.feeder.consumed_bytes()
    }

    closed spec fn pushed_bits(&self) -> int {
        self.feeder.pushed_bits()
    }

    fn push_bit(&mut self, bit: u8) -> (r: Result<(), StegoError>) {
        if self.feeder.can_accept_bit() {
            self.feeder.accept_bit(bit);
            Ok(())
        } else {
            Err(StegoError::QueueOverflow)
        }
    }

    fn bytes_available(&self) -> (r: u32) {
        self.feeder.bytes_available()
    }

    fn get_byte(&mut self) -> (r: u8) {
        self.feeder.get_byte()
    }

    fn get_header_bytes(&mut self) -> (r: u64) {
        self.feeder.get_header_bytes()
    }

    fn header_was_read(&self) -> (r: bool) {
        self.feeder.bytes_consumed() >= 8
    }
}

} // verus!
