use vstd::prelude::*;

use std::collections::HashMap;

use vstd::arithmetic::div_mod::{
    lemma_div_pos_is_pos, lemma_fundamental_div_mod, lemma_fundamental_div_mod_converse,
    lemma_mod_bound,
};
use vstd::utf8::encode_utf8;

use crate::addressing::{get_available_bits, shift_of, valid_bit_depth, validate_bit_range};
use crate::bitmath::{bit_at, byte_bit};
use crate::errors::StegoError;
use crate::manip::{write_prefix, ManipulatorMode, VertexManipulator};
use crate::reader_writer::{
    cycle_frame_bit, frame_bit, BinaryDecoder, BinaryEncoder, BitFeed, ByteFeed, StringDecoder,
    StringEncoder, HEADER_BYTES,
};

verus! {

broadcast use vstd::std_specs::hash::group_hash_axioms;

// ---------------------------------------------------------------------------
// Driving loops: tie a frame codec to the vertex manipulator.
// ---------------------------------------------------------------------------

/// Bit `k` of the stream read off a vertex sequence at depth `bits`: the
/// target positions of each vertex in order, vertex after vertex, and 0
/// once the sequence is exhausted.
pub open spec fn stream_bit(verts: Seq<u128>, bits: int, k: int) -> bool
    recommends
        valid_bit_depth(bits),
        0 <= k,
{
    let per = 3 * bits;
    if k / per < verts.len() {
        bit_at(verts[k / per], shift_of(bits, k % per))
    } else {
        false
    }
}

/// The slice of frame bits that lands in vertex `i`: a full quota of
/// `3 * bits`, or what is left of the frame for the last touched vertex.
pub open spec fn seg_of(fbits: Seq<bool>, bits: int, i: int) -> Seq<bool> {
    fbits.subrange(
        3 * bits * i,
        if 3 * bits * (i + 1) <= fbits.len() {
            3 * bits * (i + 1)
        } else {
            fbits.len() as int
        },
    )
}

/// How many vertices a frame of `flen` bits touches at depth `bits`.
pub open spec fn touched_count(flen: int, bits: int) -> int {
    (flen + 3 * bits - 1) / (3 * bits)
}

/// The translation map a complete encode leaves behind: exactly the first
/// `cnt` vertices are mapped, each to its original value with its target
/// positions overwritten by its slice of the frame.
pub open spec fn map_matches(
    m: Map<u128, u128>,
    verts: Seq<u128>,
    bits: int,
    fbits: Seq<bool>,
    cnt: int,
) -> bool {
    &&& forall|i: int|
        0 <= i < cnt ==> m.contains_key(#[trigger] verts[i]) && m[verts[i]] == write_prefix(
            verts[i],
            bits,
            seg_of(fbits, bits, i),
        )
    &&& forall|k: u128| m.contains_key(k) ==> exists|i: int| 0 <= i < cnt && verts[i] == k
}

/// One step of cyclic position arithmetic.
pub(crate) proof fn lemma_step_divmod(n: int, per: int)
    requires
        per > 0,
        n >= 0,
    ensures
        n % per + 1 < per ==> (n + 1) / per == n / per && (n + 1) % per == n % per + 1,
        n % per + 1 == per ==> (n + 1) / per == n / per + 1 && (n + 1) % per == 0,
        0 <= n % per < per,
        0 <= n / per,
        n == (n / per) * per + n % per,
{
    lemma_fundamental_div_mod(n, per);
    lemma_mod_bound(n, per);
    lemma_div_pos_is_pos(n, per);
    assert(per * (n / per) == (n / per) * per) by (nonlinear_arith);
    if n % per + 1 < per {
        lemma_fundamental_div_mod_converse(n + 1, per, n / per, n % per + 1);
    } else {
        assert((n / per + 1) * per == (n / per) * per + per) by (nonlinear_arith);
        lemma_fundamental_div_mod_converse(n + 1, per, n / per + 1, 0);
    }
}

/// A position below the total capacity lies in a real vertex.
pub(crate) proof fn lemma_pos_in_range(n: int, per: int, len: int)
    requires
        per > 0,
        0 <= n,
        n < per * len,
    ensures
        n / per < len,
{
    lemma_fundamental_div_mod(n, per);
    lemma_mod_bound(n, per);
    assert(n / per < len) by (nonlinear_arith)
        requires
            per > 0 && n == per * (n / per) + n % per && 0 <= n % per < per && n < per * len,
    ;
}

/// Pumps every frame bit from `encoder` into `vman`, recording each touched
/// vertex's (original, transformed) pair; `fbits` is the frame the encoder
/// serializes.  Fails with `PayloadUnderrun` exactly when the byte source
/// cannot supply the whole frame.
fn pump_bits<B: BitFeed>(
    encoder: &mut B,
    vman: &mut VertexManipulator,
    vertex_map: &mut HashMap<u128, u128>,
    Ghost(fbits): Ghost<Seq<bool>>,
) -> (r: Result<(), StegoError>)
    requires
        old(encoder).inv(),
        old(encoder).pos() == 0,
        old(encoder).frame_len() == fbits.len(),
        64 <= fbits.len(),
        forall|k: int| 0 <= k < fbits.len() ==> old(encoder).stream(k) == fbits[k],
        old(vman).wf(),
        valid_bit_depth(old(vman).bits()),
        old(vman).mode_spec() == ManipulatorMode::WRITE,
        old(vman).vidx() == 0,
        old(vman).cursor() == 0,
        old(vman).written().len() == 0,
        old(vman).verts().no_duplicates(),
        fbits.len() <= 3 * old(vman).bits() * old(vman).verts().len(),
        old(vertex_map)@ == Map::<u128, u128>::empty(),
    ensures
        r is Ok <==> old(encoder).supply() >= fbits.len(),
        r is Err ==> r == Err::<(), StegoError>(StegoError::PayloadUnderrun),
        r is Ok ==> map_matches(
            final (vertex_map)@,
            old(vman).verts(),
            old(vman).bits(),
            fbits,
            touched_count(fbits.len() as int, old(vman).bits()),
        ),
{
    let ghost verts = old(vman).verts();
    let ghost b = old(vman).bits();
    let ghost per = 3 * b;
    let ghost flen = fbits.len() as int;
    let ghost mut n: int = 0;
    let mut done_flag = encoder.done();
    proof {
        lemma_fundamental_div_mod_converse(0, per, 0, 0);
        assert(vman.written() =~= fbits.subrange(0, 0));
    }
    while !done_flag
        invariant
            encoder.inv(),
            vman.wf(),
            vman.mode_spec() == ManipulatorMode::WRITE,
            vman.verts() == verts,
            vman.bits() == b,
            per == 3 * b,
            valid_bit_depth(b),
            verts.no_duplicates(),
            flen == fbits.len(),
            64 <= flen,
            flen <= per * verts.len(),
            encoder.frame_len() == flen,
            encoder.supply() == old(encoder).supply(),
            forall|k: int| 0 <= k < flen ==> encoder.stream(k) == fbits[k],
            0 <= n <= flen,
            n == 0 || encoder.supply() >= n,
            n == encoder.pos(),
            done_flag == (n >= flen),
            vman.vidx() == n / per,
            vman.cursor() == n % per,
            vman.written() == fbits.subrange(per * (n / per), n),
            map_matches(
                vertex_map@,
                verts,
                b,
                fbits,
                if n < flen {
                    n / per
                } else {
                    touched_count(flen, b)
                },
            ),
        decreases flen - n,
    {
        let next_bit = match encoder.get_bit() {
            Ok(bit) => bit,
            Err(e) => {
                proof {
                    assert(encoder.supply() <= n < flen);
                }
                return Err(e);
            },
        };
        proof {
            lemma_step_divmod(n, per);
            if n % per + 1 == per {
                lemma_pos_in_range(n, per, verts.len() as int);
            }
        }
        let ghost m_before = vertex_map@;
        let (vertex_write, vertex_orig, vertex_changed) = vman.set_next_bit_in_vertex(next_bit);
        proof {
            assert(fbits.subrange(per * (n / per), n).push(fbits[n]) =~= fbits.subrange(
                per * (n / per),
                n + 1,
            ));
        }
        done_flag = encoder.done();
        proof {
            n = n + 1;
        }
        if vertex_write || done_flag {
            vertex_map.insert(vertex_orig, vertex_changed);
        }
        proof {
            lemma_step_divmod(n - 1, per);
            let i_old = (n - 1) / per;
            lemma_pos_in_range(n - 1, per, verts.len() as int);
            assert(vertex_orig == verts[i_old]);
            let wrapped = (n - 1) % per + 1 == per;
            if wrapped {
                assert(n == per * (i_old + 1)) by (nonlinear_arith)
                    requires
                        n - 1 == per * i_old + (per - 1),
                ;
                assert(n / per == i_old + 1);
                assert(vman.written() =~= fbits.subrange(per * (n / per), n));
            } else {
                assert(n / per == i_old);
            }
            if wrapped || n == flen {
                assert(per * (i_old + 1) == per * i_old + per) by (nonlinear_arith);
                assert(seg_of(fbits, b, i_old) =~= fbits.subrange(per * i_old, n));
                assert(vertex_changed == write_prefix(verts[i_old], b, seg_of(fbits, b, i_old)));
                lemma_map_insert_step(m_before, vertex_map@, verts, b, fbits, i_old, vertex_changed);
            }
            if n == flen {
                if wrapped {
                    assert(flen + per - 1 == (i_old + 1) * per + (per - 1)) by (nonlinear_arith)
                        requires
                            flen == per * (i_old + 1),
                    ;
                    lemma_fundamental_div_mod_converse(flen + per - 1, per, i_old + 1, per - 1);
                } else {
                    let c = (n - 1) % per;
                    assert(flen + per - 1 == (i_old + 1) * per + c) by (nonlinear_arith)
                        requires
                            flen - 1 == i_old * per + c,
                    ;
                    lemma_fundamental_div_mod_converse(flen + per - 1, per, i_old + 1, c);
                }
                assert(touched_count(flen, b) == i_old + 1);
            }
        }
    }
    proof {
        assert(n == flen);
    }
    Ok(())
}

/// The frame a text encode serializes: 64 header bits declaring `declared`
/// payload bytes, then `declared` bytes of the text cycled.
pub open spec fn text_frame(declared: u64, content: Seq<u8>) -> Seq<bool> {
    Seq::new((64 + 8 * declared) as nat, |k: int| cycle_frame_bit(declared, content, k))
}

/// The frame a data encode serializes: 64 header bits declaring `declared`
/// payload bytes, then the buffer's bytes.
pub open spec fn data_frame(declared: u64, data: Seq<u8>) -> Seq<bool> {
    Seq::new((64 + 8 * declared) as nat, |k: int| frame_bit(declared, data, k))
}

/// The number of whole bytes the mesh can embed at depth `bits`; a frame,
/// header included, must fit within it.
pub open spec fn capacity_bytes(vcount: int, bits: int) -> int {
    (vcount * bits * 3) / 8
}

/// Shared capacity check and pump for both encode flavours.
fn run_encode<B: BitFeed>(
    encoder: B,
    frame_bytes: u64,
    bits: u8,
    uniq_vertices: Vec<u128>,
    Ghost(fbits): Ghost<Seq<bool>>,
) -> (r: Result<HashMap<u128, u128>, StegoError>)
    requires
        valid_bit_depth(bits as int),
        encoder.inv(),
        encoder.pos() == 0,
        encoder.frame_len() == fbits.len(),
        64 <= fbits.len(),
        8 * (frame_bytes as int) == fbits.len(),
        forall|k: int| 0 <= k < fbits.len() ==> encoder.stream(k) == fbits[k],
        uniq_vertices@.no_duplicates(),
        uniq_vertices@.len() * 96 <= u64::MAX,
    ensures
        ({
            let cap = capacity_bytes(uniq_vertices@.len() as int, bits as int);
            &&& (r is Ok <==> fbits.len() <= 8 * cap && encoder.supply() >= fbits.len())
            &&& (fbits.len() > 8 * cap ==> r == Err::<HashMap<u128, u128>, StegoError>(
                StegoError::InsufficientCapacity,
            ))
            &&& (fbits.len() <= 8 * cap && encoder.supply() < fbits.len() ==> r == Err::<
                HashMap<u128, u128>,
                StegoError,
            >(StegoError::PayloadUnderrun))
            &&& (r matches Ok(m) ==> map_matches(
                m@,
                uniq_vertices@,
                bits as int,
                fbits,
                touched_count(fbits.len() as int, bits as int),
            ))
        }),
{
    let mut encoder = encoder;
    proof {
        assert(uniq_vertices@.len() * (bits as int) * 3 <= uniq_vertices@.len() * 96)
            by (nonlinear_arith)
            requires
                1 <= bits as int <= 32,
        ;
    }
    let available_bytes: u64 = get_available_bits(bits, &uniq_vertices) / 8;
    let ghost cap_bits = uniq_vertices@.len() * (bits as int) * 3;
    proof {
        lemma_fundamental_div_mod(cap_bits, 8);
        lemma_mod_bound(cap_bits, 8);
    }
    if !(frame_bytes <= available_bytes) {
        return Err(StegoError::InsufficientCapacity);
    }
    proof {
        assert(fbits.len() <= 8 * capacity_bytes(uniq_vertices@.len() as int, bits as int));
        if uniq_vertices@.len() == 0 {
            assert(cap_bits == 0);
            assert(false);
        }
    }
    let vman = match VertexManipulator::new(ManipulatorMode::WRITE, uniq_vertices, bits) {
        Ok(v) => v,
        Err(e) => {
            return Err(e);
        },
    };
    let mut vman = vman;
    let mut vertex_map: HashMap<u128, u128> = HashMap::new();
    proof {
        assert(3 * (bits as int) * (uniq_vertices@.len() as int) == uniq_vertices@.len() * (
        bits as int) * 3) by (nonlinear_arith);
    }
    match pump_bits(&mut encoder, &mut vman, &mut vertex_map, Ghost(fbits)) {
        Ok(()) => Ok(vertex_map),
        Err(e) => Err(e),
    }
}

/// Embeds a repeated text into the unique-vertex sequence: checks capacity,
/// then writes the frame `[length header][text bytes cycled]` across the
/// vertices' target positions.  Returns the translation map to apply to the
/// mesh.
pub fn encode_text_payload(text: &String, times: u64, bits: u8, uniq_vertices: Vec<u128>) -> (r:
    Result<HashMap<u128, u128>, StegoError>)
    requires
        encode_utf8(text@).len() > 0,
        encode_utf8(text@).len() * times + HEADER_BYTES <= u64::MAX,
        uniq_vertices@.no_duplicates(),
        uniq_vertices@.len() * 96 <= u64::MAX,
    ensures
        ({
            let declared = (encode_utf8(text@).len() * times) as u64;
            let flen = 64 + 8 * (declared as int);
            let cap = capacity_bytes(uniq_vertices@.len() as int, bits as int);
            &&& (r is Ok <==> valid_bit_depth(bits as int) && HEADER_BYTES + declared <= cap)
            &&& (!valid_bit_depth(bits as int) ==> r == Err::<HashMap<u128, u128>, StegoError>(
                StegoError::InvalidBitDepth,
            ))
            &&& (valid_bit_depth(bits as int) && HEADER_BYTES + declared > cap ==> r == Err::<
                HashMap<u128, u128>,
                StegoError,
            >(StegoError::InsufficientCapacity))
            &&& (r matches Ok(m) ==> map_matches(
                m@,
                uniq_vertices@,
                bits as int,
                text_frame(declared, encode_utf8(text@)),
                touched_count(flen, bits as int),
            ))
        }),
{
    if let Err(e) = validate_bit_range(bits) {
        return Err(e);
    }
    let expected_header_val: u64 = (text.as_str().as_bytes().len() as u64) * times;
    let expected_total_write_bytes: u64 = HEADER_BYTES + expected_header_val;
    let encoder = StringEncoder::new(text, &times);
    let ghost fbits = text_frame(expected_header_val, encode_utf8(text@));
    proof {
        assert forall|k: int| 0 <= k < fbits.len() implies encoder.stream(k) == fbits[k] by {}
    }
    run_encode(encoder, expected_total_write_bytes, bits, uniq_vertices, Ghost(fbits))
}

/// Embeds a byte buffer into the unique-vertex sequence: checks capacity,
/// then writes the frame `[length header][buffer bytes]` across the
/// vertices' target positions.  Returns the translation map to apply to the
/// mesh; a buffer shorter than the declared size underruns.
pub fn encode_data_payload(data: Vec<u8>, filesize: u64, bits: u8, uniq_vertices: Vec<u128>) -> (r:
    Result<HashMap<u128, u128>, StegoError>)
    requires
        filesize + HEADER_BYTES <= u64::MAX,
        uniq_vertices@.no_duplicates(),
        uniq_vertices@.len() * 96 <= u64::MAX,
    ensures
        ({
            let flen = 64 + 8 * (filesize as int);
            let cap = capacity_bytes(uniq_vertices@.len() as int, bits as int);
            &&& (r is Ok <==> valid_bit_depth(bits as int) && HEADER_BYTES + filesize <= cap
                && filesize <= data@.len())
            &&& (!valid_bit_depth(bits as int) ==> r == Err::<HashMap<u128, u128>, StegoError>(
                StegoError::InvalidBitDepth,
            ))
            &&& (valid_bit_depth(bits as int) && HEADER_BYTES + filesize > cap ==> r == Err::<
                HashMap<u128, u128>,
                StegoError,
            >(StegoError::InsufficientCapacity))
            &&& (valid_bit_depth(bits as int) && HEADER_BYTES + filesize <= cap && filesize
                > data@.len() ==> r == Err::<HashMap<u128, u128>, StegoError>(
                StegoError::PayloadUnderrun,
            ))
            &&& (r matches Ok(m) ==> map_matches(
                m@,
                uniq_vertices@,
                bits as int,
                data_frame(filesize, data@),
                touched_count(flen, bits as int),
            ))
        }),
{
    if let Err(e) = validate_bit_range(bits) {
        return Err(e);
    }
    let expected_total_write_bytes: u64 = HEADER_BYTES + filesize;
    let ghost dbytes = data@;
    let encoder = BinaryEncoder::new(data, filesize);
    let ghost fbits = data_frame(filesize, dbytes);
    proof {
        assert forall|k: int| 0 <= k < fbits.len() implies encoder.stream(k) == fbits[k] by {}
    }
    run_encode(encoder, expected_total_write_bytes, bits, uniq_vertices, Ghost(fbits))
}

/// What a decode pass leaves behind: as many bytes as the stream's first 64
/// bits declare, each byte equal to its eight stream bits.
pub open spec fn decoded_matches(out: Seq<u8>, verts: Seq<u128>, bits: int) -> bool {
    &&& out.len() <= u64::MAX
    &&& forall|i: int|
        0 <= i < 64 ==> #[trigger] bit_at(out.len() as u128, i) == stream_bit(verts, bits, i)
    &&& forall|j: int, i: int|
        0 <= j < out.len() && 0 <= i < 8 ==> #[trigger] byte_bit(out[j], i) == stream_bit(
            verts,
            bits,
            64 + 8 * j + i,
        )
}

/// The smaller of two positions.
spec fn min_i(a: int, b: int) -> int {
    if a < b {
        a
    } else {
        b
    }
}

/// Reads the bit stream off `vman`, recovers the 64-bit length header, then
/// collects that many payload bytes.
fn drain_frame<D: ByteFeed>(decoder: &mut D, vman: &mut VertexManipulator) -> (out: Vec<u8>)
    requires
        old(decoder).inv(),
        old(decoder).queue().len() == 0,
        old(decoder).consumed() == 0,
        old(decoder).pushed_bits() == 0,
        old(vman).wf(),
        valid_bit_depth(old(vman).bits()),
        old(vman).mode_spec() == ManipulatorMode::READ,
        old(vman).vidx() == 0,
        old(vman).cursor() == 0,
    ensures
        decoded_matches(out@, old(vman).verts(), old(vman).bits()),
{
    let ghost verts = old(vman).verts();
    let ghost b = old(vman).bits();
    let ghost per = 3 * b;
    let ghost vlen = verts.len() as int;
    proof {
        lemma_fundamental_div_mod_converse(0, per, 0, 0);
    }
    let mut fed: u64 = 0;
    while fed < 64
        invariant
            decoder.inv(),
            vman.wf(),
            vman.mode_spec() == ManipulatorMode::READ,
            vman.verts() == verts,
            vman.bits() == b,
            per == 3 * b,
            valid_bit_depth(b),
            vlen == verts.len(),
            fed <= 64,
            decoder.queue().len() == fed,
            decoder.consumed() == 0,
            decoder.pushed_bits() == fed,
            forall|j: int| 0 <= j < fed ==> decoder.queue()[j] == stream_bit(verts, b, j),
            vman.cursor() == (fed as int) % per,
            vman.vidx() == min_i((fed as int) / per, vlen),
        decreases 64 - fed,
    {
        let ghost k = fed as int;
        let next_bit = read_stream_bit(vman, Ghost(k));
        match decoder.push_bit(next_bit) {
            Ok(()) => {},
            Err(_) => {
                proof {
                    assert(false);
                }
            },
        }
        fed = fed + 1;
    }
    let remaining_bytes: u64 = decoder.get_header_bytes();
    let mut output: Vec<u8> = Vec::<u8>::new();
    let ghost mut kk: int = 64;
    proof {
        assert(decoder.queue().len() == 0);
    }
    while (output.len() as u64) < remaining_bytes
        invariant
            decoder.inv(),
            vman.wf(),
            vman.mode_spec() == ManipulatorMode::READ,
            vman.verts() == verts,
            vman.bits() == b,
            per == 3 * b,
            valid_bit_depth(b),
            vlen == verts.len(),
            output@.len() <= remaining_bytes,
            forall|i: int|
                0 <= i < 64 ==> #[trigger] bit_at(remaining_bytes as u128, i) == stream_bit(
                    verts,
                    b,
                    i,
                ),
            kk == 64 + 8 * output@.len() + decoder.queue().len(),
            0 <= decoder.queue().len() < 8,
            decoder.consumed() == 8 + output@.len(),
            decoder.pushed_bits() == kk,
            forall|j: int|
                0 <= j < decoder.queue().len() ==> #[trigger] decoder.queue()[j] == stream_bit(
                    verts,
                    b,
                    64 + 8 * output@.len() + j,
                ),
            forall|j: int, i: int|
                0 <= j < output@.len() && 0 <= i < 8 ==> #[trigger] byte_bit(output@[j], i)
                    == stream_bit(verts, b, 64 + 8 * j + i),
            vman.cursor() == kk % per,
            vman.vidx() == min_i(kk / per, vlen),
        decreases remaining_bytes - output@.len(),
    {
        while decoder.bytes_available() == 0
            invariant
                decoder.inv(),
                vman.wf(),
                vman.mode_spec() == ManipulatorMode::READ,
                vman.verts() == verts,
                vman.bits() == b,
                per == 3 * b,
                valid_bit_depth(b),
                vlen == verts.len(),
                output@.len() < remaining_bytes,
                kk == 64 + 8 * output@.len() + decoder.queue().len(),
                0 <= decoder.queue().len() <= 8,
                decoder.consumed() == 8 + output@.len(),
                decoder.pushed_bits() == kk,
                forall|j: int|
                    0 <= j < decoder.queue().len() ==> #[trigger] decoder.queue()[j] == stream_bit(
                        verts,
                        b,
                        64 + 8 * output@.len() + j,
                    ),
                vman.cursor() == kk % per,
                vman.vidx() == min_i(kk / per, vlen),
            decreases 8 - decoder.queue().len(),
        {
            let next_bit = read_stream_bit(vman, Ghost(kk));
            match decoder.push_bit(next_bit) {
                Ok(()) => {},
                Err(_) => {
                    proof {
                        assert(false);
                    }
                },
            }
            proof {
                kk = kk + 1;
            }
        }
        let byte = decoder.get_byte();
        output.push(byte);
    }
    output
}

/// Recovers the embedded frame from a unique-vertex sequence read as a text
/// decode: the declared number of payload bytes, byte-exact.
pub fn decode_text_payload(uniq_vertices: Vec<u128>, bits: u8) -> (r: Result<Vec<u8>, StegoError>)
    requires
        uniq_vertices@.len() > 0,
    ensures
        r is Ok <==> valid_bit_depth(bits as int),
        r is Err ==> r == Err::<Vec<u8>, StegoError>(StegoError::InvalidBitDepth),
        r matches Ok(out) ==> decoded_matches(out@, uniq_vertices@, bits as int),
{
    let vman = match VertexManipulator::new(ManipulatorMode::READ, uniq_vertices, bits) {
        Ok(v) => v,
        Err(e) => {
            return Err(e);
        },
    };
    let mut vman = vman;
    let mut decoder = StringDecoder::new();
    Ok(drain_frame(&mut decoder, &mut vman))
}

/// Recovers the embedded frame from a unique-vertex sequence read as a data
/// decode: the declared number of payload bytes, byte-exact.
pub fn decode_data_payload(uniq_vertices: Vec<u128>, bits: u8) -> (r: Result<Vec<u8>, StegoError>)
    requires
        uniq_vertices@.len() > 0,
    ensures
        r is Ok <==> valid_bit_depth(bits as int),
        r is Err ==> r == Err::<Vec<u8>, StegoError>(StegoError::InvalidBitDepth),
        r matches Ok(out) ==> decoded_matches(out@, uniq_vertices@, bits as int),
{
    let vman = match VertexManipulator::new(ManipulatorMode::READ, uniq_vertices, bits) {
        Ok(v) => v,
        Err(e) => {
            return Err(e);
        },
    };
    let mut vman = vman;
    let mut decoder = BinaryDecoder::new();
    Ok(drain_frame(&mut decoder, &mut vman))
}

/// Reads one bit of the vertex stream at position `k` and advances the
/// manipulator, keeping the position arithmetic in step.
fn read_stream_bit(vman: &mut VertexManipulator, Ghost(k): Ghost<int>) -> (r: u8)
    requires
        old(vman).wf(),
        valid_bit_depth(old(vman).bits()),
        old(vman).mode_spec() == ManipulatorMode::READ,
        0 <= k,
        old(vman).cursor() == k % (3 * old(vman).bits()),
        old(vman).vidx() == min_i(
            k / (3 * old(vman).bits()),
            old(vman).verts().len() as int,
        ),
    ensures
        final (vman).wf(),
        final (vman).mode_spec() == ManipulatorMode::READ,
        final (vman).verts() == old(vman).verts(),
        final (vman).bits() == old(vman).bits(),
        r == 0 || r == 1,
        (r == 1) == stream_bit(old(vman).verts(), old(vman).bits(), k),
        final (vman).cursor() == (k + 1) % (3 * old(vman).bits()),
        final (vman).vidx() == min_i(
            (k + 1) / (3 * old(vman).bits()),
            old(vman).verts().len() as int,
        ),
{
    let ghost b = old(vman).bits();
    let ghost per = 3 * b;
    let ghost vlen = old(vman).verts().len() as int;
    proof {
        lemma_step_divmod(k, per);
        if k / per < vlen {
            assert(min_i(k / per, vlen) == k / per);
        }
    }
    let r = vman.next_bit_from_vertex();
    proof {
        if k % per + 1 == per {
            if k / per < vlen {
                assert((k + 1) / per == k / per + 1);
            }
        }
    }
    r
}

/// Recording one more completed vertex extends the map characterization by
/// one entry.
proof fn lemma_map_insert_step(
    m_old: Map<u128, u128>,
    m_new: Map<u128, u128>,
    verts: Seq<u128>,
    b: int,
    fbits: Seq<bool>,
    i: int,
    v: u128,
)
    requires
        verts.no_duplicates(),
        0 <= i < verts.len(),
        map_matches(m_old, verts, b, fbits, i),
        v == write_prefix(verts[i], b, seg_of(fbits, b, i)),
        m_new == m_old.insert(verts[i], v),
    ensures
        map_matches(m_new, verts, b, fbits, i + 1),
{
    assert forall|j: int| 0 <= j < i + 1 implies m_new.contains_key(#[trigger] verts[j])
        && m_new[verts[j]] == write_prefix(verts[j], b, seg_of(fbits, b, j)) by {
        if j < i {
            assert(verts[j] != verts[i]);
        }
    }
    assert forall|k: u128| m_new.contains_key(k) implies exists|j: int|
        0 <= j < i + 1 && verts[j] == k by {
        if k == verts[i] {
            assert(verts[i as int] == k);
        } else {
            assert(m_old.contains_key(k));
        }
    }
}

} // verus!
