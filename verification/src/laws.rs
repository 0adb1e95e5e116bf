use vstd::prelude::*;

use vstd::arithmetic::div_mod::{
    lemma_fundamental_div_mod, lemma_fundamental_div_mod_converse, lemma_mod_bound,
};

use crate::addressing::{
    in_target, index_of_shift, keeps, lemma_shift_of_properties, masked_distinct,
    masked_pair_distinct, shift_of, valid_bit_depth,
};
use crate::bitmath::{bit_at, byte_bit, lemma_bits_injective, lemma_byte_ext};
use crate::drive::{
    decoded_matches, lemma_pos_in_range, lemma_step_divmod, map_matches, seg_of, stream_bit,
    touched_count,
};
use crate::manip::{lemma_write_prefix_bit, write_prefix};
use crate::reader_writer::lemma_byte_slot;
use crate::vertex::{
    clear_low, dedup_seq, lemma_clear_low_bit, lemma_dedup_contains, lemma_dedup_no_dups,
    lemma_vertex_key_injective, translated, tri_keys, vertex_key, vertex_of, Triangle,
};

verus! {

// ---------------------------------------------------------------------------
// The laws that tie the components together: reconstruction maps every
// occurrence of a vertex identically, and a decode pass over a freshly
// encoded mesh returns the payload byte for byte.
// ---------------------------------------------------------------------------

/// A vertex key shared by two triangle corners is rewritten identically in
/// both places: reconstruction looks keys up by value, never by position.
pub proof fn lemma_mapping_consistency(
    tris: Seq<Triangle>,
    out_tris: Seq<Triangle>,
    map: Map<u128, u128>,
    t1: int,
    j1: int,
    t2: int,
    j2: int,
)
    requires
        out_tris.len() == tris.len(),
        forall|t: int, j: int|
            0 <= t < tris.len() && 0 <= j < 3 ==> vertex_key(#[trigger] vertex_of(out_tris[t], j))
                == clear_low(translated(map, vertex_key(vertex_of(tris[t], j)))),
        0 <= t1 < tris.len(),
        0 <= j1 < 3,
        0 <= t2 < tris.len(),
        0 <= j2 < 3,
        vertex_key(vertex_of(tris[t1], j1)) == vertex_key(vertex_of(tris[t2], j2)),
    ensures
        vertex_key(vertex_of(out_tris[t1], j1)) == vertex_key(vertex_of(out_tris[t2], j2)),
        forall|c: int|
            0 <= c < 3 ==> #[trigger] vertex_of(out_tris[t1], j1)[c] == vertex_of(
                out_tris[t2],
                j2,
            )[c],
{
    lemma_vertex_key_injective(vertex_of(out_tris[t1], j1), vertex_of(out_tris[t2], j2));
}

/// A prefix's elements are elements of the whole.
proof fn lemma_drop_last_contains(s: Seq<u128>, a: u128)
    requires
        s.len() > 0,
        s.drop_last().contains(a),
    ensures
        s.contains(a),
{
    let i = choose|i: int| 0 <= i < s.len() - 1 && s.drop_last()[i] == a;
    assert(s[i] == a);
}

/// First-occurrence deduplication commutes with an injective pointwise
/// rewrite of the keys.
pub proof fn lemma_dedup_map(s: Seq<u128>, s2: Seq<u128>, f: spec_fn(u128) -> u128)
    requires
        s2.len() == s.len(),
        forall|t: int| 0 <= t < s.len() ==> s2[t] == f(#[trigger] s[t]),
        forall|a: u128, b: u128|
            s.contains(a) && s.contains(b) && #[trigger] f(a) == #[trigger] f(b) ==> a == b,
    ensures
        dedup_seq(s2).len() == dedup_seq(s).len(),
        forall|i: int|
            0 <= i < dedup_seq(s).len() ==> #[trigger] dedup_seq(s2)[i] == f(dedup_seq(s)[i]),
    decreases s.len(),
{
    if s.len() > 0 {
        let sd = s.drop_last();
        let s2d = s2.drop_last();
        assert forall|t: int| 0 <= t < sd.len() implies s2d[t] == f(#[trigger] sd[t]) by {
            assert(s2[t] == f(s[t]));
        }
        assert forall|a: u128, b: u128|
            sd.contains(a) && sd.contains(b) && #[trigger] f(a) == #[trigger] f(b) implies a
            == b by {
            lemma_drop_last_contains(s, a);
            lemma_drop_last_contains(s, b);
        }
        lemma_dedup_map(sd, s2d, f);
        let p1 = dedup_seq(sd);
        let p2 = dedup_seq(s2d);
        assert(s.contains(s.last())) by {
            assert(s[s.len() - 1] == s.last());
        }
        assert(s2.last() == f(s.last())) by {
            assert(s2[s.len() - 1] == f(s[s.len() - 1]));
        }
        assert(p2.contains(f(s.last())) <==> p1.contains(s.last())) by {
            if p1.contains(s.last()) {
                let i = choose|i: int| 0 <= i < p1.len() && p1[i] == s.last();
                assert(p2[i] == f(p1[i]));
            }
            if p2.contains(f(s.last())) {
                let i = choose|i: int| 0 <= i < p2.len() && p2[i] == f(s.last());
                assert(p2[i] == f(p1[i]));
                assert(p1.contains(p1[i]));
                lemma_dedup_contains(sd, p1[i]);
                lemma_drop_last_contains(s, p1[i]);
                assert(f(p1[i]) == f(s.last()));
                assert(p1[i] == s.last());
            }
        }
        if p1.contains(s.last()) {
            assert(dedup_seq(s) == p1);
            assert(dedup_seq(s2) == p2);
        } else {
            assert(dedup_seq(s) == p1.push(s.last()));
            assert(dedup_seq(s2) == p2.push(f(s.last())));
            assert forall|i: int| 0 <= i < dedup_seq(s).len() implies #[trigger] dedup_seq(s2)[i]
                == f(dedup_seq(s)[i]) by {
                if i < p1.len() {
                    assert(p1.push(s.last())[i] == p1[i]);
                    assert(p2.push(f(s.last()))[i] == p2[i]);
                } else {
                    assert(p1.push(s.last())[i] == s.last());
                    assert(p2.push(f(s.last()))[i] == f(s.last()));
                }
            }
        }
    }
}

/// A vertex index is touched by the frame exactly when its quota starts
/// before the frame ends.
proof fn lemma_touched_iff(flen: int, per: int, i: int)
    requires
        per > 0,
        flen >= 1,
        0 <= i,
    ensures
        (i < (flen + per - 1) / per) <==> (per * i < flen),
{
    let q = (flen - 1) / per;
    lemma_fundamental_div_mod(flen - 1, per);
    lemma_mod_bound(flen - 1, per);
    let r = (flen - 1) % per;
    assert((q + 1) * per + r == flen - 1 + per) by (nonlinear_arith)
        requires
            flen - 1 == per * q + r,
    ;
    lemma_fundamental_div_mod_converse(flen + per - 1, per, q + 1, r);
    assert((flen + per - 1) / per == q + 1);
    if i <= q {
        assert(per * i <= per * q) by (nonlinear_arith)
            requires
                per > 0 && i <= q,
        ;
        assert(per * q <= flen - 1);
    } else {
        assert(per * i >= per * (q + 1)) by (nonlinear_arith)
            requires
                per > 0 && i >= q + 1,
        ;
        assert(per * (q + 1) == per * q + per) by (nonlinear_arith);
        assert(per * q + per >= flen);
    }
}

/// Bit `p` of a translated-and-repacked key agrees with the original key
/// on every kept position, whether or not the key was touched.
proof fn lemma_translated_keeps(
    map: Map<u128, u128>,
    uniq: Seq<u128>,
    bits: int,
    fbits: Seq<bool>,
    idx: int,
    p: int,
)
    requires
        valid_bit_depth(bits),
        uniq.no_duplicates(),
        64 <= fbits.len(),
        map_matches(map, uniq, bits, fbits, touched_count(fbits.len() as int, bits)),
        touched_count(fbits.len() as int, bits) <= uniq.len(),
        0 <= idx < uniq.len(),
        0 <= p < 128,
        keeps(bits, p),
    ensures
        bit_at(clear_low(translated(map, uniq[idx])), p) == bit_at(uniq[idx], p),
{
    let per = 3 * bits;
    let flen = fbits.len() as int;
    let touched = touched_count(flen, bits);
    let a = uniq[idx];
    lemma_clear_low_bit(translated(map, a), p);
    if map.contains_key(a) {
        let i = choose|i: int| 0 <= i < touched && uniq[i] == a;
        assert(i == idx) by {
            if i != idx {
                assert(uniq[i] != uniq[idx]);
            }
        }
        assert(map[a] == write_prefix(a, bits, seg_of(fbits, bits, i)));
        lemma_touched_iff(flen, per, i);
        assert(per * i < flen);
        assert(per * (i + 1) == per * i + per) by (nonlinear_arith);
        assert(seg_of(fbits, bits, i).len() <= per);
        lemma_write_prefix_bit(a, bits, seg_of(fbits, bits, i), p);
    }
}

/// Round trip: when the unique vertices stay distinguishable under the
/// keep mask and the frame fits the capacity, the bytes a decode pass
/// recovers from the reconstructed mesh are exactly the payload that was
/// encoded, in order and in full.
pub proof fn lemma_round_trip(
    tris: Seq<Triangle>,
    out_tris: Seq<Triangle>,
    bits: int,
    declared: u64,
    payload: Seq<u8>,
    fbits: Seq<bool>,
    map: Map<u128, u128>,
    out: Seq<u8>,
)
    requires
        valid_bit_depth(bits),
        dedup_seq(tri_keys(tris)).len() > 0,
        masked_distinct(dedup_seq(tri_keys(tris)), bits),
        payload.len() == declared,
        fbits.len() == 64 + 8 * (declared as int),
        forall|i: int| 0 <= i < 64 ==> #[trigger] fbits[i] == bit_at(declared as u128, i),
        forall|k: int|
            64 <= k < fbits.len() ==> #[trigger] fbits[k] == byte_bit(
                payload[(k - 64) / 8],
                (k - 64) % 8,
            ),
        fbits.len() <= 3 * bits * dedup_seq(tri_keys(tris)).len(),
        map_matches(
            map,
            dedup_seq(tri_keys(tris)),
            bits,
            fbits,
            touched_count(fbits.len() as int, bits),
        ),
        out_tris.len() == tris.len(),
        forall|t: int, j: int|
            0 <= t < tris.len() && 0 <= j < 3 ==> vertex_key(#[trigger] vertex_of(out_tris[t], j))
                == clear_low(translated(map, vertex_key(vertex_of(tris[t], j)))),
        decoded_matches(out, dedup_seq(tri_keys(out_tris)), bits),
    ensures
        out == payload,
{
    let uniq = dedup_seq(tri_keys(tris));
    let per = 3 * bits;
    let flen = fbits.len() as int;
    let touched = touched_count(flen, bits);
    let s = tri_keys(tris);
    let s2 = tri_keys(out_tris);
    lemma_dedup_no_dups(s);
    let f = |k: u128| clear_low(translated(map, k));

    // the transformed key sequence is the original run through `f`
    assert forall|t: int| 0 <= t < s.len() implies s2[t] == f(#[trigger] s[t]) by {
        lemma_step_divmod(t, 3);
        lemma_pos_in_range(t, 3, tris.len() as int);
        assert(s[t] == vertex_key(vertex_of(tris[t / 3], t % 3)));
        assert(s2[t] == vertex_key(vertex_of(out_tris[t / 3], t % 3)));
    }

    // touched vertices exist: the frame fits the capacity
    assert(touched <= uniq.len()) by {
        if touched > uniq.len() {
            lemma_touched_iff(flen, per, uniq.len() as int);
            assert(per * uniq.len() < flen);
        }
    }

    // `f` is injective on the mesh's keys: distinct unique vertices differ
    // on a kept bit, which `f` preserves
    assert forall|a: u128, b: u128|
        s.contains(a) && s.contains(b) && #[trigger] f(a) == #[trigger] f(b) implies a == b by {
        if a != b {
            lemma_dedup_contains(s, a);
            lemma_dedup_contains(s, b);
            let ia = choose|i: int| 0 <= i < uniq.len() && uniq[i] == a;
            let ib = choose|i: int| 0 <= i < uniq.len() && uniq[i] == b;
            let lo = if ia < ib {
                ia
            } else {
                ib
            };
            let hi = if ia < ib {
                ib
            } else {
                ia
            };
            assert(masked_pair_distinct(uniq[lo], uniq[hi], bits));
            let p = choose|p: int|
                0 <= p < 128 && keeps(bits, p) && #[trigger] bit_at(uniq[lo], p) != bit_at(
                    uniq[hi],
                    p,
                );
            lemma_translated_keeps(map, uniq, bits, fbits, lo, p);
            lemma_translated_keeps(map, uniq, bits, fbits, hi, p);
            assert(bit_at(f(uniq[lo]), p) != bit_at(f(uniq[hi]), p));
            assert(false);
        }
    }
    lemma_dedup_map(s, s2, f);
    let uniq2 = dedup_seq(s2);

    // the stream read back off the transformed vertices is the frame
    assert forall|k: int| 0 <= k < flen implies stream_bit(uniq2, bits, k) == fbits[k] by {
        lemma_step_divmod(k, per);
        let i = k / per;
        let c = k % per;
        assert(per * i <= k) by (nonlinear_arith)
            requires
                k == i * per + c && 0 <= c,
        ;
        lemma_touched_iff(flen, per, i);
        assert(i < touched);
        assert(map[uniq[i]] == write_prefix(uniq[i], bits, seg_of(fbits, bits, i)));
        assert(uniq2[i] == f(uniq[i]));
        assert(translated(map, uniq[i]) == write_prefix(uniq[i], bits, seg_of(fbits, bits, i)));
        lemma_shift_of_properties(bits);
        let sp = shift_of(bits, c);
        assert(in_target(bits, sp) && index_of_shift(bits, sp) == c && 32 <= sp < 128);
        lemma_clear_low_bit(write_prefix(uniq[i], bits, seg_of(fbits, bits, i)), sp);
        assert(per * (i + 1) == per * i + per) by (nonlinear_arith);
        assert(k < per * (i + 1)) by (nonlinear_arith)
            requires
                k == i * per + c && c < per && per * (i + 1) == per * i + per,
        ;
        assert(seg_of(fbits, bits, i).len() <= per);
        assert(c < seg_of(fbits, bits, i).len());
        lemma_write_prefix_bit(uniq[i], bits, seg_of(fbits, bits, i), sp);
        assert(seg_of(fbits, bits, i)[c] == fbits[per * i + c]);
    }

    // the recovered length header is the declared length
    assert((1u128 << 64u128) == 0x1_0000_0000_0000_0000u128) by (bit_vector);
    assert((declared as u128) < (1u128 << 64u128));
    assert(out.len() <= u64::MAX);
    assert((out.len() as u128) < (1u128 << 64u128));
    assert forall|i: int| 0 <= i < 64 implies #[trigger] bit_at(out.len() as u128, i) == bit_at(
        declared as u128,
        i,
    ) by {
        assert(bit_at(out.len() as u128, i) == stream_bit(uniq2, bits, i));
        assert(stream_bit(uniq2, bits, i) == fbits[i]);
    }
    assert(crate::bitmath::u128_bits(out.len() as u128, 64) =~= crate::bitmath::u128_bits(
        declared as u128,
        64,
    ));
    lemma_bits_injective(out.len() as u128, declared as u128, 64);
    assert(out.len() == declared);

    // every recovered byte is the payload byte
    assert forall|j: int| 0 <= j < out.len() implies out[j] == payload[j] by {
        assert forall|i: int| 0 <= i < 8 implies byte_bit(out[j], i) == byte_bit(
            payload[j],
            i,
        ) by {
            let k = 64 + 8 * j + i;
            assert(byte_bit(out[j], i) == stream_bit(uniq2, bits, k));
            assert(k < flen);
            assert(stream_bit(uniq2, bits, k) == fbits[k]);
            lemma_byte_slot(j, i);
            assert(fbits[k] == byte_bit(payload[j], i));
        }
        lemma_byte_ext(out[j], payload[j]);
    }
    assert(out =~= payload);
}

} // verus!
