use vstd::prelude::*;

use crate::bitmath::{bit_at, lemma_and_bit, lemma_bit_ext, lemma_set_bit, set_bit};
use crate::errors::StegoError;

verus! {

// ---------------------------------------------------------------------------
// Bit addressing.
//
// A packed vertex key holds the x coordinate's 32-bit pattern at bit offset
// 96, y at 64, z at 32; the low 32 bits are unused.  For a bit depth `bits`
// in [1, 32], the target positions are the `bits` low-order bits of each
// coordinate block, listed most-significant-of-the-range first, x block
// before y before z.
// ---------------------------------------------------------------------------

/// The bit-depth parameter must lie in `[1, 32]`.
pub open spec fn valid_bit_depth(bits: int) -> bool {
    1 <= bits <= 32
}

/// Absolute bit position of entry `j` of the target list for depth `bits`.
pub open spec fn shift_of(bits: int, j: int) -> int
    recommends
        valid_bit_depth(bits),
        0 <= j < 3 * bits,
{
    if j < bits {
        96 + (bits - 1 - j)
    } else if j < 2 * bits {
        64 + (bits - 1 - (j - bits))
    } else {
        32 + (bits - 1 - (j - 2 * bits))
    }
}

/// Whether absolute bit position `p` is a target position for depth `bits`.
pub open spec fn in_target(bits: int, p: int) -> bool {
    (32 <= p < 32 + bits) || (64 <= p < 64 + bits) || (96 <= p < 96 + bits)
}

/// Index into the target list of an in-target position `p`.
pub open spec fn index_of_shift(bits: int, p: int) -> int
    recommends
        valid_bit_depth(bits),
        in_target(bits, p),
{
    if p >= 96 {
        bits - 1 - (p - 96)
    } else if p >= 64 {
        bits + (bits - 1 - (p - 64))
    } else {
        2 * bits + (bits - 1 - (p - 32))
    }
}

/// Whether the keep mask preserves position `p` at depth `bits`: everything
/// above the unused low 32 bits that is not a target position.
pub open spec fn keeps(bits: int, p: int) -> bool {
    32 <= p < 128 && !in_target(bits, p)
}

/// Target positions lie in `[32, 128)`, `shift_of` and `index_of_shift` are
/// mutually inverse, and distinct indices address distinct positions.
pub proof fn lemma_shift_of_properties(bits: int)
    requires
        valid_bit_depth(bits),
    ensures
        forall|j: int|
            0 <= j < 3 * bits ==> 32 <= #[trigger] shift_of(bits, j) < 128 && in_target(
                bits,
                shift_of(bits, j),
            ) && index_of_shift(bits, shift_of(bits, j)) == j,
        forall|p: int|
            in_target(bits, p) ==> 0 <= #[trigger] index_of_shift(bits, p) < 3 * bits && shift_of(
                bits,
                index_of_shift(bits, p),
            ) == p,
        forall|j1: int, j2: int|
            0 <= j1 < 3 * bits && 0 <= j2 < 3 * bits && j1 != j2 ==> #[trigger] shift_of(bits, j1)
                != #[trigger] shift_of(bits, j2),
{
}

/// The three blocks of the target list: x positions first (offset 96), then
/// y (offset 64), then z (offset 32), each block strictly decreasing.
pub proof fn lemma_target_positions_shape(bits: int)
    requires
        valid_bit_depth(bits),
    ensures
        forall|j: int| 0 <= j < bits ==> #[trigger] shift_of(bits, j) == 96 + bits - 1 - j,
        forall|j: int|
            bits <= j < 2 * bits ==> #[trigger] shift_of(bits, j) == 64 + bits - 1 - (j - bits),
        forall|j: int|
            2 * bits <= j < 3 * bits ==> #[trigger] shift_of(bits, j) == 32 + bits - 1 - (j - 2
                * bits),
        forall|j: int|
            0 <= j < 3 * bits - 1 && j + 1 != bits && j + 1 != 2 * bits ==> #[trigger] shift_of(
                bits,
                j + 1,
            ) == shift_of(bits, j) - 1,
{
}

/// Rejects a bit depth outside `[1, 32]`.
pub fn validate_bit_range(bits: u8) -> (r: Result<(), StegoError>)
    ensures
        r is Ok <==> valid_bit_depth(bits as int),
        r is Err ==> r == Err::<(), StegoError>(StegoError::InvalidBitDepth),
{
    if bits > 0 && bits <= 32 {
        Ok(())
    } else {
        Err(StegoError::InvalidBitDepth)
    }
}

/// The ordered list of absolute bit positions to touch in a packed key:
/// exactly `3 * bits` entries, entry `j` equal to `shift_of(bits, j)`.
pub fn get_bit_shifts(bits: u8) -> (r: Result<Vec<u8>, StegoError>)
    ensures
        r is Ok <==> valid_bit_depth(bits as int),
        r is Err ==> r == Err::<Vec<u8>, StegoError>(StegoError::InvalidBitDepth),
        r matches Ok(s) ==> s@.len() == 3 * bits && forall|j: int|
            0 <= j < 3 * bits ==> #[trigger] s@[j] as int == shift_of(bits as int, j),
{
    validate_bit_range(bits)?;
    let mut target_bits = Vec::<u8>::new();
    let shifts: [u8; 3] = [96, 64, 32];
    let mut v: usize = 0;
    while v < 3
        invariant
            valid_bit_depth(bits as int),
            v <= 3,
            shifts@ == seq![96u8, 64u8, 32u8],
            target_bits@.len() == v * bits,
            forall|j: int|
                0 <= j < v * bits ==> #[trigger] target_bits@[j] as int == shift_of(bits as int, j),
        decreases 3 - v,
    {
        let vecshift = shifts[v];
        let mut k: u8 = 0;
        while k < bits
            invariant
                valid_bit_depth(bits as int),
                v < 3,
                k <= bits,
                vecshift as int == 96 - 32 * v,
                target_bits@.len() == v * bits + k,
                forall|j: int|
                    0 <= j < v * bits + k ==> #[trigger] target_bits@[j] as int == shift_of(
                        bits as int,
                        j,
                    ),
            decreases bits - k,
        {
            let b: u8 = bits - 1 - k;
            proof {
                let j = (v as int) * (bits as int) + (k as int);
                if v == 0 {
                    assert(j == k as int);
                    assert(shift_of(bits as int, j) == 96 + (bits as int - 1 - j));
                } else if v == 1 {
                    assert(j == bits as int + k as int);
                    assert(shift_of(bits as int, j) == 64 + (bits as int - 1 - (j - bits as int)));
                } else {
                    assert(j == 2 * (bits as int) + k as int);
                    assert(shift_of(bits as int, j) == 32 + (bits as int - 1 - (j - 2 * (
                    bits as int))));
                }
                assert(shift_of(bits as int, j) == vecshift as int + b as int);
            }
            target_bits.push(vecshift + b);
            k = k + 1;
        }
        proof {
            assert((v as int + 1) * (bits as int) == (v as int) * (bits as int) + bits as int)
                by (nonlinear_arith);
        }
        v = v + 1;
    }
    Ok(target_bits)
}

proof fn lemma_high_mask_bit(p: u128)
    by (bit_vector)
    requires
        p < 128,
    ensures
        (((!0u128) << 32u128) >> p) & 1 == 1 <==> 32 <= p,
{
}

/// The 128-bit mask that keeps every non-target bit above the unused low 32:
/// bit `p` of the result is set iff `keeps(bits, p)`.
pub fn get_keep_mask(bits: &u8) -> (r: Result<u128, StegoError>)
    ensures
        r is Ok <==> valid_bit_depth(*bits as int),
        r is Err ==> r == Err::<u128, StegoError>(StegoError::InvalidBitDepth),
        r matches Ok(m) ==> forall|p: int|
            0 <= p < 128 ==> #[trigger] bit_at(m, p) == keeps(*bits as int, p),
{
    let shifts = get_bit_shifts(*bits)?;
    let mut mask: u128 = !0;
    mask <<= 32;
    proof {
        assert forall|p: int| 0 <= p < 128 implies #[trigger] bit_at(mask, p) == (32 <= p) by {
            lemma_high_mask_bit(p as u128);
        }
        lemma_shift_of_properties(*bits as int);
    }
    let ghost n = 3 * (*bits as int);
    let mut i: usize = 0;
    while i < shifts.len()
        invariant
            valid_bit_depth(*bits as int),
            n == 3 * (*bits as int),
            shifts@.len() == n,
            forall|j: int| 0 <= j < n ==> #[trigger] shifts@[j] as int == shift_of(*bits as int, j),
            i <= n,
            forall|p: int|
                0 <= p < 128 ==> #[trigger] bit_at(mask, p) == (32 <= p && !(exists|j: int|
                    0 <= j < i && shift_of(*bits as int, j) == p)),
        decreases shifts@.len() - i,
    {
        let s = shifts[i];
        let ghost old_mask = mask;
        mask = mask & !(1u128 << s);
        proof {
            lemma_shift_of_properties(*bits as int);
            assert(s as int == shift_of(*bits as int, i as int));
            assert(32 <= (s as int) && (s as int) < 128);
            assert(mask == set_bit(old_mask, s as int, false));
            assert forall|p: int|
                0 <= p < 128 implies #[trigger] bit_at(mask, p) == (32 <= p && !(exists|j: int|
                0 <= j < i + 1 && shift_of(*bits as int, j) == p)) by {
                lemma_set_bit(old_mask, s as int, p, false);
                if p == s as int {
                    assert(shift_of(*bits as int, i as int) == p);
                } else {
                    assert((exists|j: int| 0 <= j < i + 1 && shift_of(*bits as int, j) == p) <==> (
                    exists|j: int| 0 <= j < i && shift_of(*bits as int, j) == p));
                }
            }
        }
        i = i + 1;
    }
    proof {
        lemma_shift_of_properties(*bits as int);
        assert forall|p: int| 0 <= p < 128 implies #[trigger] bit_at(mask, p) == keeps(
            *bits as int,
            p,
        ) by {
            if in_target(*bits as int, p) {
                let j = index_of_shift(*bits as int, p);
                assert(0 <= j < n && shift_of(*bits as int, j) == p);
            }
        }
    }
    Ok(mask)
}

/// Total embeddable capacity in bits: `uniq_vert.len() * bits * 3` exactly.
pub fn get_available_bits(bits: u8, uniq_vert: &Vec<u128>) -> (r: u64)
    requires
        uniq_vert@.len() * (bits as int) * 3 <= u64::MAX,
    ensures
        r as int == uniq_vert@.len() * (bits as int) * 3,
{
    (uniq_vert.len() as u64) * (bits as u64) * 3
}

/// Whether every pair of distinct keys in the sequence still differs after
/// all target positions and the unused low 32 bits are discarded: the
/// "safe" signal of the capacity survey, and the premise under which an
/// embedded frame survives re-extraction.
pub open spec fn masked_pair_distinct(a: u128, b: u128, bits: int) -> bool {
    exists|p: int| 0 <= p < 128 && keeps(bits, p) && #[trigger] bit_at(a, p) != bit_at(b, p)
}

pub open spec fn masked_distinct(verts: Seq<u128>, bits: int) -> bool {
    forall|i: int, j: int|
        0 <= i < j < verts.len() ==> masked_pair_distinct(
            #[trigger] verts[i],
            #[trigger] verts[j],
            bits,
        )
}

/// Two keys agree under the keep mask exactly when they agree on every bit
/// position outside the target positions and outside the unused low 32 bits.
pub proof fn lemma_mask_complement(a: u128, b: u128, m: u128, bits: int)
    requires
        valid_bit_depth(bits),
        forall|p: int| 0 <= p < 128 ==> #[trigger] bit_at(m, p) == keeps(bits, p),
    ensures
        (a & m == b & m) <==> (forall|p: int|
            0 <= p < 128 && keeps(bits, p) ==> #[trigger] bit_at(a, p) == bit_at(b, p)),
{
    if a & m == b & m {
        assert forall|p: int| 0 <= p < 128 && keeps(bits, p) implies #[trigger] bit_at(a, p)
            == bit_at(b, p) by {
            lemma_and_bit(a, m, p);
            lemma_and_bit(b, m, p);
            assert(bit_at(a & m, p) == bit_at(b & m, p));
        }
    }
    if forall|p: int| 0 <= p < 128 && keeps(bits, p) ==> #[trigger] bit_at(a, p) == bit_at(b, p) {
        assert forall|p: int| 0 <= p < 128 implies bit_at(a & m, p) == bit_at(b & m, p) by {
            lemma_and_bit(a, m, p);
            lemma_and_bit(b, m, p);
        }
        lemma_bit_ext(a & m, b & m);
    }
}

} // verus!
