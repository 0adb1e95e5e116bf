use vstd::prelude::*;

verus! {

// ---------------------------------------------------------------------------
// Bit-level views of packed values.
//
// Throughout the crate a `u128` is read as a little-endian sequence of bits:
// index 0 is the least-significant bit.  Bytes expand to 8 bits the same way.
// ---------------------------------------------------------------------------

/// Bit `i` of `v`, least-significant bit first.
pub open spec fn bit_at(v: u128, i: int) -> bool {
    (v >> (i as u128)) & 1 == 1
}

/// The low `n` bits of `v` as a sequence, least-significant first.
pub open spec fn u128_bits(v: u128, n: nat) -> Seq<bool> {
    Seq::new(n, |i: int| bit_at(v, i))
}

/// Bit `i` of byte `b`, least-significant bit first.
pub open spec fn byte_bit(b: u8, i: int) -> bool {
    bit_at(b as u128, i)
}

/// `v` with bit `p` forced to `b` and all other bits kept.
pub open spec fn set_bit(v: u128, p: int, b: bool) -> u128 {
    if b {
        v | (1u128 << (p as u128))
    } else {
        v & !(1u128 << (p as u128))
    }
}

// ---------------------------------------------------------------------------
// Bit-vector facts, stated over fixed-width values.
// ---------------------------------------------------------------------------

/// Setting bit `p` leaves every other bit alone and makes bit `p` equal `b`.
proof fn lemma_set_bit_raw(v: u128, p: u128, q: u128, b: bool)
    by (bit_vector)
    requires
        p < 128,
        q < 128,
    ensures
        p == q ==> ((if b {
            v | (1u128 << p)
        } else {
            v & !(1u128 << p)
        }) >> q) & 1 == (if b {
            1u128
        } else {
            0u128
        }),
        p != q ==> ((if b {
            v | (1u128 << p)
        } else {
            v & !(1u128 << p)
        }) >> q) & 1 == (v >> q) & 1,
{
}

/// `set_bit` in terms of `bit_at`: bit `q` of the result is `b` when `q == p`
/// and the old bit otherwise.
pub proof fn lemma_set_bit(v: u128, p: int, q: int, b: bool)
    requires
        0 <= p < 128,
        0 <= q < 128,
    ensures
        p == q ==> bit_at(set_bit(v, p, b), q) == b,
        p != q ==> bit_at(set_bit(v, p, b), q) == bit_at(v, q),
{
    lemma_set_bit_raw(v, p as u128, q as u128, b);
}

proof fn lemma_shr_chain(v: u128, i: u128, j: u128)
    by (bit_vector)
    requires
        i < 127,
        j == i + 1,
    ensures
        ((v >> 1) >> i) & 1 == 1 <==> (v >> j) & 1 == 1,
{
}

/// Bit `i` of `v >> 1` is bit `i + 1` of `v`.
pub proof fn lemma_bit_at_shr1(v: u128, i: int)
    requires
        0 <= i < 127,
    ensures
        bit_at(v >> 1, i) == bit_at(v, i + 1),
{
    lemma_shr_chain(v, i as u128, (i + 1) as u128);
}

proof fn lemma_low_bit_and_half(a: u128, b: u128)
    by (bit_vector)
    requires
        a >> 1 == b >> 1,
        (a & 1 == 1) <==> (b & 1 == 1),
    ensures
        a == b,
{
}

proof fn lemma_shr1_halves(a: u128, n: u128)
    by (bit_vector)
    requires
        1 <= n <= 127,
        a < 1u128 << n,
    ensures
        a >> 1 < 1u128 << ((n - 1) as u128),
{
}

proof fn lemma_and_bit_raw(x: u128, y: u128, p: u128)
    by (bit_vector)
    requires
        p < 128,
    ensures
        ((x & y) >> p) & 1 == 1 <==> (((x >> p) & 1 == 1) && ((y >> p) & 1 == 1)),
{
}

/// Bit `p` of `x & y` is the conjunction of the operands' bits `p`.
pub proof fn lemma_and_bit(x: u128, y: u128, p: int)
    requires
        0 <= p < 128,
    ensures
        bit_at(x & y, p) == (bit_at(x, p) && bit_at(y, p)),
{
    lemma_and_bit_raw(x, y, p as u128);
}

proof fn lemma_or_bit_raw(x: u128, y: u128, p: u128)
    by (bit_vector)
    requires
        p < 128,
    ensures
        ((x | y) >> p) & 1 == 1 <==> (((x >> p) & 1 == 1) || ((y >> p) & 1 == 1)),
{
}

/// Bit `p` of `x | y` is the disjunction of the operands' bits `p`.
pub proof fn lemma_or_bit(x: u128, y: u128, p: int)
    requires
        0 <= p < 128,
    ensures
        bit_at(x | y, p) == (bit_at(x, p) || bit_at(y, p)),
{
    lemma_or_bit_raw(x, y, p as u128);
}

proof fn lemma_not_bit_raw(x: u128, p: u128)
    by (bit_vector)
    requires
        p < 128,
    ensures
        ((!x) >> p) & 1 == 1 <==> !((x >> p) & 1 == 1),
{
}

/// Bit `p` of `!x` is the negation of bit `p` of `x`.
pub proof fn lemma_not_bit(x: u128, p: int)
    requires
        0 <= p < 128,
    ensures
        bit_at(!x, p) == !bit_at(x, p),
{
    lemma_not_bit_raw(x, p as u128);
}

/// Two `u128` values that agree on all 128 bits are equal.
pub proof fn lemma_bit_ext(a: u128, b: u128)
    requires
        forall|i: int| 0 <= i < 128 ==> bit_at(a, i) == bit_at(b, i),
    ensures
        a == b,
{
    assert(a >> 1 < 1u128 << 127u128) by (bit_vector);
    assert(b >> 1 < 1u128 << 127u128) by (bit_vector);
    assert(u128_bits(a >> 1, 127) =~= u128_bits(b >> 1, 127)) by {
        assert forall|i: int| 0 <= i < 127 implies bit_at(a >> 1, i) == bit_at(b >> 1, i) by {
            lemma_bit_at_shr1(a, i);
            lemma_bit_at_shr1(b, i);
        }
    }
    lemma_bits_injective(a >> 1, b >> 1, 127);
    assert(bit_at(a, 0) == bit_at(b, 0));
    assert((a >> (0int as u128)) & 1 == a & 1) by (bit_vector);
    assert((b >> (0int as u128)) & 1 == b & 1) by (bit_vector);
    lemma_low_bit_and_half(a, b);
}

/// Two bytes that agree on all eight bits are equal.
pub proof fn lemma_byte_ext(a: u8, b: u8)
    requires
        forall|i: int| 0 <= i < 8 ==> byte_bit(a, i) == byte_bit(b, i),
    ensures
        a == b,
{
    assert((a as u128) < (1u128 << (8 as u128))) by (bit_vector);
    assert((b as u128) < (1u128 << (8 as u128))) by (bit_vector);
    assert(u128_bits(a as u128, 8) =~= u128_bits(b as u128, 8)) by {
        assert forall|i: int| 0 <= i < 8 implies #[trigger] u128_bits(a as u128, 8)[i]
            == u128_bits(b as u128, 8)[i] by {
            assert(byte_bit(a, i) == byte_bit(b, i));
        }
    }
    lemma_bits_injective(a as u128, b as u128, 8);
}

/// Two values below `2^n` that agree on their low `n` bits are equal.
pub proof fn lemma_bits_injective(a: u128, b: u128, n: nat)
    requires
        n <= 127,
        a < (1u128 << (n as u128)),
        b < (1u128 << (n as u128)),
        u128_bits(a, n) == u128_bits(b, n),
    ensures
        a == b,
    decreases n,
{
    if n == 0 {
        assert(a < 1u128 << 0u128 ==> a == 0) by (bit_vector);
        assert(b < 1u128 << 0u128 ==> b == 0) by (bit_vector);
    } else {
        assert(u128_bits(a, n)[0] == bit_at(a, 0));
        assert(u128_bits(b, n)[0] == bit_at(b, 0));
        assert(bit_at(a, 0) == bit_at(b, 0));
        assert((a >> (0int as u128)) & 1 == a & 1) by (bit_vector);
        assert((b >> (0int as u128)) & 1 == b & 1) by (bit_vector);
        assert((a & 1 == 1) <==> (b & 1 == 1));
        lemma_shr1_halves(a, n as u128);
        lemma_shr1_halves(b, n as u128);
        assert(u128_bits(a >> 1, (n - 1) as nat) =~= u128_bits(b >> 1, (n - 1) as nat)) by {
            assert forall|i: int| 0 <= i < n - 1 implies bit_at(a >> 1, i) == bit_at(b >> 1, i) by {
                lemma_bit_at_shr1(a, i);
                lemma_bit_at_shr1(b, i);
                assert(u128_bits(a, n)[i + 1] == bit_at(a, i + 1));
                assert(u128_bits(b, n)[i + 1] == bit_at(b, i + 1));
                assert(u128_bits(a, n)[i + 1] == u128_bits(b, n)[i + 1]);
            }
        }
        lemma_bits_injective(a >> 1, b >> 1, (n - 1) as nat);
        lemma_low_bit_and_half(a, b);
    }
}

} // verus!
