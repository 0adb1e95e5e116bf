use vstd::prelude::*;

use std::collections::{HashMap, HashSet};

verus! {

broadcast use vstd::std_specs::hash::group_hash_axioms;

// ---------------------------------------------------------------------------
// Vertex packing and deduplication.
//
// A triangle carries its coordinates as the exact 32-bit patterns of the
// mesh file's floats; a vertex packs into a single 128-bit key with x at
// bit offset 96, y at 64, z at 32, and the low 32 bits zero.  Two vertices
// are the same exactly when their bit patterns coincide.
// ---------------------------------------------------------------------------

/// A mesh triangle with every field held as a plain bit pattern: each
/// coordinate is the 32-bit representation of the file's float.
#[derive(Clone, Copy, Debug)]
pub struct Triangle {
    pub normal: [u32; 3],
    pub v1: [u32; 3],
    pub v2: [u32; 3],
    pub v3: [u32; 3],
    pub attr_byte_count: u16,
}

/// The packed 128-bit key of a coordinate triple.
pub open spec fn pack3(x: u32, y: u32, z: u32) -> u128 {
    ((x as u128) << 96) | ((y as u128) << 64) | ((z as u128) << 32)
}

/// Vertex number `i` (0, 1 or 2) of a triangle.
pub open spec fn vertex_of(t: Triangle, i: int) -> [u32; 3] {
    if i == 0 {
        t.v1
    } else if i == 1 {
        t.v2
    } else {
        t.v3
    }
}

/// The packed key of a vertex.
pub open spec fn vertex_key(v: [u32; 3]) -> u128 {
    pack3(v[0], v[1], v[2])
}

/// All packed keys of a triangle list, three per triangle, in traversal
/// order.
pub open spec fn tri_keys(tris: Seq<Triangle>) -> Seq<u128> {
    Seq::new(3 * tris.len(), |k: int| vertex_key(vertex_of(tris[k / 3], k % 3)))
}

/// First-occurrence deduplication of a key sequence.
pub open spec fn dedup_seq(s: Seq<u128>) -> Seq<u128>
    decreases s.len(),
{
    if s.len() == 0 {
        Seq::empty()
    } else {
        let prefix = dedup_seq(s.drop_last());
        if prefix.contains(s.last()) {
            prefix
        } else {
            prefix.push(s.last())
        }
    }
}

/// A key run through a translation map: the mapped value when present, the
/// key itself otherwise.
pub open spec fn translated(map: Map<u128, u128>, k: u128) -> u128 {
    if map.contains_key(k) {
        map[k]
    } else {
        k
    }
}

/// A key with its unused low 32 bits cleared.
pub open spec fn clear_low(k: u128) -> u128 {
    k & !(0xFFFF_FFFFu128)
}

/// A pushed sequence holds a key exactly when the base held it or the key
/// is the pushed one.
pub proof fn lemma_push_contains(s: Seq<u128>, x: u128, k: u128)
    ensures
        s.push(x).contains(k) <==> (s.contains(k) || k == x),
{
    if s.push(x).contains(k) {
        let i = choose|i: int| 0 <= i < s.push(x).len() && s.push(x)[i] == k;
        if i < s.len() {
            assert(s[i] == k);
        }
    }
    if s.contains(k) {
        let i = choose|i: int| 0 <= i < s.len() && s[i] == k;
        assert(s.push(x)[i] == k);
    }
    assert(s.push(x)[s.len() as int] == x);
}

/// Bit `p` of a key with its low 32 bits cleared: the original bit above
/// position 31, zero below.
pub proof fn lemma_clear_low_bit(x: u128, p: int)
    requires
        0 <= p < 128,
    ensures
        crate::bitmath::bit_at(clear_low(x), p) == (p >= 32 && crate::bitmath::bit_at(x, p)),
{
    lemma_clear_low_bit_raw(x, p as u128);
}

proof fn lemma_clear_low_bit_raw(x: u128, p: u128)
    by (bit_vector)
    requires
        p < 128,
    ensures
        ((x & !(0xFFFF_FFFFu128)) >> p) & 1 == 1 <==> (p >= 32 && (x >> p) & 1 == 1),
{
}

/// Deduplication keeps exactly the keys of the input.
pub proof fn lemma_dedup_contains(s: Seq<u128>, k: u128)
    ensures
        dedup_seq(s).contains(k) <==> s.contains(k),
    decreases s.len(),
{
    if s.len() > 0 {
        lemma_dedup_contains(s.drop_last(), k);
        assert(s.contains(k) <==> (s.drop_last().contains(k) || s.last() == k)) by {
            if s.contains(k) {
                let i = choose|i: int| 0 <= i < s.len() && s[i] == k;
                if i < s.len() - 1 {
                    assert(s.drop_last()[i] == k);
                }
            }
            if s.drop_last().contains(k) {
                let i = choose|i: int| 0 <= i < s.len() - 1 && s.drop_last()[i] == k;
                assert(s[i] == k);
            }
            if s.last() == k {
                assert(s[s.len() - 1] == k);
            }
        }
        let prefix = dedup_seq(s.drop_last());
        if !prefix.contains(s.last()) {
            lemma_push_contains(prefix, s.last(), k);
        }
    }
}

/// Extending the input by one key extends the deduplicated sequence exactly
/// when the key is new.
pub proof fn lemma_dedup_push(s: Seq<u128>, k: u128)
    ensures
        dedup_seq(s.push(k)) == if s.contains(k) {
            dedup_seq(s)
        } else {
            dedup_seq(s).push(k)
        },
{
    assert(s.push(k).drop_last() =~= s);
    assert(s.push(k).last() == k);
    lemma_dedup_contains(s, k);
}

/// The deduplicated sequence never repeats a key.
pub proof fn lemma_dedup_no_dups(s: Seq<u128>)
    ensures
        dedup_seq(s).no_duplicates(),
    decreases s.len(),
{
    if s.len() > 0 {
        lemma_dedup_no_dups(s.drop_last());
    }
}

/// Packs vertex `i` of a triangle into its 128-bit key.
pub fn get_vertex_as_bits(t: &Triangle, i: u8) -> (r: u128)
    requires
        i <= 2,
    ensures
        r == vertex_key(vertex_of(*t, i as int)),
{
    let v: &[u32; 3] = match i {
        0 => &t.v1,
        1 => &t.v2,
        _ => &t.v3,
    };
    let vx: u128 = v[0] as u128;
    let vy: u128 = v[1] as u128;
    let vz: u128 = v[2] as u128;
    (vx << 96) | (vy << 64) | (vz << 32)
}

proof fn lemma_unpack_raw(x: u32, y: u32, z: u32)
    by (bit_vector)
    ensures
        ((((x as u128) << 96) | ((y as u128) << 64) | ((z as u128) << 32)) >> 96) & 0xFFFF_FFFF == (
        x as u128),
        ((((x as u128) << 96) | ((y as u128) << 64) | ((z as u128) << 32)) >> 64) & 0xFFFF_FFFF == (
        y as u128),
        ((((x as u128) << 96) | ((y as u128) << 64) | ((z as u128) << 32)) >> 32) & 0xFFFF_FFFF == (
        z as u128),
{
}

proof fn lemma_repack_raw(k: u128)
    by (bit_vector)
    ensures
        ((((k >> 96) & 0xFFFF_FFFF) as u32 as u128) << 96) | ((((k >> 64) & 0xFFFF_FFFF) as u32
            as u128) << 64) | ((((k >> 32) & 0xFFFF_FFFF) as u32 as u128) << 32) == k & !(
        0xFFFF_FFFFu128),
{
}

/// Packing then unpacking returns the original coordinates: the two
/// conversions are exact inverses on every 32-bit pattern.
pub proof fn lemma_pack_unpack(x: u32, y: u32, z: u32)
    ensures
        (pack3(x, y, z) >> 96) & 0xFFFF_FFFF == x as u128,
        (pack3(x, y, z) >> 64) & 0xFFFF_FFFF == y as u128,
        (pack3(x, y, z) >> 32) & 0xFFFF_FFFF == z as u128,
        clear_low(pack3(x, y, z)) == pack3(x, y, z),
{
    lemma_unpack_raw(x, y, z);
    assert(((((x as u128) << 96) | ((y as u128) << 64) | ((z as u128) << 32)) & !(0xFFFF_FFFFu128))
        == (((x as u128) << 96) | ((y as u128) << 64) | ((z as u128) << 32))) by (bit_vector);
}

/// Two vertices with the same packed key have the same coordinates: the
/// packing is injective.
pub proof fn lemma_vertex_key_injective(v1: [u32; 3], v2: [u32; 3])
    requires
        vertex_key(v1) == vertex_key(v2),
    ensures
        v1[0] == v2[0],
        v1[1] == v2[1],
        v1[2] == v2[2],
{
    lemma_unpack_raw(v1[0], v1[1], v1[2]);
    lemma_unpack_raw(v2[0], v2[1], v2[2]);
}

/// Unpacks a 128-bit key into its three coordinate bit patterns.
pub fn get_vertex_from_bits(bits: &u128) -> (r: [u32; 3])
    ensures
        r[0] == ((*bits >> 96) & 0xFFFF_FFFF) as u32,
        r[1] == ((*bits >> 64) & 0xFFFF_FFFF) as u32,
        r[2] == ((*bits >> 32) & 0xFFFF_FFFF) as u32,
        vertex_key(r) == clear_low(*bits),
{
    let vx: u32 = ((*bits >> 96) & 0xFFFF_FFFF) as u32;
    let vy: u32 = ((*bits >> 64) & 0xFFFF_FFFF) as u32;
    let vz: u32 = ((*bits >> 32) & 0xFFFF_FFFF) as u32;
    let r = [vx, vy, vz];
    proof {
        lemma_repack_raw(*bits);
    }
    r
}

/// Appends to `m` the keys of the triangle list in traversal order, first
/// occurrence only: the unique vertex sequence.
pub fn get_uniq_vertices_as_ordered_bits(t: &Vec<Triangle>, m: &mut Vec<u128>)
    ensures
        final(m)@ == old(m)@ + dedup_seq(tri_keys(t@)),
{
    let mut uniq_set = HashSet::<u128>::new();
    let ghost m0 = m@;
    let mut i: usize = 0;
    while i < t.len()
        invariant
            i <= t@.len(),
            uniq_set@ == tri_keys(t@).take(3 * i as int).to_set(),
            m@ == m0 + dedup_seq(tri_keys(t@).take(3 * i as int)),
        decreases t@.len() - i,
    {
        let tri = &t[i];
        let v1full: u128 = get_vertex_as_bits(tri, 0);
        let v2full: u128 = get_vertex_as_bits(tri, 1);
        let v3full: u128 = get_vertex_as_bits(tri, 2);
        proof {
            lemma_tri_keys_step(t@, i as int);
        }
        push_unique(&mut uniq_set, m, v1full, Ghost(tri_keys(t@).take(3 * i as int)), Ghost(m0));
        push_unique(&mut uniq_set, m, v2full, Ghost(tri_keys(t@).take(3 * i as int + 1)), Ghost(m0));
        push_unique(&mut uniq_set, m, v3full, Ghost(tri_keys(t@).take(3 * i as int + 2)), Ghost(m0));
        proof {
            assert(tri_keys(t@).take(3 * (i + 1) as int) =~= tri_keys(t@).take(3 * i as int + 2).push(
                tri_keys(t@)[3 * i as int + 2]));
        }
        i = i + 1;
    }
    proof {
        assert(tri_keys(t@).take(3 * i as int) =~= tri_keys(t@));
    }
}

/// The three keys of triangle `i` stand at positions `3*i .. 3*i + 3` of the
/// flattened key sequence, and each one-step-longer prefix is a push.
proof fn lemma_tri_keys_step(tris: Seq<Triangle>, i: int)
    requires
        0 <= i < tris.len(),
    ensures
        tri_keys(tris)[3 * i] == vertex_key(vertex_of(tris[i], 0)),
        tri_keys(tris)[3 * i + 1] == vertex_key(vertex_of(tris[i], 1)),
        tri_keys(tris)[3 * i + 2] == vertex_key(vertex_of(tris[i], 2)),
        tri_keys(tris).take(3 * i + 1) =~= tri_keys(tris).take(3 * i).push(tri_keys(tris)[3 * i]),
        tri_keys(tris).take(3 * i + 2) =~= tri_keys(tris).take(3 * i + 1).push(
            tri_keys(tris)[3 * i + 1],
        ),
{
    assert((3 * i) / 3 == i && (3 * i) % 3 == 0) by (nonlinear_arith);
    assert((3 * i + 1) / 3 == i && (3 * i + 1) % 3 == 1) by (nonlinear_arith);
    assert((3 * i + 2) / 3 == i && (3 * i + 2) % 3 == 2) by (nonlinear_arith);
}

/// Pushing a key onto a sequence inserts it into the sequence's set.
pub proof fn lemma_push_to_set(s: Seq<u128>, key: u128)
    ensures
        s.push(key).to_set() == s.to_set().insert(key),
{
    assert(s.push(key).to_set() =~= s.to_set().insert(key)) by {
        assert forall|a: u128| s.push(key).to_set().contains(a) implies s.to_set().insert(
            key,
        ).contains(a) by {
            let i = choose|i: int| 0 <= i < s.push(key).len() && s.push(key)[i] == a;
            if i < s.len() {
                assert(s[i] == a);
            }
        }
        assert forall|a: u128| s.to_set().insert(key).contains(a) implies s.push(
            key,
        ).to_set().contains(a) by {
            if s.to_set().contains(a) {
                let i = choose|i: int| 0 <= i < s.len() && s[i] == a;
                assert(s.push(key)[i] == a);
            } else {
                assert(s.push(key)[s.len() as int] == key);
            }
        }
    }
}

/// Appends `key` to `m` when it has not been seen, and records it as seen.
fn push_unique(
    uniq_set: &mut HashSet<u128>,
    m: &mut Vec<u128>,
    key: u128,
    Ghost(s): Ghost<Seq<u128>>,
    Ghost(m0): Ghost<Seq<u128>>,
)
    requires
        old(uniq_set)@ == s.to_set(),
        old(m)@ == m0 + dedup_seq(s),
    ensures
        final(uniq_set)@ == s.push(key).to_set(),
        final(m)@ == m0 + dedup_seq(s.push(key)),
{
    proof {
        lemma_dedup_push(s, key);
        assert(s.push(key).to_set() =~= s.to_set().insert(key)) by {
            assert forall|a: u128| s.push(key).to_set().contains(a) implies s.to_set().insert(
                key,
            ).contains(a) by {
                let i = choose|i: int| 0 <= i < s.push(key).len() && s.push(key)[i] == a;
                if i < s.len() {
                    assert(s[i] == a);
                }
            }
            assert forall|a: u128| s.to_set().insert(key).contains(a) implies s.push(
                key,
            ).to_set().contains(a) by {
                if s.to_set().contains(a) {
                    let i = choose|i: int| 0 <= i < s.len() && s[i] == a;
                    assert(s.push(key)[i] == a);
                } else {
                    assert(s.push(key)[s.len() as int] == key);
                }
            }
        }
    }
    if !uniq_set.contains(&key) {
        uniq_set.insert(key);
        m.push(key);
    } else {
        proof {
            assert(s.to_set().contains(key));
            let i = choose|i: int| 0 <= i < s.len() && s[i] == key;
            assert(s.contains(key));
        }
    }
}

/// Rebuilds the triangle list with every vertex key run through the
/// translation map; normals and attribute counts pass through unchanged.
pub fn generate_transformed_stl(orig_tris: &Vec<Triangle>, vert_trans_map: &HashMap<u128, u128>) -> (
    r: Vec<Triangle>)
    ensures
        r@.len() == orig_tris@.len(),
        forall|i: int|
            0 <= i < r@.len() ==> {
                let src = orig_tris@[i];
                let out = #[trigger] r@[i];
                &&& out.normal == src.normal
                &&& out.attr_byte_count == src.attr_byte_count
                &&& forall|j: int|
                    0 <= j < 3 ==> vertex_key(#[trigger] vertex_of(out, j)) == clear_low(
                        translated(vert_trans_map@, vertex_key(vertex_of(src, j))),
                    )
            },
{
    let mut tris: Vec<Triangle> = Vec::<Triangle>::new();
    let mut i: usize = 0;
    while i < orig_tris.len()
        invariant
            i <= orig_tris@.len(),
            tris@.len() == i,
            forall|q: int|
                0 <= q < i ==> {
                    let src = orig_tris@[q];
                    let out = #[trigger] tris@[q];
                    &&& out.normal == src.normal
                    &&& out.attr_byte_count == src.attr_byte_count
                    &&& forall|j: int|
                        0 <= j < 3 ==> vertex_key(#[trigger] vertex_of(out, j)) == clear_low(
                            translated(vert_trans_map@, vertex_key(vertex_of(src, j))),
                        )
                },
        decreases orig_tris@.len() - i,
    {
        let src_tri = &orig_tris[i];
        let v1bits: u128 = get_vertex_as_bits(src_tri, 0);
        let v2bits: u128 = get_vertex_as_bits(src_tri, 1);
        let v3bits: u128 = get_vertex_as_bits(src_tri, 2);
        let newv1bits: u128 = lookup_or_keep(vert_trans_map, v1bits);
        let newv2bits: u128 = lookup_or_keep(vert_trans_map, v2bits);
        let newv3bits: u128 = lookup_or_keep(vert_trans_map, v3bits);
        let new_tri = Triangle {
            normal: src_tri.normal,
            attr_byte_count: src_tri.attr_byte_count,
            v1: get_vertex_from_bits(&newv1bits),
            v2: get_vertex_from_bits(&newv2bits),
            v3: get_vertex_from_bits(&newv3bits),
        };
        tris.push(new_tri);
        i = i + 1;
    }
    tris
}

/// The mapped value of `key` when the map holds it, `key` itself otherwise.
fn lookup_or_keep(map: &HashMap<u128, u128>, key: u128) -> (r: u128)
    ensures
        r == translated(map@, key),
{
    match map.get(&key) {
        Some(v) => *v,
        None => key,
    }
}

} // verus!
