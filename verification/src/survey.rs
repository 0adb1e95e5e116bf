use vstd::prelude::*;

use std::collections::{HashMap, HashSet};

use crate::addressing::{
    get_keep_mask, keeps, lemma_mask_complement, masked_distinct, masked_pair_distinct,
    valid_bit_depth,
};
use crate::bitmath::{bit_at, lemma_and_bit, lemma_not_bit, lemma_or_bit};
use crate::errors::StegoError;
use crate::vertex::lemma_push_to_set;

verus! {

broadcast use vstd::std_specs::hash::group_hash_axioms;

// ---------------------------------------------------------------------------
// Capacity survey helpers: a destructiveness heuristic and a randomized
// perturbation, both over the keep mask.
// ---------------------------------------------------------------------------

/// Relies on rand::random: draws a value of the standard distribution;
/// nothing is assumed about which value comes back.
pub assume_specification<T>[ rand::random::<T> ]() -> (r: T)
    where
        rand::distributions::Standard: rand::distributions::Distribution<T>,
;

/// Whether zeroing every target bit at this depth keeps all the unique
/// vertices distinguishable: true exactly when no two distinct keys
/// collapse to the same masked key.  An approximate safety signal: a depth
/// that fails it will corrupt the mesh's geometry beyond recovery.
pub fn test_zeroed_bits(bits: &u8, source: &Vec<u128>) -> (r: Result<bool, StegoError>)
    ensures
        r is Ok <==> valid_bit_depth(*bits as int),
        r is Err ==> r == Err::<bool, StegoError>(StegoError::InvalidBitDepth),
        r matches Ok(safe) ==> safe == masked_distinct(source@, *bits as int),
{
    let mask = get_keep_mask(bits)?;
    let ghost b = *bits as int;
    let ghost masked_seq = Seq::new(source@.len(), |t: int| source@[t] & mask);
    let mut uniq_set = HashSet::<u128>::new();
    let mut i: usize = 0;
    while i < source.len()
        invariant
            i <= source@.len(),
            masked_seq == Seq::new(source@.len(), |t: int| source@[t] & mask),
            uniq_set@ == masked_seq.take(i as int).to_set(),
        decreases source@.len() - i,
    {
        let masked = source[i] & mask;
        proof {
            lemma_push_to_set(masked_seq.take(i as int), masked);
            assert(masked_seq.take(i as int + 1) =~= masked_seq.take(i as int).push(masked));
        }
        if !uniq_set.contains(&masked) {
            uniq_set.insert(masked);
        } else {
            proof {
                assert(masked_seq.take(i as int).to_set().insert(masked) =~= masked_seq.take(
                    i as int,
                ).to_set());
            }
        }
        i = i + 1;
    }
    let safe = uniq_set.len() == source.len();
    proof {
        assert(masked_seq.take(source@.len() as int) =~= masked_seq);
        if safe {
            masked_seq.lemma_no_dup_set_cardinality();
        } else {
            if masked_seq.no_duplicates() {
                masked_seq.unique_seq_to_set();
                assert(false);
            }
        }
        assert(safe == masked_seq.no_duplicates());
        assert forall|i1: int, j1: int| 0 <= i1 < j1 < source@.len() implies (masked_seq[i1]
            != masked_seq[j1]) == masked_pair_distinct(
            #[trigger] source@[i1],
            #[trigger] source@[j1],
            b,
        ) by {
            lemma_mask_complement(source@[i1], source@[j1], mask, b);
            if masked_seq[i1] != masked_seq[j1] {
                assert(!(forall|p: int|
                    0 <= p < 128 && keeps(b, p) ==> #[trigger] bit_at(source@[i1], p) == bit_at(
                        source@[j1],
                        p,
                    )));
                let p = choose|p: int|
                    !(0 <= p < 128 && keeps(b, p) ==> #[trigger] bit_at(source@[i1], p) == bit_at(
                        source@[j1],
                        p,
                    ));
                assert(0 <= p < 128 && keeps(b, p) && bit_at(source@[i1], p) != bit_at(
                    source@[j1],
                    p,
                ));
            }
            if masked_pair_distinct(source@[i1], source@[j1], b) {
                let p = choose|p: int|
                    0 <= p < 128 && keeps(b, p) && #[trigger] bit_at(source@[i1], p) != bit_at(
                        source@[j1],
                        p,
                    );
                assert(masked_seq[i1] != masked_seq[j1]);
            }
        }
        if masked_seq.no_duplicates() {
            assert forall|i1: int, j1: int| 0 <= i1 < j1 < source@.len() implies masked_pair_distinct(
                #[trigger] source@[i1],
                #[trigger] source@[j1],
                b,
            ) by {
                assert(masked_seq[i1] != masked_seq[j1]);
            }
            assert(masked_distinct(source@, b));
        }
        if masked_distinct(source@, b) {
            assert forall|i1: int, j1: int|
                0 <= i1 < source@.len() && 0 <= j1 < source@.len() && i1 != j1 implies masked_seq[i1]
                != masked_seq[j1] by {
                if i1 < j1 {
                    assert(masked_seq[i1] != masked_seq[j1]);
                } else {
                    assert(masked_seq[j1] != masked_seq[i1]);
                }
            }
        }
    }
    Ok(safe)
}

/// Overwrites every target bit (and the unused low bits) of each unique
/// vertex with random data, keeping all non-target bits: builds a
/// translation map whose every entry agrees with its key on the kept
/// positions.  Which random values land in the target bits is left open.
pub fn fuzz_vertices(bits: &u8, source: &Vec<u128>, dest: &mut HashMap<u128, u128>) -> (r: Result<
    (),
    StegoError,
>)
    ensures
        r is Ok <==> valid_bit_depth(*bits as int),
        r is Err ==> r == Err::<(), StegoError>(StegoError::InvalidBitDepth) && *final (dest)
            == *old(dest),
        r is Ok ==> {
            &&& final (dest)@.dom() == source@.to_set()
            &&& forall|k: u128, p: int|
                final (dest)@.contains_key(k) && 0 <= p < 128 && keeps(*bits as int, p)
                    ==> #[trigger] bit_at(final (dest)@[k], p) == bit_at(k, p)
        },
{
    let mask = get_keep_mask(bits)?;
    let ghost b = *bits as int;
    dest.clear();
    let mut i: usize = 0;
    while i < source.len()
        invariant
            i <= source@.len(),
            dest@.dom() == source@.take(i as int).to_set(),
            forall|k: u128, p: int|
                dest@.contains_key(k) && 0 <= p < 128 && keeps(b, p) ==> #[trigger] bit_at(
                    dest@[k],
                    p,
                ) == bit_at(k, p),
            forall|p: int| 0 <= p < 128 ==> #[trigger] bit_at(mask, p) == keeps(b, p),
        decreases source@.len() - i,
    {
        let v = source[i];
        proof {
            lemma_push_to_set(source@.take(i as int), v);
            assert(source@.take(i as int + 1) =~= source@.take(i as int).push(v));
        }
        if !dest.contains_key(&v) {
            let random_bits: u128 = rand::random();
            let fuzzed = (random_bits & !mask) | (v & mask);
            proof {
                assert forall|p: int| 0 <= p < 128 && keeps(b, p) implies bit_at(fuzzed, p)
                    == bit_at(v, p) by {
                    lemma_or_bit(random_bits & !mask, v & mask, p);
                    lemma_and_bit(random_bits, !mask, p);
                    lemma_and_bit(v, mask, p);
                    lemma_not_bit(mask, p);
                }
            }
            dest.insert(v, fuzzed);
        } else {
            proof {
                assert(source@.take(i as int).to_set().insert(v) =~= source@.take(
                    i as int,
                ).to_set());
            }
        }
        i = i + 1;
    }
    proof {
        assert(source@.take(source@.len() as int) =~= source@);
    }
    Ok(())
}

} // verus!
