//! Packing of per-hyperplane decisions into a hash code.
use vstd::prelude::*;
use vstd::arithmetic::power2::{pow2, lemma_pow2_unfold, lemma2_to64, lemma_pow2_strictly_increases};
use vstd::bits::lemma_u64_shl_is_mul;
use crate::float_bits::{is_positive, floor_is_positive, positive, floor_positive};

verus! {

/// The code whose bit `i` is set exactly when `bits[i]` holds: the sum of
/// `2^i` over the set positions.
pub open spec fn code_of(bits: Seq<bool>) -> nat
    decreases bits.len(),
{
    if bits.len() == 0 {
        0
    } else {
        code_of(bits.drop_last()) + if bits.last() {
            pow2((bits.len() - 1) as nat)
        } else {
            0
        }
    }
}

/// The decisions of a cosine hash: hyperplane `i` votes for its bit when the
/// projection on it is `> 0.0`.
pub open spec fn sign_bits(projections: Seq<u32>) -> Seq<bool> {
    projections.map_values(|b: u32| is_positive(b))
}

/// The decisions of a Euclidean hash: hyperplane `i` votes for its bit when the
/// floor of its scaled, offset projection is `> 0`.
pub open spec fn quantized_bits(scaled: Seq<u32>) -> Seq<bool> {
    scaled.map_values(|b: u32| floor_is_positive(b))
}

/// A code of `n` bits lies in `[0, 2^n)`.
pub proof fn lemma_code_bound(bits: Seq<bool>)
    ensures
        code_of(bits) < pow2(bits.len()),
    decreases bits.len(),
{
    if bits.len() > 0 {
        lemma_code_bound(bits.drop_last());
        lemma_pow2_unfold(bits.len());
    } else {
        lemma2_to64();
    }
}

/// Packs the decisions into a code, bit `i` (least significant first) for
/// `bits[i]`.
pub fn hash_code(bits: &Vec<bool>) -> (r: u64)
    requires
        bits@.len() <= 64,
    ensures
        r == code_of(bits@),
        r < pow2(bits@.len()),
{
    let mut r: u64 = 0;
    let mut i: usize = 0;
    while i < bits.len()
        invariant
            bits@.len() <= 64,
            0 <= i <= bits@.len(),
            r == code_of(bits@.subrange(0, i as int)),
        decreases bits@.len() - i,
    {
        proof {
            lemma_code_bound(bits@.subrange(0, i as int));
            lemma2_to64();
            lemma_pow2_unfold((i + 1) as nat);
            if i + 1 < 64 {
                lemma_pow2_strictly_increases((i + 1) as nat, 64);
            }
            lemma_u64_shl_is_mul(1, i as u64);
            assert(bits@.subrange(0, i + 1).drop_last() =~= bits@.subrange(0, i as int));
        }
        if bits[i] {
            r = r + (1u64 << (i as u64));
        }
        i += 1;
    }
    proof {
        assert(bits@.subrange(0, bits@.len() as int) =~= bits@);
        lemma_code_bound(bits@);
    }
    r
}

/// The code of a cosine hash from the bit patterns of the projections of the
/// unit-normalised vector on each unit hyperplane.
pub fn sign_code(projections: &Vec<u32>) -> (r: u64)
    requires
        projections@.len() <= 64,
    ensures
        r == code_of(sign_bits(projections@)),
        r < pow2(projections@.len()),
{
    let mut bits: Vec<bool> = Vec::new();
    let mut i: usize = 0;
    while i < projections.len()
        invariant
            0 <= i <= projections@.len(),
            bits@ =~= sign_bits(projections@.subrange(0, i as int)),
        decreases projections@.len() - i,
    {
        bits.push(positive(projections[i]));
        i += 1;
    }
    proof {
        assert(projections@.subrange(0, projections@.len() as int) =~= projections@);
    }
    hash_code(&bits)
}

/// The code of a Euclidean hash from the bit patterns of the values
/// `(dot(row_i, v) + offset_i) / bin_width`, before their floor is taken.
pub fn quantized_code(scaled: &Vec<u32>) -> (r: u64)
    requires
        scaled@.len() <= 64,
    ensures
        r == code_of(quantized_bits(scaled@)),
        r < pow2(scaled@.len()),
{
    let mut bits: Vec<bool> = Vec::new();
    let mut i: usize = 0;
    while i < scaled.len()
        invariant
            0 <= i <= scaled@.len(),
            bits@ =~= quantized_bits(scaled@.subrange(0, i as int)),
        decreases scaled@.len() - i,
    {
        bits.push(floor_positive(scaled[i]));
        i += 1;
    }
    proof {
        assert(scaled@.subrange(0, scaled@.len() as int) =~= scaled@);
    }
    hash_code(&bits)
}

} // verus!
