//! IEEE-754 single-precision semantics on raw bit patterns.
use vstd::prelude::*;

verus! {

/// Mask of the eight exponent bits of a single-precision value.
pub const EXPONENT_MASK: u32 = 0x7F80_0000;

/// Bit pattern of `1.0f32`.
pub const ONE_BITS: u32 = 0x3F80_0000;

/// The sign bit.
pub const SIGN_BIT: u32 = 0x8000_0000;

/// The magnitude bits (everything but the sign).
pub open spec fn magnitude_bits(b: u32) -> u32 {
    (b % SIGN_BIT) as u32
}

/// The pattern is a NaN: all exponent bits set and a non-zero mantissa.
pub open spec fn is_nan(b: u32) -> bool {
    magnitude_bits(b) > EXPONENT_MASK
}

/// The pattern is `+0.0` or `-0.0`.
pub open spec fn is_zero(b: u32) -> bool {
    magnitude_bits(b) == 0
}

/// IEEE equality of two single-precision values: NaN equals nothing, the two
/// zeros are equal, any other value equals only itself.
pub open spec fn coord_eq(a: u32, b: u32) -> bool {
    !is_nan(a) && !is_nan(b) && (a == b || (is_zero(a) && is_zero(b)))
}

/// Equality of two vectors as `Vec<f32>` compares them: same length and
/// coordinate-wise IEEE equality.
pub open spec fn vec_eq(a: Seq<u32>, b: Seq<u32>) -> bool {
    a.len() == b.len() && forall|i: int| 0 <= i < a.len() ==> coord_eq(#[trigger] a[i], b[i])
}

/// No coordinate of the vector is a NaN.
pub open spec fn no_nan(a: Seq<u32>) -> bool {
    forall|i: int| 0 <= i < a.len() ==> !is_nan(#[trigger] a[i])
}

/// The key under which `f32::total_cmp` orders values: comparing keys as
/// unsigned integers is comparing the values under the IEEE total order.
pub open spec fn total_key(b: u32) -> u32 {
    if b < SIGN_BIT {
        (b + SIGN_BIT) as u32
    } else {
        (0xFFFF_FFFFu32 - b) as u32
    }
}

/// The value is `> 0.0`: positive sign, not zero, not NaN (infinity counts).
pub open spec fn is_positive(b: u32) -> bool {
    0 < b <= EXPONENT_MASK
}

/// The floor of the value is positive, that is the value is at least `1.0`
/// (infinity counts, NaN does not).
pub open spec fn floor_is_positive(b: u32) -> bool {
    ONE_BITS <= b <= EXPONENT_MASK
}

/// Whether two coordinates are equal as `f32` values.
pub fn coords_equal(a: u32, b: u32) -> (r: bool)
    ensures
        r == coord_eq(a, b),
{
    let ma = a % SIGN_BIT;
    let mb = b % SIGN_BIT;
    ma <= EXPONENT_MASK && mb <= EXPONENT_MASK && (a == b || (ma == 0 && mb == 0))
}

/// Whether two vectors are equal as `Vec<f32>` values.
pub fn vectors_equal(a: &Vec<u32>, b: &Vec<u32>) -> (r: bool)
    ensures
        r == vec_eq(a@, b@),
{
    if a.len() != b.len() {
        return false;
    }
    let mut i: usize = 0;
    while i < a.len()
        invariant
            a@.len() == b@.len(),
            0 <= i <= a@.len(),
            forall|j: int| 0 <= j < i ==> coord_eq(#[trigger] a@[j], b@[j]),
        decreases a@.len() - i,
    {
        if !coords_equal(a[i], b[i]) {
            return false;
        }
        i += 1;
    }
    true
}

/// The total-order key of a value (see `total_key`).
pub fn order_key(b: u32) -> (r: u32)
    ensures
        r == total_key(b),
{
    if b < SIGN_BIT {
        b + SIGN_BIT
    } else {
        0xFFFF_FFFFu32 - b
    }
}

/// Whether a value is `> 0.0`.
pub fn positive(b: u32) -> (r: bool)
    ensures
        r == is_positive(b),
{
    0 < b && b <= EXPONENT_MASK
}

/// Whether the floor of a value is `> 0`.
pub fn floor_positive(b: u32) -> (r: bool)
    ensures
        r == floor_is_positive(b),
{
    ONE_BITS <= b && b <= EXPONENT_MASK
}

} // verus!
