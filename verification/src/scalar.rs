//! Ordered coordinates for single-precision numbers.
//!
//! The boxes and the search of this library order coordinates as integers.
//! A number in the IEEE 754 single format is a sign bit and 31 bits of
//! magnitude, and among the numbers that are not NaN a greater magnitude is
//! a number further from zero. So the magnitude, taken negative where the
//! sign bit is set, orders such numbers as they are ordered themselves. Both
//! zeros get the coordinate 0.

use vstd::prelude::*;

verus! {

/// The magnitude of positive infinity: the highest that is no NaN.
pub const INFINITY_BITS: u32 = 0x7f80_0000;

/// The coordinate of positive infinity.
pub const INFINITY: i32 = 0x7f80_0000;

/// The coordinate of negative infinity.
pub const NEG_INFINITY: i32 = -0x7f80_0000;

/// The 31 bits of magnitude.
pub open spec fn magnitude(bits: u32) -> u32 {
    bits & 0x7fff_ffff
}

/// Whether the sign bit is set.
pub open spec fn is_negative(bits: u32) -> bool {
    bits & 0x8000_0000 != 0
}

/// Whether the bits hold a NaN.
pub open spec fn is_nan(bits: u32) -> bool {
    magnitude(bits) > INFINITY_BITS
}

/// The coordinate of the number with the given bits.
pub open spec fn coordinate(bits: u32) -> int {
    if is_negative(bits) {
        -(magnitude(bits) as int)
    } else {
        magnitude(bits) as int
    }
}

/// The bits of the number with the given coordinate; of the two zeros, the
/// positive one.
pub open spec fn bits_of(coordinate: int) -> int {
    if coordinate < 0 {
        0x8000_0000 - coordinate
    } else {
        coordinate
    }
}

/// The coordinate of the number with the given bits, or `None` for a NaN.
pub fn from_bits(bits: u32) -> (c: Option<i32>)
    ensures
        is_nan(bits) <==> c is None,
        c matches Some(v) ==> v == coordinate(bits) && -INFINITY <= v <= INFINITY,
{
    let mag: u32 = bits & 0x7fff_ffff;
    assert(mag <= 0x7fff_ffff) by (bit_vector)
        requires
            mag == bits & 0x7fff_ffff,
    ;
    if mag > INFINITY_BITS {
        None
    } else if bits & 0x8000_0000 != 0 {
        Some(-(mag as i32))
    } else {
        Some(mag as i32)
    }
}

/// The bits of the number with the given coordinate.
pub fn to_bits(c: i32) -> (bits: u32)
    requires
        -INFINITY <= c <= INFINITY,
    ensures
        bits == bits_of(c as int),
        !is_nan(bits),
        coordinate(bits) == c,
{
    if c < 0 {
        let mag: u32 = (-c) as u32;
        let bits: u32 = 0x8000_0000 + mag;
        assert(bits & 0x7fff_ffff == mag && bits & 0x8000_0000 != 0) by (bit_vector)
            requires
                bits == 0x8000_0000u32 + mag,
                mag <= 0x7f80_0000u32,
        ;
        bits
    } else {
        let bits: u32 = c as u32;
        assert(bits & 0x7fff_ffff == bits && bits & 0x8000_0000 == 0) by (bit_vector)
            requires
                bits <= 0x7f80_0000u32,
        ;
        bits
    }
}

/// Numbers of the same sign are ordered as their magnitudes are, a negative
/// number lies below every number that is not, and the coordinates say so:
/// the coordinate of `a` lies below that of `b` exactly when `a` is negative
/// and `b` is not and they are not both zero, or both are not negative and
/// `a` has the smaller magnitude, or both are negative and `a` has the
/// greater.
pub proof fn lemma_coordinate_order(a: u32, b: u32)
    ensures
        coordinate(a) < coordinate(b) <==> if is_negative(a) && !is_negative(b) {
            magnitude(a) != 0 || magnitude(b) != 0
        } else if !is_negative(a) && is_negative(b) {
            false
        } else if is_negative(a) {
            magnitude(a) > magnitude(b)
        } else {
            magnitude(a) < magnitude(b)
        },
        coordinate(a) == coordinate(b) <==> (magnitude(a) == magnitude(b) && (is_negative(a)
            == is_negative(b) || magnitude(a) == 0)),
{
}

/// A number that is not negative zero comes back from its coordinate as it
/// was; negative zero comes back as zero.
pub proof fn lemma_round_trip(bits: u32)
    requires
        !is_nan(bits),
    ensures
        bits_of(coordinate(bits)) == if bits == 0x8000_0000 {
            0
        } else {
            bits as int
        },
{
    let mag = bits & 0x7fff_ffff;
    assert(bits & 0x8000_0000 != 0 ==> bits == 0x8000_0000u32 + (bits & 0x7fff_ffff))
        by (bit_vector);
    assert(bits & 0x8000_0000 == 0 ==> bits == bits & 0x7fff_ffff) by (bit_vector);
    assert(bits & 0x7fff_ffff <= 0x7fff_ffff) by (bit_vector);
}

} // verus!
