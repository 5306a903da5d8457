//! Grid coordinates for single-precision numbers.
//!
//! The bit pattern of an IEEE-754 single-precision number is a sign bit over
//! a 31-bit magnitude, and among numbers that are not NaN a larger magnitude
//! is a number further from zero. Reading the pattern as sign and magnitude
//! therefore gives an integer that compares as the number does, with both
//! zeros at 0. Rectangles given in such numbers can be stored under these
//! integers: what intersects what, and which corner a merge keeps, come out
//! the same.

use vstd::prelude::*;

verus! {

/// The pattern with only the sign bit set.
pub const SIGN: u32 = 0x8000_0000;

/// The integer that a pattern stands for when read as sign and magnitude.
pub open spec fn spec_ordered_key(bits: u32) -> int {
    if bits < SIGN {
        bits as int
    } else {
        -(bits - SIGN)
    }
}

/// The pattern that reads as `key`: the inverse of `spec_ordered_key`, with
/// the sign bit clear for zero.
pub open spec fn spec_key_bits(key: i32) -> int {
    if key >= 0 {
        key as int
    } else {
        SIGN - key
    }
}

/// Reads a bit pattern as sign and magnitude.
pub fn ordered_key(bits: u32) -> (key: i32)
    ensures
        key == spec_ordered_key(bits),
        key > i32::MIN,
{
    if bits < SIGN {
        bits as i32
    } else {
        -((bits - SIGN) as i32)
    }
}

/// Writes an integer as sign and magnitude. The one integer without such a
/// pattern, `i32::MIN`, is left out.
pub fn key_bits(key: i32) -> (bits: u32)
    requires
        key > i32::MIN,
    ensures
        bits == spec_key_bits(key),
        spec_ordered_key(bits) == key,
{
    if key >= 0 {
        key as u32
    } else {
        SIGN + ((-key) as u32)
    }
}

/// Reading a pattern and writing it again gives the pattern back, but for
/// the pattern of negative zero, which comes back as that of zero.
pub proof fn lemma_key_round_trip(bits: u32)
    ensures
        spec_ordered_key(bits) > i32::MIN,
        spec_key_bits(spec_ordered_key(bits) as i32) == (if bits == SIGN {
            0
        } else {
            bits as int
        }),
{
}

/// Keys compare as sign and magnitude say: a pattern with the sign bit set
/// is never above one without; among patterns without it the larger pattern
/// has the larger key, among patterns with it the smaller key.
pub proof fn lemma_key_order(a: u32, b: u32)
    ensures
        a < SIGN && b < SIGN ==> (spec_ordered_key(a) < spec_ordered_key(b) <==> a < b),
        a >= SIGN && b >= SIGN ==> (spec_ordered_key(a) < spec_ordered_key(b) <==> a > b),
        a >= SIGN && b < SIGN ==> spec_ordered_key(a) <= spec_ordered_key(b),
        spec_ordered_key(a) == spec_ordered_key(b) <==> a == b || (a == 0 && b == SIGN) || (a
            == SIGN && b == 0),
{
}

} // verus!
