//! Order and sign of binary32 numbers, read off their bit patterns.
//!
//! A pattern holds the sign in its top bit and the magnitude in the other
//! bits; patterns of numbers that are not NaN are ordered by magnitude.

use vstd::prelude::*;

verus! {

/// The pattern of positive zero.
pub const ZERO: u32 = 0;

/// The pattern of one.
pub const ONE: u32 = 0x3f80_0000;

/// The pattern of minus one.
pub const MINUS_ONE: u32 = 0xbf80_0000;

/// The pattern of the machine epsilon, two to the power of minus 23.
pub const EPSILON: u32 = 0x3400_0000;

/// The pattern of negative infinity.
pub const NEG_INFINITY: u32 = 0xff80_0000;

/// The pattern of positive infinity: the largest magnitude of a number.
pub const INFINITY: u32 = 0x7f80_0000;

/// The pattern whose only set bit is the sign.
pub const SIGN: u32 = 0x8000_0000;

/// Whether the sign bit is set.
pub open spec fn negative(b: u32) -> bool {
    b >= SIGN
}

/// The pattern without its sign bit.
pub open spec fn magnitude(b: u32) -> int {
    if negative(b) {
        b - SIGN
    } else {
        b as int
    }
}

/// Whether the pattern is a NaN.
pub open spec fn is_nan(b: u32) -> bool {
    magnitude(b) > INFINITY
}

/// The place of a number among the numbers. Both zeros have place zero.
pub open spec fn rank(b: u32) -> int {
    if negative(b) {
        -magnitude(b)
    } else {
        magnitude(b)
    }
}

/// The place of a pattern among all patterns: like [`rank`], with negative
/// zero below positive zero and NaNs at both ends.
pub open spec fn total_rank(b: u32) -> int {
    if negative(b) {
        -magnitude(b) - 1
    } else {
        magnitude(b)
    }
}

/// The numeric comparison `a < b`, which no NaN satisfies.
pub open spec fn less(a: u32, b: u32) -> bool {
    !is_nan(a) && !is_nan(b) && rank(a) < rank(b)
}

/// The pattern with the opposite sign.
pub open spec fn negated(b: u32) -> u32 {
    if negative(b) {
        (b - SIGN) as u32
    } else {
        (b + SIGN) as u32
    }
}

/// Whether the pattern is that of one or of minus one.
pub open spec fn bipolar(b: u32) -> bool {
    b == ONE || b == MINUS_ONE
}

/// Changing the sign twice gives the pattern back.
pub proof fn negated_is_involution(b: u32)
    ensures
        negated(negated(b)) == b,
{
}

/// Changing the sign reverses the numeric order.
pub proof fn negated_reverses(a: u32, b: u32)
    ensures
        less(negated(a), negated(b)) == less(b, a),
{
}

/// The numeric order is a strict order.
pub proof fn less_is_strict(a: u32, b: u32, c: u32)
    ensures
        !less(a, a),
        less(a, b) ==> !less(b, a),
        less(a, b) && less(b, c) ==> less(a, c),
{
}

/// Numbers are ordered by their patterns: those without the sign bit as the
/// patterns are, those with it the other way round, and below the others unless
/// both are zero. A pattern above that of infinity, the sign bit aside, is no
/// number, and is below and above nothing.
pub proof fn numbers_are_ordered_by_their_patterns(a: u32, b: u32)
    ensures
        a <= 0x7f80_0000 && b <= 0x7f80_0000 ==> (less(a, b) <==> a < b),
        0x8000_0000 <= a <= 0xff80_0000 && 0x8000_0000 <= b <= 0xff80_0000 ==> (less(a, b) <==> b
            < a),
        0x8000_0000 <= a <= 0xff80_0000 && b <= 0x7f80_0000 ==> (less(a, b) <==> a != 0x8000_0000
            || b != 0),
        a <= 0x7f80_0000 && 0x8000_0000 <= b ==> !less(a, b),
        0x7f80_0000 < a < 0x8000_0000 || 0xff80_0000 < a ==> !less(a, b) && !less(b, a),
        less(a, b) ==> total_rank(a) < total_rank(b) && rank(a) < rank(b),
        negated(a) != a,
        magnitude(negated(a)) == magnitude(a),
{
}

/// Two patterns have the same place among all patterns only when they are
/// the same.
pub proof fn total_rank_is_injective(a: u32, b: u32)
    requires
        total_rank(a) == total_rank(b),
    ensures
        a == b,
{
}

/// The exact place of a pattern among all patterns.
pub fn total_place(b: u32) -> (r: i64)
    ensures
        r == total_rank(b),
{
    if b >= SIGN {
        -((b - SIGN) as i64) - 1
    } else {
        b as i64
    }
}

/// Whether a pattern is a NaN.
pub fn nan(b: u32) -> (r: bool)
    ensures
        r == is_nan(b),
{
    if b >= SIGN {
        b - SIGN > INFINITY
    } else {
        b > INFINITY
    }
}

/// The place of a number among the numbers.
pub fn place(b: u32) -> (r: i64)
    ensures
        r == rank(b),
{
    if b >= SIGN {
        -((b - SIGN) as i64)
    } else {
        b as i64
    }
}

/// Compares two numbers.
pub fn is_less(a: u32, b: u32) -> (r: bool)
    ensures
        r == less(a, b),
{
    !nan(a) && !nan(b) && place(a) < place(b)
}

/// Changes the sign.
pub fn negate(b: u32) -> (r: u32)
    ensures
        r == negated(b),
{
    if b >= SIGN {
        b - SIGN
    } else {
        b + SIGN
    }
}

} // verus!
