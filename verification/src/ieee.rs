//! Measurements are IEEE-754 binary64 numbers, held by their 64-bit patterns.
//! This module says which patterns are numbers and how numbers compare; it does
//! no arithmetic on them.

use vstd::prelude::*;

verus! {

/// The pattern of the sign alone.
pub const SIGN_BIT: u64 = 0x8000_0000_0000_0000;

/// The pattern of positive infinity: every pattern whose magnitude is above
/// it is not a number, every one below it is finite.
pub const INFINITY_BITS: u64 = 0x7FF0_0000_0000_0000;

/// The pattern that marks a bound as not yet set.
pub const NAN_BITS: u64 = 0x7FF8_0000_0000_0000;

/// The pattern of the number one.
pub const ONE_BITS: u64 = 0x3FF0_0000_0000_0000;

/// The pattern without its sign.
pub open spec fn magnitude(bits: u64) -> int {
    if bits >= SIGN_BIT {
        bits - SIGN_BIT
    } else {
        bits as int
    }
}

/// The pattern is not a number.
pub open spec fn is_nan(bits: u64) -> bool {
    magnitude(bits) > INFINITY_BITS
}

/// The pattern is a finite number.
pub open spec fn is_finite(bits: u64) -> bool {
    magnitude(bits) < INFINITY_BITS
}

/// The pattern is zero, of either sign.
pub open spec fn is_zero(bits: u64) -> bool {
    magnitude(bits) == 0
}

/// An integer that orders the numbers as their values do: the magnitude,
/// negated under the sign. Both zeros have key 0.
pub open spec fn order_key(bits: u64) -> int {
    if bits >= SIGN_BIT {
        -magnitude(bits)
    } else {
        magnitude(bits)
    }
}

/// Both are numbers and `a` is below `b`.
pub open spec fn num_lt(a: u64, b: u64) -> bool {
    !is_nan(a) && !is_nan(b) && order_key(a) < order_key(b)
}

/// Both are numbers and they are equal in value.
pub open spec fn num_eq(a: u64, b: u64) -> bool {
    !is_nan(a) && !is_nan(b) && order_key(a) == order_key(b)
}

/// The pattern without its sign.
fn magnitude_of(bits: u64) -> (m: u64)
    ensures
        m == magnitude(bits),
{
    if bits >= SIGN_BIT {
        bits - SIGN_BIT
    } else {
        bits
    }
}

/// Says whether the pattern is not a number.
pub fn bits_is_nan(bits: u64) -> (r: bool)
    ensures
        r == is_nan(bits),
{
    magnitude_of(bits) > INFINITY_BITS
}

/// Says whether the pattern is a finite number.
pub fn bits_is_finite(bits: u64) -> (r: bool)
    ensures
        r == is_finite(bits),
{
    magnitude_of(bits) < INFINITY_BITS
}

/// Says whether the pattern is zero.
pub fn bits_is_zero(bits: u64) -> (r: bool)
    ensures
        r == is_zero(bits),
{
    magnitude_of(bits) == 0
}

/// Says whether `a` is below `b`; false where either is not a number.
pub fn bits_lt(a: u64, b: u64) -> (r: bool)
    ensures
        r == num_lt(a, b),
{
    if bits_is_nan(a) || bits_is_nan(b) {
        return false;
    }
    let ma: u64 = magnitude_of(a);
    let mb: u64 = magnitude_of(b);
    if a >= SIGN_BIT {
        if b >= SIGN_BIT {
            mb < ma
        } else {
            ma > 0 || mb > 0
        }
    } else {
        if b >= SIGN_BIT {
            false
        } else {
            ma < mb
        }
    }
}

/// Says whether `a` and `b` are equal in value; false where either is not a
/// number.
pub fn bits_eq(a: u64, b: u64) -> (r: bool)
    ensures
        r == num_eq(a, b),
{
    if bits_is_nan(a) || bits_is_nan(b) {
        return false;
    }
    let ma: u64 = magnitude_of(a);
    let mb: u64 = magnitude_of(b);
    if (a >= SIGN_BIT) == (b >= SIGN_BIT) {
        ma == mb
    } else {
        ma == 0 && mb == 0
    }
}

} // verus!
