//! Ordering of prices given as IEEE 754 binary64 bit patterns.
//!
//! A price is carried through the library as the 64 bits of its double
//! precision encoding. The library only ever compares prices, and the
//! comparison `a > b` of two doubles is a function of their bits alone:
//! it is false when either is a NaN, and otherwise it is the order of the
//! sign-magnitude integers the bits encode (so that `-0` and `+0` are equal).

use vstd::prelude::*;

verus! {

/// The sign bit of a binary64 pattern.
pub const SIGN_BIT: u64 = 0x8000_0000_0000_0000;

/// The pattern of positive infinity; every magnitude above it is a NaN.
pub const INFINITY_BITS: u64 = 0x7ff0_0000_0000_0000;

/// The bits of `bits` other than the sign bit.
pub open spec fn magnitude(bits: u64) -> int {
    if bits >= SIGN_BIT {
        bits - SIGN_BIT
    } else {
        bits as int
    }
}

/// Whether `bits` encodes a NaN.
pub open spec fn is_nan(bits: u64) -> bool {
    magnitude(bits) > INFINITY_BITS
}

/// The position of a non-NaN value on the number line, as an integer that
/// orders the values exactly as the reals they denote; both zeros map to 0.
pub open spec fn order_key(bits: u64) -> int {
    if bits >= SIGN_BIT {
        -magnitude(bits)
    } else {
        magnitude(bits)
    }
}

/// `a > b` on the doubles encoded by `a` and `b`.
pub open spec fn price_gt(a: u64, b: u64) -> bool {
    !is_nan(a) && !is_nan(b) && order_key(a) > order_key(b)
}

/// `a <= b` on the doubles encoded by `a` and `b`.
pub open spec fn price_le(a: u64, b: u64) -> bool {
    !is_nan(a) && !is_nan(b) && order_key(a) <= order_key(b)
}

/// Whether the price encoded by `a` is strictly above the one encoded by `b`.
pub fn price_above(a: u64, b: u64) -> (above: bool)
    ensures
        above == price_gt(a, b),
{
    let a_neg = a >= SIGN_BIT;
    let b_neg = b >= SIGN_BIT;
    let a_mag = if a_neg { a - SIGN_BIT } else { a };
    let b_mag = if b_neg { b - SIGN_BIT } else { b };
    if a_mag > INFINITY_BITS || b_mag > INFINITY_BITS {
        false
    } else if !a_neg && !b_neg {
        a_mag > b_mag
    } else if a_neg && b_neg {
        a_mag < b_mag
    } else if !a_neg {
        // a >= +0 and b <= -0: equal only when both are zeros
        a_mag > 0 || b_mag > 0
    } else {
        false
    }
}

/// `>` on prices is transitive.
pub proof fn lemma_price_gt_transitive(a: u64, b: u64, c: u64)
    requires
        price_gt(a, b),
        price_gt(b, c),
    ensures
        price_gt(a, c),
{
}

/// `<=` on prices is transitive.
pub proof fn lemma_price_le_transitive(a: u64, b: u64, c: u64)
    requires
        price_le(a, b),
        price_le(b, c),
    ensures
        price_le(a, c),
{
}

/// No price is above itself, and of two prices that are not NaN exactly one
/// of `a > b` and `a <= b` holds.
pub proof fn lemma_price_order_total(a: u64, b: u64)
    ensures
        !price_gt(a, a),
        !is_nan(a) && !is_nan(b) ==> (price_gt(a, b) <==> !price_le(a, b)),
{
}


/// The order of prices read off their bit patterns: of two non-NaN prices
/// with the sign bit clear, one is above the other exactly when its pattern
/// is the larger unsigned integer; of two non-NaN negative ones, exactly when
/// its pattern is the smaller; a non-negative price is above a non-positive
/// one unless both are zeros; a negative one is never above a non-negative
/// one; and a NaN is neither above nor below anything.
pub proof fn lemma_price_gt_bit_order(a: u64, b: u64)
    ensures
        a <= INFINITY_BITS && b <= INFINITY_BITS ==> (price_gt(a, b) <==> a > b),
        SIGN_BIT <= a <= SIGN_BIT + INFINITY_BITS && SIGN_BIT <= b <= SIGN_BIT + INFINITY_BITS
            ==> (price_gt(a, b) <==> a < b),
        a <= INFINITY_BITS && SIGN_BIT <= b <= SIGN_BIT + INFINITY_BITS ==> (price_gt(a, b) <==> !(
        a == 0 && b == SIGN_BIT)),
        SIGN_BIT <= a <= SIGN_BIT + INFINITY_BITS && b <= INFINITY_BITS ==> !price_gt(a, b),
        (INFINITY_BITS < a < SIGN_BIT || a > SIGN_BIT + INFINITY_BITS) ==> !price_gt(a, b)
            && !price_gt(b, a),
{
}

} // verus!
