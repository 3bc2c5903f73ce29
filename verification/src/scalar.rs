//! Reals in fixed point.
//!
//! A real is an `i64` that counts billionths: `UNIT` stands for one. Lengths
//! are in metres and angles in radians, so a joint value is exact to a
//! nanometre or a nanoradian and may reach nine thousand million either way.
//! Such values are ordered as integers, pass through the library unchanged,
//! and are read from decimal text without rounding error.

use vstd::prelude::*;

verus! {

/// The real number one.
pub const UNIT: i64 = 1_000_000_000i64;

/// The real number zero.
pub const ZERO: i64 = 0i64;

/// The largest whole part that a real can have.
pub const MAX_WHOLE: u64 = 9_000_000_000u64;

/// How many digits after the decimal point a real holds.
pub const PLACES: usize = 9usize;

/// The largest exponent, either way, that a numeral may carry.
pub const MAX_EXPONENT: u64 = 30u64;

/// `value` brought into the range from `lower` to `upper`: `lower` when the
/// value is below it, otherwise `upper` when the value is above that,
/// otherwise the value itself.
pub open spec fn clamped(value: i64, lower: i64, upper: i64) -> i64 {
    if value < lower {
        lower
    } else if value > upper {
        upper
    } else {
        value
    }
}

/// Brings `value` into the range from `lower` to `upper`.
pub fn clamp(value: i64, lower: i64, upper: i64) -> (r: i64)
    ensures
        r == clamped(value, lower, upper),
{
    if value < lower {
        lower
    } else if value > upper {
        upper
    } else {
        value
    }
}

/// A clamped value never leaves the range: when `lower` is not above
/// `upper`, the result of clamping lies between them.
pub proof fn lemma_clamped_in_range(value: i64, lower: i64, upper: i64)
    requires
        lower <= upper,
    ensures
        lower <= clamped(value, lower, upper) <= upper,
{
}

/// A value inside the range is left as it is.
pub proof fn lemma_clamped_inside(value: i64, lower: i64, upper: i64)
    requires
        lower <= value <= upper,
    ensures
        clamped(value, lower, upper) == value,
{
}

/// Clamping a value that is already clamped changes nothing.
pub proof fn lemma_clamped_twice(value: i64, lower: i64, upper: i64)
    requires
        lower <= upper,
    ensures
        clamped(clamped(value, lower, upper), lower, upper) == clamped(value, lower, upper),
{
}

} // verus!
