use vstd::prelude::*;

verus! {

/// The real `1.0` as an unsigned fixed-point number. Weights, fitness
/// scores and distances are fixed-point numbers with 16 fractional bits:
/// the integer `v` stands for the real `v / 65536`.
pub const ONE: u64 = 65_536;

/// The real `1.0` as a signed fixed-point number.
pub const ONE_SIGNED: i64 = 65_536;

/// Absolute difference of two signed fixed-point numbers.
pub open spec fn spec_abs_diff(a: i64, b: i64) -> nat {
    if a >= b {
        (a - b) as nat
    } else {
        (b - a) as nat
    }
}

/// Absolute difference of two signed fixed-point numbers, which always fits
/// in 64 unsigned bits.
pub fn abs_diff(a: i64, b: i64) -> (r: u64)
    ensures
        r == spec_abs_diff(a, b),
{
    if a >= b {
        ((a as i128) - (b as i128)) as u64
    } else {
        ((b as i128) - (a as i128)) as u64
    }
}

/// `value` limited to the closed range from `low` to `high`.
pub open spec fn spec_clamp(value: int, low: int, high: int) -> int {
    if value < low {
        low
    } else if value > high {
        high
    } else {
        value
    }
}

} // verus!
