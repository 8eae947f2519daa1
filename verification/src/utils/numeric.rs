//! Saturating arithmetic on times and costs.
//!
//! Derived quantities never wrap around: a sum or product that does not fit
//! stays at the largest value of its type.

use vstd::prelude::*;

verus! {

/// The sum of two amounts, held at `u64::MAX`.
pub open spec fn spec_add_amounts(a: u64, b: u64) -> u64 {
    if a + b > u64::MAX {
        u64::MAX
    } else {
        (a + b) as u64
    }
}

/// The product of two amounts, held at `u64::MAX`.
pub open spec fn spec_mul_amounts(a: u64, b: u64) -> u64 {
    if a * b > u64::MAX {
        u64::MAX
    } else {
        (a * b) as u64
    }
}

/// A point in time moved forward by `delta`, held at `i64::MAX`.
pub open spec fn spec_advance(time: i64, delta: u64) -> i64 {
    if time + delta > i64::MAX {
        i64::MAX
    } else {
        (time + delta) as i64
    }
}

/// The time from `from` to `to`, zero where `to` is not later than `from`.
pub open spec fn spec_elapsed(from: i64, to: i64) -> u64 {
    if to <= from {
        0
    } else {
        (to - from) as u64
    }
}

/// A matrix entry as an amount: a negative entry counts as zero.
pub open spec fn spec_clamp(value: i64) -> u64 {
    if value < 0 {
        0
    } else {
        value as u64
    }
}

/// Adds two amounts without wrapping.
pub fn add_amounts(a: u64, b: u64) -> (sum: u64)
    ensures
        sum == spec_add_amounts(a, b),
{
    a.saturating_add(b)
}

/// Multiplies two amounts without wrapping.
pub fn mul_amounts(a: u64, b: u64) -> (product: u64)
    ensures
        product == spec_mul_amounts(a, b),
{
    match a.checked_mul(b) {
        Some(product) => product,
        None => u64::MAX,
    }
}

/// Moves a point in time forward without wrapping.
pub fn advance(time: i64, delta: u64) -> (moved: i64)
    ensures
        moved == spec_advance(time, delta),
        moved >= time,
{
    let wide: i128 = time as i128 + delta as i128;
    if wide > i64::MAX as i128 {
        i64::MAX
    } else {
        wide as i64
    }
}

/// The time that passes between two points in time.
pub fn elapsed(from: i64, to: i64) -> (span: u64)
    ensures
        span == spec_elapsed(from, to),
{
    if to <= from {
        0
    } else {
        let wide: i128 = to as i128 - from as i128;
        wide as u64
    }
}

/// Reads a matrix entry as an amount.
pub fn clamp(value: i64) -> (amount: u64)
    ensures
        amount == spec_clamp(value),
{
    if value < 0 {
        0
    } else {
        value as u64
    }
}

} // verus!
