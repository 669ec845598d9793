//! Source of the random draws the evolutionary operators consume: uniform
//! integers, unit-interval fixed-point values and symmetric ranges.

use vstd::prelude::*;

use crate::FP_SCALE;

verus! {

/// Uniform random draw from the thread-local generator.
///
/// Relies on `rand::random`, which samples a value of type `T` through the
/// `Standard` distribution; nothing can be promised of the value drawn.
pub assume_specification<T>[ rand::random::<T> ]() -> (r: T)
    where
        rand::distributions::Standard: rand::distributions::Distribution<T>,
;

/// Handle for the library's random draws.
pub struct Random;

impl Random {
    /// Uniform integer in `[0, max)`.
    pub fn rand_int(max: u64) -> (r: u64)
        requires
            max > 0,
        ensures
            r < max,
    {
        let raw: u64 = rand::random::<u64>();
        raw % max
    }

    /// Uniform fixed-point value in `[0, FP_SCALE)`: a probability draw
    /// over the unit interval, so that a rate of `FP_SCALE` always fires
    /// and a rate of zero never does.
    pub fn rand_unit() -> (r: i64)
        ensures
            0 <= r < FP_SCALE,
    {
        let raw: u64 = Random::rand_int(FP_SCALE as u64);
        raw as i64
    }

    /// Uniform fixed-point value in `[-cap, cap]`.
    pub fn rand_range(cap: i64) -> (r: i64)
        requires
            0 <= cap <= 1000000000,
        ensures
            -cap <= r <= cap,
    {
        let raw: u64 = Random::rand_int(2 * (cap as u64) + 1);
        (raw as i64) - cap
    }
}

} // verus!
