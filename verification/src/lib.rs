//! Exact probability tables for retry backoff strategies.
//!
//! The crate builds the per-retry timing distributions of binary
//! exponential backoff (BEB), a modified variant (MBEB), and a Monte
//! Carlo histogram for exponential backoff with jitter (EBJ).  All
//! probability values are dyadic rationals held as integer numerators
//! over power-of-two denominators, so every table is exact and every
//! stated sum is an integer identity.

use vstd::prelude::*;

pub mod beb;
pub mod ebj;
pub mod mbeb;
pub mod sums;
pub mod table;

verus! {

/// A configuration rejected before any table is generated.
#[derive(Clone, Copy, Debug, PartialEq, Eq, Structural)]
pub enum ConfigError {
    /// The retry count was zero; every table needs at least one retry.
    RetryCountZero,
    /// The simulation was asked for zero paths.
    PathCountZero,
    /// The histogram was asked for zero buckets.
    BucketCountZero,
    /// The initial interval was zero ticks.
    IntervalZero,
    /// The backoff multiplier was not strictly greater than one.
    MultiplierNotGreater,
    /// The randomization factor was outside `[0, 1]`.
    RandFactorInvalid,
    /// The derived bucket width was zero ticks.
    BucketWidthZero,
    /// A derived quantity does not fit in a machine word.
    Overflow,
}

} // verus!
