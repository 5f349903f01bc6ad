//! Equal-width frequency histograms built with Sturges' rule, the sample
//! statistics derived from them, and a chi-squared goodness-of-fit check.
//!
//! Sample values are fixed-point integers: the caller picks a resolution and
//! hands in each observation as a whole number of ticks at that resolution.
//! Everything derived from the sample (bin width, bin centers, mean, variance,
//! the test statistic) is an exact rational [`frac::Frac`], so every contract
//! in this crate states the result of a computation exactly.

pub mod frac;
pub mod math;
pub mod analysis;
