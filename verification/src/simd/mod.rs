//! Statistics over whole slices, four lanes at a time.
//!
//! Beside every function that works in lanes stands one that works value by value.  Where
//! the arithmetic is exact the two agree; where it rounds, the contracts say in which order
//! either of them adds up.
pub mod ema;
pub mod rate_of_change;
pub mod reductions;
pub mod rolling;
pub mod statistics;

pub use crate::simd::ema::{ema, ema_continuation_into, ema_into};
pub use crate::simd::rate_of_change::{rate_of_change, rate_of_change_into};
pub use crate::simd::reductions::{mean, std_dev, sum, sum_squares, variance};
pub use crate::simd::rolling::{rolling_mean, rolling_mean_into, rolling_std, rolling_std_into};
