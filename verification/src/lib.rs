//! Technical-analysis indicators and batch statistics over price series.
pub mod errors;
pub mod indicators;
pub mod integers;
pub mod lanes;
pub mod number;
pub mod simd;
pub mod text;
pub mod time;
mod traits;

pub use crate::traits::{
    all_zero, keeps_not_negative, keeps_positive, keeps_zero, looped, next_each, none_negative,
    outputs, reset_undoes_series, series_splits, state_after, Forgetful, Indicator, Next, NextBatch,
    Outputs, Reset, Series,
};
