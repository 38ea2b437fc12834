//! Indicators over a stream of points.
//!
//! Each of them looks back over a span of time.  Points that fall into the same time bucket
//! as the one before them replace it.
pub mod bollinger_bands;
pub mod held;
pub mod max_drawdown;
pub mod maximum;
pub mod movements;
pub mod relative_strength_index;
pub mod swings;
pub mod window;
pub mod window_aggregate;

pub use crate::indicators::bollinger_bands::{BollingerBands, BollingerBandsOutput};
pub use crate::indicators::max_drawdown::MaxDrawdown;
pub use crate::indicators::maximum::Maximum;
pub use crate::indicators::relative_strength_index::RelativeStrengthIndex;
