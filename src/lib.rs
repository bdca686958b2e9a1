//! Market microstructure analytics: order-book metrics, trade-tape metrics,
//! volume profiles and pattern detectors over exact decimal values.
pub mod buckets;
pub mod decimal;
pub mod metrics;
pub mod orderbook;
pub mod patterns;
pub mod sums;
pub mod tape;
pub mod types;

pub use decimal::Dec;
pub use types::{Level, OrderBook, Side, Trade};
