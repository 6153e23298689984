//! Pair-trading support: the market-chart query and asset names, rebasing
//! price charts onto one timeline, the shape bookkeeping of the lagged
//! autoregression, and the trading policy's decisions.

pub mod fetch;
pub mod interp;
pub mod orders;
pub mod regression;
pub mod signals;
pub mod strategy;

pub use fetch::MarketChartQuery;
pub use interp::rebase;
pub use orders::{Confirmation, Order};
pub use regression::autoregression_layout;
pub use signals::Signal;
pub use strategy::StatArbPolicy;
