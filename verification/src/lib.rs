//! An event-driven backtest engine for equity-like instruments: historical
//! bars are replayed along a benchmark-derived timeline, queued orders are
//! matched bar by bar, a portfolio with a settlement-delay rule is
//! maintained, indicator series are precomputed without look-ahead, and an
//! equity curve with summary statistics comes out.
//!
//! Prices and money are fixed-point integers scaled by
//! [`numutil::SCALE`]; quantities are lots of one hundred shares; instants
//! are seconds since the Unix epoch.

pub mod numutil;
pub mod timeparse;
pub mod types;
pub mod datafeed;
pub mod indicator_engine;
pub mod execution_engine;
pub mod metrics_recorder;
pub mod engine;
