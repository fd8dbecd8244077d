//! An order-book aggregator: per-exchange synchronizers turn unreliable
//! streams of snapshots and deltas into correct local books, an aggregation
//! engine merges the books into one depth-limited composite view with a
//! deterministic tie-break and computes the spread, and a subscriber pool
//! registry decides who receives each summary.
pub mod aggregator;
pub mod binance;
pub mod bitstamp;
pub mod config;
pub mod definitions;
pub mod error;
pub mod orderbook;
pub mod parse;
pub mod pool;
pub mod utils;
