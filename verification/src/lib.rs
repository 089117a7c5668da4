//! Verified core of a market-data pipeline: normalized ticks, venue
//! wire-format parsing, a price-time-priority limit order book with a
//! matching engine, a fan-in/fan-out tick aggregator, and the connector
//! session state machine.

pub mod aggregator;
pub mod connectors;
pub mod fixed;
pub mod json;
pub mod matching_engine;
pub mod orderbook;
pub mod session;
pub mod sig;
pub mod types;
