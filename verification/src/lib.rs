//! A single-instrument limit order matching engine.
//!
//! The engine keeps one price-level index per side and a registry of resting
//! orders, matches incoming orders under price-time priority with
//! minimum-fill semantics, and reports trades and cancellations as market
//! data updates.

pub mod channel;
pub mod expiration_handler;
pub mod market_data_outbox;
pub mod metrics;
pub mod orderbook;
pub mod web_server;
