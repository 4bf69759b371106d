//! Core of a single-instrument (BTC/USD) limit-order-book exchange:
//! fixed-point numerics, price levels with FIFO queues, a two-sided book
//! with per-user balances, price-time-priority matching, trade settlement,
//! and the engine's command processor.

pub mod auth;
pub mod balance;
mod clock;
pub mod engine;
pub mod errors;
mod ids;
pub mod market_matching;
pub mod matching;
pub mod order;
pub mod orderbook;
pub mod price;
pub mod price_level;
pub mod quantity;
pub mod settlement;
pub mod trade;
pub mod user;
