//! Core trading-and-settlement engine of a decentralized exchange: a balance
//! ledger, a price-time-priority order book, a two-party escrowed settlement
//! engine and a cross-chain bridge with a weighted validator quorum.
pub mod bridge;
pub mod ledger;
pub mod orderbook;
pub mod settlement;
pub mod settlement_bridge;
pub mod sums;
pub mod types;
