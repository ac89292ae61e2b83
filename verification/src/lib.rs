//! A limit order matching engine: an in-memory, price-time-priority order
//! book for a single instrument. It accepts bid and offer orders, matches
//! crossing orders into trades priced at the resting order's limit, supports
//! cancellation of resting orders, and exposes read-only book queries.
//!
//! Prices are exact fixed-point integers (minor currency units), so equality
//! and ordering are exact and repeated arithmetic cannot drift.

pub mod book;
pub mod matching;
pub mod engine;
pub mod laws;
