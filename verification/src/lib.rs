//! An order feed and a price-time priority matching engine for limit orders,
//! with prices and quantities held as fixed-point integers.
pub mod engine;
pub mod feed;
pub mod text;

