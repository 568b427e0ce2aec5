//! The matching engine: per-symbol order books, trade execution, the trade and
//! account ledger, and the feed consumer's bookkeeping.
pub mod book;
pub mod consumer;
pub mod db;
pub mod matcher;
pub mod types;

pub use types::{
    AccountPortfolio, BookOrder, EngineStats, OrderBookView, PositionView, PriceLevelView, Trade,
};
pub use book::OrderBook;
pub use consumer::FeedConsumer;
pub use matcher::MatchingEngine;
