//! A per-symbol order matching engine.
//!
//! Each symbol has its own book, kept in price-time priority, which matches
//! incoming orders under one of three disciplines: strict FIFO, pro-rata
//! over the best price level, or a hybrid of the two.  Around the books sit
//! the ingress pieces: the submission checks, the fabric that routes events
//! to per-symbol shards, and the shard step that feeds one event to a book.
//! Prices are fixed-point integers in ticks.

pub mod order;
pub mod errors;
pub mod trade;
pub mod book;
pub mod fifo;
pub mod pro_rata;
pub mod hybrid;
pub mod matching_book;
pub mod types;
pub mod api;
pub mod fabric;
pub mod shard;
