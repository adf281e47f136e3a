//! An in-process store for one-minute OHLCV bars, kept compressed by
//! symbol and calendar day and queried by time range.
//!
//! A text feed is parsed ([`parse`]) and grouped into days ([`store`]); a
//! day of bars is laid out in minute slots, serialized ([`codec`]) and
//! compressed ([`block`]); the blocks live in an index by symbol and day
//! ([`index`]); a range query takes a snapshot of the blocks of its days
//! and reads it a day at a time ([`cursor`]). What a query yields, and what
//! holds of it, is stated in [`range`].

pub mod api;
pub mod block;
pub mod calendar;
pub mod codec;
pub mod collections;
pub mod cursor;
pub mod index;
pub mod mmap_format;
pub mod parse;
pub mod query;
pub mod range;
pub mod stats;
pub mod store;
pub mod symbols;
pub mod types;
