//! A durable reconciliation queue for a multiplexed blob store: entries record
//! which backend still lacks a content key, grouped by the logical write
//! (operation) that produced them.

pub mod coalescer;
pub mod entry;
pub mod laws;
pub mod operation_key;
pub mod pattern;
pub mod store;
