//! An append-friendly, ordered key-value abstraction (a segmented log)
//! layered on an embedded ordered storage engine, plus a generic
//! key-value store variant sharing the same engine and cursor machinery.

pub mod cursor;
pub mod engine;
pub mod error;
pub mod keys;
pub mod log;
pub mod order;
pub mod store;
pub mod tuning;
