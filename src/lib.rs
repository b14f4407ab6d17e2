//! A fixed-capacity key/value cache that evicts the least recently used
//! entry when it is full.
//!
//! Entries live in an arena of slots whose positions are reused after
//! eviction; a key index maps each key to its slot, and a doubly linked
//! chain over the slots keeps the order of use.
mod cache;
mod chain;
pub mod model;

pub use cache::{key_model, CacheError, LRUCache};
