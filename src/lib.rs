//! A read-through caching proxy in front of a key-value store: a capacity-bounded
//! LRU cache with per-entry expiry, the decisions of the single worker that
//! resolves lookups against it, and the write-once slot through which a waiting
//! caller receives its result.

pub mod lru_cache;
pub mod redis_request;
pub mod redis_consumer;
pub mod config;
