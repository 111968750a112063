//! A read/write tracking cache for a versioned key-value store.
pub mod access;
pub mod bytes;
pub mod cache_log;
pub mod internal_cache;
pub mod keyed;
pub mod laws;
pub mod records;
pub mod storage;
