//! A bounded, in-memory cache for use within one thread.
//!
//! [`unsync::Cache`] holds up to a given number of entries, or up to a given total weight. When
//! it is full, a new entry replaces the least recently used ones only if it has been asked for
//! more often than they have lately. Entries may also expire, counted from when they were
//! written or from when they were last used.

pub mod common;
pub mod unsync;
