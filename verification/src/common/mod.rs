//! Building blocks of the cache.

pub mod deque;
pub mod frequency_sketch;
pub mod paged_table;
pub mod time;
