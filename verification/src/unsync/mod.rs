//! The cache.

pub mod builder;
pub mod cache;
pub mod deques;
pub mod effects;
pub mod entry;
pub mod expiry;
pub mod history;
pub mod laws;
pub mod links;
pub mod model;
pub mod order;
pub mod promises;
pub mod store;
pub mod victims;
pub mod weights;

pub use self::builder::CacheBuilder;
pub use self::cache::Cache;
