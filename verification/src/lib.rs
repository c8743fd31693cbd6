//! A local key-value store: entries with optional lifetimes, a capacity
//! bound enforced by evicting the least recently written key, and
//! transactions that buffer their writes until commit.

pub mod keymap;
pub mod lru;
pub mod types;
pub mod clock;
pub mod error;
pub mod cache;
pub mod codec;
pub mod transaction;
pub mod db;
pub mod laws;
pub mod text;
pub mod protocol;
pub mod prompt;

pub use crate::cache::Cache;
pub use crate::db::KvStore;
pub use crate::error::Error;
pub use crate::lru::LruTracker;
pub use crate::transaction::Transaction;
pub use crate::types::{Entry, Store, StoreInfo};
