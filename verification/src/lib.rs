//! A crash-safe key-value store over a remote device of fixed-size pages.
//!
//! The crate is the core of the storage engine:
//!
//! - `page`: the record that a page holds, with its checksum;
//! - `buffer_pool`: a fixed-capacity cache of pages with LRU eviction,
//!   write-back, pinning and dirty tracking;
//! - `log_format` and `wal`: the write-ahead log, its records, its sequence
//!   numbers and its replay;
//! - `index`: the map from keys to pages;
//! - `kvstore`: the engine that ties them together under the write-ahead
//!   rule;
//! - `azure_disk`: what the caller needs to know of the page blob;
//! - `faithful` and `invariants`: what is proved of the engine, on a device
//!   that does what it is asked and on any device.
//!
//! The engine performs no input or output itself: every operation hands its
//! caller the next device action to perform and is resumed with the outcome.

pub mod azure_disk;
pub mod buffer_pool;
pub mod error;
pub mod faithful;
pub mod index;
pub mod invariants;
pub mod kvstore;
pub mod log_format;
pub mod page;
pub mod text;
pub mod wal;

pub use error::IronCladError;
pub use kvstore::KVStore;
