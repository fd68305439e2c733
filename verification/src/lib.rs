//! Persistence of a set of network discovery records as a single
//! recursive-length-prefixed (RLP) blob inside a column-partitioned
//! key-value store.
//!
//! The crate has three layers:
//! - [`codec`]: the RLP list codec that turns an ordered sequence of
//!   discovery records into one byte blob and back;
//! - [`kvstore`]: a verified in-memory key-value store partitioned by
//!   logical column;
//! - [`dht`]: the store-item adapter (fixed key, fixed column) and the
//!   three persistence operations `load_dht`, `persist_dht` and
//!   `clear_dht`.

pub mod codec;
pub mod kvstore;
pub mod dht;

pub use codec::DecodeError;
pub use codec::DiscoveryRecord;
pub use kvstore::LogicalColumn;
pub use kvstore::MemoryStore;
pub use kvstore::StorageKey;
pub use dht::PersistedDht;
pub use dht::StoreError;
pub use dht::clear_dht;
pub use dht::dht_db_key;
pub use dht::load_dht;
pub use dht::persist_dht;
