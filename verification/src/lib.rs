//! A write-optimised log-structured merge storage engine: an in-memory
//! memtable, immutable sorted-string tables with checksummed blocks, a
//! block cache, partitioned bloom filters and a tiered compaction manager.
use vstd::prelude::*;

pub mod bloom;
pub mod cache;
pub mod compaction;
pub mod encoding;
pub mod memtable;
pub mod packing;
pub mod sstable;
pub mod storage;
pub mod wasm;

pub use bloom::PartitionedBloom;
pub use cache::RingCache;
pub use compaction::{CompactionManager, CompactionStats, Level};
pub use memtable::{Memtable, MemtableError};
pub use sstable::{Block, SSTable};
pub use storage::{InMemoryStorage, Storage, StorageError};

verus! {

/// Size in bytes of one data block of a table.
pub const BLOCK_SIZE: usize = 4096;

/// Key size used by the default memtable configuration.
pub const DEFAULT_KEY_SIZE: usize = 16;

/// Largest value size of the default memtable configuration.
pub const DEFAULT_VALUE_SIZE: usize = 1024;

} // verus!
