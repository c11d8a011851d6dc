//! Tables, logs and what works on them.

pub mod block_builder;
pub mod bloom_builder;
pub mod checksum;
pub mod compaction;
pub mod metadata;
pub mod sstable;
pub mod sstable_builder;
pub mod sstable_laws;
pub mod sstable_reader;
pub mod sstable_reading_laws;
pub mod wal;
pub mod wal_manager;
