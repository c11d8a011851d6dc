//! Sorted string tables.

pub mod block_builder;
pub mod block_format;
pub mod block_laws;
pub mod block_lookup_laws;
pub mod block_reader;
pub mod bloom;
pub mod build_laws;
pub mod builder;
pub mod cache;
pub mod cache_laws;
pub mod checked_laws;
pub mod clock;
pub mod compression;
pub mod read_caches;
pub mod reader;
pub mod reading_laws;
pub mod sharded;
pub mod table_cache;
pub mod table_format;
pub mod table_index;
pub mod table_laws;
pub mod table_lookup_laws;
pub mod table_reading;

pub use block_builder::BlockBuilder;
pub use block_reader::{BlockIterator, BlockReader};
pub use builder::SSTableBuilder;
