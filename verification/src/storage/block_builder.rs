//! The builder of blocks.

pub use crate::storage::sstable::block_builder::BlockBuilder;
