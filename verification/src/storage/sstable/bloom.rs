//! The filters of a table: one partition for each data block.
//!
//! ```text
//! magic (4) | version (1) | prefix length (2) | partition count (4)
//! for each partition: offset in the section (8) | size (8)
//! the bitmaps
//! ```

use vstd::prelude::*;

pub use crate::storage::bloom_builder::{BloomBuilder, BloomFilter};

verus! {

/// The first four bytes of a partitioned filter section, low byte first: `GKPB`.
pub const PARTITIONED_BLOOM_MAGIC: u32 = 0x42504B47;

/// The version of the section's layout.
pub const PARTITIONED_BLOOM_VERSION: u8 = 1;

/// The bytes before the partition index.
pub const PARTITIONED_BLOOM_HEADER_SIZE: usize = 11;

/// The bytes of one entry of the partition index.
pub const PARTITIONED_BLOOM_INDEX_ENTRY_SIZE: usize = 16;

/// The part of a user key that a filter is asked for: the first `prefix_len` bytes,
/// or all of it where that is zero or the key is no longer.
pub open spec fn lookup_part(user_key: Seq<u8>, prefix_len: nat) -> Seq<u8> {
    if prefix_len == 0 || prefix_len >= user_key.len() {
        user_key
    } else {
        user_key.subrange(0, prefix_len as int)
    }
}

/// What [`lookup_part`] says.
pub fn bloom_lookup_key(user_key: &[u8], prefix_len: usize) -> (r: &[u8])
    ensures
        r@ == lookup_part(user_key@, prefix_len as nat),
{
    if prefix_len == 0 || prefix_len >= user_key.len() {
        user_key
    } else {
        vstd::slice::slice_subrange(user_key, 0, prefix_len)
    }
}

} // verus!
