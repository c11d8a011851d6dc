//! What the bytes of a table are.
//!
//! ```text
//! data block 1 + checksum .. data block N + checksum
//! filter section
//! index block + checksum
//! footer: filter offset, index offset, version, magic number (48 bytes)
//! ```

use vstd::prelude::*;

use crate::format::coding;
use crate::format::fixed;
use crate::format::internal_key;
use crate::format::internal_key::InternalKeyKind;
use crate::storage::bloom_builder;
use crate::storage::checksum;
use crate::storage::sstable::block_builder;
use crate::storage::sstable::block_builder::KeyValue;
use crate::storage::sstable::bloom;
use crate::storage::sstable::compression;
use crate::storage::sstable::compression::SstableBlockCompression;

verus! {

/// The number at the end of every table.
pub const MAGIC_NUMBER: u64 = 0x706A725F676F6174;

/// The bytes of a block's checksum.
pub const BLOCK_CHECKSUM_SIZE: usize = 4;

/// The bytes of the footer.
pub const FOOTER_SIZE: usize = 48;

/// The bytes of the footer before the magic number.
pub const FOOTER_PADDING_BYTES: usize = 40;

/// The bytes of the footer that tell its version.
pub const FOOTER_FORMAT_METADATA_SIZE: usize = 8;

/// The version of tables without one.
pub const SSTABLE_FORMAT_VERSION_LEGACY: u8 = 0;

/// The version of tables with plain blocks.
pub const SSTABLE_FORMAT_VERSION_BASELINE: u8 = 1;

/// The version of tables with compressed blocks.
pub const SSTABLE_FORMAT_VERSION_BLOCK_COMPRESSION: u8 = 2;

/// The version that readers know.
pub const SSTABLE_FORMAT_VERSION_CURRENT: u8 = 1;

/// The marker in front of the version: `GKFV`.
pub open spec fn marker() -> Seq<u8> {
    seq![0x47u8, 0x4Bu8, 0x46u8, 0x56u8]
}

/// The user key of a serialized key.
pub open spec fn user_of(key: Seq<u8>) -> Seq<u8> {
    key.subrange(0, key.len() - 8)
}

/// A block with its checksum.
pub open spec fn sealed(payload: Seq<u8>) -> Seq<u8> {
    payload + fixed::le_bytes(checksum::crc32(payload) as nat, 4)
}

/// A block as it is stored: as it is, or, where blocks are compressed, the tag of the
/// compression, the length and the compressed block; uncompressed where that is no
/// shorter.
pub open spec fn payload(kind: SstableBlockCompression, content: Seq<u8>) -> Seq<u8> {
    if kind == SstableBlockCompression::Uncompressed {
        content
    } else {
        let packed = compression::compressed(kind, content);
        if packed.len() < content.len() {
            seq![compression::tag_of(kind)] + fixed::le_bytes(content.len(), 4) + packed
        } else {
            seq![0u8] + fixed::le_bytes(content.len(), 4) + content
        }
    }
}

/// Entries split into blocks, of which the last may still grow.
#[verifier::ext_equal]
pub struct Grouped {
    /// The blocks that are complete.
    pub done: Seq<Seq<KeyValue>>,
    /// The block that is not.
    pub open: Seq<KeyValue>,
}

/// The blocks of a table with these entries: a block is complete when it has reached
/// its size and another entry follows.
pub open spec fn grouped(entries: Seq<KeyValue>) -> Grouped
    decreases entries.len(),
{
    if entries.len() == 0 {
        Grouped { done: Seq::empty(), open: Seq::empty() }
    } else {
        let before = grouped(entries.drop_last());
        if block_builder::built(before.open).buffer.len() >= block_builder::MAX_BLOCK_SIZE {
            Grouped { done: before.done.push(before.open), open: seq![entries.last()] }
        } else {
            Grouped { done: before.done, open: before.open.push(entries.last()) }
        }
    }
}

/// All blocks.
pub open spec fn all_blocks(entries: Seq<KeyValue>) -> Seq<Seq<KeyValue>> {
    let g = grouped(entries);
    if g.open.len() == 0 {
        g.done
    } else {
        g.done.push(g.open)
    }
}

/// A user key from `last` to `next` to separate two blocks by: `last` itself where the
/// two differ by one in their last byte only, else the common prefix and the first
/// byte that differs in `last`, plus one; `last` where there is no such byte or it is
/// the largest one.
pub open spec fn separator_user(last: Seq<u8>, next: Seq<u8>) -> Seq<u8> {
    let i = block_builder::shared_prefix(last, next) as int;
    if last.len() == next.len() && i == last.len() - 1 && last[i] + 1 == next[i] {
        last
    } else if i < last.len() && i < next.len() && last[i] < 0xFF {
        last.subrange(0, i).push((last[i] + 1) as u8)
    } else {
        last
    }
}

/// The encoded word of separators: that of a value with the largest sequence number.
pub open spec fn newest() -> u64 {
    internal_key::encoded_sequence(internal_key::SEQUENCE_NUMBER_MAX, InternalKeyKind::Put)
}

/// The key of block `j` in the index.
pub open spec fn separator(blocks: Seq<Seq<KeyValue>>, j: int) -> Seq<u8> {
    if j + 1 < blocks.len() {
        internal_key::serialized(
            separator_user(user_of(blocks[j].last().key), user_of(blocks[j + 1][0].key)),
            newest(),
        )
    } else {
        blocks[j].last().key
    }
}

/// Block `j` as it stands in the file.
pub open spec fn stored_block(
    blocks: Seq<Seq<KeyValue>>,
    j: int,
    kind: SstableBlockCompression,
) -> Seq<u8> {
    sealed(payload(kind, block_builder::block_bytes(blocks[j])))
}

/// The first `n` blocks as they stand in the file.
pub open spec fn data_section(
    blocks: Seq<Seq<KeyValue>>,
    n: nat,
    kind: SstableBlockCompression,
) -> Seq<u8>
    decreases n,
{
    if n == 0 {
        Seq::empty()
    } else {
        data_section(blocks, (n - 1) as nat, kind) + stored_block(blocks, n - 1, kind)
    }
}

/// The entry of block `j` in the index: its separator, where it begins and its size.
pub open spec fn index_entry(
    blocks: Seq<Seq<KeyValue>>,
    j: int,
    kind: SstableBlockCompression,
) -> KeyValue {
    KeyValue {
        key: separator(blocks, j),
        value: coding::varint_bytes(data_section(blocks, j as nat, kind).len() as u64)
            + coding::varint_bytes(stored_block(blocks, j, kind).len() as u64),
    }
}

/// The first `n` entries of the index.
pub open spec fn index_entries(
    blocks: Seq<Seq<KeyValue>>,
    n: nat,
    kind: SstableBlockCompression,
) -> Seq<KeyValue> {
    Seq::new(n, |j: int| index_entry(blocks, j, kind))
}

/// What the filter of a block is asked for by its user keys.
pub open spec fn lookup_keys(block: Seq<KeyValue>, prefix_len: nat) -> Seq<Seq<u8>> {
    Seq::new(
        block.len(),
        |i: int| bloom::lookup_part(user_of(block[i].key), prefix_len),
    )
}

/// The filter of a block.
pub open spec fn partition(block: Seq<KeyValue>, prefix_len: nat) -> Seq<u8> {
    bloom_builder::filter_of(1024, lookup_keys(block, prefix_len))
}

/// The filters of the first `n` blocks.
pub open spec fn partitions(blocks: Seq<Seq<KeyValue>>, n: nat, prefix_len: nat) -> Seq<Seq<u8>> {
    Seq::new(n, |j: int| partition(blocks[j], prefix_len))
}

/// The bytes of the first `n` filters together.
pub open spec fn partition_bytes(parts: Seq<Seq<u8>>, n: nat) -> Seq<u8>
    decreases n,
{
    if n == 0 {
        Seq::empty()
    } else {
        partition_bytes(parts, (n - 1) as nat) + parts[n - 1]
    }
}

/// Where filter `j` begins in the section.
pub open spec fn partition_offset(parts: Seq<Seq<u8>>, j: int) -> nat {
    11 + 16 * parts.len() + partition_bytes(parts, j as nat).len()
}

/// The first `n` entries of the partition index.
pub open spec fn partition_index(parts: Seq<Seq<u8>>, n: nat) -> Seq<u8>
    decreases n,
{
    if n == 0 {
        Seq::empty()
    } else {
        partition_index(parts, (n - 1) as nat) + fixed::le_bytes(
            partition_offset(parts, n - 1),
            8,
        ) + fixed::le_bytes(parts[n - 1].len(), 8)
    }
}

/// The filter section.
pub open spec fn filter_section(parts: Seq<Seq<u8>>, prefix_len: nat) -> Seq<u8> {
    fixed::le_bytes(bloom::PARTITIONED_BLOOM_MAGIC as nat, 4)
        + seq![bloom::PARTITIONED_BLOOM_VERSION] + fixed::le_bytes(prefix_len, 2)
        + fixed::le_bytes(parts.len(), 4) + partition_index(parts, parts.len()) + partition_bytes(
        parts,
        parts.len(),
    )
}

/// What stands between the offsets and the magic number: marker, version, zeros.
pub open spec fn padding(len: nat, version: u8) -> Seq<u8> {
    Seq::new(
        len,
        |i: int|
            if i < 4 {
                marker()[i]
            } else if i == 4 {
                version
            } else {
                0u8
            },
    )
}

/// The footer.
pub open spec fn footer(filter_offset: u64, index_offset: u64, version: u8) -> Seq<u8> {
    let offsets = coding::varint_bytes(filter_offset) + coding::varint_bytes(index_offset);
    offsets + padding((40 - offsets.len()) as nat, version) + fixed::le_bytes(
        MAGIC_NUMBER as nat,
        8,
    )
}

/// The version of a table.
pub open spec fn version_of(kind: SstableBlockCompression) -> u8 {
    if kind == SstableBlockCompression::Uncompressed {
        1
    } else {
        2
    }
}

/// The index block of a table with these blocks.
pub open spec fn index_block(blocks: Seq<Seq<KeyValue>>, kind: SstableBlockCompression) -> Seq<u8> {
    block_builder::block_bytes(index_entries(blocks, blocks.len(), kind))
}

/// The table with these blocks.
pub open spec fn table_of_blocks(
    blocks: Seq<Seq<KeyValue>>,
    prefix_len: nat,
    kind: SstableBlockCompression,
) -> Seq<u8> {
    let data = data_section(blocks, blocks.len(), kind);
    let filters = filter_section(partitions(blocks, blocks.len(), prefix_len), prefix_len);
    data + filters + sealed(payload(kind, index_block(blocks, kind))) + footer(
        data.len() as u64,
        (data.len() + filters.len()) as u64,
        version_of(kind),
    )
}

/// The table with these entries.
pub open spec fn table_bytes(
    entries: Seq<KeyValue>,
    prefix_len: nat,
    kind: SstableBlockCompression,
) -> Seq<u8> {
    table_of_blocks(all_blocks(entries), prefix_len, kind)
}

/// The sequence number of a serialized key.
pub open spec fn seq_of(key: Seq<u8>) -> u64 {
    internal_key::sequence_of(internal_key::encoded_part(key))
}

/// The smallest sequence number among keys; zero where there are none.
pub open spec fn smallest_seq(entries: Seq<KeyValue>) -> u64
    decreases entries.len(),
{
    if entries.len() == 0 {
        0
    } else if entries.len() == 1 {
        seq_of(entries[0].key)
    } else {
        let before = smallest_seq(entries.drop_last());
        let last = seq_of(entries.last().key);
        if last < before {
            last
        } else {
            before
        }
    }
}

/// The largest sequence number among keys; zero where there are none.
pub open spec fn largest_seq(entries: Seq<KeyValue>) -> u64
    decreases entries.len(),
{
    if entries.len() == 0 {
        0
    } else {
        let before = largest_seq(entries.drop_last());
        let last = seq_of(entries.last().key);
        if last > before {
            last
        } else {
            before
        }
    }
}

/// The key written first; empty where there is none.
pub open spec fn first_key(entries: Seq<KeyValue>) -> Seq<u8> {
    if entries.len() == 0 {
        Seq::empty()
    } else {
        entries[0].key
    }
}

/// The key written last; empty where there is none.
pub open spec fn last_key(entries: Seq<KeyValue>) -> Seq<u8> {
    if entries.len() == 0 {
        Seq::empty()
    } else {
        entries.last().key
    }
}

} // verus!
