//! What holds of a table that was built, and of what is told of it.

use vstd::prelude::*;

use crate::error::CompressionError;
use crate::format::fixed;
use crate::format::internal_key;
use crate::format::order;
use crate::storage::bloom_builder;
use crate::storage::metadata;
use crate::storage::sstable::block_builder;
use crate::storage::sstable::block_builder::KeyValue;
use crate::storage::sstable::block_lookup_laws;
use crate::storage::sstable::bloom;
use crate::storage::sstable::builder;
use crate::storage::sstable::compression;
use crate::storage::sstable::compression::SstableBlockCompression;
use crate::storage::sstable::table_format;

verus! {

/// The sequence number of the key of an entry: the upper 56 bits of the last eight bytes, high
/// byte first and with every bit flipped.
pub open spec fn sequence_in(e: KeyValue) -> int {
    let n = e.key.len() as int;
    (u64::MAX - fixed::be_value(e.key.subrange(n - 8, n))) / 256
}

/// Every sequence number lies between the smallest and the largest one that are told of a
/// table, and both are those of entries of the table.
pub proof fn sequence_range_is_that_of_the_entries(entries: Seq<KeyValue>) -> (r: (int, int))
    requires
        entries.len() > 0,
        forall|i: int| 0 <= i < entries.len() ==> (#[trigger] entries[i]).key.len() >= 8,
    ensures
        forall|i: int|
            0 <= i < entries.len() ==> table_format::smallest_seq(entries) <= sequence_in(
                #[trigger] entries[i],
            ) <= table_format::largest_seq(entries),
        0 <= r.0 < entries.len(),
        sequence_in(entries[r.0]) == table_format::smallest_seq(entries),
        0 <= r.1 < entries.len(),
        sequence_in(entries[r.1]) == table_format::largest_seq(entries),
    decreases entries.len(),
{
    let n = entries.len() as int;
    let last = entries[n - 1];
    lemma_sequence_in(last);
    if n == 1 {
        assert(table_format::largest_seq(entries.drop_last()) == 0);
        (0, 0)
    } else {
        let before = entries.drop_last();
        assert forall|i: int| 0 <= i < before.len() implies (#[trigger] before[i]).key.len()
            >= 8 by {
            assert(before[i] == entries[i]);
        }
        let (lo, hi) = sequence_range_is_that_of_the_entries(before);
        assert forall|i: int| 0 <= i < n implies table_format::smallest_seq(entries)
            <= sequence_in(#[trigger] entries[i]) <= table_format::largest_seq(entries) by {
            if i < n - 1 {
                assert(before[i] == entries[i]);
            }
        }
        let seq = table_format::seq_of(last.key);
        (
            if seq < table_format::smallest_seq(before) {
                n - 1
            } else {
                lo
            },
            if seq > table_format::largest_seq(before) {
                n - 1
            } else {
                hi
            },
        )
    }
}

proof fn lemma_sequence_in(e: KeyValue)
    requires
        e.key.len() >= 8,
    ensures
        sequence_in(e) == table_format::seq_of(e.key),
{
    let n = e.key.len() as int;
    fixed::byte_range_values();
    fixed::be_bytes_of_value(e.key.subrange(n - 8, n));
}

/// The key range that is told of a table holds every user key of it, where user keys were
/// written in order, and its ends are keys of the table.
pub proof fn key_range_holds_every_key(entries: Seq<KeyValue>, i: int)
    requires
        block_lookup_laws::sorted_by_user(entries),
        0 <= i < entries.len(),
    ensures
        ({
            let low = table_format::first_key(entries);
            let high = table_format::last_key(entries);
            let user = table_format::user_of(entries[i].key);
            &&& order::lex_le(table_format::user_of(low), user)
            &&& order::lex_le(user, table_format::user_of(high))
            &&& order::lex_le(user, metadata::user_key_of(high))
            &&& low == entries[0].key
            &&& high == entries[entries.len() - 1].key
        }),
{
    let n = entries.len() as int;
    if i > 0 {
        assert(order::lex_le(
            block_lookup_laws::user_at(entries, 0),
            block_lookup_laws::user_at(entries, i),
        ));
    }
    if i < n - 1 {
        assert(order::lex_le(
            block_lookup_laws::user_at(entries, i),
            block_lookup_laws::user_at(entries, n - 1),
        ));
    }
    assert(entries[n - 1].key.len() >= 8);
}

/// The user key of the key of a table is that with which the key was made.
pub proof fn user_key_is_read_back(user_key: Seq<u8>, encoded: u64)
    ensures
        metadata::user_key_of(internal_key::serialized(user_key, encoded)) == user_key,
        table_format::user_of(internal_key::serialized(user_key, encoded)) == user_key,
{
    internal_key::serialize_round_trip(user_key, encoded);
}

// ---- blocks ----
proof fn lemma_grouped(entries: Seq<KeyValue>)
    ensures
        ({
            let g = table_format::grouped(entries);
            &&& forall|j: int|
                0 <= j < g.done.len() ==> reached_with_last(#[trigger] g.done[j])
            &&& g.open.len() > 0 ==> below_without_last(g.open)
            &&& g.open.len() == 0 ==> entries.len() == 0
        }),
    decreases entries.len(),
{
    if entries.len() > 0 {
        let shorter = entries.drop_last();
        lemma_grouped(shorter);
        let before = table_format::grouped(shorter);
        let now = table_format::grouped(entries);
        assert(block_builder::built(Seq::empty()).buffer.len() == 0);
        if before.open.len() == 0 {
            assert(before.open =~= Seq::empty());
        }
        assert forall|j: int| 0 <= j < now.done.len() implies reached_with_last(
            #[trigger] now.done[j],
        ) by {
            if j < before.done.len() {
                assert(now.done[j] == before.done[j]);
            }
        }
        if now.done.len() > before.done.len() {
            assert(now.open.drop_last() =~= Seq::empty());
        } else {
            assert(now.open.drop_last() =~= before.open);
        }
    }
}

/// Without its last entry the block has not reached the size from which on it is finished.
pub open spec fn below_without_last(block: Seq<KeyValue>) -> bool {
    block.len() > 0 && block_builder::built(block.drop_last()).buffer.len() < 4096
}

/// The block has reached the size from which on it is finished, and only with its last entry.
pub open spec fn reached_with_last(block: Seq<KeyValue>) -> bool {
    below_without_last(block) && block_builder::built(block).buffer.len() >= 4096
}

/// Blocks are finished at their size: every block but the last of a table reaches 4096 bytes of
/// entries, and no block reached them before its last entry.
pub proof fn blocks_are_finished_at_their_size(entries: Seq<KeyValue>, j: int)
    requires
        0 <= j < table_format::all_blocks(entries).len(),
    ensures
        ({
            let blocks = table_format::all_blocks(entries);
            &&& below_without_last(blocks[j])
            &&& j + 1 < blocks.len() ==> reached_with_last(blocks[j])
        }),
{
    lemma_grouped(entries);
    let g = table_format::grouped(entries);
    if j < g.done.len() {
        assert(reached_with_last(g.done[j]));
    }
}

/// A table has no blocks exactly where it has no entries.
pub proof fn blocks_where_there_are_entries(entries: Seq<KeyValue>)
    ensures
        table_format::all_blocks(entries).len() == 0 <==> entries.len() == 0,
{
    lemma_grouped(entries);
}

/// A separator is short: where the keys differ at a byte before the end of either, that of the
/// first key is not the largest one and they are not next to each other, it ends with that byte.
pub proof fn separator_ends_at_the_difference(last: Seq<u8>, next: Seq<u8>, i: int)
    requires
        0 <= i < last.len(),
        i < next.len(),
        forall|k: int| 0 <= k < i ==> last[k] == next[k],
        last[i] != next[i],
    ensures
        ({
            let sep = table_format::separator_user(last, next);
            let neighbours = last.len() == next.len() && i == last.len() - 1 && last[i] + 1
                == next[i];
            &&& sep.len() <= last.len()
            &&& last[i] < 0xFF && !neighbours ==> sep.len() == i + 1 && sep[i] == last[i] + 1
            &&& neighbours || last[i] == 0xFF ==> sep == last
        }),
{
    lemma_shared_is(last, next, i, 0);
}

proof fn lemma_shared_is(a: Seq<u8>, b: Seq<u8>, i: int, from: nat)
    requires
        from <= i < a.len(),
        i < b.len(),
        forall|k: int| 0 <= k < i ==> a[k] == b[k],
        a[i] != b[i],
    ensures
        block_builder::shared_from(a, b, from) == i,
    decreases i - from,
{
    if from < i {
        lemma_shared_is(a, b, i, from + 1);
    }
}

/// Where one key begins with the other, or they are the same, the first separates them.
pub proof fn separator_of_a_prefix_is_the_key(last: Seq<u8>, next: Seq<u8>)
    requires
        forall|k: int| 0 <= k < last.len() && k < next.len() ==> last[k] == next[k],
    ensures
        table_format::separator_user(last, next) == last,
{
    lemma_shared_all(last, next, 0);
}

proof fn lemma_shared_all(a: Seq<u8>, b: Seq<u8>, from: nat)
    requires
        from <= a.len(),
        from <= b.len(),
        forall|k: int| 0 <= k < a.len() && k < b.len() ==> a[k] == b[k],
    ensures
        block_builder::shared_from(a, b, from) == a.len() || block_builder::shared_from(a, b, from)
            == b.len(),
    decreases a.len() - from,
{
    if from < a.len() && from < b.len() {
        lemma_shared_all(a, b, from + 1);
    }
}

// ---- entries of a block ----
/// The prefix that an entry leaves out is the longest that its key has in common with the one
/// before it: the two differ right after it, or one of them ends.
pub proof fn longest_prefix_is_left_out(a: Seq<u8>, b: Seq<u8>)
    ensures
        ({
            let n = block_builder::shared_prefix(a, b) as int;
            &&& n <= a.len() && n <= b.len()
            &&& a.subrange(0, n) == b.subrange(0, n)
            &&& n < a.len() && n < b.len() ==> a[n] != b[n]
        }),
{
    block_builder::shared_prefix_agrees(a, b, 0);
    lemma_shared_ends(a, b, 0);
    let n = block_builder::shared_prefix(a, b) as int;
    assert(a.subrange(0, n) =~= b.subrange(0, n));
}

proof fn lemma_shared_ends(a: Seq<u8>, b: Seq<u8>, from: nat)
    ensures
        ({
            let n = block_builder::shared_from(a, b, from) as int;
            n < a.len() && n < b.len() ==> a[n] != b[n]
        }),
    decreases a.len() - from,
{
    if from < a.len() && from < b.len() && a[from as int] == b[from as int] {
        lemma_shared_ends(a, b, from + 1);
    }
}

/// Every sixteenth entry of a block is followed by a restart point: what is then written is
/// written in full, and where it begins is noted in four bytes, in that order.
pub proof fn restart_points_come_every_sixteen(entries: Seq<KeyValue>)
    ensures
        ({
            let state = block_builder::built(entries);
            let n = entries.len() as int;
            &&& state.restarts.len() == 4 * (n / 16)
            &&& forall|key: Seq<u8>|
                n % 16 == 0 ==> #[trigger] block_builder::next_shared(state, key) == 0
            &&& forall|key: Seq<u8>|
                n % 16 != 0 ==> #[trigger] block_builder::next_shared(state, key)
                    == block_builder::shared_prefix(entries.last().key, key)
            &&& state.counter == n % 16
        }),
    decreases entries.len(),
{
    if entries.len() > 0 {
        let before = entries.drop_last();
        restart_points_come_every_sixteen(before);
        let state = block_builder::built(before);
        let buffer = state.buffer + block_builder::entry_bytes(
            block_builder::next_shared(state, entries.last().key),
            entries.last().key,
            entries.last().value,
        );
        fixed::le_bytes_len(buffer.len(), 4);
    }
}

/// Restart point `j` tells where the entries after the first `16 * (j + 1)` begin.
pub proof fn restart_point_tells_its_place(entries: Seq<KeyValue>, j: int)
    requires
        0 <= j,
        16 * (j + 1) <= entries.len(),
        block_builder::built(entries).buffer.len() <= u32::MAX,
    ensures
        fixed::le_value(block_builder::built(entries).restarts.subrange(4 * j, 4 * j + 4))
            == block_builder::built(entries.subrange(0, 16 * (j + 1))).buffer.len(),
    decreases entries.len(),
{
    let before = entries.drop_last();
    let state = block_builder::built(entries);
    let earlier = block_builder::built(before);
    restart_points_come_every_sixteen(before);
    restart_points_come_every_sixteen(entries);
    if entries.len() == 16 * (j + 1) {
        assert(entries.subrange(0, 16 * (j + 1)) =~= entries);
        fixed::byte_range_values();
        fixed::le_round_trip(state.buffer.len(), 4);
        fixed::le_bytes_len(state.buffer.len(), 4);
        assert(state.restarts.subrange(4 * j, 4 * j + 4) =~= fixed::le_bytes(
            state.buffer.len(),
            4,
        ));
    } else {
        restart_point_tells_its_place(before, j);
        assert(before.subrange(0, 16 * (j + 1)) =~= entries.subrange(0, 16 * (j + 1)));
        assert(state.restarts.subrange(4 * j, 4 * j + 4) =~= earlier.restarts.subrange(
            4 * j,
            4 * j + 4,
        ));
    }
}

// ---- filters ----
/// The filter of every block is of 1024 bytes, however many keys it takes.
pub proof fn filters_are_of_one_size(block: Seq<KeyValue>, prefix_len: nat)
    ensures
        table_format::partition(block, prefix_len).len() == 1024,
{
    bloom_builder::filter_len(1024, table_format::lookup_keys(block, prefix_len));
}

/// Filters take the first bytes of user keys, as many as the prefix length; all of a user key
/// that has no more, and of every one where the prefix length is zero.
pub proof fn filters_take_the_first_bytes(user_key: Seq<u8>, prefix_len: nat)
    ensures
        ({
            let part = bloom::lookup_part(user_key, prefix_len);
            &&& part == user_key.subrange(0, part.len() as int)
            &&& part.len() == if prefix_len == 0 || user_key.len() <= prefix_len {
                user_key.len()
            } else {
                prefix_len
            }
        }),
{
    assert(user_key =~= user_key.subrange(0, user_key.len() as int));
}

/// User keys with the same first bytes, as many as the prefix length, are admitted alike.
pub proof fn keys_with_one_prefix_are_admitted_alike(
    filter: Seq<u8>,
    a: Seq<u8>,
    b: Seq<u8>,
    prefix_len: nat,
)
    requires
        0 < prefix_len <= a.len(),
        prefix_len <= b.len(),
        a.subrange(0, prefix_len as int) == b.subrange(0, prefix_len as int),
    ensures
        bloom_builder::admits(filter, bloom::lookup_part(a, prefix_len)) == bloom_builder::admits(
            filter,
            bloom::lookup_part(b, prefix_len),
        ),
{
    assert(a.subrange(0, a.len() as int) =~= a);
    assert(b.subrange(0, b.len() as int) =~= b);
}

/// Of a prefix length what fits into sixteen bits counts, and the largest such number where it
/// does not.
pub proof fn prefix_length_is_capped(prefix_len: nat, kind: SstableBlockCompression)
    ensures
        builder::fresh(prefix_len, kind).prefix_len <= 65535,
        prefix_len <= 65535 ==> builder::fresh(prefix_len, kind).prefix_len == prefix_len,
        prefix_len > 65535 ==> builder::fresh(prefix_len, kind).prefix_len == 65535,
        builder::fresh(prefix_len, kind).compression == kind,
        builder::fresh(prefix_len, kind).entries.len() == 0,
        !builder::fresh(prefix_len, kind).finished,
{
}

// ---- compressed blocks ----
/// Only a block that is to be compressed can be too large: its length must fit into 32 bits.
pub proof fn length_must_be_told_in_four_bytes(kind: SstableBlockCompression, content: Seq<u8>)
    ensures
        builder::too_large(kind, content) <==> kind == SstableBlockCompression::Rle
            && content.len() >= 0x1_0000_0000,
{
}

/// A block that is stored compressed tells how: its first byte is the tag of the compression,
/// the next four its length, and what follows gives the block back. It is stored compressed only
/// where that is shorter. A block that is not to be compressed is stored as it is.
pub proof fn stored_block_gives_its_content_back(kind: SstableBlockCompression, content: Seq<u8>)
    requires
        content.len() <= u32::MAX,
    ensures
        ({
            let stored = table_format::payload(kind, content);
            let packed = stored.subrange(5, stored.len() as int);
            if kind == SstableBlockCompression::Uncompressed {
                stored == content
            } else {
                &&& 5 <= stored.len() <= content.len() + 5
                &&& fixed::le_value(stored.subrange(1, 5)) == content.len()
                &&& compression::kind_of_tag(stored[0]) matches Ok(found)
                    && compression::decompressed(found, packed, content.len()) == Ok::<
                    Seq<u8>,
                    CompressionError,
                >(content)
                &&& packed.len() < content.len() <==> packed == compression::compressed(
                    kind,
                    content,
                ) && compression::kind_of_tag(stored[0]) == Ok::<
                    SstableBlockCompression,
                    CompressionError,
                >(kind)
            }
        }),
{
    if kind != SstableBlockCompression::Uncompressed {
        let stored = table_format::payload(kind, content);
        let coded = compression::compressed(kind, content);
        fixed::byte_range_values();
        fixed::le_round_trip(content.len(), 4);
        compression::compression_round_trip(kind, content);
        compression::tag_round_trip(kind);
        compression::tag_round_trip(SstableBlockCompression::Uncompressed);
        assert(stored.subrange(1, 5) =~= fixed::le_bytes(content.len(), 4));
        if coded.len() < content.len() {
            assert(stored.subrange(5, stored.len() as int) =~= coded);
        } else {
            assert(stored.subrange(5, stored.len() as int) =~= content);
        }
    }
}

} // verus!
