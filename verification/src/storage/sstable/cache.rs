//! What is kept of tables between reads: open tables, data blocks, filter partitions, and
//! the results of lookups.

use std::sync::Arc;
use vstd::prelude::*;

use crate::error::TableReadError;
use crate::format::internal_key::{InternalKey, KeyView};
use crate::format::order::same_bytes;
use crate::format::shared;
use crate::format::shared::{share_again, shared_slice};
use crate::format::slices::copy_bytes;
use crate::storage::bloom_builder::BloomFilter;
use crate::storage::sstable::clock::CacheEntry;
use crate::storage::sstable::read_caches::ReadCaches;
use crate::storage::sstable::reader;
use crate::storage::sstable::reader::{PinnedValue, SSTableReader, SSTableScanIterator};
use crate::storage::sstable::sharded;
use crate::storage::sstable::sharded::{shard_count_for_bytes, Parts, ShardedClock};
use crate::storage::sstable::table_reading;
use crate::utils::cache_key::CacheKey;

verus! {

/// The largest number of parts of any of the caches.
pub const MAX_SHARDS: usize = 16;

/// How many bytes a part of a cache has at least.
pub const MIN_BYTES_PER_SHARD: usize = 65536;

/// What the caches have counted.
#[derive(Debug, Clone, Copy, PartialEq, Eq, Structural)]
pub struct ReadCacheMetrics {
    /// Tables that were open.
    pub table_hits: u64,
    /// Tables that were not.
    pub table_misses: u64,
    /// Tables that were evicted.
    pub table_evictions: u64,
    /// Results that were there.
    pub row_hits: u64,
    /// Results that were not.
    pub row_misses: u64,
    /// Results that were evicted.
    pub row_evictions: u64,
    /// Blocks that were there.
    pub block_hits: u64,
    /// Blocks that were not.
    pub block_misses: u64,
    /// Blocks that were evicted.
    pub block_evictions: u64,
    /// Filter partitions that were there.
    pub filter_hits: u64,
    /// Filter partitions that were not.
    pub filter_misses: u64,
    /// Filter partitions that were evicted.
    pub filter_evictions: u64,
}

impl Default for ReadCacheMetrics {
    fn default() -> (r: Self)
        ensures
            r == (ReadCacheMetrics {
                table_hits: 0,
                table_misses: 0,
                table_evictions: 0,
                row_hits: 0,
                row_misses: 0,
                row_evictions: 0,
                block_hits: 0,
                block_misses: 0,
                block_evictions: 0,
                filter_hits: 0,
                filter_misses: 0,
                filter_evictions: 0,
            }),
    {
        ReadCacheMetrics {
            table_hits: 0,
            table_misses: 0,
            table_evictions: 0,
            row_hits: 0,
            row_misses: 0,
            row_evictions: 0,
            block_hits: 0,
            block_misses: 0,
            block_evictions: 0,
            filter_hits: 0,
            filter_misses: 0,
            filter_evictions: 0,
        }
    }
}

/// The low 64 bits of a product.
pub open spec fn product(a: u64, b: u64) -> u64 {
    ((a * b) % 0x1_0000_0000_0000_0000) as u64
}

/// The bits of a number turned round by `n` places.
pub open spec fn turned(x: u64, n: u64) -> u64 {
    (x << n) | (x >> ((64 - n) as u64))
}

fn rotate(x: u64, n: u64) -> (r: u64)
    requires
        0 < n < 64,
    ensures
        r == turned(x, n),
{
    (x << n) | (x >> (64 - n))
}

fn times(a: u64, b: u64) -> (r: u64)
    ensures
        r == product(a, b),
{
    a.wrapping_mul(b)
}

/// The last step of mixing the bits of a hash.
pub open spec fn finished(x: u64) -> u64 {
    let y = product(x ^ (x >> 33), 0xFF51_AFD7_ED55_8CCD);
    y ^ (y >> 33)
}

fn finish(x: u64) -> (r: u64)
    ensures
        r == finished(x),
{
    let y: u64 = times(x ^ (x >> 33), 0xFF51_AFD7_ED55_8CCD);
    y ^ (y >> 33)
}

/// The key of a lookup: a user key, as of a sequence number, in a version of the tables.
#[derive(Debug)]
pub struct RowCacheKey {
    version_seqno: u64,
    read_seq: u64,
    user_key: Vec<u8>,
}

/// The key of a lookup, seen as plain values.
#[verifier::ext_equal]
pub struct RowKeyView {
    /// The version of the tables.
    pub version_seqno: u64,
    /// The sequence number.
    pub read_seq: u64,
    /// The user key.
    pub user_key: Seq<u8>,
}

impl View for RowCacheKey {
    type V = RowKeyView;

    closed spec fn view(&self) -> RowKeyView {
        RowKeyView {
            version_seqno: self.version_seqno,
            read_seq: self.read_seq,
            user_key: self.user_key@,
        }
    }
}

/// A hash with bytes mixed in, one after the other.
pub open spec fn mixed_in(hash: u64, bytes: Seq<u8>) -> u64
    decreases bytes.len(),
{
    if bytes.len() == 0 {
        hash
    } else {
        product(mixed_in(hash, bytes.drop_last()) ^ (bytes.last() as u64), 0x1000_0000_01b3)
    }
}

impl RowCacheKey {
    /// The key of a lookup.
    pub fn new(version_seqno: u64, read_seq: u64, user_key: &[u8]) -> (r: RowCacheKey)
        ensures
            r@ == (RowKeyView { version_seqno, read_seq, user_key: user_key@ }),
    {
        RowCacheKey { version_seqno, read_seq, user_key: copy_bytes(user_key) }
    }
}

impl CacheKey for RowCacheKey {
    open spec fn hash_of(key: RowKeyView) -> u64 {
        mixed_in(
            (0xcbf2_9ce4_8422_2325u64 ^ turned(key.version_seqno, 17)) ^ product(
                key.read_seq,
                0x9E37_79B9_7F4A_7C15,
            ),
            key.user_key,
        )
    }

    fn same_key(&self, other: &RowCacheKey) -> (r: bool) {
        let same = self.version_seqno == other.version_seqno && self.read_seq == other.read_seq
            && same_bytes(self.user_key.as_slice(), other.user_key.as_slice());
        assert(same ==> self@ =~= other@);
        same
    }

    fn shard_hash(&self) -> (r: u64) {
        let start: u64 = (0xcbf2_9ce4_8422_2325u64 ^ rotate(self.version_seqno, 17)) ^ times(
            self.read_seq,
            0x9E37_79B9_7F4A_7C15,
        );
        let mut hash: u64 = start;
        let mut i: usize = 0;
        while i < self.user_key.len()
            invariant
                i <= self.user_key@.len(),
                hash == mixed_in(start, self.user_key@.subrange(0, i as int)),
            decreases self.user_key.len() - i,
        {
            proof {
                let longer = self.user_key@.subrange(0, i + 1);
                assert(longer.drop_last() =~= self.user_key@.subrange(0, i as int));
                assert(longer.last() == self.user_key@[i as int]);
            }
            hash = times(hash ^ (self.user_key[i] as u64), 0x1000_0000_01b3);
            i = i + 1;
        }
        assert(self.user_key@.subrange(0, self.user_key@.len() as int) =~= self.user_key@);
        hash
    }
}

/// The key of a data block: its table, and where it lies there.
#[derive(Debug, Clone, Copy)]
pub struct BlockCacheKey {
    file_id: u64,
    block_offset: u64,
    block_size: u64,
}

/// The key of a data block, seen as plain values.
pub struct BlockKeyView {
    /// The number of the table.
    pub file_id: u64,
    /// Where the block starts.
    pub offset: u64,
    /// How many bytes it is.
    pub size: u64,
}

impl View for BlockCacheKey {
    type V = BlockKeyView;

    closed spec fn view(&self) -> BlockKeyView {
        BlockKeyView { file_id: self.file_id, offset: self.block_offset, size: self.block_size }
    }
}

impl BlockCacheKey {
    /// The key of a data block.
    pub fn new(file_id: u64, block_offset: u64, block_size: u64) -> (r: BlockCacheKey)
        ensures
            r@ == (BlockKeyView { file_id, offset: block_offset, size: block_size }),
    {
        BlockCacheKey { file_id, block_offset, block_size }
    }
}

impl CacheKey for BlockCacheKey {
    open spec fn hash_of(key: BlockKeyView) -> u64 {
        finished(
            (turned(key.file_id, 17) ^ product(key.offset, 0x9E37_79B9_7F4A_7C15)) ^ turned(
                key.size,
                9,
            ),
        )
    }

    fn same_key(&self, other: &BlockCacheKey) -> (r: bool) {
        self.file_id == other.file_id && self.block_offset == other.block_offset
            && self.block_size == other.block_size
    }

    fn shard_hash(&self) -> (r: u64) {
        finish(
            (rotate(self.file_id, 17) ^ times(self.block_offset, 0x9E37_79B9_7F4A_7C15)) ^ rotate(
                self.block_size,
                9,
            ),
        )
    }
}

/// The key of a filter partition: its table, and the number of its block there.
#[derive(Debug, Clone, Copy)]
pub struct FilterPartitionCacheKey {
    file_id: u64,
    block_index: u64,
}

/// The key of a filter partition, seen as plain values.
pub struct FilterKeyView {
    /// The number of the table.
    pub file_id: u64,
    /// The number of the block.
    pub block: u64,
}

impl View for FilterPartitionCacheKey {
    type V = FilterKeyView;

    closed spec fn view(&self) -> FilterKeyView {
        FilterKeyView { file_id: self.file_id, block: self.block_index }
    }
}

impl FilterPartitionCacheKey {
    /// The key of a filter partition.
    pub fn new(file_id: u64, block_index: usize) -> (r: FilterPartitionCacheKey)
        ensures
            r@ == (FilterKeyView { file_id, block: block_index as u64 }),
    {
        FilterPartitionCacheKey { file_id, block_index: block_index as u64 }
    }
}

impl CacheKey for FilterPartitionCacheKey {
    open spec fn hash_of(key: FilterKeyView) -> u64 {
        finished(turned(key.file_id, 19) ^ product(key.block, 0x9E37_79B9_7F4A_7C15))
    }

    fn same_key(&self, other: &FilterPartitionCacheKey) -> (r: bool) {
        self.file_id == other.file_id && self.block_index == other.block_index
    }

    fn shard_hash(&self) -> (r: u64) {
        finish(rotate(self.file_id, 19) ^ times(self.block_index, 0x9E37_79B9_7F4A_7C15))
    }
}

/// The result of a lookup.
#[derive(Debug)]
pub enum RowCacheValue {
    /// A version was found.
    Hit {
        /// Its key.
        internal_key: InternalKey,
        /// Its value.
        value: bytes::Bytes,
    },
    /// None was found.
    Miss,
}

/// The result of a lookup, seen as plain values.
#[verifier::ext_equal]
pub enum RowView {
    /// A version was found: its key and its value.
    Hit(KeyView, Seq<u8>),
    /// None was found.
    Miss,
}

impl View for RowCacheValue {
    type V = RowView;

    open spec fn view(&self) -> RowView {
        match *self {
            RowCacheValue::Hit { internal_key, value } => RowView::Hit(
                internal_key@,
                shared::shared_content(value),
            ),
            RowCacheValue::Miss => RowView::Miss,
        }
    }
}

impl Clone for RowCacheValue {
    fn clone(&self) -> (r: Self)
        ensures
            r@ == self@,
    {
        match self {
            RowCacheValue::Hit { internal_key, value } => RowCacheValue::Hit {
                internal_key: internal_key.clone(),
                value: share_again(value),
            },
            RowCacheValue::Miss => RowCacheValue::Miss,
        }
    }
}

/// The number, or the largest of its width.
pub open spec fn at_most_usize(n: int) -> usize {
    if n > usize::MAX {
        usize::MAX
    } else {
        n as usize
    }
}

/// How many bytes a result counts as: those of its key and value, and eight for the
/// sequence number.
pub open spec fn row_bytes(row: RowView) -> usize {
    match row {
        RowView::Hit(key, value) => at_most_usize((key.user_key.len() + 8 + value.len()) as int),
        RowView::Miss => 0,
    }
}

impl RowCacheValue {
    fn estimated_bytes(&self) -> (r: usize)
        ensures
            r == row_bytes(self@),
    {
        match self {
            RowCacheValue::Hit { internal_key, value } => {
                let key_len: usize = internal_key.user_key().len();
                key_len.saturating_add(8).saturating_add(shared_slice(value).len())
            },
            RowCacheValue::Miss => 0,
        }
    }
}

/// A cache of lookups.
#[derive(Debug)]
pub struct RowCache {
    inner: ShardedClock<RowCacheKey, RowCacheValue>,
}

/// How many bytes an entry of the cache counts as: those of the user key, those of the
/// result, and those of the entry itself.
pub open spec fn row_entry_bytes(user_key: Seq<u8>, row: RowView) -> usize {
    at_most_usize(
        at_most_usize(user_key.len() + row_bytes(row)) + vstd::layout::size_of_as_usize::<
            CacheEntry<RowCacheValue>,
        >(),
    )
}

/// The part counts of caches of so many bytes.
pub open spec fn parts_for(capacity: usize) -> nat {
    let n = capacity / MIN_BYTES_PER_SHARD;
    if n == 0 {
        1
    } else if n > MAX_SHARDS {
        MAX_SHARDS as nat
    } else {
        n as nat
    }
}

/// A cache of this capacity, in so many parts, without entries.
pub open spec fn fresh_cache<KV, V>(capacity: usize, parts: nat) -> Parts<KV, V> {
    Parts {
        capacity: capacity as nat,
        parts: sharded::fresh_parts(parts),
        shares: sharded::shares(capacity as nat, parts),
        hits: 0,
        misses: 0,
        evictions: 0,
    }
}

impl View for RowCache {
    type V = Parts<RowKeyView, RowCacheValue>;

    closed spec fn view(&self) -> Parts<RowKeyView, RowCacheValue> {
        self.inner@
    }
}

impl RowCache {
    /// The parts are well-formed.
    pub closed spec fn wf(&self) -> bool {
        self.inner.wf()
    }

    /// What the cache has counted: hits, misses, evictions.
    pub fn counts(&self) -> (r: (u64, u64, u64))
        ensures
            r == (self@.hits, self@.misses, self@.evictions),
    {
        (self.inner.hits(), self.inner.misses(), self.inner.evictions())
    }

    /// A cache of so many bytes.
    pub fn new(capacity_bytes: usize) -> (r: RowCache)
        ensures
            r.wf(),
            r@ == fresh_cache::<RowKeyView, RowCacheValue>(
                capacity_bytes,
                parts_for(capacity_bytes),
            ),
    {
        let count: usize = shard_count_for_bytes(capacity_bytes, MIN_BYTES_PER_SHARD, MAX_SHARDS);
        RowCache { inner: ShardedClock::new(capacity_bytes, count) }
    }

    /// The result of a lookup, where it is there.
    pub fn get(&mut self, version_seqno: u64, read_seq: u64, user_key: &[u8]) -> (r: Option<
        RowCacheValue,
    >)
        requires
            old(self).wf(),
        ensures
            final(self).wf(),
            ({
                let key = RowKeyView { version_seqno, read_seq, user_key: user_key@ };
                let hash = <RowCacheKey as CacheKey>::hash_of(key);
                &&& final(self)@ == old(self)@.asked(key, hash)
                &&& match old(self)@.lookup(key, hash) {
                    Some(value) => r is Some && r->Some_0@ == value@,
                    None => r is None,
                }
            }),
    {
        let key = RowCacheKey::new(version_seqno, read_seq, user_key);
        match self.inner.get(&key) {
            Some(value) => Some(value.clone()),
            None => None,
        }
    }

    /// Keeps the result of a lookup.
    pub fn insert(
        &mut self,
        version_seqno: u64,
        read_seq: u64,
        user_key: &[u8],
        value: RowCacheValue,
    )
        requires
            old(self).wf(),
        ensures
            final(self).wf(),
            ({
                let key = RowKeyView { version_seqno, read_seq, user_key: user_key@ };
                final(self)@ == old(self)@.stored(
                    key,
                    <RowCacheKey as CacheKey>::hash_of(key),
                    value,
                    row_entry_bytes(user_key@, value@) as nat,
                )
            }),
    {
        let key = RowCacheKey::new(version_seqno, read_seq, user_key);
        let entry_size: usize = core::mem::size_of::<CacheEntry<RowCacheValue>>();
        let bytes: usize = user_key.len().saturating_add(
            value.estimated_bytes(),
        ).saturating_add(entry_size);
        self.inner.insert(key, value, bytes);
    }
}

/// A cache of data blocks.
#[derive(Debug)]
pub struct BlockCache {
    inner: ShardedClock<BlockCacheKey, Arc<Vec<u8>>>,
}

impl View for BlockCache {
    type V = Parts<BlockKeyView, Arc<Vec<u8>>>;

    closed spec fn view(&self) -> Parts<BlockKeyView, Arc<Vec<u8>>> {
        self.inner@
    }
}

impl BlockCache {
    /// The parts are well-formed.
    pub closed spec fn wf(&self) -> bool {
        self.inner.wf()
    }

    /// What the cache has counted: hits, misses, evictions.
    pub fn counts(&self) -> (r: (u64, u64, u64))
        ensures
            r == (self@.hits, self@.misses, self@.evictions),
    {
        (self.inner.hits(), self.inner.misses(), self.inner.evictions())
    }

    /// The parts are well-formed.
    pub(crate) proof fn lemma_wf(&self)
        requires
            self.wf(),
        ensures
            self@.inv(),
    {
        self.inner.lemma_wf();
    }

    /// The block that is there for a key.
    pub open spec fn block(&self, key: BlockKeyView) -> Option<Seq<u8>> {
        match self@.lookup(key, <BlockCacheKey as CacheKey>::hash_of(key)) {
            Some(payload) => Some((*payload)@),
            None => None,
        }
    }

    /// A cache of so many bytes.
    pub fn new(capacity_bytes: usize) -> (r: BlockCache)
        ensures
            r.wf(),
            r@ == fresh_cache::<BlockKeyView, Arc<Vec<u8>>>(
                capacity_bytes,
                parts_for(capacity_bytes),
            ),
    {
        let count: usize = shard_count_for_bytes(capacity_bytes, MIN_BYTES_PER_SHARD, MAX_SHARDS);
        BlockCache { inner: ShardedClock::new(capacity_bytes, count) }
    }

    /// A data block, where it is there.
    pub fn get(&mut self, key: &BlockCacheKey) -> (r: Option<Arc<Vec<u8>>>)
        requires
            old(self).wf(),
        ensures
            final(self).wf(),
            final(self)@ == old(self)@.asked(key@, <BlockCacheKey as CacheKey>::hash_of(key@)),
            r == old(self)@.lookup(key@, <BlockCacheKey as CacheKey>::hash_of(key@)),
    {
        match self.inner.get(key) {
            Some(payload) => Some(payload.clone()),
            None => None,
        }
    }

    /// Keeps a data block, and hands it back.
    pub fn insert(&mut self, key: BlockCacheKey, payload: Vec<u8>) -> (r: Arc<Vec<u8>>)
        requires
            old(self).wf(),
        ensures
            final(self).wf(),
            *r == payload,
            final(self)@ == old(self)@.stored(
                key@,
                <BlockCacheKey as CacheKey>::hash_of(key@),
                r,
                payload@.len(),
            ),
    {
        let bytes: usize = payload.len();
        let payload = Arc::new(payload);
        self.inner.insert(key, payload.clone(), bytes);
        payload
    }
}

/// A cache of filter partitions.
#[derive(Debug)]
pub struct FilterPartitionCache {
    inner: ShardedClock<FilterPartitionCacheKey, Arc<BloomFilter>>,
}

impl View for FilterPartitionCache {
    type V = Parts<FilterKeyView, Arc<BloomFilter>>;

    closed spec fn view(&self) -> Parts<FilterKeyView, Arc<BloomFilter>> {
        self.inner@
    }
}

impl FilterPartitionCache {
    /// The parts are well-formed.
    pub closed spec fn wf(&self) -> bool {
        self.inner.wf()
    }

    /// What the cache has counted: hits, misses, evictions.
    pub fn counts(&self) -> (r: (u64, u64, u64))
        ensures
            r == (self@.hits, self@.misses, self@.evictions),
    {
        (self.inner.hits(), self.inner.misses(), self.inner.evictions())
    }

    /// The parts are well-formed.
    pub(crate) proof fn lemma_wf(&self)
        requires
            self.wf(),
        ensures
            self@.inv(),
    {
        self.inner.lemma_wf();
    }

    /// The filter that is there for a key.
    pub open spec fn filter(&self, key: FilterKeyView) -> Option<Seq<u8>> {
        match self@.lookup(key, <FilterPartitionCacheKey as CacheKey>::hash_of(key)) {
            Some(filter) => Some((*filter)@),
            None => None,
        }
    }

    /// A cache of so many bytes.
    pub fn new(capacity_bytes: usize) -> (r: FilterPartitionCache)
        ensures
            r.wf(),
            r@ == fresh_cache::<FilterKeyView, Arc<BloomFilter>>(
                capacity_bytes,
                parts_for(capacity_bytes),
            ),
    {
        let count: usize = shard_count_for_bytes(capacity_bytes, MIN_BYTES_PER_SHARD, MAX_SHARDS);
        FilterPartitionCache { inner: ShardedClock::new(capacity_bytes, count) }
    }

    /// A filter partition, where it is there.
    pub fn get(&mut self, key: &FilterPartitionCacheKey) -> (r: Option<Arc<BloomFilter>>)
        requires
            old(self).wf(),
        ensures
            final(self).wf(),
            final(self)@ == old(self)@.asked(
                key@,
                <FilterPartitionCacheKey as CacheKey>::hash_of(key@),
            ),
            r == old(self)@.lookup(key@, <FilterPartitionCacheKey as CacheKey>::hash_of(key@)),
    {
        match self.inner.get(key) {
            Some(filter) => Some(filter.clone()),
            None => None,
        }
    }

    /// Keeps a filter partition, and hands it back.
    pub fn insert(&mut self, key: FilterPartitionCacheKey, filter: BloomFilter) -> (r: Arc<
        BloomFilter,
    >)
        requires
            old(self).wf(),
        ensures
            final(self).wf(),
            *r == filter,
            final(self)@ == old(self)@.stored(
                key@,
                <FilterPartitionCacheKey as CacheKey>::hash_of(key@),
                r,
                filter@.len(),
            ),
    {
        let bytes: usize = filter.size();
        let filter = Arc::new(filter);
        self.inner.insert(key, filter.clone(), bytes);
        filter
    }
}

/// How many parts a cache of so many tables has.
pub open spec fn table_parts(capacity: usize) -> nat {
    if capacity == 0 {
        1
    } else if capacity > MAX_SHARDS {
        MAX_SHARDS as nat
    } else {
        capacity as nat
    }
}

/// The open tables and the caches that their reads share.
#[derive(Debug)]
pub struct TableCache<R> {
    tables: ShardedClock<u64, Arc<R>>,
    rows: RowCache,
    caches: ReadCaches,
}

impl<R> TableCache<R> {
    /// The open tables.
    pub closed spec fn tables(&self) -> Parts<u64, Arc<R>> {
        self.tables@
    }

    /// The results of lookups.
    pub closed spec fn rows(&self) -> Parts<RowKeyView, RowCacheValue> {
        self.rows@
    }

    /// The caches that reads share.
    pub closed spec fn caches(&self) -> ReadCaches {
        self.caches
    }

    /// The caches are well-formed.
    pub closed spec fn wf(&self) -> bool {
        &&& self.tables.wf()
        &&& self.rows.wf()
        &&& self.caches.wf()
    }

    /// Caches of so many tables and so many bytes.
    pub fn new(
        capacity: usize,
        block_cache_capacity_bytes: usize,
        row_cache_capacity_bytes: usize,
        filter_cache_capacity_bytes: usize,
    ) -> (r: Self)
        ensures
            r.wf(),
            r.tables() == fresh_cache::<u64, Arc<R>>(capacity, table_parts(capacity)),
            r.rows() == fresh_cache::<RowKeyView, RowCacheValue>(
                row_cache_capacity_bytes,
                parts_for(row_cache_capacity_bytes),
            ),
            r.caches().wf(),
            r.caches().block_model() == Some(
                fresh_cache::<BlockKeyView, Arc<Vec<u8>>>(
                    block_cache_capacity_bytes,
                    parts_for(block_cache_capacity_bytes),
                ),
            ),
            r.caches().filter_model() == Some(
                fresh_cache::<FilterKeyView, Arc<BloomFilter>>(
                    filter_cache_capacity_bytes,
                    parts_for(filter_cache_capacity_bytes),
                ),
            ),
            forall|id: u64, file: Seq<u8>, table: table_reading::TableSpec|
                #[trigger] r.caches().serves(id, file, table),
    {
        let count: usize = if capacity == 0 {
            1
        } else if capacity > MAX_SHARDS {
            MAX_SHARDS
        } else {
            capacity
        };
        TableCache {
            tables: ShardedClock::new(capacity, count),
            rows: RowCache::new(row_cache_capacity_bytes),
            caches: ReadCaches::new(block_cache_capacity_bytes, filter_cache_capacity_bytes),
        }
    }

    /// Table `file_id`, where it is open.
    pub fn lookup(&mut self, file_id: u64) -> (r: Option<Arc<R>>)
        requires
            old(self).wf(),
        ensures
            final(self).wf(),
            final(self).tables() == old(self).tables().asked(file_id, file_id),
            final(self).rows() == old(self).rows(),
            final(self).caches() == old(self).caches(),
            r == old(self).tables().lookup(file_id, file_id),
    {
        match self.tables.get(&file_id) {
            Some(reader) => Some(reader.clone()),
            None => None,
        }
    }

    /// Table `file_id` was opened: keeps it and hands it back, or hands back the one that
    /// is there already.
    pub fn take_in(&mut self, file_id: u64, opened: Arc<R>) -> (r: Arc<R>)
        requires
            old(self).wf(),
        ensures
            final(self).wf(),
            final(self).rows() == old(self).rows(),
            final(self).caches() == old(self).caches(),
            match old(self).tables().lookup(file_id, file_id) {
                Some(reader) => r == reader && final(self).tables() == old(self).tables().asked(
                    file_id,
                    file_id,
                ),
                None => r == opened && final(self).tables() == old(self).tables().stored(
                    file_id,
                    file_id,
                    opened,
                    1,
                ),
            },
    {
        if self.tables.peek(&file_id).is_some() {
            if let Some(reader) = self.tables.get(&file_id) {
                return reader.clone();
            }
        }
        self.tables.insert(file_id, opened.clone(), 1);
        opened
    }

    /// The result of a lookup, where it is there.
    pub fn row_cache_get(&mut self, version_seqno: u64, read_seq: u64, user_key: &[u8]) -> (r:
        Option<RowCacheValue>)
        requires
            old(self).wf(),
        ensures
            final(self).wf(),
            final(self).tables() == old(self).tables(),
            final(self).caches() == old(self).caches(),
            ({
                let key = RowKeyView { version_seqno, read_seq, user_key: user_key@ };
                let hash = <RowCacheKey as CacheKey>::hash_of(key);
                &&& final(self).rows() == old(self).rows().asked(key, hash)
                &&& match old(self).rows().lookup(key, hash) {
                    Some(value) => r is Some && r->Some_0@ == value@,
                    None => r is None,
                }
            }),
    {
        self.rows.get(version_seqno, read_seq, user_key)
    }

    /// Keeps the result of a lookup.
    pub fn row_cache_insert(
        &mut self,
        version_seqno: u64,
        read_seq: u64,
        user_key: &[u8],
        value: RowCacheValue,
    )
        requires
            old(self).wf(),
        ensures
            final(self).wf(),
            final(self).tables() == old(self).tables(),
            final(self).caches() == old(self).caches(),
            ({
                let key = RowKeyView { version_seqno, read_seq, user_key: user_key@ };
                final(self).rows() == old(self).rows().stored(
                    key,
                    <RowCacheKey as CacheKey>::hash_of(key),
                    value,
                    row_entry_bytes(user_key@, value@) as nat,
                )
            }),
    {
        self.rows.insert(version_seqno, read_seq, user_key, value);
    }

    /// What the caches have counted.
    pub fn metrics(&self) -> (r: ReadCacheMetrics)
        ensures
            r.table_hits == self.tables().hits,
            r.table_misses == self.tables().misses,
            r.table_evictions == self.tables().evictions,
            r.row_hits == self.rows().hits,
            r.row_misses == self.rows().misses,
            r.row_evictions == self.rows().evictions,
            (r.block_hits, r.block_misses, r.block_evictions)
                == match self.caches().block_model() {
                Some(model) => (model.hits, model.misses, model.evictions),
                None => (0u64, 0u64, 0u64),
            },
            (r.filter_hits, r.filter_misses, r.filter_evictions)
                == match self.caches().filter_model() {
                Some(model) => (model.hits, model.misses, model.evictions),
                None => (0u64, 0u64, 0u64),
            },
    {
        let row = self.rows.counts();
        let block = self.caches.block_counts();
        let filter = self.caches.filter_counts();
        ReadCacheMetrics {
            table_hits: self.tables.hits(),
            table_misses: self.tables.misses(),
            table_evictions: self.tables.evictions(),
            row_hits: row.0,
            row_misses: row.1,
            row_evictions: row.2,
            block_hits: block.0,
            block_misses: block.1,
            block_evictions: block.2,
            filter_hits: filter.0,
            filter_misses: filter.1,
            filter_evictions: filter.2,
        }
    }

    /// Looks a user key up in a table, through the caches: its newest version.
    pub fn get(&mut self, reader: &mut SSTableReader, key: &[u8]) -> (r: Result<
        Option<(InternalKey, PinnedValue)>,
        TableReadError,
    >)
        requires
            old(self).wf(),
            old(reader).wf(),
            old(reader).served_by(&old(self).caches()),
        ensures
            final(self).wf(),
            final(reader).wf(),
            final(reader).same_table(old(reader)),
            final(reader).read_for(
                old(reader),
                key@,
                table_reading::lookup_end(old(reader).file(), old(reader).table(), key@),
                old(reader).filters_here(&old(self).caches()),
            ),
            final(self).tables() == old(self).tables(),
            final(self).rows() == old(self).rows(),
            final(reader).served_by(&final(self).caches()),
            final(reader).alone_in(&final(self).caches(), &old(self).caches()),
            final(reader).fetched_through(
                &final(self).caches(),
                &old(self).caches(),
                key@,
                table_reading::lookup_end(old(reader).file(), old(reader).table(), key@),
            ),
            match table_reading::lookup(old(reader).file(), old(reader).table(), key@) {
                Ok(h) => r is Ok && reader::pinned_is(r->Ok_0, h),
                Err(e) => r is Err && r->Err_0 == e,
            },
    {
        reader.get_pinned_through(key, &mut self.caches)
    }

    /// Looks a user key up in a table, through the caches, as of `read_seq`: its newest
    /// version that is no newer.
    pub fn get_at_seq(&mut self, reader: &mut SSTableReader, key: &[u8], read_seq: u64) -> (r:
        Result<Option<(InternalKey, PinnedValue)>, TableReadError>)
        requires
            old(self).wf(),
            old(reader).wf(),
            old(reader).served_by(&old(self).caches()),
        ensures
            final(self).wf(),
            final(reader).wf(),
            final(reader).same_table(old(reader)),
            final(reader).read_for(
                old(reader),
                key@,
                table_reading::lookup_at_end(
                    old(reader).file(),
                    old(reader).table(),
                    key@,
                    read_seq,
                ),
                old(reader).filters_here(&old(self).caches()),
            ),
            final(self).tables() == old(self).tables(),
            final(self).rows() == old(self).rows(),
            final(reader).served_by(&final(self).caches()),
            final(reader).alone_in(&final(self).caches(), &old(self).caches()),
            final(reader).fetched_through(
                &final(self).caches(),
                &old(self).caches(),
                key@,
                table_reading::lookup_at_end(
                    old(reader).file(),
                    old(reader).table(),
                    key@,
                    read_seq,
                ),
            ),
            match table_reading::lookup_at(old(reader).file(), old(reader).table(), key@, read_seq) {
                Ok(h) => r is Ok && reader::pinned_is(r->Ok_0, h),
                Err(e) => r is Err && r->Err_0 == e,
            },
    {
        reader.get_pinned_at_seq_through(key, read_seq, &mut self.caches)
    }

    /// All versions of a table, in its order, with blocks fetched through the caches.
    pub fn scan_all(&mut self, reader: &SSTableReader) -> (r: Result<
        Vec<(InternalKey, Vec<u8>)>,
        TableReadError,
    >)
        requires
            old(self).wf(),
            reader.wf(),
            reader.served_by(&old(self).caches()),
        ensures
            final(self).wf(),
            final(self).tables() == old(self).tables(),
            final(self).rows() == old(self).rows(),
            reader.served_by(&final(self).caches()),
            reader.alone_in(&final(self).caches(), &old(self).caches()),
            final(self).caches().fetched(
                &old(self).caches(),
                reader.number(),
                reader.file(),
                reader.table().index,
                table_reading::first_blocks(
                    table_reading::scan_end_from(reader.file(), reader.table().index, 0),
                ),
            ),
            match table_reading::scanned_from(reader.file(), reader.table().index, 0) {
                Ok(hits) => r is Ok && reader::hit_views(r->Ok_0@) == hits,
                Err(e) => r is Err && r->Err_0 == e,
            },
    {
        reader.scan_all_through(&mut self.caches)
    }

    /// A scan of a table that reads block by block, with blocks fetched through the caches.
    pub fn scan_iterator(&mut self, reader: SSTableReader) -> (r: SSTableScanIterator)
        requires
            old(self).wf(),
            reader.wf(),
            reader.served_by(&old(self).caches()),
        ensures
            final(self).wf(),
            final(self).tables() == old(self).tables(),
            final(self).rows() == old(self).rows(),
            r.wf(),
            r.reads_ahead(),
            r.file() == reader.file(),
            r.table() == reader.table(),
            r.number() == reader.number(),
            r.pending().len() == 0,
            r.block() == 0,
            r.readahead() == reader::readahead_for(reader.table().index.len()),
            reader.table().index.len() > 0 ==> !r.holds_block(0),
            r.served_by(&final(self).caches()),
            r.alone_in(&final(self).caches(), &old(self).caches()),
            final(self).caches().fetched(
                &old(self).caches(),
                reader.number(),
                reader.file(),
                reader.table().index,
                table_reading::first_ahead(reader.table().index, r.readahead()),
            ),
    {
        reader.into_scan_iterator_through(&mut self.caches)
    }

    /// The next version of a scan, with blocks fetched through the caches; none at the end.
    pub fn scan_next(&mut self, iter: &mut SSTableScanIterator) -> (r: Result<
        Option<(InternalKey, Vec<u8>)>,
        TableReadError,
    >)
        requires
            old(self).wf(),
            old(iter).wf(),
            old(iter).served_by(&old(self).caches()),
        ensures
            final(self).wf(),
            final(self).tables() == old(self).tables(),
            final(self).rows() == old(self).rows(),
            final(iter).wf(),
            final(iter).reads_ahead(),
            final(iter).same_scan(old(iter)),
            final(iter).came_to(old(iter)),
            final(iter).served_by(&final(self).caches()),
            final(iter).alone_in(&final(self).caches(), &old(self).caches()),
            final(self).caches().fetched(
                &old(self).caches(),
                old(iter).number(),
                old(iter).file(),
                old(iter).index(),
                old(iter).step_fetches(),
            ),
            ({
                let pending = old(iter).pending();
                let step = if pending.len() > 0 {
                    table_reading::ScanStep {
                        result: Ok(Some(pending[0])),
                        pending: pending.subrange(1, pending.len() as int),
                        block: old(iter).block(),
                    }
                } else {
                    table_reading::scan_step(
                        old(iter).file(),
                        old(iter).index(),
                        old(iter).block(),
                    )
                };
                &&& final(iter).pending() == step.pending
                &&& final(iter).block() == step.block
                &&& match step.result {
                    Ok(Some(h)) => r is Ok && r->Ok_0 is Some && r->Ok_0->Some_0.0@ == h.key
                        && r->Ok_0->Some_0.1@ == h.value,
                    Ok(None) => r is Ok && r->Ok_0 is None,
                    Err(e) => r is Err && r->Err_0 == e,
                }
            }),
    {
        iter.next_entry_through(&mut self.caches)
    }
}

impl TableCache<SSTableReader> {
    /// Table `file_id`: the one that is open, or else the one with these bytes, which is
    /// opened and kept.
    pub fn get_or_open(&mut self, file_id: u64, path: &str, file: Vec<u8>) -> (r: Result<
        Arc<SSTableReader>,
        TableReadError,
    >)
        requires
            old(self).wf(),
        ensures
            final(self).wf(),
            final(self).rows() == old(self).rows(),
            final(self).caches() == old(self).caches(),
            ({
                let asked = old(self).tables().asked(file_id, file_id);
                match old(self).tables().lookup(file_id, file_id) {
                    Some(reader) => r is Ok && r->Ok_0 == reader && final(self).tables() == asked,
                    None => match table_reading::opened(file@) {
                        Ok(table) => {
                            &&& r is Ok
                            &&& (*r->Ok_0).wf()
                            &&& (*r->Ok_0).file() == file@
                            &&& (*r->Ok_0).table() == table
                            &&& (*r->Ok_0).path() == path@
                            &&& (*r->Ok_0).number() == Some(file_id)
                            &&& final(self).tables() == asked.stored(file_id, file_id, r->Ok_0, 1)
                        },
                        Err(e) => r is Err && r->Err_0 == e && final(self).tables() == asked,
                    },
                }
            }),
    {
        if let Some(reader) = self.lookup(file_id) {
            return Ok(reader);
        }
        match SSTableReader::open_with_file_id(path, file, file_id) {
            Ok(reader) => Ok(self.take_in(file_id, Arc::new(reader))),
            Err(e) => Err(e),
        }
    }
}

} // verus!
