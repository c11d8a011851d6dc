//! The caches that reads of tables share, and when what they hold is right.

use std::sync::Arc;
use vstd::prelude::*;

use crate::error::TableReadError;
use crate::storage::bloom_builder::BloomFilter;
use crate::storage::sstable::cache;
use crate::storage::sstable::cache::{
    BlockCache, BlockCacheKey, BlockKeyView, FilterKeyView, FilterPartitionCache,
    FilterPartitionCacheKey,
};
use crate::storage::sstable::sharded;
use crate::storage::sstable::sharded::Parts;
use crate::storage::sstable::table_reading;
use crate::storage::sstable::table_reading::{FilterSpec, IndexSpec, TableSpec};
use crate::utils::cache_key::CacheKey;

verus! {

/// The caches that reads of tables share.
#[derive(Debug)]
pub struct ReadCaches {
    blocks: Option<BlockCache>,
    filters: Option<FilterPartitionCache>,
}

/// The data block that lies there.
pub open spec fn block_there(file: Seq<u8>, offset: u64, size: u64) -> Result<
    Seq<u8>,
    TableReadError,
> {
    table_reading::block_payload(
        file,
        IndexSpec { separator: Seq::empty(), block_offset: offset, block_size: size },
    )
}

/// The filter partition of block `j`.
pub open spec fn filter_there(file: Seq<u8>, filter: FilterSpec, j: int) -> Option<Seq<u8>> {
    match filter {
        FilterSpec::Legacy(_) => None,
        FilterSpec::Partitioned { prefix_len, parts } => if 0 <= j < parts.len() {
            Some(file.subrange(parts[j].offset as int, parts[j].offset + parts[j].size))
        } else {
            None
        },
    }
}

/// A data block was fetched through its cache, if there is one: the cache is asked, and
/// keeps what had to be read.
pub open spec fn block_fetched(
    before: Option<Parts<BlockKeyView, Arc<Vec<u8>>>>,
    after: Option<Parts<BlockKeyView, Arc<Vec<u8>>>>,
    key: BlockKeyView,
    there: Result<Seq<u8>, TableReadError>,
) -> bool {
    let hash = <BlockCacheKey as CacheKey>::hash_of(key);
    match before {
        None => after is None,
        Some(model) => match there {
            Ok(payload) => if model.lookup(key, hash) is Some {
                after == Some(model.asked(key, hash))
            } else {
                exists|value: Arc<Vec<u8>>|
                    (*value)@ == payload && after == Some(
                        #[trigger] model.asked(key, hash).stored(key, hash, value, payload.len()),
                    )
            },
            Err(_) => after == Some(model.asked(key, hash)),
        },
    }
}

/// A filter partition was fetched through its cache, if there is one: the cache is asked,
/// and keeps what had to be read.
pub open spec fn filter_fetched(
    before: Option<Parts<FilterKeyView, Arc<BloomFilter>>>,
    after: Option<Parts<FilterKeyView, Arc<BloomFilter>>>,
    key: FilterKeyView,
    bitmap: Seq<u8>,
) -> bool {
    let hash = <FilterPartitionCacheKey as CacheKey>::hash_of(key);
    match before {
        None => after is None,
        Some(model) => if model.lookup(key, hash) is Some {
            after == Some(model.asked(key, hash))
        } else {
            exists|value: Arc<BloomFilter>|
                (*value)@ == bitmap && after == Some(
                    #[trigger] model.asked(key, hash).stored(key, hash, value, bitmap.len()),
                )
        },
    }
}

/// What asking for a user key in block `j` of table `id` does to the cache of data blocks:
/// the block is fetched where its filter admits the key.
pub open spec fn block_visited(
    before: Option<Parts<BlockKeyView, Arc<Vec<u8>>>>,
    after: Option<Parts<BlockKeyView, Arc<Vec<u8>>>>,
    id: u64,
    file: Seq<u8>,
    table: TableSpec,
    user_key: Seq<u8>,
    j: int,
) -> bool {
    if table_reading::block_admits(file, table.filter, user_key, j) {
        let entry = table.index[j];
        block_fetched(
            before,
            after,
            BlockKeyView { file_id: id, offset: entry.block_offset, size: entry.block_size },
            block_there(file, entry.block_offset, entry.block_size),
        )
    } else {
        after == before
    }
}

/// What asking for a user key in block `j` of table `id` does to the cache of filters: the
/// filter of the block is fetched, where it has one.
pub open spec fn filter_visited(
    before: Option<Parts<FilterKeyView, Arc<BloomFilter>>>,
    after: Option<Parts<FilterKeyView, Arc<BloomFilter>>>,
    id: u64,
    file: Seq<u8>,
    filter: FilterSpec,
    j: int,
) -> bool {
    match filter_there(file, filter, j) {
        Some(bitmap) => filter_fetched(
            before,
            after,
            FilterKeyView { file_id: id, block: j as u64 },
            bitmap,
        ),
        None => after == before,
    }
}

/// What asking for a user key in the blocks from `first` on, before `end`, one after the
/// other, does to the cache of data blocks.
pub open spec fn blocks_walked(
    before: Option<Parts<BlockKeyView, Arc<Vec<u8>>>>,
    after: Option<Parts<BlockKeyView, Arc<Vec<u8>>>>,
    id: u64,
    file: Seq<u8>,
    table: TableSpec,
    user_key: Seq<u8>,
    first: int,
    end: int,
) -> bool
    decreases end - first,
{
    if end <= first {
        after == before
    } else {
        exists|mid: Option<Parts<BlockKeyView, Arc<Vec<u8>>>>|
            blocks_walked(before, mid, id, file, table, user_key, first, end - 1)
                && #[trigger] block_visited(mid, after, id, file, table, user_key, end - 1)
    }
}

/// What asking for a user key in the blocks from `first` on, before `end`, one after the
/// other, does to the cache of filters.
pub open spec fn filters_walked(
    before: Option<Parts<FilterKeyView, Arc<BloomFilter>>>,
    after: Option<Parts<FilterKeyView, Arc<BloomFilter>>>,
    id: u64,
    file: Seq<u8>,
    filter: FilterSpec,
    first: int,
    end: int,
) -> bool
    decreases end - first,
{
    if end <= first {
        after == before
    } else {
        exists|mid: Option<Parts<FilterKeyView, Arc<BloomFilter>>>|
            filters_walked(before, mid, id, file, filter, first, end - 1)
                && #[trigger] filter_visited(mid, after, id, file, filter, end - 1)
    }
}

/// One data block more was asked.
pub proof fn lemma_blocks_walked_on(
    before: Option<Parts<BlockKeyView, Arc<Vec<u8>>>>,
    mid: Option<Parts<BlockKeyView, Arc<Vec<u8>>>>,
    after: Option<Parts<BlockKeyView, Arc<Vec<u8>>>>,
    id: u64,
    file: Seq<u8>,
    table: TableSpec,
    user_key: Seq<u8>,
    first: int,
    j: int,
)
    requires
        first <= j,
        blocks_walked(before, mid, id, file, table, user_key, first, j),
        block_visited(mid, after, id, file, table, user_key, j),
    ensures
        blocks_walked(before, after, id, file, table, user_key, first, j + 1),
{
    assert(block_visited(mid, after, id, file, table, user_key, (j + 1) - 1));
}

/// One filter more was asked.
pub proof fn lemma_filters_walked_on(
    before: Option<Parts<FilterKeyView, Arc<BloomFilter>>>,
    mid: Option<Parts<FilterKeyView, Arc<BloomFilter>>>,
    after: Option<Parts<FilterKeyView, Arc<BloomFilter>>>,
    id: u64,
    file: Seq<u8>,
    filter: FilterSpec,
    first: int,
    j: int,
)
    requires
        first <= j,
        filters_walked(before, mid, id, file, filter, first, j),
        filter_visited(mid, after, id, file, filter, j),
    ensures
        filters_walked(before, after, id, file, filter, first, j + 1),
{
    assert(filter_visited(mid, after, id, file, filter, (j + 1) - 1));
}

/// A data block of table `id` was fetched through its cache.
pub open spec fn block_read(
    before: Option<Parts<BlockKeyView, Arc<Vec<u8>>>>,
    after: Option<Parts<BlockKeyView, Arc<Vec<u8>>>>,
    id: u64,
    file: Seq<u8>,
    entry: IndexSpec,
) -> bool {
    block_fetched(
        before,
        after,
        BlockKeyView { file_id: id, offset: entry.block_offset, size: entry.block_size },
        block_there(file, entry.block_offset, entry.block_size),
    )
}

/// These data blocks of table `id` were fetched through their cache, one after the other.
pub open spec fn blocks_read(
    before: Option<Parts<BlockKeyView, Arc<Vec<u8>>>>,
    after: Option<Parts<BlockKeyView, Arc<Vec<u8>>>>,
    id: u64,
    file: Seq<u8>,
    index: Seq<IndexSpec>,
    list: Seq<int>,
) -> bool
    decreases list.len(),
{
    if list.len() == 0 {
        after == before
    } else {
        exists|mid: Option<Parts<BlockKeyView, Arc<Vec<u8>>>>|
            blocks_read(before, mid, id, file, index, list.drop_last()) && #[trigger] block_read(
                mid,
                after,
                id,
                file,
                index[list.last()],
            )
    }
}

/// Blocks that were read after others were read after them.
proof fn lemma_blocks_read_add(
    before: Option<Parts<BlockKeyView, Arc<Vec<u8>>>>,
    mid: Option<Parts<BlockKeyView, Arc<Vec<u8>>>>,
    after: Option<Parts<BlockKeyView, Arc<Vec<u8>>>>,
    id: u64,
    file: Seq<u8>,
    index: Seq<IndexSpec>,
    list: Seq<int>,
    more: Seq<int>,
)
    requires
        blocks_read(before, mid, id, file, index, list),
        blocks_read(mid, after, id, file, index, more),
    ensures
        blocks_read(before, after, id, file, index, list + more),
    decreases more.len(),
{
    if more.len() == 0 {
        assert(list + more =~= list);
    } else {
        let last = index[more.last()];
        let m = choose|m: Option<Parts<BlockKeyView, Arc<Vec<u8>>>>|
            blocks_read(mid, m, id, file, index, more.drop_last()) && #[trigger] block_read(
                m,
                after,
                id,
                file,
                last,
            );
        lemma_blocks_read_add(before, mid, m, id, file, index, list, more.drop_last());
        let all = list + more;
        assert(all.drop_last() =~= list + more.drop_last());
        assert(block_read(m, after, id, file, index[all.last()]));
    }
}

impl ReadCaches {
    /// The caches are well-formed.
    pub closed spec fn wf(&self) -> bool {
        &&& self.blocks matches Some(blocks) ==> blocks.wf()
        &&& self.filters matches Some(filters) ==> filters.wf()
    }

    /// The cache of data blocks.
    pub closed spec fn block_model(&self) -> Option<Parts<BlockKeyView, Arc<Vec<u8>>>> {
        match self.blocks {
            Some(blocks) => Some(blocks@),
            None => None,
        }
    }

    /// The cache of filter partitions.
    pub closed spec fn filter_model(&self) -> Option<Parts<FilterKeyView, Arc<BloomFilter>>> {
        match self.filters {
            Some(filters) => Some(filters@),
            None => None,
        }
    }

    /// The data block that is there for a key.
    pub closed spec fn block(&self, key: BlockKeyView) -> Option<Seq<u8>> {
        match self.blocks {
            Some(blocks) => blocks.block(key),
            None => None,
        }
    }

    /// The filter partition that is there for a key.
    pub closed spec fn filter(&self, key: FilterKeyView) -> Option<Seq<u8>> {
        match self.filters {
            Some(filters) => filters.filter(key),
            None => None,
        }
    }

    /// What is there for table `file_id` is what the table holds.
    pub open spec fn serves(&self, file_id: u64, file: Seq<u8>, table: TableSpec) -> bool {
        &&& forall|key: BlockKeyView|
            key.file_id == file_id && (#[trigger] self.block(key)) is Some ==> block_there(
                file,
                key.offset,
                key.size,
            ) == Ok::<Seq<u8>, TableReadError>(self.block(key)->Some_0)
        &&& forall|key: FilterKeyView|
            key.file_id == file_id && (#[trigger] self.filter(key)) is Some ==> filter_there(
                file,
                table.filter,
                key.block as int,
            ) == self.filter(key)
    }

    /// For other tables than `file_id` nothing else is there than was before.
    pub open spec fn spares(&self, before: &ReadCaches, file_id: u64) -> bool {
        &&& forall|key: BlockKeyView|
            key.file_id != file_id && (#[trigger] self.block(key)) is Some ==> self.block(key)
                == before.block(key)
        &&& forall|key: FilterKeyView|
            key.file_id != file_id && (#[trigger] self.filter(key)) is Some ==> self.filter(key)
                == before.filter(key)
    }

    /// These data blocks of a table were fetched through the caches, one after the other, and
    /// nothing else.
    pub open spec fn fetched(
        &self,
        before: &ReadCaches,
        number: Option<u64>,
        file: Seq<u8>,
        index: Seq<IndexSpec>,
        list: Seq<int>,
    ) -> bool {
        match number {
            Some(id) => blocks_read(
                before.block_model(),
                self.block_model(),
                id,
                file,
                index,
                list,
            ) && self.filter_model() == before.filter_model(),
            None => self == before,
        }
    }

    /// Blocks that were fetched after others were fetched after them.
    pub(crate) proof fn lemma_fetched_add(
        &self,
        before: &ReadCaches,
        mid: &ReadCaches,
        number: Option<u64>,
        file: Seq<u8>,
        index: Seq<IndexSpec>,
        list: Seq<int>,
        more: Seq<int>,
    )
        requires
            mid.fetched(before, number, file, index, list),
            self.fetched(mid, number, file, index, more),
        ensures
            self.fetched(before, number, file, index, list + more),
    {
        if let Some(id) = number {
            lemma_blocks_read_add(
                before.block_model(),
                mid.block_model(),
                self.block_model(),
                id,
                file,
                index,
                list,
                more,
            );
        }
    }

    /// One block is a list of blocks.
    pub(crate) proof fn lemma_fetched_one(
        &self,
        before: &ReadCaches,
        number: Option<u64>,
        file: Seq<u8>,
        index: Seq<IndexSpec>,
        j: int,
    )
        requires
            match number {
                Some(id) => block_read(
                    before.block_model(),
                    self.block_model(),
                    id,
                    file,
                    index[j],
                ) && self.filter_model() == before.filter_model(),
                None => self == before,
            },
        ensures
            self.fetched(before, number, file, index, seq![j]),
    {
        if let Some(id) = number {
            let list = seq![j];
            assert(list.drop_last() =~= Seq::empty());
            assert(blocks_read(
                before.block_model(),
                before.block_model(),
                id,
                file,
                index,
                list.drop_last(),
            ));
            assert(block_read(
                before.block_model(),
                self.block_model(),
                id,
                file,
                index[list.last()],
            ));
        }
    }

    /// No caches.
    pub fn none() -> (r: ReadCaches)
        ensures
            r.wf(),
            r.block_model() is None,
            r.filter_model() is None,
            forall|key: BlockKeyView| (#[trigger] r.block(key)) is None,
            forall|key: FilterKeyView| (#[trigger] r.filter(key)) is None,
    {
        ReadCaches { blocks: None, filters: None }
    }

    /// Caches of so many bytes, without entries.
    pub fn new(block_bytes: usize, filter_bytes: usize) -> (r: ReadCaches)
        ensures
            r.wf(),
            r.block_model() == Some(
                cache::fresh_cache::<BlockKeyView, Arc<Vec<u8>>>(
                    block_bytes,
                    cache::parts_for(block_bytes),
                ),
            ),
            r.filter_model() == Some(
                cache::fresh_cache::<FilterKeyView, Arc<BloomFilter>>(
                    filter_bytes,
                    cache::parts_for(filter_bytes),
                ),
            ),
            forall|key: BlockKeyView| (#[trigger] r.block(key)) is None,
            forall|key: FilterKeyView| (#[trigger] r.filter(key)) is None,
    {
        let blocks = BlockCache::new(block_bytes);
        let filters = FilterPartitionCache::new(filter_bytes);
        proof {
            assert forall|key: BlockKeyView| (#[trigger] blocks.block(key)) is None by {
                sharded::lemma_part_for(
                    <BlockCacheKey as CacheKey>::hash_of(key),
                    blocks@.parts.len(),
                );
            }
            assert forall|key: FilterKeyView| (#[trigger] filters.filter(key)) is None by {
                sharded::lemma_part_for(
                    <FilterPartitionCacheKey as CacheKey>::hash_of(key),
                    filters@.parts.len(),
                );
            }
        }
        ReadCaches { blocks: Some(blocks), filters: Some(filters) }
    }

    /// Whether there is a cache of filter partitions.
    pub fn has_filters(&self) -> (r: bool)
        ensures
            r == (self.filter_model() is Some),
    {
        self.filters.is_some()
    }

    /// Whether there is a cache of data blocks.
    pub fn has_blocks(&self) -> (r: bool)
        ensures
            r == (self.block_model() is Some),
    {
        self.blocks.is_some()
    }

    /// A data block, where it is there.
    pub fn get_block(&mut self, key: &BlockCacheKey) -> (r: Option<Arc<Vec<u8>>>)
        requires
            old(self).wf(),
        ensures
            final(self).wf(),
            final(self).block_model() == match old(self).block_model() {
                Some(model) => Some(
                    model.asked(key@, <BlockCacheKey as CacheKey>::hash_of(key@)),
                ),
                None => None,
            },
            final(self).filter_model() == old(self).filter_model(),
            r is Some <==> (old(self).block_model() matches Some(model) && model.lookup(
                key@,
                <BlockCacheKey as CacheKey>::hash_of(key@),
            ) is Some),
            match old(self).block(key@) {
                Some(payload) => r is Some && (*r->Some_0)@ == payload,
                None => r is None,
            },
            forall|k: BlockKeyView| #[trigger] final(self).block(k) == old(self).block(k),
            forall|k: FilterKeyView| #[trigger] final(self).filter(k) == old(self).filter(k),
    {
        match &mut self.blocks {
            Some(blocks) => {
                let ghost before = *blocks;
                let found = blocks.get(key);
                proof {
                    assert forall|k: BlockKeyView| #[trigger] blocks.block(k) == before.block(k) by {
                        before.lemma_wf();
                        sharded::asking_changes_no_value(
                            before@,
                            key@,
                            <BlockCacheKey as CacheKey>::hash_of(key@),
                            k,
                            <BlockCacheKey as CacheKey>::hash_of(k),
                        );
                    }
                }
                found
            },
            None => None,
        }
    }

    /// Keeps a data block, and hands it back.
    pub fn put_block(&mut self, key: BlockCacheKey, payload: Vec<u8>) -> (r: Arc<Vec<u8>>)
        requires
            old(self).wf(),
        ensures
            final(self).wf(),
            final(self).block_model() == match old(self).block_model() {
                Some(model) => Some(
                    model.stored(
                        key@,
                        <BlockCacheKey as CacheKey>::hash_of(key@),
                        r,
                        payload@.len(),
                    ),
                ),
                None => None,
            },
            final(self).filter_model() == old(self).filter_model(),
            (*r)@ == payload@,
            final(self).block(key@) is Some ==> final(self).block(key@) == Some(payload@)
                || final(self).block(key@) == old(self).block(key@),
            forall|k: BlockKeyView|
                k != key@ && (#[trigger] final(self).block(k)) is Some ==> final(self).block(k)
                    == old(self).block(k),
            forall|k: FilterKeyView| #[trigger] final(self).filter(k) == old(self).filter(k),
    {
        match &mut self.blocks {
            Some(blocks) => {
                let ghost before = *blocks;
                let ghost bytes = payload@.len();
                let kept = blocks.insert(key, payload);
                proof {
                    let hash = <BlockCacheKey as CacheKey>::hash_of(key@);
                    before.lemma_wf();
                    assert forall|k: BlockKeyView| (#[trigger] blocks.block(k)) is Some implies if k
                        == key@ {
                        blocks.block(k) == Some((*kept)@) || blocks.block(k) == before.block(k)
                    } else {
                        blocks.block(k) == before.block(k)
                    } by {
                        if before@.takes(hash, bytes) {
                            sharded::stored_is_found_or_gone(
                                before@,
                                key@,
                                hash,
                                kept,
                                bytes,
                                k,
                                <BlockCacheKey as CacheKey>::hash_of(k),
                            );
                        }
                    }
                }
                kept
            },
            None => Arc::new(payload),
        }
    }

    /// A filter partition, where it is there.
    pub fn get_filter(&mut self, key: &FilterPartitionCacheKey) -> (r: Option<Arc<BloomFilter>>)
        requires
            old(self).wf(),
        ensures
            final(self).wf(),
            final(self).filter_model() == match old(self).filter_model() {
                Some(model) => Some(
                    model.asked(key@, <FilterPartitionCacheKey as CacheKey>::hash_of(key@)),
                ),
                None => None,
            },
            final(self).block_model() == old(self).block_model(),
            r is Some <==> (old(self).filter_model() matches Some(model) && model.lookup(
                key@,
                <FilterPartitionCacheKey as CacheKey>::hash_of(key@),
            ) is Some),
            match old(self).filter(key@) {
                Some(bitmap) => r is Some && (*r->Some_0)@ == bitmap,
                None => r is None,
            },
            forall|k: BlockKeyView| #[trigger] final(self).block(k) == old(self).block(k),
            forall|k: FilterKeyView| #[trigger] final(self).filter(k) == old(self).filter(k),
    {
        match &mut self.filters {
            Some(filters) => {
                let ghost before = *filters;
                let found = filters.get(key);
                proof {
                    assert forall|k: FilterKeyView| #[trigger] filters.filter(k) == before.filter(
                        k,
                    ) by {
                        before.lemma_wf();
                        sharded::asking_changes_no_value(
                            before@,
                            key@,
                            <FilterPartitionCacheKey as CacheKey>::hash_of(key@),
                            k,
                            <FilterPartitionCacheKey as CacheKey>::hash_of(k),
                        );
                    }
                }
                found
            },
            None => None,
        }
    }

    /// Keeps a filter partition, and hands it back.
    pub fn put_filter(&mut self, key: FilterPartitionCacheKey, filter: BloomFilter) -> (r: Arc<
        BloomFilter,
    >)
        requires
            old(self).wf(),
        ensures
            final(self).wf(),
            final(self).filter_model() == match old(self).filter_model() {
                Some(model) => Some(
                    model.stored(
                        key@,
                        <FilterPartitionCacheKey as CacheKey>::hash_of(key@),
                        r,
                        filter@.len(),
                    ),
                ),
                None => None,
            },
            final(self).block_model() == old(self).block_model(),
            *r == filter,
            final(self).filter(key@) is Some ==> final(self).filter(key@) == Some(filter@)
                || final(self).filter(key@) == old(self).filter(key@),
            forall|k: FilterKeyView|
                k != key@ && (#[trigger] final(self).filter(k)) is Some ==> final(self).filter(k)
                    == old(self).filter(k),
            forall|k: BlockKeyView| #[trigger] final(self).block(k) == old(self).block(k),
    {
        match &mut self.filters {
            Some(filters) => {
                let ghost before = *filters;
                let ghost bytes = filter@.len();
                let kept = filters.insert(key, filter);
                proof {
                    let hash = <FilterPartitionCacheKey as CacheKey>::hash_of(key@);
                    before.lemma_wf();
                    assert forall|k: FilterKeyView| (#[trigger] filters.filter(k)) is Some implies if k
                        == key@ {
                        filters.filter(k) == Some((*kept)@) || filters.filter(k) == before.filter(k)
                    } else {
                        filters.filter(k) == before.filter(k)
                    } by {
                        if before@.takes(hash, bytes) {
                            sharded::stored_is_found_or_gone(
                                before@,
                                key@,
                                hash,
                                kept,
                                bytes,
                                k,
                                <FilterPartitionCacheKey as CacheKey>::hash_of(k),
                            );
                        }
                    }
                }
                kept
            },
            None => Arc::new(filter),
        }
    }

    /// What the cache of data blocks has counted: hits, misses, evictions.
    pub fn block_counts(&self) -> (r: (u64, u64, u64))
        ensures
            r == match self.block_model() {
                Some(model) => (model.hits, model.misses, model.evictions),
                None => (0u64, 0u64, 0u64),
            },
    {
        match &self.blocks {
            Some(blocks) => blocks.counts(),
            None => (0, 0, 0),
        }
    }

    /// What the cache of filter partitions has counted: hits, misses, evictions.
    pub fn filter_counts(&self) -> (r: (u64, u64, u64))
        ensures
            r == match self.filter_model() {
                Some(model) => (model.hits, model.misses, model.evictions),
                None => (0u64, 0u64, 0u64),
            },
    {
        match &self.filters {
            Some(filters) => filters.counts(),
            None => (0, 0, 0),
        }
    }
}

/// What the caches hold of a table stays right while another table is read.
pub proof fn other_tables_stay_served(
    before: ReadCaches,
    after: ReadCaches,
    file_id: u64,
    other: u64,
    file: Seq<u8>,
    table: TableSpec,
)
    requires
        before.serves(other, file, table),
        after.spares(&before, file_id),
        other != file_id,
    ensures
        after.serves(other, file, table),
{
}

} // verus!
