//! Caches of tables, blocks, filters and rows.

use std::sync::{Arc, Mutex};

use bytes::Bytes;
use goat_db::format::internal_key::{InternalKey, InternalKeyKind};
use goat_db::storage::sstable::cache::{
    BlockCache, BlockCacheKey, FilterPartitionCache, FilterPartitionCacheKey, RowCache,
    RowCacheValue, TableCache,
};
use goat_db::storage::sstable::clock::ClockState;
use goat_db::storage::sstable::read_caches::ReadCaches;
use goat_db::storage::sstable::reader::SSTableReader;
use goat_db::storage::sstable::sharded::{
    shard_count_for_bytes, shard_index_from_u64, split_capacity, ShardedClock,
};
use goat_db::storage::sstable::table_cache;
use goat_db::storage::sstable::table_cache::TableCacheOptions;
use goat_db::storage::sstable::SSTableBuilder;
use goat_db::storage::bloom_builder::BloomFilter;
use goat_db::utils::paths::SstablePaths;

fn build_sstable(file_id: u64) -> (String, Vec<u8>) {
    let paths = SstablePaths::new("db/data".to_string(), "db/tmp".to_string());
    let mut builder = SSTableBuilder::new_with_manager(file_id, &paths, 0);
    for i in 0..8u64 {
        let key = format!("k{:02}", i).into_bytes();
        let value = format!("v{:02}", i).into_bytes();
        let internal_key = InternalKey::new(key, 100 - i, InternalKeyKind::Put);
        builder.write(&internal_key.serialize(), &value).unwrap();
    }
    let _props = builder.finish().unwrap();
    (paths.sstable_path_by_id(file_id), builder.file_bytes().to_vec())
}

fn open_through(
    cache: &mut TableCache<Mutex<SSTableReader>>,
    file_id: u64,
) -> Arc<Mutex<SSTableReader>> {
    match cache.lookup(file_id) {
        Some(reader) => reader,
        None => {
            let (path, bytes) = build_sstable(file_id);
            let reader = SSTableReader::open_with_file_id(&path, bytes, file_id).unwrap();
            cache.take_in(file_id, Arc::new(Mutex::new(reader)))
        }
    }
}

#[test]
fn table_cache_reports_hits_and_evictions() {
    let (p1, b1) = build_sstable(1);
    let (p2, b2) = build_sstable(2);
    let mut cache: TableCache<SSTableReader> = TableCache::new(1, 0, 0, 0);

    let _r1 = cache.get_or_open(1, &p1, b1.clone()).unwrap();
    let _r1_again = cache.get_or_open(1, &p1, b1).unwrap();
    let _r2 = cache.get_or_open(2, &p2, b2).unwrap();

    let metrics = cache.metrics();
    assert_eq!(metrics.table_hits, 1);
    assert_eq!(metrics.table_misses, 2);
    assert_eq!(metrics.table_evictions, 1);
}

#[test]
fn block_cache_reports_hit_after_warmup() {
    let mut cache: TableCache<Mutex<SSTableReader>> = TableCache::new(2, 8 * 1024 * 1024, 0, 0);
    let reader = open_through(&mut cache, 7);

    let key = b"k03".to_vec();
    assert!(cache.get(&mut reader.lock().unwrap(), &key).unwrap().is_some());
    assert!(cache.get(&mut reader.lock().unwrap(), &key).unwrap().is_some());

    let metrics = cache.metrics();
    assert!(metrics.block_misses >= 1);
    assert!(metrics.block_hits >= 1);
}

#[test]
fn table_cache_can_be_disabled() {
    let (path, bytes) = build_sstable(8);
    let mut cache: TableCache<SSTableReader> = TableCache::new(0, 0, 0, 0);
    let _ = cache.get_or_open(8, &path, bytes.clone()).unwrap();
    let _ = cache.get_or_open(8, &path, bytes).unwrap();
    let metrics = cache.metrics();
    assert_eq!(metrics.table_hits, 0);
    assert_eq!(metrics.table_misses, 2);
}

#[test]
fn row_cache_distinguishes_visibility_sequence() {
    let mut cache: TableCache<SSTableReader> = TableCache::new(1, 0, 1024 * 1024, 0);
    let user_key = b"k1";
    let version_seqno = 100u64;

    cache.row_cache_insert(
        version_seqno,
        10,
        user_key,
        RowCacheValue::Hit {
            internal_key: InternalKey::new(user_key.to_vec(), 10, InternalKeyKind::Put),
            value: Bytes::from_static(b"v10"),
        },
    );
    cache.row_cache_insert(
        version_seqno,
        20,
        user_key,
        RowCacheValue::Hit {
            internal_key: InternalKey::new(user_key.to_vec(), 20, InternalKeyKind::Put),
            value: Bytes::from_static(b"v20"),
        },
    );

    let old = cache.row_cache_get(version_seqno, 10, user_key);
    let new = cache.row_cache_get(version_seqno, 20, user_key);
    let middle = cache.row_cache_get(version_seqno, 15, user_key);

    match old {
        Some(RowCacheValue::Hit { internal_key, value }) => {
            assert_eq!(internal_key.sequence_number(), 10);
            assert_eq!(value.as_ref(), b"v10");
        }
        other => panic!("unexpected old visibility cache value: {:?}", other),
    }
    match new {
        Some(RowCacheValue::Hit { internal_key, value }) => {
            assert_eq!(internal_key.sequence_number(), 20);
            assert_eq!(value.as_ref(), b"v20");
        }
        other => panic!("unexpected new visibility cache value: {:?}", other),
    }
    assert!(middle.is_none());
}

#[test]
fn filter_cache_reports_hit_after_warmup() {
    let mut cache: TableCache<Mutex<SSTableReader>> = TableCache::new(2, 0, 0, 1024 * 1024);
    let reader = open_through(&mut cache, 9);
    let key = b"k03".to_vec();

    assert!(cache.get(&mut reader.lock().unwrap(), &key).unwrap().is_some());
    assert!(cache.get(&mut reader.lock().unwrap(), &key).unwrap().is_some());

    let metrics = cache.metrics();
    assert!(metrics.filter_misses >= 1);
    assert!(metrics.filter_hits >= 1);
}

#[test]
fn cached_reads_give_what_uncached_reads_give() {
    let (path, bytes) = build_sstable(11);
    let mut plain = SSTableReader::open(&path, bytes).unwrap();
    let mut cache: TableCache<Mutex<SSTableReader>> =
        TableCache::new(2, 1 << 20, 0, 1 << 20);
    let reader = open_through(&mut cache, 11);
    for _ in 0..3 {
        for name in ["k00", "k05", "k07", "k08", "a", "z"] {
            let through = cache
                .get_at_seq(&mut reader.lock().unwrap(), name.as_bytes(), 1000)
                .unwrap()
                .map(|(k, v)| (k, v.to_vec()));
            let alone = plain.get(name.as_bytes()).unwrap();
            assert_eq!(through, alone);
        }
    }
}

#[test]
fn row_cache_remembers_misses() {
    let mut rows = RowCache::new(1 << 16);
    assert!(rows.get(1, 2, b"k").is_none());
    rows.insert(1, 2, b"k", RowCacheValue::Miss);
    assert!(matches!(rows.get(1, 2, b"k"), Some(RowCacheValue::Miss)));
    assert_eq!(rows.counts(), (1, 1, 0));
    let mut off = RowCache::new(0);
    off.insert(1, 2, b"k", RowCacheValue::Miss);
    assert!(off.get(1, 2, b"k").is_none());
}

#[test]
fn capacity_is_split_without_loss() {
    assert_eq!(split_capacity(10, 4), vec![3, 3, 2, 2]);
    assert_eq!(split_capacity(3, 4), vec![1, 1, 1, 0]);
    assert!(split_capacity(10, 0).is_empty());
    for total in 0..50usize {
        for shards in 1..8usize {
            assert_eq!(split_capacity(total, shards).iter().sum::<usize>(), total);
        }
    }
}

#[test]
fn shard_counts_are_bounded() {
    assert_eq!(shard_count_for_bytes(0, 65536, 16), 1);
    assert_eq!(shard_count_for_bytes(65535, 65536, 16), 1);
    assert_eq!(shard_count_for_bytes(3 * 65536, 65536, 16), 3);
    assert_eq!(shard_count_for_bytes(1 << 30, 65536, 16), 16);
    // No bytes for a shard, and no shards, count as one.
    assert_eq!(shard_count_for_bytes(3, 0, 16), 3);
    assert_eq!(shard_count_for_bytes(1 << 20, 65536, 0), 1);
    assert_eq!(shard_count_for_bytes(0, 0, 0), 1);
    // The upper bits are mixed in: 1 << 33 becomes (1 << 33) ^ 1.
    assert_eq!(shard_index_from_u64(1 << 33, 8), 1);
    assert_eq!(shard_index_from_u64(13, 8), 5);
}

#[test]
fn clock_spares_what_was_used() {
    let mut clock: ClockState<u64, &str> = ClockState::new();
    clock.insert_or_update(1, "one", 10);
    clock.insert_or_update(2, "two", 10);
    clock.insert_or_update(3, "three", 10);
    assert_eq!(clock.len(), 3);
    assert_eq!(clock.mark_hit(&1), Some(&"one"));
    assert_eq!(clock.trim(20), 1);
    assert!(clock.peek(&1).is_some());
    assert_eq!(clock.len(), 2);
    assert_eq!(clock.trim(20), 0);
    clock.insert_or_update(1, "uno", 5);
    assert_eq!(clock.peek(&1), Some(&"uno"));
    assert!(clock.evict_one().is_some());
    assert!(clock.evict_one().is_some());
    assert!(clock.evict_one().is_none());
}

#[test]
fn sharded_cache_finds_what_it_holds() {
    let mut cache: ShardedClock<u64, String> = ShardedClock::new(100, 4);
    for i in 0..8u64 {
        cache.insert(i, format!("v{}", i), 1);
    }
    for i in 0..8u64 {
        assert_eq!(cache.get(&i), Some(&format!("v{}", i)));
    }
    assert!(cache.get(&99).is_none());
    assert_eq!((cache.hits(), cache.misses(), cache.evictions()), (8, 1, 0));
    assert_eq!(cache.peek(&3), Some(&"v3".to_string()));
    // An entry larger than its share is not kept.
    cache.insert(50, "big".to_string(), 1000);
    assert!(cache.peek(&50).is_none());
}

#[test]
fn block_and_filter_caches_hand_out_what_they_took_in() {
    let mut blocks = BlockCache::new(1 << 20);
    let taken = blocks.insert(BlockCacheKey::new(1, 2, 3), vec![7, 8, 9]);
    assert_eq!(*taken, vec![7, 8, 9]);
    assert_eq!(*blocks.get(&BlockCacheKey::new(1, 2, 3)).unwrap(), vec![7, 8, 9]);
    assert!(blocks.get(&BlockCacheKey::new(1, 2, 4)).is_none());
    assert_eq!(blocks.counts(), (1, 1, 0));

    let mut filters = FilterPartitionCache::new(1 << 20);
    filters.insert(FilterPartitionCacheKey::new(1, 0), BloomFilter::new(vec![1, 2]));
    let found = filters.get(&FilterPartitionCacheKey::new(1, 0)).unwrap();
    assert_eq!(found.bitmap(), &[1, 2]);
    assert!(filters.get(&FilterPartitionCacheKey::new(1, 1)).is_none());
    assert_eq!(filters.counts(), (1, 1, 0));
}

#[test]
fn lru_table_cache_evicts_and_charges() {
    let options = TableCacheOptions::default().with_max_entries(2).with_shards(1);
    let mut cache: table_cache::TableCache<SSTableReader> = table_cache::TableCache::new(options);
    for id in 1..=3u64 {
        let (path, bytes) = build_sstable(id);
        let size = bytes.len() as u64;
        let handle = cache.get_or_open(id, size, &path, bytes).unwrap();
        assert_eq!(handle.reader().file_path(), path);
    }
    assert_eq!(cache.len(), 2);
    assert!(cache.get(1).is_none());
    assert!(cache.get(3).is_some());
    assert!(cache.remove(3).is_some());
    assert!(cache.remove(3).is_none());
    cache.clear();
    assert_eq!((cache.len(), cache.charge()), (0, 0));
}

#[test]
fn lru_table_cache_reports_open_failures() {
    let mut cache: table_cache::TableCache<SSTableReader> =
        table_cache::TableCache::new(TableCacheOptions::default());
    assert!(cache.get_or_open(1, 3, "x", vec![1, 2, 3]).is_err());
    assert_eq!(cache.len(), 0);
}

#[test]
fn lru_table_cache_charges_the_size_it_is_told() {
    let options = TableCacheOptions { charge_by_file_size: true, ..TableCacheOptions::default() };
    let mut cache: table_cache::TableCache<SSTableReader> = table_cache::TableCache::new(options);
    let (path, bytes) = build_sstable(1);
    let handle = cache.get_or_open(1, 77, &path, bytes).unwrap();
    assert_eq!(handle.charge(), 77);
    assert_eq!((cache.len(), cache.charge()), (1, 77));
}

fn many_blocks(file_id: u64) -> SSTableReader {
    let paths = SstablePaths::new("db/data".to_string(), "db/tmp".to_string());
    let mut builder = SSTableBuilder::new_with_manager(file_id, &paths, 0);
    for i in 0..40u64 {
        let key = format!("key_{:04}", i).into_bytes();
        let internal_key = InternalKey::new(key, i, InternalKeyKind::Put);
        builder.write(&internal_key.serialize(), &vec![b'x'; 1024]).unwrap();
    }
    builder.finish().unwrap();
    let bytes = builder.file_bytes().to_vec();
    SSTableReader::open_with_file_id("db/data/000005.sst", bytes, file_id).unwrap()
}

#[test]
fn scans_ask_and_fill_the_block_cache() {
    let reader = many_blocks(5);
    let blocks = reader.index_entry_count() as u64;
    assert!(blocks > 3);
    let mut caches = ReadCaches::new(64 * 1024 * 1024, 0);
    assert_eq!(reader.scan_all_through(&mut caches).unwrap().len(), 40);
    assert_eq!(caches.block_counts(), (0, blocks, 0));
    assert_eq!(reader.scan_all_through(&mut caches).unwrap().len(), 40);
    assert_eq!(caches.block_counts(), (blocks, blocks, 0));
}

#[test]
fn scan_iterators_fetch_each_block_once() {
    let reader = many_blocks(6);
    let blocks = reader.index_entry_count() as u64;
    let mut caches = ReadCaches::new(64 * 1024 * 1024, 0);
    let mut iter = reader.into_scan_iterator_through(&mut caches);
    assert_eq!(caches.block_counts(), (0, 2, 0));
    assert!(iter.next_entry_through(&mut caches).unwrap().is_some());
    assert_eq!(caches.block_counts(), (0, 4, 0));
    let mut seen = 1;
    while iter.next_entry_through(&mut caches).unwrap().is_some() {
        seen += 1;
    }
    assert_eq!(seen, 40);
    assert_eq!(caches.block_counts(), (0, blocks, 0));
}

#[test]
fn table_cache_scans_through_its_block_cache() {
    let mut cache: TableCache<SSTableReader> = TableCache::new(2, 8 * 1024 * 1024, 0, 0);
    let reader = many_blocks(7);
    let blocks = reader.index_entry_count() as u64;
    assert_eq!(cache.scan_all(&reader).unwrap().len(), 40);
    assert_eq!(cache.scan_all(&reader).unwrap().len(), 40);
    let metrics = cache.metrics();
    assert_eq!(metrics.block_misses, blocks);
    assert_eq!(metrics.block_hits, blocks);

    let mut iter = cache.scan_iterator(reader);
    let mut seen = 0;
    while cache.scan_next(&mut iter).unwrap().is_some() {
        seen += 1;
    }
    assert_eq!(seen, 40);
    assert_eq!(cache.metrics().block_misses, blocks);
    assert_eq!(cache.metrics().block_hits, 2 * blocks);
}
