//! Numbers, keys, hashes and small helpers.

use std::cell::RefCell;
use std::hash::Hasher;

use bytes::Bytes;
use goat_db::error::VarintError;
use goat_db::format::coding::{
    decode_varint64, decode_varint64_with_length, encode_varint64, put_varint64, varint_len,
};
use goat_db::format::internal_key::{InternalKey, InternalKeyKind};
use goat_db::storage::bloom_builder::BloomBuilder;
use goat_db::storage::metadata::{FileMetadata, TableProperties};
use goat_db::storage::sstable::reader::PinnedValue;
use goat_db::utils::io_helpers::{ExactRead, ReadOutcome};
use goat_db::utils::lru_list::LruList;
use goat_db::utils::sequence_number::SequenceNumber;
use goat_db::utils::shared_lru::{SharedLruCache, SharedLruOptions};
use goat_db::varint;

#[test]
fn varints_are_read_back() {
    for v in [0u64, 1, 127, 128, 300, 16383, 16384, u32::MAX as u64, u64::MAX] {
        let bytes = encode_varint64(v);
        assert_eq!(bytes.len(), varint_len(v));
        assert_eq!(decode_varint64(&bytes), Ok(v));
        let mut longer = bytes.clone();
        put_varint64(&mut longer, 7);
        assert_eq!(decode_varint64_with_length(&longer), Ok((v, bytes.len())));
        assert_eq!(varint::encode(v), bytes);
        assert_eq!(varint::decode(&bytes), Ok(v));
    }
    assert_eq!(encode_varint64(300), vec![0xAC, 0x02]);
    assert_eq!(varint_len(u64::MAX), 10);
}

#[test]
fn bad_varints_are_told_apart() {
    assert_eq!(decode_varint64(&[]), Err(VarintError::Incomplete));
    assert_eq!(decode_varint64(&[0x80, 0x80]), Err(VarintError::Incomplete));
    assert_eq!(decode_varint64(&[0xFF; 11]), Err(VarintError::Overflow));
    assert_eq!(VarintError::Overflow.to_string(), "Overflow");
}

#[test]
fn keys_are_serialized_so_that_newer_versions_come_first() {
    let old = InternalKey::new(b"k".to_vec(), 1, InternalKeyKind::Put);
    let new = InternalKey::new(b"k".to_vec(), 2, InternalKeyKind::Put);
    assert!(new.serialize() < old.serialize());
    assert_eq!(old.serialized_size(), 9);
    let back = InternalKey::parse(&old.serialize()).unwrap();
    assert_eq!(back, old);
    assert_eq!(back.kind().unwrap(), InternalKeyKind::Put);
    assert!(InternalKey::parse(b"short").is_none());
    assert!(InternalKeyKind::from_u8(9).is_err());
}

#[test]
fn filters_hash_with_xxhash64() {
    let mut builder = BloomBuilder::with_capacity(64);
    builder.add(b"some key");
    let mut hasher = twox_hash::XxHash64::with_seed(0);
    hasher.write(b"some key");
    let first = (hasher.finish() % (64 * 8)) as usize;
    assert_ne!(builder.bitmap()[first / 8] & (1 << (first % 8)), 0);
    let set: u32 = builder.bitmap().iter().map(|b| b.count_ones()).sum();
    assert!((1..=7).contains(&set));
}

#[test]
fn pinned_values_share_their_bytes() {
    let pinned = PinnedValue::from_bytes(Bytes::from_static(b"shared"));
    let again = pinned.clone();
    assert_eq!(again.as_slice(), b"shared");
    assert_eq!((again.len(), again.is_empty()), (6, false));
    assert_eq!(pinned.to_vec(), b"shared".to_vec());
    let block = std::sync::Arc::new(b"0123456789".to_vec());
    assert_eq!(PinnedValue::from_block(block.clone(), 2, 3).unwrap().as_slice(), b"234");
    assert!(PinnedValue::from_block(block, 8, 3).is_none());
}

#[test]
fn reading_ends_in_one_of_three_ways() {
    let mut whole = ExactRead::new(4);
    assert_eq!(whole.done(), None);
    assert_eq!(whole.advance(3), None);
    assert_eq!(whole.filled(), 3);
    assert_eq!(whole.advance(1), Some(ReadOutcome::Complete));
    let mut part = ExactRead::new(4);
    assert_eq!(part.advance(1), None);
    assert_eq!(part.advance(0), Some(ReadOutcome::Partial));
    assert_eq!(ExactRead::new(4).advance(0), Some(ReadOutcome::Eof));
    assert_eq!(ExactRead::new(0).done(), Some(ReadOutcome::Complete));
}

#[test]
fn sequence_numbers_follow_each_other() {
    let mut seq = SequenceNumber::new();
    let first = seq.next();
    assert_eq!(seq.next(), first + 1);
    assert_eq!(seq.next(), first + 2);
}

#[test]
fn largest_user_keys_have_no_trailer() {
    let props = TableProperties::new(1, Vec::new(), b"zebra12345678".to_vec(), 0, 0);
    assert_eq!(FileMetadata::from_props(3, props).largest_user_key(), b"zebra".to_vec());
    let short = TableProperties::new(1, Vec::new(), b"abc".to_vec(), 0, 0);
    assert_eq!(FileMetadata::from_props(3, short).largest_user_key(), b"abc".to_vec());
}

#[test]
fn list_keeps_the_order_of_use() {
    let mut list: LruList<u64, &str> = LruList::new();
    list.push_front(1, "one", 1);
    list.push_front(2, "two", 2);
    list.push_front(3, "three", 3);
    list.promote(&1);
    assert_eq!(list.replace(&3, "tres", 4), Some(("three", 3)));
    assert_eq!(list.remove(&9), None);
    assert_eq!(list.peek(&2), Some(&"two"));
    assert!(list.contains(&1));
    assert_eq!(list.pop_back(), Some((2, "two", 2)));
    assert_eq!(list.len(), 2);
    list.clear();
    assert_eq!(list.pop_back(), None);
}

#[test]
fn evictions_are_heard() {
    let heard: RefCell<Vec<(u64, String)>> = RefCell::new(Vec::new());
    let options = SharedLruOptions::default()
        .with_max_entries(2)
        .with_shards(1)
        .with_evict_hook(|k: &u64, v: &String| heard.borrow_mut().push((*k, v.clone())));
    let mut cache = SharedLruCache::new(options);
    for i in 0..4u64 {
        assert!(cache.insert(i, format!("v{}", i)).is_none());
    }
    assert_eq!(cache.insert(3, "w3".to_string()), Some("v3".to_string()));
    assert_eq!(cache.get(&3), Some("w3".to_string()));
    assert_eq!(*heard.borrow(), vec![(0, "v0".to_string()), (1, "v1".to_string())]);
}

#[test]
fn refused_entries_are_not_heard() {
    let heard: RefCell<Vec<u64>> = RefCell::new(Vec::new());
    let options = SharedLruOptions::default()
        .with_max_entries(4)
        .with_max_charge(10)
        .with_shards(1)
        .with_weigher(|_k: &u64, v: &usize| *v)
        .with_evict_hook(|k: &u64, _v: &usize| heard.borrow_mut().push(*k));
    let mut cache = SharedLruCache::new(options);
    assert_eq!(cache.insert(1, 4), None);
    assert_eq!(cache.insert(2, 4), None);
    assert_eq!(cache.insert(1, 11), Some(4));
    assert!(!cache.contains(&1));
    assert!(heard.borrow().is_empty());
    assert_eq!(cache.insert(3, 6), None);
    assert_eq!((cache.len(), cache.charge()), (2, 10));
    assert_eq!(cache.insert(4, 7), None);
    assert_eq!((cache.len(), cache.charge()), (1, 7));
    assert_eq!(*heard.borrow(), vec![2, 3]);
    assert_eq!(cache.metrics().evictions, 2);
}

#[test]
fn parts_of_a_cache_keep_to_limits_together() {
    let options = SharedLruOptions::default().with_max_entries(7).with_max_charge(7).with_shards(3);
    let mut cache = SharedLruCache::new(options);
    for i in 0..100u64 {
        let _ = cache.insert(i, i);
        assert!(cache.len() <= 7 && cache.charge() <= 7);
        assert_eq!(cache.get(&i), Some(i));
    }
    assert_eq!(cache.len(), 7);
    assert_eq!(cache.remove(&99), Some(99));
    assert_eq!((cache.len(), cache.charge()), (6, 6));
    cache.clear();
    assert_eq!((cache.len(), cache.charge()), (0, 0));
}
