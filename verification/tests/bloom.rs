//! Filters.

use goat_db::storage::bloom_builder::{BloomBuilder, BloomFilter};

#[test]
fn test_bloom_builder_build() {
    let mut builder = BloomBuilder::new();
    builder.add(b"key1");
    builder.add(b"key2");

    let filter = builder.build();
    assert_eq!(filter.size(), 1024);
}

#[test]
fn test_bloom_builder_with_capacity() {
    let mut builder = BloomBuilder::with_capacity(512);
    builder.add(b"key1");
    builder.add(b"key2");

    let filter = builder.build();
    assert_eq!(filter.size(), 512);
}

#[test]
fn test_bloom_filter_contains() {
    let mut builder = BloomBuilder::new();
    builder.add(b"key1");
    builder.add(b"key2");

    let filter = builder.build();

    assert!(filter.contains(b"key1"));
    assert!(filter.contains(b"key2"));

    let _ = filter.contains(b"key3");
}

#[test]
fn test_bloom_filter_empty() {
    let filter = BloomFilter::new(vec![]);

    assert!(filter.contains(b"any_key"));
    assert_eq!(filter.size(), 0);
}

#[test]
fn test_bloom_filter_from_bitmap() {
    let bitmap = vec![0xFFu8; 1024];
    let filter = BloomFilter::new(bitmap);

    assert!(filter.contains(b"test_key"));
    assert_eq!(filter.size(), 1024);
}

#[test]
fn test_bloom_builder_multiple_keys() {
    let mut builder = BloomBuilder::new();

    for i in 0..100 {
        let key = format!("key{}", i);
        builder.add(key.as_bytes());
    }

    let filter = builder.build();

    for i in 0..100 {
        let key = format!("key{}", i);
        assert!(filter.contains(key.as_bytes()));
    }
}
