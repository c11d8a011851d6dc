//! Building blocks.

use goat_db::storage::sstable::BlockBuilder;

#[test]
fn test_block_builder_basic() {
    let mut builder = BlockBuilder::new();

    builder.add(b"key1", b"value1");
    builder.add(b"key2", b"value2");
    builder.add(b"key3", b"value3");

    assert!(!builder.empty());

    let (block_data, last_key) = builder.finish();

    assert!(!block_data.is_empty());

    assert_eq!(last_key, b"key3");
}

#[test]
fn test_block_builder_prefix_compression() {
    let mut builder = BlockBuilder::new();

    builder.add(b"application", b"app");
    builder.add(b"apple", b"fruit");
    builder.add(b"apply", b"verb");

    let (block_data, last_key) = builder.finish();

    assert!(block_data.len() < 50);

    assert_eq!(last_key, b"apply");
}

#[test]
fn test_block_builder_restart_points() {
    let mut builder = BlockBuilder::new();

    for i in 0..16 {
        let key = format!("key{:03}", i);
        let value = format!("value{:03}", i);
        builder.add(key.as_bytes(), value.as_bytes());
    }

    let (block_data, _) = builder.finish();

    let restart_count_bytes = &block_data[block_data.len() - 4..];
    let restart_count = u32::from_le_bytes([
        restart_count_bytes[0],
        restart_count_bytes[1],
        restart_count_bytes[2],
        restart_count_bytes[3],
    ]);

    assert_eq!(restart_count, 1);

    let restart_point_bytes = &block_data[block_data.len() - 8..block_data.len() - 4];
    let restart_point = u32::from_le_bytes([
        restart_point_bytes[0],
        restart_point_bytes[1],
        restart_point_bytes[2],
        restart_point_bytes[3],
    ]);

    assert!(restart_point > 0);
    assert!(restart_point < block_data.len() as u32);
}

#[test]
fn test_block_builder_multiple_restart_points() {
    let mut builder = BlockBuilder::new();

    for i in 0..33 {
        let key = format!("key{:03}", i);
        let value = format!("value{:03}", i);
        builder.add(key.as_bytes(), value.as_bytes());
    }

    let (block_data, _) = builder.finish();

    let restart_count_bytes = &block_data[block_data.len() - 4..];
    let restart_count = u32::from_le_bytes([
        restart_count_bytes[0],
        restart_count_bytes[1],
        restart_count_bytes[2],
        restart_count_bytes[3],
    ]);

    assert_eq!(restart_count, 2);
}

#[test]
fn test_block_builder_should_finish() {
    let mut builder = BlockBuilder::new();

    assert!(!builder.should_finish());

    let large_value = vec![b'x'; 2000];
    for i in 0..5 {
        let key = format!("key{:03}", i);
        builder.add(key.as_bytes(), &large_value);

        if i >= 2 {
            assert!(
                builder.should_finish(),
                "Should finish after {} entries",
                i + 1
            );
        }
    }
}

#[test]
fn test_block_builder_empty() {
    let mut builder = BlockBuilder::new();

    assert!(builder.empty());
    assert_eq!(builder.len(), 0);

    let (block_data, last_key) = builder.finish();

    assert_eq!(block_data.len(), 4);
    assert_eq!(last_key.len(), 0);
}

#[test]
fn test_block_builder_reset() {
    let mut builder = BlockBuilder::new();

    builder.add(b"key1", b"value1");
    builder.add(b"key2", b"value2");

    let len_before_finish = builder.len();
    assert!(len_before_finish > 0);

    builder.finish();

    builder.reset();

    assert!(builder.empty());
    assert_eq!(builder.len(), 0);

    builder.add(b"key3", b"value3");
    assert!(!builder.empty());
    assert!(!builder.is_empty());
}

#[test]
fn test_block_builder_various_lengths() {
    let mut builder = BlockBuilder::new();

    builder.add(b"a", b"v");
    builder.add(b"ab", b"val");
    builder.add(b"abc", b"value");
    builder.add(&[b'x'; 100], &[b'y'; 200]);

    let (block_data, _) = builder.finish();

    assert!(!block_data.is_empty());

    assert!(!block_data.is_empty());
}

#[test]
fn test_compute_shared() {
    let mut builder = BlockBuilder::new();

    builder.add(b"application", b"value1");

    assert_eq!(builder.compute_shared(b"apple"), 4); // "appl"
    assert_eq!(builder.compute_shared(b"apply"), 4); // "appl"
    assert_eq!(builder.compute_shared(b"app"), 3); // "app"
    assert_eq!(builder.compute_shared(b"a"), 1); // "a"
    assert_eq!(builder.compute_shared(b"application"), 11);
    assert_eq!(builder.compute_shared(b"banana"), 0);
    assert_eq!(builder.compute_shared(b""), 0);
}

#[test]
fn test_block_builder_same_keys() {
    let mut builder = BlockBuilder::new();

    builder.add(b"key", b"value1");
    builder.add(b"key", b"value2");
    builder.add(b"key", b"value3");

    let (block_data, _) = builder.finish();

    assert!(!block_data.is_empty());

}

#[test]
fn test_block_builder_special_keys() {
    let mut builder = BlockBuilder::new();

    builder.add(b"key_with_underscore", b"value1");
    builder.add(b"key-with-dash", b"value2");
    builder.add(b"key.with.dot", b"value3");
    builder.add(b"key space", b"value4");
    builder.add(b"123number", b"value5");

    let (block_data, _) = builder.finish();

    assert!(!block_data.is_empty());
}

#[test]
fn test_block_builder_empty_value() {
    let mut builder = BlockBuilder::new();

    builder.add(b"key1", b"");
    builder.add(b"key2", b"");
    builder.add(b"key3", b"");

    let (block_data, _) = builder.finish();

    assert!(!block_data.is_empty());
}

#[test]
fn test_block_builder_single_byte() {
    let mut builder = BlockBuilder::new();

    builder.add(b"a", b"1");
    builder.add(b"b", b"2");

    let (block_data, _) = builder.finish();

    assert!(!block_data.is_empty());
}

#[test]
fn test_block_builder_many_small_entries() {
    let mut builder = BlockBuilder::new();

    for i in 0..100 {
        let key = format!("k{}", i);
        let value = format!("v{}", i);
        builder.add(key.as_bytes(), value.as_bytes());
    }

    let (block_data, _) = builder.finish();

    assert!(!block_data.is_empty());

    let restart_count_bytes = &block_data[block_data.len() - 4..];
    let restart_count = u32::from_le_bytes([
        restart_count_bytes[0],
        restart_count_bytes[1],
        restart_count_bytes[2],
        restart_count_bytes[3],
    ]);

    assert_eq!(restart_count, 6);
}

#[test]
fn test_block_builder_compression_savings() {
    let mut builder = BlockBuilder::new();

    for i in 0..50 {
        let key = format!("very_long_common_prefix_{}", i);
        let value = format!("value_{}", i);
        builder.add(key.as_bytes(), value.as_bytes());
    }

    let (block_data, _) = builder.finish();

    let estimated_original: usize = 1900;
    assert!(
        block_data.len() < estimated_original,
        "Compressed size ({}) should be less than original ({})",
        block_data.len(),
        estimated_original
    );
}

#[test]
fn test_block_builder_continuous_use() {
    let mut builder = BlockBuilder::new();

    for i in 0..5 {
        let key = format!("block1_key{}", i);
        let value = format!("block1_value{}", i);
        builder.add(key.as_bytes(), value.as_bytes());
    }
    let (block1, last_key1) = builder.finish();

    let block1_data = block1.to_vec();
    let last_key1_data = last_key1.to_vec();

    builder.reset();
    for i in 0..5 {
        let key = format!("block2_key{}", i);
        let value = format!("block2_value{}", i);
        builder.add(key.as_bytes(), value.as_bytes());
    }
    let (block2, last_key2) = builder.finish();

    let block2_data = block2.to_vec();
    let last_key2_data = last_key2.to_vec();

    assert!(!block1_data.is_empty());
    assert!(!block2_data.is_empty());
    assert_eq!(&last_key1_data, b"block1_key4");
    assert_eq!(&last_key2_data, b"block2_key4");

    assert_ne!(&block1_data[..], &block2_data[..]);
}

#[test]
fn test_block_builder_key_order() {
    let mut builder = BlockBuilder::new();

    let keys: Vec<&[u8]> = vec![b"apple", b"banana", b"cherry", b"date"];

    for key in &keys {
        let value = format!("value_{}", String::from_utf8_lossy(key));
        builder.add(key, value.as_bytes());
    }

    let (_, last_key) = builder.finish();

    assert_eq!(last_key, *keys.last().unwrap());
}
