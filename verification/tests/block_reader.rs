//! Reading blocks.

use goat_db::format::internal_key::{InternalKey, InternalKeyKind};
use goat_db::storage::sstable::{BlockBuilder, BlockReader};

#[test]
fn test_block_reader_new() {
    let mut builder = BlockBuilder::new();
    builder.add(b"key1", b"value1");
    builder.add(b"key2", b"value2");
    let (data, _) = builder.finish();

    let reader = BlockReader::new(data);
    assert!(reader.is_ok());
}

#[test]
fn test_block_reader_empty() {
    let mut builder = BlockBuilder::new();
    let (data, _) = builder.finish();

    let reader = BlockReader::new(data).unwrap();
    assert_eq!(reader.restarts().len(), 0);
    assert_eq!(reader.entry_count(), 0);
}

#[test]
fn test_block_reader_iter() {
    let mut builder = BlockBuilder::new();
    builder.add(b"key1", b"value1");
    builder.add(b"key2", b"value2");
    builder.add(b"key3", b"value3");
    let (data, _) = builder.finish();

    let reader = BlockReader::new(data).unwrap();
    let mut iter = reader.iter();

    assert_eq!(iter.next(), Some((b"key1".to_vec(), b"value1".to_vec())));
    assert_eq!(iter.next(), Some((b"key2".to_vec(), b"value2".to_vec())));
    assert_eq!(iter.next(), Some((b"key3".to_vec(), b"value3".to_vec())));
    assert_eq!(iter.next(), None);
}

#[test]
fn test_block_reader_get() {
    let mut builder = BlockBuilder::new();
    builder.add(b"key1", b"value1");
    builder.add(b"key2", b"value2");
    builder.add(b"key3", b"value3");
    let (data, _) = builder.finish();

    let reader = BlockReader::new(data).unwrap();

    let result1 = reader.get(b"key1");
    let result2 = reader.get(b"key2");
    let result3 = reader.get(b"key3");

    assert_eq!(result1, Some(b"value1".to_vec()));
    assert_eq!(result2, Some(b"value2".to_vec()));
    assert_eq!(result3, Some(b"value3".to_vec()));
    assert_eq!(reader.get(b"key4"), None);
}

#[test]
fn test_block_reader_with_shared_prefix() {
    let mut builder = BlockBuilder::new();
    builder.add(b"apple", b"value1");
    builder.add(b"application", b"value2");
    builder.add(b"apply", b"value3");
    let (data, _) = builder.finish();

    let reader = BlockReader::new(data).unwrap();

    assert_eq!(reader.get(b"apple"), Some(b"value1".to_vec()));
    assert_eq!(reader.get(b"application"), Some(b"value2".to_vec()));
    assert_eq!(reader.get(b"apply"), Some(b"value3".to_vec()));
    assert_eq!(reader.get(b"app"), None);
    assert_eq!(reader.get(b"appl"), None);

    let mut iter = reader.iter();
    assert_eq!(iter.next(), Some((b"apple".to_vec(), b"value1".to_vec())));
    assert_eq!(
        iter.next(),
        Some((b"application".to_vec(), b"value2".to_vec()))
    );
    assert_eq!(iter.next(), Some((b"apply".to_vec(), b"value3".to_vec())));
    assert_eq!(iter.next(), None);
}

#[test]
fn test_block_reader_many_entries() {
    let mut builder = BlockBuilder::new();

    for i in 0..10 {
        let key = format!("k{}", i);
        let value = format!("v{}", i);
        builder.add(key.as_bytes(), value.as_bytes());
    }

    let (data, _) = builder.finish();
    let reader = BlockReader::new(data).unwrap();

    for i in 0..10 {
        let key = format!("k{}", i);
        let expected_value = format!("v{}", i);
        assert_eq!(
            reader.get(key.as_bytes()),
            Some(expected_value.into_bytes()),
            "Failed to get key {}",
            i
        );
    }

    let mut iter = reader.iter();
    for i in 0..10 {
        let expected_key = format!("k{}", i);
        let expected_value = format!("v{}", i);
        assert_eq!(
            iter.next(),
            Some((expected_key.into_bytes(), expected_value.into_bytes())),
            "Failed to iterate at index {}",
            i
        );
    }
    assert_eq!(iter.next(), None, "Iterator should be exhausted");
}

#[test]
fn test_block_reader_corrupted_data() {
    let data = vec![0u8; 3];
    let reader = BlockReader::new(&data);
    assert!(reader.is_err(), "Data too small should return error");

    let data = vec![
        0x80, 0x80, 0x80, 0x80, 0x80, 0x80, 0x80, 0x80, 0x80, 0x80, 0x00,
    ];
    let reader = BlockReader::new(&data);
    assert!(reader.is_err(), "Incomplete varint should return error");

    let mut data = vec![0u8; 100];
    data[96..100].copy_from_slice(&100u32.to_le_bytes());
    let reader = BlockReader::new(&data);
    assert!(reader.is_err(), "Invalid restart count should return error");
}

#[test]
fn test_block_reader_get_by_user_key_with_versions() {
    let mut builder = BlockBuilder::new();
    let k1_latest = InternalKey::new(b"k1".to_vec(), 30, InternalKeyKind::Put).serialize();
    let k1_old = InternalKey::new(b"k1".to_vec(), 20, InternalKeyKind::Put).serialize();
    let k2_latest = InternalKey::new(b"k2".to_vec(), 10, InternalKeyKind::Put).serialize();
    builder.add(&k1_latest, b"v30");
    builder.add(&k1_old, b"v20");
    builder.add(&k2_latest, b"v10");
    let (data, _) = builder.finish();

    let reader = BlockReader::new(data).unwrap();
    let (internal_key, value) = reader.get_by_user_key(b"k1").unwrap();
    assert_eq!(internal_key.serialize(), k1_latest);
    assert_eq!(value, b"v30".to_vec());
    assert!(reader.get_by_user_key(b"absent").is_none());
}

#[test]
fn test_block_reader_get_by_user_key_cross_restart_boundary() {
    let mut builder = BlockBuilder::new();

    for seq in (86u64..=100u64).rev() {
        let key = InternalKey::new(b"aa".to_vec(), seq, InternalKeyKind::Put).serialize();
        let value = format!("aa_{}", seq).into_bytes();
        builder.add(&key, &value);
    }

    let mut expected_latest_bb_key = Vec::new();
    for seq in (180u64..=200u64).rev() {
        let key = InternalKey::new(b"bb".to_vec(), seq, InternalKeyKind::Put).serialize();
        if seq == 200 {
            expected_latest_bb_key = key.clone();
        }
        let value = format!("bb_{}", seq).into_bytes();
        builder.add(&key, &value);
    }

    let (data, _) = builder.finish();
    let reader = BlockReader::new(data).unwrap();
    let (internal_key, value) = reader.get_by_user_key(b"bb").unwrap();
    assert_eq!(internal_key.serialize(), expected_latest_bb_key);
    assert_eq!(value, b"bb_200".to_vec());
}

#[test]
fn test_block_reader_get_by_user_key_at_seq_with_versions() {
    let mut builder = BlockBuilder::new();
    let k1_v30 = InternalKey::new(b"k1".to_vec(), 30, InternalKeyKind::Put).serialize();
    let k1_v20 = InternalKey::new(b"k1".to_vec(), 20, InternalKeyKind::Put).serialize();
    let k1_v10 = InternalKey::new(b"k1".to_vec(), 10, InternalKeyKind::Put).serialize();
    builder.add(&k1_v30, b"v30");
    builder.add(&k1_v20, b"v20");
    builder.add(&k1_v10, b"v10");
    let (data, _) = builder.finish();

    let reader = BlockReader::new(data).unwrap();
    let (internal_key, _, _) = reader
        .get_by_user_key_with_value_range_at_seq(b"k1", 25)
        .unwrap();
    assert_eq!(internal_key.sequence_number(), 20);

    let (internal_key, _, _) = reader
        .get_by_user_key_with_value_range_at_seq(b"k1", 10)
        .unwrap();
    assert_eq!(internal_key.sequence_number(), 10);
    assert!(reader
        .get_by_user_key_with_value_range_at_seq(b"k1", 5)
        .is_none());
}

#[test]
fn test_block_reader_get_by_user_key_at_seq_cross_restart_boundary() {
    let mut builder = BlockBuilder::new();

    for seq in (86u64..=100u64).rev() {
        let key = InternalKey::new(b"aa".to_vec(), seq, InternalKeyKind::Put).serialize();
        let value = format!("aa_{}", seq).into_bytes();
        builder.add(&key, &value);
    }

    for seq in (180u64..=200u64).rev() {
        let key = InternalKey::new(b"bb".to_vec(), seq, InternalKeyKind::Put).serialize();
        let value = format!("bb_{}", seq).into_bytes();
        builder.add(&key, &value);
    }

    let (data, _) = builder.finish();
    let reader = BlockReader::new(data).unwrap();

    let (internal_key, _, _) = reader
        .get_by_user_key_with_value_range_at_seq(b"bb", 189)
        .unwrap();
    assert_eq!(internal_key.sequence_number(), 189);
}
