//! Building and reading tables.

use goat_db::error::{BlockError, TableReadError, TableWriteError};
use goat_db::error_text::ErrorKind;
use goat_db::format::coding;
use goat_db::format::internal_key::{InternalKey, InternalKeyKind};
use goat_db::storage::sstable::compression::SstableBlockCompression;
use goat_db::storage::sstable::reader::SSTableReader;
use goat_db::storage::sstable::table_format::{
    FOOTER_FORMAT_METADATA_SIZE, FOOTER_SIZE, SSTABLE_FORMAT_VERSION_CURRENT,
    SSTABLE_FORMAT_VERSION_LEGACY,
};
use goat_db::storage::sstable::SSTableBuilder;
use goat_db::utils::paths::SstablePaths;

const FOOTER_FORMAT_MARKER: [u8; 4] = *b"GKFV";

fn paths() -> SstablePaths {
    SstablePaths::new("db/data".to_string(), "db/tmp".to_string())
}

fn finished(mut builder: SSTableBuilder) -> Vec<u8> {
    builder.finish().unwrap();
    builder.file_bytes().to_vec()
}

fn open(bytes: Vec<u8>) -> SSTableReader {
    SSTableReader::open("db/data/000001.sst", bytes).unwrap()
}

fn create_test_sstable() -> Vec<u8> {
    let mut builder = SSTableBuilder::new_with_manager(1, &paths(), 0);

    let mut sequence_number = 1000;
    let entries = vec![
        (b"apple".to_vec(), b"fruit1".to_vec()),
        (b"banana".to_vec(), b"fruit2".to_vec()),
        (b"cherry".to_vec(), b"fruit3".to_vec()),
        (b"date".to_vec(), b"fruit4".to_vec()),
        (b"elderberry".to_vec(), b"fruit5".to_vec()),
    ];

    for (key, value) in entries {
        let internal_key = InternalKey::new(key, sequence_number, InternalKeyKind::Put);
        let mut key_bytes = Vec::new();
        key_bytes.extend_from_slice(internal_key.user_key());
        key_bytes.extend_from_slice(&(!internal_key.encoded_sequence_number()).to_be_bytes());

        builder.write(&key_bytes, &value).unwrap();
        sequence_number -= 1;
    }

    finished(builder)
}

fn footer_padding_range(file_content: &[u8]) -> (usize, usize) {
    let footer_start = file_content.len() - FOOTER_SIZE;
    let footer = &file_content[footer_start..];
    let (_, bloom_bytes_len) =
        coding::decode_varint64_with_length(footer).expect("decode bloom offset");
    let (_, index_bytes_len) = coding::decode_varint64_with_length(&footer[bloom_bytes_len..])
        .expect("decode index offset");
    let padding_start = footer_start + bloom_bytes_len + index_bytes_len;
    let padding_end = file_content.len() - 8;
    (padding_start, padding_end)
}

#[test]
fn test_sstable_iter_all_data() {
    let mut builder = SSTableBuilder::new_with_manager(1, &paths(), 0);

    let mut test_data = Vec::new();
    for i in 0..200 {
        let key = format!("key_{:03}", i);
        let value = format!("value_{:03}", i);

        let internal_key = InternalKey::new(key.as_bytes().to_vec(), i, InternalKeyKind::Put);
        let key_bytes = key.as_bytes().to_vec();
        let value_bytes = value.as_bytes().to_vec();

        builder.write(&internal_key.serialize(), &value_bytes).unwrap();
        test_data.push((key_bytes, value_bytes));
    }

    let reader = open(finished(builder));
    let all_entries = reader.scan_all().unwrap();
    assert_eq!(all_entries.len(), test_data.len());
    for ((key, value), (user_key, expected)) in all_entries.iter().zip(&test_data) {
        assert_eq!(key.user_key(), user_key.as_slice());
        assert_eq!(value, expected);
    }
}

#[test]
fn test_scan_iterator_prefetches_upcoming_blocks() {
    let mut builder = SSTableBuilder::new_with_manager(1, &paths(), 0);

    let total_entries = 240usize;
    for i in 0..total_entries {
        let key = format!("scan_readahead_key_{:04}", i);
        let value = vec![b'x'; 1024];
        let internal_key = InternalKey::new(key.into_bytes(), i as u64, InternalKeyKind::Put);
        builder.write(&internal_key.serialize(), &value).unwrap();
    }

    let reader = open(finished(builder));
    assert!(reader.index_entry_count() > 1, "test requires multiple data blocks");
    let mut iter = reader.into_scan_iterator();
    assert!(
        iter.readahead_blocks() > 0,
        "readahead should be enabled for multi-block sstable"
    );
    assert!(
        iter.prefetched_block_count() > 0,
        "iterator should prefetch upcoming blocks at startup"
    );

    let mut seen = 0usize;
    while let Some((_key, _value)) = iter.next_entry().unwrap() {
        seen += 1;
        if seen == 1 {
            assert!(
                iter.prefetched_block_count() > 0,
                "iterator should keep prefetched upcoming blocks while scanning"
            );
        }
    }
    assert_eq!(seen, total_entries);
}

#[test]
fn test_scan_iterator_disables_readahead_for_single_block_sstable() {
    let mut builder = SSTableBuilder::new_with_manager(1, &paths(), 0);

    let key = InternalKey::new(b"single_block_key".to_vec(), 1, InternalKeyKind::Put);
    builder.write(&key.serialize(), b"single_block_value").unwrap();

    let reader = open(finished(builder));
    assert_eq!(reader.index_entry_count(), 1);

    let mut iter = reader.into_scan_iterator();
    assert_eq!(iter.readahead_blocks(), 0);
    assert_eq!(iter.prefetched_block_count(), 0);
    assert!(iter.next_entry().unwrap().is_some());
    assert!(iter.next_entry().unwrap().is_none());
}

#[test]
fn reader_test_sstable_reader_open() {
    let reader = SSTableReader::open("db/data/000001.sst", create_test_sstable());
    assert!(reader.is_ok());
    let reader = reader.unwrap();

    assert!(reader.index_entry_count() > 0);
    assert!(reader.min_key().is_some());
    assert_eq!(reader.format_version(), SSTABLE_FORMAT_VERSION_CURRENT);
}

#[test]
fn test_sstable_reader_compat_legacy_footer_without_format_marker() {
    let mut file_content = create_test_sstable();
    let (padding_start, padding_end) = footer_padding_range(&file_content);
    file_content[padding_start..padding_end].fill(0);

    let mut reader = SSTableReader::open("db/data/000001.sst", file_content)
        .expect("open legacy-compatible sstable");
    assert_eq!(reader.format_version(), SSTABLE_FORMAT_VERSION_LEGACY);
    assert!(reader.get(b"apple").expect("read").is_some());
}

#[test]
fn test_sstable_reader_rejects_unsupported_format_version() {
    let mut file_content = create_test_sstable();
    let (padding_start, padding_end) = footer_padding_range(&file_content);
    let padding = &mut file_content[padding_start..padding_end];
    assert!(padding.len() >= FOOTER_FORMAT_METADATA_SIZE);
    padding[..4].copy_from_slice(&FOOTER_FORMAT_MARKER);
    padding[4] = SSTABLE_FORMAT_VERSION_CURRENT + 1;

    let err = SSTableReader::open("db/data/000001.sst", file_content)
        .expect_err("unsupported format should fail open");
    assert_eq!(err.kind(), ErrorKind::Corruption);
    assert!(err.to_string().contains("unsupported sstable format version"));
}

#[test]
fn reader_test_sstable_reader_get() {
    let mut reader = open(create_test_sstable());

    let result = reader.get(b"apple");
    assert!(result.is_ok());
    let (_, value) = result.unwrap().unwrap();
    assert_eq!(value, b"fruit1".to_vec());

    let result = reader.get(b"cherry");
    assert!(result.is_ok());
    let (_, value) = result.unwrap().unwrap();
    assert_eq!(value, b"fruit3".to_vec());

    let result = reader.get(b"fig");
    assert!(result.is_ok());
    let value = result.unwrap();
    assert_eq!(value, None);
}

#[test]
fn test_sstable_reader_get_pinned_at_seq_returns_visible_version() {
    let mut builder = SSTableBuilder::new_with_manager(1, &paths(), 0);

    for seq in (10u64..=30u64).rev() {
        let internal_key = InternalKey::new(b"k1".to_vec(), seq, InternalKeyKind::Put);
        builder
            .write(&internal_key.serialize(), format!("v{}", seq).as_bytes())
            .unwrap();
    }

    let mut reader = open(finished(builder));

    let (internal_key, value) = reader.get_pinned_at_seq(b"k1", 25).unwrap().unwrap();
    assert_eq!(internal_key.sequence_number(), 25);
    assert_eq!(value.as_slice(), b"v25");

    assert!(reader.get_pinned_at_seq(b"k1", 5).unwrap().is_none());
}

#[test]
fn test_sstable_reader_get_pinned_at_seq_crosses_blocks() {
    let mut builder = SSTableBuilder::new_with_manager(1, &paths(), 0);

    for seq in (1u64..=200u64).rev() {
        let internal_key = InternalKey::new(b"k1".to_vec(), seq, InternalKeyKind::Put);
        let value = vec![(seq % 251) as u8; 256];
        builder.write(&internal_key.serialize(), &value).unwrap();
    }

    let mut reader = open(finished(builder));
    assert!(reader.index_entry_count() > 1, "test requires multiple data blocks");

    let (internal_key, value) = reader.get_pinned_at_seq(b"k1", 123).unwrap().unwrap();
    assert_eq!(internal_key.sequence_number(), 123);
    assert_eq!(value.as_slice(), vec![123u8; 256].as_slice());
}

#[test]
fn test_sstable_reader_reuses_cached_block_search_index_for_hot_get() {
    let mut reader = open(create_test_sstable());

    assert_eq!(reader.cached_block_search_index_count(), 0);
    assert!(reader.get(b"apple").unwrap().is_some());
    assert_eq!(reader.cached_block_search_index_count(), 1);

    assert!(reader.get(b"banana").unwrap().is_some());
    assert_eq!(reader.cached_block_search_index_count(), 1);
}

#[test]
fn reader_test_sstable_reader_may_contain() {
    let mut reader = open(create_test_sstable());

    assert!(reader.may_contain(b"apple"));
    assert!(reader.may_contain(b"banana"));

    let _ = reader.may_contain(b"nonexistent");
}

#[test]
fn test_partitioned_bloom_respects_prefix_extractor() {
    let mut builder = SSTableBuilder::new_with_bloom_prefix_extractor(1, &paths(), 3);

    let rows = [
        (b"abc-001".as_slice(), b"v1".as_slice()),
        (b"abc-002".as_slice(), b"v2".as_slice()),
        (b"xyz-001".as_slice(), b"v3".as_slice()),
    ];
    for (idx, (user_key, value)) in rows.iter().enumerate() {
        let internal_key = InternalKey::new(
            (*user_key).to_vec(),
            (100 - idx) as u64,
            InternalKeyKind::Put,
        );
        builder.write(&internal_key.serialize(), value).expect("write row");
    }

    let mut reader = open(finished(builder));

    assert!(reader.may_contain(b"abc-999"));
    assert_eq!(reader.get(b"abc-999").expect("get"), None);
    assert!(!reader.may_contain(b"qqq-111"));
}

#[test]
fn test_partitioned_bloom_loads_partitions_lazily() {
    let mut builder = SSTableBuilder::new_with_bloom_prefix_extractor(1, &paths(), 0);

    for i in 0..128u64 {
        let user_key = format!("lazy_key_{:03}", i).into_bytes();
        let internal_key = InternalKey::new(user_key, i, InternalKeyKind::Put);
        let value = vec![b'x'; 1024];
        builder.write(&internal_key.serialize(), &value).expect("write row");
    }

    let mut reader = open(finished(builder));

    assert_eq!(reader.loaded_bloom_partition_count(), 0);
    assert!(reader.may_contain(b"lazy_key_003"));
    assert_eq!(reader.loaded_bloom_partition_count(), 1);
    assert!(reader.may_contain(b"lazy_key_120"));
    assert!(reader.loaded_bloom_partition_count() >= 2);
}

#[test]
fn reader_test_sstable_corrupted_file() {
    let reader = SSTableReader::open("corrupted.sst", b"invalid data".to_vec());
    assert!(reader.is_err());
}

#[test]
fn reader_test_sstable_small_file() {
    let reader = SSTableReader::open("tiny.sst", b"tiny".to_vec());
    assert!(reader.is_err());
}

#[test]
fn test_sstable_reader_reports_invalid_internal_key_kind() {
    let mut builder = SSTableBuilder::new_with_manager(1, &paths(), 0);

    let mut raw_key = b"bad_kind".to_vec();
    let encoded_sequence_with_invalid_kind = (42u64 << 8) | 2u64;
    raw_key.extend_from_slice(&(!encoded_sequence_with_invalid_kind).to_be_bytes());
    builder.write(&raw_key, b"value").unwrap();

    let mut reader = open(finished(builder));
    let err = reader
        .get(b"bad_kind")
        .expect_err("invalid kind should be reported as corruption");
    assert_eq!(err.kind(), ErrorKind::Corruption);
    assert!(err.to_string().contains("invalid internal key kind"));
}

#[test]
fn test_sstable_reader_reports_data_block_checksum_mismatch() {
    let mut file_content = create_test_sstable();
    file_content[0] ^= 0x01;

    let mut reader = open(file_content);
    let err = reader
        .get(b"apple")
        .expect_err("corrupted data block must return corruption");
    assert_eq!(err.kind(), ErrorKind::Corruption);
    assert!(err.to_string().contains("data block checksum mismatch"));
}

#[test]
fn test_sstable_open_reports_index_block_checksum_mismatch() {
    let mut file_content = create_test_sstable();
    let index_tail_pos = file_content.len() - FOOTER_SIZE - 1;
    file_content[index_tail_pos] ^= 0x01;

    let err = SSTableReader::open("db/data/000001.sst", file_content)
        .expect_err("corrupted index block must fail open");
    assert_eq!(err.kind(), ErrorKind::Corruption);
    assert!(err.to_string().contains("index block checksum mismatch"));
}

// ---- beyond the basics ----

#[test]
fn block_checksums_are_crc32() {
    let bytes = create_test_sstable();
    let (padding_start, _) = footer_padding_range(&bytes);
    let footer = &bytes[bytes.len() - FOOTER_SIZE..];
    let (bloom_offset, _) = coding::decode_varint64_with_length(footer).unwrap();
    let block = &bytes[..bloom_offset as usize];
    let (payload, sum) = block.split_at(block.len() - 4);
    assert_eq!(crc32fast::hash(payload).to_le_bytes(), sum);
    assert!(padding_start > bytes.len() - FOOTER_SIZE);
}

#[test]
fn finish_reports_what_was_written() {
    let mut builder = SSTableBuilder::new(12, &paths());
    assert_eq!(builder.id(), 12);
    assert_eq!(builder.final_path(), "db/data/000012.sst");
    assert_eq!(builder.tmp_path(), "db/tmp/sstable_000012.tmp");
    let first = InternalKey::new(b"a".to_vec(), 7, InternalKeyKind::Put).serialize();
    let last = InternalKey::new(b"b".to_vec(), 3, InternalKeyKind::Delete).serialize();
    builder.write(&first, b"v").unwrap();
    builder.write(&last, b"").unwrap();
    let props = builder.finish().unwrap();
    assert_eq!(props.smallest_key, first);
    assert_eq!(props.largest_key, last);
    assert_eq!((props.smallest_seqno, props.largest_seqno), (3, 7));
    assert_eq!(props.file_size, builder.file_bytes().len() as u64);
    assert_eq!(builder.finish().unwrap_err(), TableWriteError::Finished);
}

#[test]
fn short_keys_are_not_written() {
    let mut builder = SSTableBuilder::new(1, &paths());
    assert_eq!(builder.write(b"short", b"v"), Err(TableWriteError::KeyTooShort));
    assert_eq!(builder.write(b"exactly8", b"v"), Ok(()));
}

#[test]
fn empty_table_opens_and_finds_nothing() {
    let mut reader = open(finished(SSTableBuilder::new(1, &paths())));
    assert_eq!(reader.index_entry_count(), 0);
    assert!(reader.min_key().is_none());
    assert!(reader.get(b"a").unwrap().is_none());
    assert!(reader.scan_all().unwrap().is_empty());
}

#[test]
fn every_key_of_a_large_table_is_found() {
    let mut builder = SSTableBuilder::new(1, &paths());
    for i in 0..2000u64 {
        let key = InternalKey::new(format!("key{:05}", i).into_bytes(), i, InternalKeyKind::Put);
        builder.write(&key.serialize(), format!("value{}", i).as_bytes()).unwrap();
    }
    let mut reader = open(finished(builder));
    assert!(reader.index_entry_count() > 5);
    for i in 0..2000u64 {
        let (key, value) = reader.get(format!("key{:05}", i).as_bytes()).unwrap().unwrap();
        assert_eq!(key.sequence_number(), i);
        assert_eq!(value, format!("value{}", i).into_bytes());
    }
    for missing in ["key", "key00000x", "key02000", "a", "z"] {
        assert!(reader.get(missing.as_bytes()).unwrap().is_none());
    }
}

#[test]
fn key_that_is_a_separator_is_found() {
    let mut builder = SSTableBuilder::new(1, &paths());
    let big = vec![b'x'; 5000];
    for name in ["ab", "b", "c"] {
        let key = InternalKey::new(name.as_bytes().to_vec(), 1, InternalKeyKind::Put);
        builder.write(&key.serialize(), &big).unwrap();
    }
    let mut reader = open(finished(builder));
    assert_eq!(reader.index_entry_count(), 3);
    for name in ["ab", "b", "c"] {
        assert!(reader.may_contain(name.as_bytes()));
        assert!(reader.get(name.as_bytes()).unwrap().is_some());
    }
}

#[test]
fn keys_that_continue_others_with_zero_bytes_are_found() {
    let mut builder = SSTableBuilder::new(1, &paths());
    let big = vec![b'x'; 5000];
    let names: [&[u8]; 6] = [b"", b"\0", b"a", b"a\0", b"a\0\0\0\0\0\0\0\0\0\0", b"b"];
    for (i, name) in names.iter().enumerate() {
        let key = InternalKey::new(name.to_vec(), 9 - i as u64, InternalKeyKind::Put);
        builder.write(&key.serialize(), &big).unwrap();
    }
    let mut reader = open(finished(builder));
    assert_eq!(reader.index_entry_count(), 6);
    for (i, name) in names.iter().enumerate() {
        assert!(reader.may_contain(name));
        let (key, value) = reader.get(name).unwrap().unwrap();
        assert_eq!((key.user_key(), key.sequence_number()), (*name, 9 - i as u64));
        assert_eq!(value, big);
    }
    assert!(reader.get(b"a\0\0").unwrap().is_none());
    let scanned = reader.scan_all().unwrap();
    let users: Vec<&[u8]> = scanned.iter().map(|(key, _)| key.user_key()).collect();
    assert_eq!(users, names.to_vec());
}

#[test]
fn unordered_tables_are_scanned_whole_and_find_nothing_unwritten() {
    let mut builder = SSTableBuilder::new(1, &paths());
    let big = vec![b'x'; 5000];
    for name in ["c", "a", "d", "b"] {
        let key = InternalKey::new(name.as_bytes().to_vec(), 1, InternalKeyKind::Put);
        builder.write(&key.serialize(), &big).unwrap();
    }
    let mut reader = open(finished(builder));
    let scanned = reader.scan_all().unwrap();
    let mut users: Vec<&[u8]> = scanned.iter().map(|(key, _)| key.user_key()).collect();
    users.sort();
    assert_eq!(users, [b"a".as_slice(), b"b", b"c", b"d"]);
    for missing in ["", "0", "aa", "bb", "cc", "e"] {
        assert!(reader.get(missing.as_bytes()).unwrap().is_none());
    }
}

#[test]
fn compressed_tables_carry_another_version() {
    let mut builder = SSTableBuilder::new_with_bloom_prefix_extractor_and_compression(
        1,
        &paths(),
        0,
        SstableBlockCompression::Rle,
    );
    let key = InternalKey::new(b"a".to_vec(), 1, InternalKeyKind::Put);
    builder.write(&key.serialize(), &vec![b'x'; 3000]).unwrap();
    let bytes = finished(builder);
    assert!(bytes.len() < 3000);
    assert_eq!(
        SSTableReader::open("t", bytes).unwrap_err(),
        TableReadError::UnsupportedVersion(2)
    );
}

#[test]
fn damaged_footers_are_told_apart() {
    let good = create_test_sstable();
    let n = good.len();
    let try_open = |bytes: Vec<u8>| SSTableReader::open("t", bytes).unwrap_err();

    assert_eq!(try_open(good[..40].to_vec()), TableReadError::FileTooSmall);

    let mut magic = good.clone();
    magic[n - 1] ^= 1;
    assert!(matches!(try_open(magic), TableReadError::InvalidMagic(_)));

    let with_offsets = |bloom: u64, index: u64| {
        let mut bytes = good.clone();
        let mut footer = coding::encode_varint64(bloom);
        footer.extend(coding::encode_varint64(index));
        footer.resize(40, 0);
        bytes[n - 48..n - 8].copy_from_slice(&footer);
        bytes
    };
    assert!(matches!(
        try_open(with_offsets(1 << 40, 3)),
        TableReadError::BloomOffsetOutOfRange { bloom_offset, .. } if bloom_offset == 1 << 40
    ));
    assert!(matches!(
        try_open(with_offsets(3, 1 << 40)),
        TableReadError::IndexOffsetOutOfRange { index_offset, .. } if index_offset == 1 << 40
    ));
    assert_eq!(
        try_open(with_offsets(9, 9)),
        TableReadError::OffsetOrder { bloom_offset: 9, index_offset: 9 }
    );
    assert!(matches!(
        try_open(with_offsets(9, n as u64 - 20)),
        TableReadError::IndexBeyondFooter { .. }
    ));
    assert_eq!(try_open(with_offsets(9, n as u64 - 50)), TableReadError::IndexTooSmall);

    let mut varint = good.clone();
    varint[n - 48..n - 8].fill(0xFF);
    assert!(matches!(try_open(varint), TableReadError::BloomOffset(_)));
}

#[test]
fn error_texts_say_what_is_wrong() {
    assert_eq!(
        TableReadError::OffsetOrder { bloom_offset: 9, index_offset: 8 }.to_string(),
        "Invalid offset order: bloom_offset=9 >= index_offset=8"
    );
    assert_eq!(
        TableReadError::InvalidMagic(0xAB).to_string(),
        "Invalid magic number: expected 706a725f676f6174, got ab"
    );
    assert_eq!(
        TableReadError::DataBlock(BlockError::TooSmallForCount).to_string(),
        format!("Failed to parse data block: {}", BlockError::TooSmallForCount.to_string())
    );
}
