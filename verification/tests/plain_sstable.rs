//! Building and reading tables of the first layout.

use goat_db::error::TableReadError;
use goat_db::error_text::ErrorKind;
use goat_db::format::coding;
use goat_db::storage::sstable::table_format::{FOOTER_SIZE, MAGIC_NUMBER};
use goat_db::storage::sstable_builder::SSTableBuilder;
use goat_db::storage::sstable_reader::SSTableReader;

fn finished(mut builder: SSTableBuilder) -> Vec<u8> {
    builder.finish();
    builder.file_bytes().to_vec()
}

fn footer_offsets(bytes: &[u8]) -> (u64, u64) {
    let footer = &bytes[bytes.len() - FOOTER_SIZE..];
    let mut cursor = 0;
    let (bloom_offset, bloom_bytes_len) =
        coding::decode_varint64_with_length(&footer[cursor..]).unwrap();
    cursor += bloom_bytes_len;
    let (index_offset, _) = coding::decode_varint64_with_length(&footer[cursor..]).unwrap();
    (bloom_offset, index_offset)
}

#[test]
fn test_sstable_builder_basic() {
    let mut builder = SSTableBuilder::new(1, "dir");

    builder.write(b"apple", b"fruit");
    builder.write(b"banana", b"fruit");
    builder.write(b"cherry", b"fruit");

    let table = builder.finish();

    assert_eq!(table.path(), "dir/000001.sst");
    assert_eq!(table.id(), 1);
    assert!(builder.file_bytes().len() > 0);
}

#[test]
fn test_sstable_builder_file_name() {
    let filename1 = SSTableBuilder::get_file_name(1, "./data");
    assert_eq!(filename1, "./data/000001.sst");

    let filename2 = SSTableBuilder::get_file_name(999999, "./data");
    assert_eq!(filename2, "./data/999999.sst");

    let filename3 = SSTableBuilder::get_file_name(1000000, "./data");
    assert_eq!(filename3, "./data/1000000.sst");

    let filename4 = SSTableBuilder::get_file_name(1234567, "./data");
    assert_eq!(filename4, "./data/1234567.sst");
}

#[test]
fn test_sstable_builder_single_block() {
    let mut builder = SSTableBuilder::new(1, "dir");

    for i in 0..10 {
        let key = format!("key{}", i);
        let value = format!("value{}", i);
        builder.write(key.as_bytes(), value.as_bytes());
    }

    let bytes = finished(builder);
    assert!(bytes.len() > 100 && bytes.len() < 5000);
}

#[test]
fn test_sstable_builder_multiple_blocks() {
    let mut builder = SSTableBuilder::new(1, "dir");

    for i in 0..500 {
        let key = format!("key_{:010}", i);
        let value = format!("value_{}", i);
        builder.write(key.as_bytes(), value.as_bytes());
    }

    assert!(finished(builder).len() > 3000);
}

#[test]
fn test_compute_separator() {
    let separator = SSTableBuilder::compute_separator(b"key001", b"key002");
    assert_eq!(separator, b"key001");

    let separator = SSTableBuilder::compute_separator(b"key099", b"key100");
    assert_eq!(separator, b"key1");

    let separator = SSTableBuilder::compute_separator(b"apple", b"application");
    assert_eq!(separator, b"applf");

    let separator = SSTableBuilder::compute_separator(b"banana", b"band");
    assert_eq!(separator, b"banb");

    let separator = SSTableBuilder::compute_separator(b"aaa", b"bbb");
    assert_eq!(separator, b"b");

    let separator = SSTableBuilder::compute_separator(b"app", b"apple");
    assert_eq!(separator, b"app");
}

#[test]
fn test_sstable_builder_empty_key() {
    let mut builder = SSTableBuilder::new(1, "dir");

    builder.write(b"", b"empty_key_value");
    builder.write(b"a", b"next_value");

    assert!(finished(builder).len() > 0);
}

#[test]
fn test_sstable_builder_empty_value() {
    let mut builder = SSTableBuilder::new(1, "dir");

    builder.write(b"key1", b"");
    builder.write(b"key2", b"");
    builder.write(b"key3", b"");

    assert!(finished(builder).len() > 0);
}

#[test]
fn test_sstable_builder_special_keys() {
    let mut builder = SSTableBuilder::new(1, "dir");

    builder.write(b"key_with_underscore", b"value1");
    builder.write(b"key-with-dash", b"value2");
    builder.write(b"key.with.dot", b"value3");
    builder.write(b"key space", b"value4");
    builder.write(b"123number", b"value5");

    assert!(finished(builder).len() > 0);
}

#[test]
fn test_sstable_builder_large_value() {
    let mut builder = SSTableBuilder::new(1, "dir");

    let large_value = vec![b'x'; 10000];
    builder.write(b"key1", &large_value);
    builder.write(b"key2", &large_value);

    assert!(finished(builder).len() > 20000);
}

#[test]
fn test_sstable_builder_footer() {
    let mut builder = SSTableBuilder::new(1, "dir");

    for i in 0..50 {
        let key = format!("key{}", i);
        let value = format!("value{}", i);
        builder.write(key.as_bytes(), value.as_bytes());
    }

    let bytes = finished(builder);
    let file_size = bytes.len() as u64;
    let footer = &bytes[bytes.len() - FOOTER_SIZE..];

    let magic_bytes = &footer[footer.len() - 8..];
    let magic = u64::from_le_bytes([
        magic_bytes[0],
        magic_bytes[1],
        magic_bytes[2],
        magic_bytes[3],
        magic_bytes[4],
        magic_bytes[5],
        magic_bytes[6],
        magic_bytes[7],
    ]);
    assert_eq!(magic, MAGIC_NUMBER, "Magic number mismatch");

    let (bloom_offset, index_offset) = footer_offsets(&bytes);
    assert!(bloom_offset < file_size, "Bloom offset out of bounds");
    assert!(index_offset < file_size, "Index offset out of bounds");
    assert!(
        bloom_offset < index_offset,
        "Bloom offset should be before index offset"
    );
}

#[test]
fn test_sstable_builder_multiple_files() {
    for id in 1..=5u64 {
        let mut builder = SSTableBuilder::new(id, "dir");

        for i in 0..10 {
            let key = format!("key_{}_{}", id, i);
            let value = format!("value_{}_{}", id, i);
            builder.write(key.as_bytes(), value.as_bytes());
        }

        let table = builder.finish();
        assert_eq!(table.path(), format!("dir/{:06}.sst", id), "SSTable {} not created", id);
        assert!(builder.file_bytes().len() > 0);
    }
}

#[test]
fn test_sstable_builder_sequential_writes() {
    let mut builder = SSTableBuilder::new(1, "dir");

    for i in 0..100 {
        let key = format!("key_{:03}", i);
        let value = format!("value_{:03}", i);
        builder.write(key.as_bytes(), value.as_bytes());
    }

    assert!(finished(builder).len() > 0);
}

#[test]
fn test_sstable_builder_small_entries() {
    let mut builder = SSTableBuilder::new(1, "dir");

    builder.write(b"a", b"1");
    builder.write(b"b", b"2");
    builder.write(b"c", b"3");

    assert!(finished(builder).len() > 0);
}

#[test]
fn test_sstable_builder_many_entries() {
    let mut builder = SSTableBuilder::new(1, "dir");

    for i in 0..1000 {
        let key = format!("key_{:010}", i);
        let value = format!("value_{:010}", i);
        builder.write(key.as_bytes(), value.as_bytes());
    }

    assert!(finished(builder).len() > 20000);
}

#[test]
fn test_sstable_builder_bloom_filter() {
    let mut builder = SSTableBuilder::new(1, "dir");

    for i in 0..10 {
        let key = format!("key{}", i);
        let value = format!("value{}", i);
        builder.write(key.as_bytes(), value.as_bytes());
    }

    let (bloom_offset, index_offset) = footer_offsets(&finished(builder));
    assert!(bloom_offset < index_offset);

    let bloom_size = index_offset - bloom_offset;
    assert!(bloom_size > 0, "BloomFilter should have data");
}

#[test]
fn test_sstable_builder_index_block() {
    let mut builder = SSTableBuilder::new(1, "dir");

    for i in 0..100 {
        let key = format!("key_{:03}", i);
        let value = format!("value_{:03}", i);
        builder.write(key.as_bytes(), value.as_bytes());
    }

    let bytes = finished(builder);
    let file_size = bytes.len() as u64;
    let (bloom_offset, index_offset) = footer_offsets(&bytes);

    assert!(index_offset < file_size - FOOTER_SIZE as u64);
    assert!(index_offset > bloom_offset);

    let index_size = file_size - FOOTER_SIZE as u64 - index_offset;
    assert!(index_size > 0, "IndexBlock should have data");
}

fn create_test_sstable() -> Vec<u8> {
    let mut builder = SSTableBuilder::new(1, "dir");

    builder.write(b"apple", b"fruit1");
    builder.write(b"banana", b"fruit2");
    builder.write(b"cherry", b"fruit3");
    builder.write(b"date", b"fruit4");
    builder.write(b"elderberry", b"fruit5");

    finished(builder)
}

#[test]
fn sstable_reader_test_sstable_reader_open() {
    let reader = SSTableReader::open("dir/000001.sst", create_test_sstable());
    assert!(reader.is_ok());
    let reader = reader.unwrap();

    assert!(reader.index_entry_count() > 0);
    assert!(reader.min_key().is_some());
    assert_eq!(reader.file_path(), "dir/000001.sst");
}

#[test]
fn sstable_reader_test_sstable_reader_get() {
    let reader = SSTableReader::open("dir/000001.sst", create_test_sstable()).unwrap();

    let result = reader.get(b"apple");
    assert!(result.is_ok());
    let value = result.unwrap();
    assert_eq!(value, Some(b"fruit1".to_vec()));

    let result = reader.get(b"cherry");
    assert!(result.is_ok());
    let value = result.unwrap();
    assert_eq!(value, Some(b"fruit3".to_vec()));

    let result = reader.get(b"fig");
    assert!(result.is_ok());
    let value = result.unwrap();
    assert_eq!(value, None);
}

#[test]
fn sstable_reader_test_sstable_reader_may_contain() {
    let reader = SSTableReader::open("dir/000001.sst", create_test_sstable()).unwrap();

    assert!(reader.may_contain(b"apple"));
    assert!(reader.may_contain(b"banana"));

    let _ = reader.may_contain(b"nonexistent");
}

#[test]
fn sstable_reader_test_sstable_corrupted_file() {
    let reader = SSTableReader::open("corrupted.sst", b"invalid data".to_vec());
    assert!(reader.is_err());
}

#[test]
fn sstable_reader_test_sstable_small_file() {
    let reader = SSTableReader::open("tiny.sst", b"tiny".to_vec());
    assert!(reader.is_err());
}

#[test]
fn short_keys_of_many_blocks_are_found() {
    let mut builder = SSTableBuilder::new(1, "dir");
    for i in 0..3000 {
        builder.write(format!("k{:05}", i).as_bytes(), format!("v{}", i).as_bytes());
    }
    let reader = SSTableReader::open("t", finished(builder)).unwrap();
    assert!(reader.index_entry_count() > 5);
    for i in 0..3000 {
        assert_eq!(
            reader.get(format!("k{:05}", i).as_bytes()).unwrap(),
            Some(format!("v{}", i).into_bytes())
        );
    }
    assert_eq!(reader.get(b"k00000x").unwrap(), None);
    assert_eq!(reader.get(b"z").unwrap(), None);
}

#[test]
fn filter_holds_keys_without_their_trailers() {
    let mut builder = SSTableBuilder::new(1, "dir");
    builder.write(b"user\0\0\0\0\0\0\0\x01", b"v");
    let reader = SSTableReader::open("t", finished(builder)).unwrap();
    assert!(reader.may_contain(b"user"));
    assert!(!reader.may_contain(b"other"));
}

#[test]
fn long_keys_are_found() {
    let reader = SSTableReader::open("t", create_test_sstable()).unwrap();
    assert_eq!(reader.get(b"elderberry").unwrap(), Some(b"fruit5".to_vec()));
    let mut builder = SSTableBuilder::new(1, "dir");
    for i in 0..2000 {
        builder.write(format!("a longer key {:05}", i).as_bytes(), format!("v{}", i).as_bytes());
    }
    let reader = SSTableReader::open("t", finished(builder)).unwrap();
    assert!(reader.index_entry_count() > 2);
    for i in 0..2000 {
        assert_eq!(
            reader.get(format!("a longer key {:05}", i).as_bytes()).unwrap(),
            Some(format!("v{}", i).into_bytes())
        );
    }
    assert_eq!(reader.get(b"a longer key 00000x").unwrap(), None);
}

#[test]
fn block_beyond_the_file_cannot_be_read() {
    let mut builder = SSTableBuilder::new(1, "dir");
    builder.write(b"k", &vec![b'x'; 5000]);
    let mut bytes = finished(builder);
    let (_, index) = footer_offsets(&bytes);
    let at = index as usize;
    assert_eq!(&bytes[at..at + 5], &[0, 1, 3, b'k', 0]);
    bytes[at + 5] = 0xFF;
    bytes[at + 6] = 0x7F;
    let reader = SSTableReader::open("t", bytes).unwrap();
    let error = reader.get(b"k").unwrap_err();
    assert_eq!(error, TableReadError::ShortRead);
    assert_eq!(error.kind(), ErrorKind::Io);
    assert_eq!(error.to_string(), "failed to fill whole buffer");
}

#[test]
fn key_that_is_the_separator_before_it_is_found() {
    let mut builder = SSTableBuilder::new(1, "dir");
    let big = vec![b'x'; 5000];
    builder.write(b"ab", &big);
    builder.write(b"b", &big);
    let reader = SSTableReader::open("t", finished(builder)).unwrap();
    assert_eq!(reader.min_key(), Some(b"b".as_slice()));
    assert!(reader.get(b"ab").unwrap().is_some());
    assert!(reader.get(b"b").unwrap().is_some());
}

#[test]
fn open_failures_are_told_apart() {
    let good = create_test_sstable();
    let n = good.len();
    let try_open = |bytes: Vec<u8>| SSTableReader::open("t", bytes).unwrap_err();
    assert_eq!(try_open(good[..47].to_vec()), TableReadError::FileTooSmall);
    let mut magic = good.clone();
    magic[n - 8] ^= 1;
    assert!(matches!(try_open(magic), TableReadError::InvalidMagic(_)));
    let with_offsets = |bloom: u64, index: u64| {
        let mut bytes = good.clone();
        let mut footer = coding::encode_varint64(bloom);
        footer.extend(coding::encode_varint64(index));
        footer.resize(40, 0);
        bytes[n - 48..n - 8].copy_from_slice(&footer);
        bytes
    };
    assert_eq!(
        try_open(with_offsets(8, 7)),
        TableReadError::OffsetOrder { bloom_offset: 8, index_offset: 7 }
    );
    assert!(matches!(
        try_open(with_offsets(8, n as u64 - 48)),
        TableReadError::IndexBeyondFooter { .. }
    ));
    assert!(matches!(try_open(with_offsets(8, n as u64 - 50)), TableReadError::IndexBlock(_)));
    let mut index_varint = good.clone();
    index_varint[n - 48] = 1;
    index_varint[n - 47..n - 8].fill(0xFF);
    assert!(matches!(try_open(index_varint), TableReadError::IndexOffset(_)));
}
