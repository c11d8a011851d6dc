//! The file that says how a database was made.

use goat_db::error_text::ErrorKind;
use goat_db::utils::db_meta::{
    detect_existing_shards, ensure_db_meta, meta_path, meta_temp_path, read_meta, validate_meta,
    write_meta, DbMeta, MetaError,
};

fn dirs(names: &[(&str, bool)]) -> Vec<(String, bool)> {
    names.iter().map(|(n, d)| (n.to_string(), *d)).collect()
}

const TEXT: &str = "format_version=1\nshard_count=4\nhash_algo=xxhash64\nhash_seed=0\n";

#[test]
fn written_files_are_read_back() {
    let meta = DbMeta::for_options(4);
    assert_eq!(write_meta(&meta), TEXT);
    let read = read_meta(TEXT).unwrap();
    assert_eq!((read.format_version, read.shard_count, read.hash_seed), (1, 4, 0));
    assert_eq!(read.hash_algo, "xxhash64");
    assert!(validate_meta(&read, 4).is_ok());
}

#[test]
fn comments_blanks_and_unknown_fields_are_skipped() {
    let text = "# made by hand\n\n  shard_count = 2 \nformat_version=1\r\ncolor=red\nhash_algo=xxhash64\nhash_seed=0";
    let read = read_meta(text).unwrap();
    assert_eq!(read.shard_count, 2);
}

#[test]
fn every_fault_of_a_file_is_told() {
    let fault = |text: &str| read_meta(text).unwrap_err();
    assert!(matches!(fault("nonsense"), MetaError::InvalidLine));
    assert!(matches!(fault("format_version=x"), MetaError::InvalidFormatVersion));
    assert!(matches!(fault("shard_count=-1"), MetaError::InvalidShardCount));
    assert!(matches!(fault("hash_seed="), MetaError::InvalidHashSeed));
    assert!(matches!(fault(""), MetaError::MissingFormatVersion));
    assert!(matches!(fault("format_version=1"), MetaError::MissingShardCount));
    assert!(matches!(
        fault("format_version=1\nshard_count=1"),
        MetaError::MissingHashAlgo
    ));
    assert!(matches!(
        fault("format_version=1\nshard_count=1\nhash_algo=a"),
        MetaError::MissingHashSeed
    ));
    assert!(matches!(fault("format_version=4294967296"), MetaError::InvalidFormatVersion));
    assert_eq!(fault("").kind(), ErrorKind::Corruption);
    assert_eq!(fault("").to_string(), "missing format_version");
}

#[test]
fn other_settings_are_refused() {
    let mut meta = DbMeta::for_options(4);
    match validate_meta(&meta, 5).unwrap_err() {
        MetaError::ShardCount { expected, found } => assert_eq!((expected, found), (5, 4)),
        other => panic!("unexpected: {:?}", other),
    }
    meta.hash_seed = 9;
    assert!(matches!(validate_meta(&meta, 4), Err(MetaError::HashSeed(9))));
    meta.hash_algo = "md5".to_string();
    let err = validate_meta(&meta, 4).unwrap_err();
    assert_eq!(err.kind(), ErrorKind::InvalidArgument);
    assert!(err.to_string().ends_with("found md5"));
    meta.format_version = 2;
    assert!(matches!(validate_meta(&meta, 4), Err(MetaError::FormatVersion(2))));
}

#[test]
fn shard_directories_are_counted() {
    assert_eq!(detect_existing_shards(&[]).unwrap(), None);
    let found = dirs(&[("shard1", true), ("shard0", true), ("shard2", false), ("log", true)]);
    assert_eq!(detect_existing_shards(&found).unwrap(), Some(2));
    let gap = dirs(&[("shard0", true), ("shard3", true), ("shard2", true)]);
    match detect_existing_shards(&gap).unwrap_err() {
        MetaError::ShardGap { missing, following } => assert_eq!((missing, following), (1, 2)),
        other => panic!("unexpected: {:?}", other),
    }
    assert_eq!(detect_existing_shards(&dirs(&[("shardx", true)])).unwrap(), None);
}

#[test]
fn databases_get_a_file_once() {
    assert_eq!(ensure_db_meta(None, &[], 4).unwrap(), Some(TEXT.to_string()));
    assert_eq!(ensure_db_meta(Some(TEXT), &[], 4).unwrap(), None);
    assert!(ensure_db_meta(Some(TEXT), &[], 3).is_err());
    let two = dirs(&[("shard0", true), ("shard1", true)]);
    assert!(ensure_db_meta(None, &two, 2).unwrap().is_some());
    match ensure_db_meta(None, &two, 3).unwrap_err() {
        MetaError::ShardDirectories { wanted, present } => assert_eq!((wanted, present), (3, 2)),
        other => panic!("unexpected: {:?}", other),
    }
}

#[test]
fn the_file_lies_in_the_data_directory() {
    assert!(meta_path("/db").starts_with("/db/"));
    assert!(meta_temp_path("/db").starts_with("/db/"));
    assert_ne!(meta_path("/db"), meta_temp_path("/db"));
}
