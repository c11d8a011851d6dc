//! Where files lie.

use goat_db::utils::db_path_manager::DbPathManager;
use goat_db::utils::clock::millis_or_zero;
use goat_db::utils::path_helpers::sstable_filename_at;
use goat_db::utils::paths::{ManifestPaths, SstablePaths, WalPaths};

#[test]
fn test_create_path_manager() {
    let manager = DbPathManager::new("/base");
    assert_eq!(
        manager.directories(),
        vec!["/base", "/base/data", "/base/wal", "/base/log", "/base/tmp"]
    );
    assert_eq!(manager.base_path(), "/base");
    assert_eq!(manager.data_dir(), "/base/data");
    assert_eq!(manager.wal_dir(), "/base/wal");
    assert_eq!(manager.log_dir(), "/base/log");
    assert_eq!(manager.tmp_dir(), "/base/tmp");

    let wal_path = manager.main_wal_path();
    assert_eq!(wal_path, "/base/wal/goatdb.wal");
}

#[test]
fn test_path_methods() {
    let manager = DbPathManager::new("/base");

    assert_eq!(manager.wal_path("custom.wal"), "/base/wal/custom.wal");
    assert_eq!(manager.sstable_path("level0.sst"), "/base/data/level0.sst");

    let timestamped = manager.timestamped_sstable_path();
    let filename = timestamped.strip_prefix("/base/data/").unwrap();
    assert!(filename.starts_with("sstable_"));
    assert!(filename.ends_with(".db"));
    let millis: u128 = filename["sstable_".len()..filename.len() - 3].parse().unwrap();
    assert!(millis > 1_600_000_000_000);
}

#[test]
fn test_validate_paths() {
    let manager = DbPathManager::new("/base");
    manager.validate_paths(&[true; 5]).unwrap();
    assert_eq!(
        manager.validate_paths(&[true, true, false, true, false]).unwrap_err(),
        "Directory 'wal_dir' does not exist: \"/base/wal\""
    );
}

#[test]
fn test_path_summary() {
    let manager = DbPathManager::new("/base");

    let summary = manager.path_summary();

    assert!(summary.contains("Database Paths:"));
    assert!(summary.contains("Base:"));
    assert!(summary.contains("Data:"));
    assert!(summary.contains("WAL:"));
    assert!(summary.contains("Log:"));
    assert!(summary.contains("Temp:"));

    let base_str = format!("{:?}", manager.base_path());
    assert!(summary.contains(&base_str));
}

#[test]
fn test_for_test_method() {
    let manager = DbPathManager::for_test("/tmp", 12345);

    let base_str = manager.base_path();
    assert!(base_str.contains("goatdb_test"));
    assert!(base_str.contains("test_"));
    assert_eq!(base_str, "/tmp/goatdb_test/test_12345");
}

#[test]
fn test_available_disk_space() {
    let manager = DbPathManager::new("/base");
    assert!(manager.available_disk_space().is_none());
}

#[test]
fn test_has_enough_space() {
    let manager = DbPathManager::new("/base");
    let has_space = manager.has_enough_space(1024);
    assert!(has_space);
    let _has_space_large = manager.has_enough_space(1_000_000_000_000);
}

#[test]
fn other_paths_of_a_database() {
    let manager = DbPathManager::new("base/");
    assert_eq!(manager.current_file(), "base/CURRENT");
    assert_eq!(manager.sstable_path_by_id(7), "base/data/000007.sst");
    assert_eq!(manager.sstable_path_by_id(1234567), "base/data/1234567.sst");
    assert_eq!(manager.main_log_path(), "base/log/goatdb.log");
    assert_eq!(manager.error_log_path(), "base/log/error.log");
    assert_eq!(manager.audit_log_path(), "base/log/audit.log");
    assert_eq!(manager.log_path("x"), "base/log/x");
    assert_eq!(manager.tmp_path("x"), "base/tmp/x");
    assert_eq!(manager.config_path("c.toml"), "base/c.toml");
    assert_eq!(manager.backup_dir(), "base/backup");
    assert_eq!(manager.backup_path("b"), "base/backup/b");
    assert_eq!(DbPathManager::default_data_dir(Some("/here")), "/here/goatdb_data");
    assert_eq!(DbPathManager::default_data_dir(None), "./goatdb_data");
    // A name that begins at the root stands for itself.
    assert_eq!(manager.wal_path("/elsewhere"), "/elsewhere");
}

#[test]
fn quotes_are_escaped_in_the_summary() {
    let manager = DbPathManager::new("a\"b");
    assert!(manager.path_summary().contains("Base: \"a\\\"b\"\n"));
    let manager = DbPathManager::new("it's");
    let shown = format!("Base: {:?}\n", std::path::Path::new("it's"));
    assert!(manager.path_summary().contains(&shown));
    assert!(manager.path_summary().contains("Base: \"it's\"\n"));
}

#[test]
fn paths_of_parts() {
    let wal = WalPaths::new("w".to_string());
    assert_eq!(wal.wal_dir(), "w");
    assert_eq!(wal.wal_path_by_id(3), "w/000003.wal");
    assert_eq!(wal.main_wal_path(), "w/goatdb.wal");
    assert_eq!(WalPaths::format_wal_filename(1_000_000), "1000000.wal");

    let tables = SstablePaths::new("d".to_string(), "t".to_string());
    assert_eq!(tables.sstable_path_by_id(999_999), "d/999999.sst");
    assert_eq!(tables.tmp_path("x.tmp"), "t/x.tmp");
    assert_eq!(SstablePaths::format_sstable_filename(2), "000002.sst");
    assert_eq!(sstable_filename_at(42), "sstable_42.db");

    let manifest = ManifestPaths::new("b".to_string(), "d".to_string());
    assert_eq!((manifest.base_dir(), manifest.data_dir()), ("b", "d"));
}

#[test]
fn clock_before_the_epoch_counts_as_zero() {
    assert_eq!(millis_or_zero(None), 0);
    assert_eq!(millis_or_zero(Some(1_700_000_000_123)), 1_700_000_000_123);
    assert_eq!(sstable_filename_at(millis_or_zero(None)), "sstable_0.db");
}
