//! Settings of an engine.

use goat_db::utils::options::KvEngineOptions;

fn default_options() -> KvEngineOptions {
    KvEngineOptions::new(Some("/srv/goat"))
}

#[test]
fn test_default_options() {
    let options = default_options();
    assert!(options.data_dir.ends_with("goatdb_data"));
    assert_eq!(options.mem_table_size, 1024 * 1024);
    assert!(options.recover_from_wal);
    assert!(options.wal_sync);
}

#[test]
fn test_with_data_dir() {
    let options = default_options().with_data_dir("/custom/path");
    assert_eq!(options.data_dir, "/custom/path");
    assert_eq!(options.mem_table_size, 1024 * 1024);
    assert!(options.recover_from_wal);
    assert!(options.wal_sync);
}

#[test]
fn test_with_mem_table_size() {
    let options = default_options().with_mem_table_size(2048 * 1024);
    assert_eq!(options.mem_table_size, 2048 * 1024);
}

#[test]
fn test_with_recover_from_wal() {
    let options = default_options().with_recover_from_wal(false);
    assert!(!options.recover_from_wal);
}

#[test]
fn test_with_wal_sync() {
    let options = default_options().with_wal_sync(false);
    assert!(!options.wal_sync);
}

#[test]
fn test_new() {
    let options = KvEngineOptions::new(Some("/srv/goat"));
    assert!(options.data_dir.ends_with("goatdb_data"));
    assert_eq!(options.mem_table_size, 1024 * 1024);
    assert!(options.recover_from_wal);
    assert!(options.wal_sync);
}

#[test]
fn test_with_max_immutable_memtables() {
    let options = default_options().with_max_immutable_memtables(16);
    assert_eq!(options.max_immutable_memtables, 16);
}

#[test]
fn test_with_flush_failure_streak_limit() {
    let options = default_options().with_flush_failure_streak_limit(5);
    assert_eq!(options.flush_failure_streak_limit, 5);
}

#[test]
fn test_with_table_cache_capacity() {
    let options = default_options().with_table_cache_capacity(128);
    assert_eq!(options.table_cache_capacity, 128);
}

#[test]
fn test_with_block_cache_capacity_bytes() {
    let options = default_options().with_block_cache_capacity_bytes(8 * 1024 * 1024);
    assert_eq!(options.block_cache_capacity_bytes, 8 * 1024 * 1024);
}

#[test]
fn test_with_l0_compaction_file_trigger() {
    let options = default_options().with_l0_compaction_file_trigger(8);
    assert_eq!(options.l0_compaction_file_trigger, 8);
}

#[test]
fn test_with_compaction_level_targets() {
    let options = default_options()
        .with_compaction_max_bytes_for_level_base(256 * 1024)
        .with_compaction_max_bytes_for_level_multiplier(12)
        .with_compaction_max_grandparent_overlap_bytes_factor(7);
    assert_eq!(options.compaction_max_bytes_for_level_base, 256 * 1024);
    assert_eq!(options.compaction_max_bytes_for_level_multiplier, 12);
    assert_eq!(options.compaction_max_grandparent_overlap_bytes_factor, 7);
}

#[test]
fn test_with_write_stall_thresholds() {
    let options = default_options()
        .with_l0_slowdown_writes_trigger(10)
        .with_l0_stop_writes_trigger(20)
        .with_soft_pending_compaction_bytes_limit(8 * 1024 * 1024)
        .with_hard_pending_compaction_bytes_limit(32 * 1024 * 1024)
        .with_write_slowdown_delay_ms(5);
    assert_eq!(options.l0_slowdown_writes_trigger, 10);
    assert_eq!(options.l0_stop_writes_trigger, 20);
    assert_eq!(options.soft_pending_compaction_bytes_limit, 8 * 1024 * 1024);
    assert_eq!(
        options.hard_pending_compaction_bytes_limit,
        32 * 1024 * 1024
    );
    assert_eq!(options.write_slowdown_delay_ms, 5);
}

#[test]
fn test_with_l0_write_triggers_clamp_lower_bound() {
    let options = default_options()
        .with_l0_slowdown_writes_trigger(0)
        .with_l0_stop_writes_trigger(0);
    assert_eq!(options.l0_slowdown_writes_trigger, 1);
    assert_eq!(options.l0_stop_writes_trigger, 1);
}

#[test]
fn test_with_pending_compaction_limits_clamp_lower_bound() {
    let options = default_options()
        .with_soft_pending_compaction_bytes_limit(0)
        .with_hard_pending_compaction_bytes_limit(0);
    assert_eq!(options.soft_pending_compaction_bytes_limit, 1);
    assert_eq!(options.hard_pending_compaction_bytes_limit, 1);
}

#[test]
fn test_for_test() {
    let options = KvEngineOptions::for_test("/tmp", 17, 123456789);
    let dir_name = options.data_dir.rsplit('/').next().unwrap_or_default();
    assert!(dir_name.starts_with("goatdb_test_"));
    assert_eq!(options.mem_table_size, 1024 * 1024);
    assert!(!options.recover_from_wal);
    assert!(!options.wal_sync);
}

#[test]
fn data_lies_below_the_current_directory() {
    assert_eq!(KvEngineOptions::new(Some("/srv/goat")).data_dir, "/srv/goat/goatdb_data");
    assert_eq!(KvEngineOptions::new(None).data_dir, "./goatdb_data");
}
