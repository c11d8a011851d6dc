//! How an engine is set up.

use vstd::prelude::*;

use crate::utils::text;
use crate::utils::text::{join_path, owned, push_decimal, push_text};

verus! {

/// How an engine is set up.
///
/// ```
/// use goat_db::utils::options::KvEngineOptions;
///
/// let options = KvEngineOptions::new(Some("/srv"))
///     .with_data_dir("/path/to/data")
///     .with_mem_table_size(2 * 1024 * 1024)
///     .with_wal_sync(false);
/// ```
#[derive(Debug)]
pub struct KvEngineOptions {
    /// The directory of all files.
    pub data_dir: String,
    /// How many bytes the table in memory that takes writes may hold.
    pub mem_table_size: usize,
    /// Whether to read logs again on start.
    pub recover_from_wal: bool,
    /// Whether to sync logs.
    pub wal_sync: bool,
    /// How many operations go to the log in one group.
    pub wal_max_group_ops: usize,
    /// How many bytes go to the log in one group.
    pub wal_max_group_bytes: usize,
    /// How long to wait for a larger group for the log, in microseconds.
    pub wal_group_wait_us: u64,
    /// How many operations go to the table in memory in one group.
    pub mem_max_group_ops: usize,
    /// How many bytes go to the table in memory in one group.
    pub mem_max_group_bytes: usize,
    /// How long to wait for a larger group for the table in memory, in microseconds.
    pub mem_group_wait_us: u64,
    /// How many requests may wait for the log.
    pub max_wal_queue_reqs: usize,
    /// How many bytes may wait for the log.
    pub max_wal_queue_bytes: usize,
    /// How many requests may wait for the table in memory.
    pub max_mem_queue_reqs: usize,
    /// How many bytes may wait for the table in memory.
    pub max_mem_queue_bytes: usize,
    /// How many full tables in memory there may be before writes fail.
    pub max_immutable_memtables: usize,
    /// After how many failures in a row no more tables are written.
    pub flush_failure_streak_limit: usize,
    /// How many tables are kept open.
    pub table_cache_capacity: usize,
    /// How many bytes of data blocks are kept.
    pub block_cache_capacity_bytes: usize,
    /// How many versions are kept.
    pub max_versions: usize,
    /// The size after which the manifest is written anew.
    pub manifest_max_size: u64,
    /// The number of edits after which the manifest is written anew.
    pub manifest_rewrite_edit_count: usize,
    /// How many levels there are.
    pub num_levels: usize,
    /// The number of tables in level 0 that starts a compaction.
    pub l0_compaction_file_trigger: usize,
    /// The target size of level 1, in bytes.
    pub compaction_max_bytes_for_level_base: u64,
    /// How many times the target size of a level the next one has.
    pub compaction_max_bytes_for_level_multiplier: u64,
    /// How much of the level after the next a compaction may touch.
    pub compaction_max_grandparent_overlap_bytes_factor: u64,
    /// The number of tables in level 0 from which writes are slowed down.
    pub l0_slowdown_writes_trigger: usize,
    /// The number of tables in level 0 from which writes stop.
    pub l0_stop_writes_trigger: usize,
    /// The bytes that wait for compaction from which writes are slowed down.
    pub soft_pending_compaction_bytes_limit: u64,
    /// The bytes that wait for compaction from which writes stop.
    pub hard_pending_compaction_bytes_limit: u64,
    /// How long a write that is slowed down waits at a time, in milliseconds.
    pub write_slowdown_delay_ms: u64,
}

/// The default settings, for files in this directory.
pub open spec fn default_settings(data_dir: String) -> KvEngineOptions {
    KvEngineOptions {
        data_dir,
        mem_table_size: 1048576,
        recover_from_wal: true,
        wal_sync: true,
        wal_max_group_ops: 4096,
        wal_max_group_bytes: 2097152,
        wal_group_wait_us: 20,
        mem_max_group_ops: 4096,
        mem_max_group_bytes: 2097152,
        mem_group_wait_us: 0,
        max_wal_queue_reqs: 65536,
        max_wal_queue_bytes: 268435456,
        max_mem_queue_reqs: 65536,
        max_mem_queue_bytes: 268435456,
        max_immutable_memtables: 8,
        flush_failure_streak_limit: 3,
        table_cache_capacity: 64,
        block_cache_capacity_bytes: 67108864,
        max_versions: 10,
        manifest_max_size: 33554432,
        manifest_rewrite_edit_count: 10000,
        num_levels: 7,
        l0_compaction_file_trigger: 4,
        compaction_max_bytes_for_level_base: 65536,
        compaction_max_bytes_for_level_multiplier: 10,
        compaction_max_grandparent_overlap_bytes_factor: 10,
        l0_slowdown_writes_trigger: 20,
        l0_stop_writes_trigger: 36,
        soft_pending_compaction_bytes_limit: 67108864,
        hard_pending_compaction_bytes_limit: 268435456,
        write_slowdown_delay_ms: 1,
    }
}

/// The settings for tests: logs are neither synced nor read again, nothing waits for a
/// larger group, and more full tables may be in memory.
pub open spec fn test_settings(data_dir: String) -> KvEngineOptions {
    KvEngineOptions {
        recover_from_wal: false,
        wal_sync: false,
        wal_group_wait_us: 0,
        max_immutable_memtables: 128,
        ..default_settings(data_dir)
    }
}

/// The settings fit each other: writes are slowed down before they stop, and a compaction starts
/// before either; groups fit their queues. The settings for tests differ from the default ones in
/// nothing else than they say.
pub proof fn settings_fit_each_other(data_dir: String)
    ensures
        ({
            let d = default_settings(data_dir);
            let t = test_settings(data_dir);
            &&& d.data_dir == data_dir && t.data_dir == data_dir
            &&& 0 < d.l0_compaction_file_trigger < d.l0_slowdown_writes_trigger
                < d.l0_stop_writes_trigger
            &&& 0 < d.soft_pending_compaction_bytes_limit < d.hard_pending_compaction_bytes_limit
            &&& 0 < d.wal_max_group_ops <= d.max_wal_queue_reqs
            &&& 0 < d.wal_max_group_bytes <= d.max_wal_queue_bytes
            &&& 0 < d.mem_max_group_ops <= d.max_mem_queue_reqs
            &&& 0 < d.mem_max_group_bytes <= d.max_mem_queue_bytes
            &&& d.wal_sync && d.recover_from_wal
            &&& !t.wal_sync && !t.recover_from_wal && t.wal_group_wait_us == 0
            &&& t.max_immutable_memtables > d.max_immutable_memtables
            &&& t == (KvEngineOptions {
                wal_sync: t.wal_sync,
                recover_from_wal: t.recover_from_wal,
                wal_group_wait_us: t.wal_group_wait_us,
                max_immutable_memtables: t.max_immutable_memtables,
                ..d
            })
        }),
{
}

impl Clone for KvEngineOptions {
    fn clone(&self) -> (r: Self)
        ensures
            r.data_dir@ == self.data_dir@,
            r == (KvEngineOptions { data_dir: r.data_dir, ..*self }),
    {
        KvEngineOptions {
            data_dir: owned(self.data_dir.as_str()),
            mem_table_size: self.mem_table_size,
            recover_from_wal: self.recover_from_wal,
            wal_sync: self.wal_sync,
            wal_max_group_ops: self.wal_max_group_ops,
            wal_max_group_bytes: self.wal_max_group_bytes,
            wal_group_wait_us: self.wal_group_wait_us,
            mem_max_group_ops: self.mem_max_group_ops,
            mem_max_group_bytes: self.mem_max_group_bytes,
            mem_group_wait_us: self.mem_group_wait_us,
            max_wal_queue_reqs: self.max_wal_queue_reqs,
            max_wal_queue_bytes: self.max_wal_queue_bytes,
            max_mem_queue_reqs: self.max_mem_queue_reqs,
            max_mem_queue_bytes: self.max_mem_queue_bytes,
            max_immutable_memtables: self.max_immutable_memtables,
            flush_failure_streak_limit: self.flush_failure_streak_limit,
            table_cache_capacity: self.table_cache_capacity,
            block_cache_capacity_bytes: self.block_cache_capacity_bytes,
            max_versions: self.max_versions,
            manifest_max_size: self.manifest_max_size,
            manifest_rewrite_edit_count: self.manifest_rewrite_edit_count,
            num_levels: self.num_levels,
            l0_compaction_file_trigger: self.l0_compaction_file_trigger,
            compaction_max_bytes_for_level_base: self.compaction_max_bytes_for_level_base,
            compaction_max_bytes_for_level_multiplier: self.compaction_max_bytes_for_level_multiplier,
            compaction_max_grandparent_overlap_bytes_factor: self.compaction_max_grandparent_overlap_bytes_factor,
            l0_slowdown_writes_trigger: self.l0_slowdown_writes_trigger,
            l0_stop_writes_trigger: self.l0_stop_writes_trigger,
            soft_pending_compaction_bytes_limit: self.soft_pending_compaction_bytes_limit,
            hard_pending_compaction_bytes_limit: self.hard_pending_compaction_bytes_limit,
            write_slowdown_delay_ms: self.write_slowdown_delay_ms,
        }
    }
}

impl KvEngineOptions {
    /// The default settings where this is the current directory, or where that is not known.
    pub fn new(current_dir: Option<&str>) -> (r: Self)
        ensures
            r.data_dir@ == text::joined(
                match current_dir {
                    Some(dir) => dir@,
                    None => "."@,
                },
                "goatdb_data"@,
            ),
            r == default_settings(r.data_dir),
    {
        let dir = match current_dir {
            Some(dir) => dir,
            None => ".",
        };
        KvEngineOptions {
            data_dir: join_path(dir, "goatdb_data"),
            mem_table_size: 1048576,
            recover_from_wal: true,
            wal_sync: true,
            wal_max_group_ops: 4096,
            wal_max_group_bytes: 2097152,
            wal_group_wait_us: 20,
            mem_max_group_ops: 4096,
            mem_max_group_bytes: 2097152,
            mem_group_wait_us: 0,
            max_wal_queue_reqs: 65536,
            max_wal_queue_bytes: 268435456,
            max_mem_queue_reqs: 65536,
            max_mem_queue_bytes: 268435456,
            max_immutable_memtables: 8,
            flush_failure_streak_limit: 3,
            table_cache_capacity: 64,
            block_cache_capacity_bytes: 67108864,
            max_versions: 10,
            manifest_max_size: 33554432,
            manifest_rewrite_edit_count: 10000,
            num_levels: 7,
            l0_compaction_file_trigger: 4,
            compaction_max_bytes_for_level_base: 65536,
            compaction_max_bytes_for_level_multiplier: 10,
            compaction_max_grandparent_overlap_bytes_factor: 10,
            l0_slowdown_writes_trigger: 20,
            l0_stop_writes_trigger: 36,
            soft_pending_compaction_bytes_limit: 67108864,
            hard_pending_compaction_bytes_limit: 268435456,
            write_slowdown_delay_ms: 1,
        }
    }

    /// The settings for tests, for files in a directory of their own under `temp_dir`, named
    /// after the process and the time.
    pub fn for_test(temp_dir: &str, process: u32, nanos: u128) -> (r: Self)
        ensures
            r.data_dir@ == text::joined(
                temp_dir@,
                "goatdb_test_"@ + text::decimal(process as nat) + "_"@ + text::decimal(
                    nanos as nat,
                ),
            ),
            r == test_settings(r.data_dir),
    {
        let mut name = owned("goatdb_test_");
        push_decimal(&mut name, process as u128);
        push_text(&mut name, "_");
        push_decimal(&mut name, nanos);
        let mut r = KvEngineOptions::new(Some(temp_dir));
        r.data_dir = join_path(temp_dir, name.as_str());
        r.recover_from_wal = false;
        r.wal_sync = false;
        r.wal_group_wait_us = 0;
        r.max_immutable_memtables = 128;
        r
    }

    /// Sets the directory of all files.
    pub fn with_data_dir(self, data_dir: &str) -> (r: Self)
        ensures
            r.data_dir@ == data_dir@,
            r == (KvEngineOptions { data_dir: r.data_dir, ..self }),
    {
        let mut r = self;
        r.data_dir = owned(data_dir);
        r
    }

    /// Sets `mem_table_size`.
    pub fn with_mem_table_size(self, size: usize) -> (r: Self)
        ensures
            r == (KvEngineOptions { mem_table_size: size, ..self }),
    {
        let mut r = self;
        r.mem_table_size = size;
        r
    }

    /// Sets `recover_from_wal`.
    pub fn with_recover_from_wal(self, recover: bool) -> (r: Self)
        ensures
            r == (KvEngineOptions { recover_from_wal: recover, ..self }),
    {
        let mut r = self;
        r.recover_from_wal = recover;
        r
    }

    /// Sets `wal_sync`.
    pub fn with_wal_sync(self, sync: bool) -> (r: Self)
        ensures
            r == (KvEngineOptions { wal_sync: sync, ..self }),
    {
        let mut r = self;
        r.wal_sync = sync;
        r
    }

    /// Sets `wal_max_group_ops`.
    pub fn with_wal_max_group_ops(self, ops: usize) -> (r: Self)
        ensures
            r == (KvEngineOptions { wal_max_group_ops: ops, ..self }),
    {
        let mut r = self;
        r.wal_max_group_ops = ops;
        r
    }

    /// Sets `wal_max_group_bytes`.
    pub fn with_wal_max_group_bytes(self, bytes: usize) -> (r: Self)
        ensures
            r == (KvEngineOptions { wal_max_group_bytes: bytes, ..self }),
    {
        let mut r = self;
        r.wal_max_group_bytes = bytes;
        r
    }

    /// Sets `wal_group_wait_us`.
    pub fn with_wal_group_wait_us(self, wait_us: u64) -> (r: Self)
        ensures
            r == (KvEngineOptions { wal_group_wait_us: wait_us, ..self }),
    {
        let mut r = self;
        r.wal_group_wait_us = wait_us;
        r
    }

    /// Sets `mem_max_group_ops`.
    pub fn with_mem_max_group_ops(self, ops: usize) -> (r: Self)
        ensures
            r == (KvEngineOptions { mem_max_group_ops: ops, ..self }),
    {
        let mut r = self;
        r.mem_max_group_ops = ops;
        r
    }

    /// Sets `mem_max_group_bytes`.
    pub fn with_mem_max_group_bytes(self, bytes: usize) -> (r: Self)
        ensures
            r == (KvEngineOptions { mem_max_group_bytes: bytes, ..self }),
    {
        let mut r = self;
        r.mem_max_group_bytes = bytes;
        r
    }

    /// Sets `mem_group_wait_us`.
    pub fn with_mem_group_wait_us(self, wait_us: u64) -> (r: Self)
        ensures
            r == (KvEngineOptions { mem_group_wait_us: wait_us, ..self }),
    {
        let mut r = self;
        r.mem_group_wait_us = wait_us;
        r
    }

    /// Sets `max_wal_queue_reqs`.
    pub fn with_max_wal_queue_reqs(self, reqs: usize) -> (r: Self)
        ensures
            r == (KvEngineOptions { max_wal_queue_reqs: reqs, ..self }),
    {
        let mut r = self;
        r.max_wal_queue_reqs = reqs;
        r
    }

    /// Sets `max_wal_queue_bytes`.
    pub fn with_max_wal_queue_bytes(self, bytes: usize) -> (r: Self)
        ensures
            r == (KvEngineOptions { max_wal_queue_bytes: bytes, ..self }),
    {
        let mut r = self;
        r.max_wal_queue_bytes = bytes;
        r
    }

    /// Sets `max_mem_queue_reqs`.
    pub fn with_max_mem_queue_reqs(self, reqs: usize) -> (r: Self)
        ensures
            r == (KvEngineOptions { max_mem_queue_reqs: reqs, ..self }),
    {
        let mut r = self;
        r.max_mem_queue_reqs = reqs;
        r
    }

    /// Sets `max_mem_queue_bytes`.
    pub fn with_max_mem_queue_bytes(self, bytes: usize) -> (r: Self)
        ensures
            r == (KvEngineOptions { max_mem_queue_bytes: bytes, ..self }),
    {
        let mut r = self;
        r.max_mem_queue_bytes = bytes;
        r
    }

    /// Sets `max_immutable_memtables`.
    pub fn with_max_immutable_memtables(self, max_tables: usize) -> (r: Self)
        ensures
            r == (KvEngineOptions { max_immutable_memtables: max_tables, ..self }),
    {
        let mut r = self;
        r.max_immutable_memtables = max_tables;
        r
    }

    /// Sets `flush_failure_streak_limit`.
    pub fn with_flush_failure_streak_limit(self, limit: usize) -> (r: Self)
        ensures
            r == (KvEngineOptions { flush_failure_streak_limit: limit, ..self }),
    {
        let mut r = self;
        r.flush_failure_streak_limit = limit;
        r
    }

    /// Sets `table_cache_capacity`.
    pub fn with_table_cache_capacity(self, capacity: usize) -> (r: Self)
        ensures
            r == (KvEngineOptions { table_cache_capacity: capacity, ..self }),
    {
        let mut r = self;
        r.table_cache_capacity = capacity;
        r
    }

    /// Sets `block_cache_capacity_bytes`.
    pub fn with_block_cache_capacity_bytes(self, capacity_bytes: usize) -> (r: Self)
        ensures
            r == (KvEngineOptions { block_cache_capacity_bytes: capacity_bytes, ..self }),
    {
        let mut r = self;
        r.block_cache_capacity_bytes = capacity_bytes;
        r
    }

    /// Sets `max_versions`.
    pub fn with_max_versions(self, max: usize) -> (r: Self)
        ensures
            r == (KvEngineOptions { max_versions: max, ..self }),
    {
        let mut r = self;
        r.max_versions = max;
        r
    }

    /// Sets `manifest_max_size`.
    pub fn with_manifest_max_size(self, size: u64) -> (r: Self)
        ensures
            r == (KvEngineOptions { manifest_max_size: size, ..self }),
    {
        let mut r = self;
        r.manifest_max_size = size;
        r
    }

    /// Sets `manifest_rewrite_edit_count`.
    pub fn with_manifest_rewrite_edit_count(self, count: usize) -> (r: Self)
        ensures
            r == (KvEngineOptions { manifest_rewrite_edit_count: count, ..self }),
    {
        let mut r = self;
        r.manifest_rewrite_edit_count = count;
        r
    }

    /// Sets `num_levels`.
    pub fn with_num_levels(self, levels: usize) -> (r: Self)
        ensures
            r == (KvEngineOptions { num_levels: levels, ..self }),
    {
        let mut r = self;
        r.num_levels = levels;
        r
    }

    /// Sets `l0_compaction_file_trigger`, at least 1.
    pub fn with_l0_compaction_file_trigger(self, trigger: usize) -> (r: Self)
        ensures
            r == (KvEngineOptions {
                l0_compaction_file_trigger: if trigger < 1 {
                    1
                } else {
                    trigger
                },
                ..self
            }),
    {
        let mut r = self;
        r.l0_compaction_file_trigger = if trigger < 1 {
            1
        } else {
            trigger
        };
        r
    }

    /// Sets `compaction_max_bytes_for_level_base`, at least 1.
    pub fn with_compaction_max_bytes_for_level_base(self, bytes: u64) -> (r: Self)
        ensures
            r == (KvEngineOptions {
                compaction_max_bytes_for_level_base: if bytes < 1 {
                    1
                } else {
                    bytes
                },
                ..self
            }),
    {
        let mut r = self;
        r.compaction_max_bytes_for_level_base = if bytes < 1 {
            1
        } else {
            bytes
        };
        r
    }

    /// Sets `compaction_max_bytes_for_level_multiplier`, at least 2.
    pub fn with_compaction_max_bytes_for_level_multiplier(self, multiplier: u64) -> (r: Self)
        ensures
            r == (KvEngineOptions {
                compaction_max_bytes_for_level_multiplier: if multiplier < 2 {
                    2
                } else {
                    multiplier
                },
                ..self
            }),
    {
        let mut r = self;
        r.compaction_max_bytes_for_level_multiplier = if multiplier < 2 {
            2
        } else {
            multiplier
        };
        r
    }

    /// Sets `compaction_max_grandparent_overlap_bytes_factor`, at least 1.
    pub fn with_compaction_max_grandparent_overlap_bytes_factor(self, factor: u64) -> (r: Self)
        ensures
            r == (KvEngineOptions {
                compaction_max_grandparent_overlap_bytes_factor: if factor < 1 {
                    1
                } else {
                    factor
                },
                ..self
            }),
    {
        let mut r = self;
        r.compaction_max_grandparent_overlap_bytes_factor = if factor < 1 {
            1
        } else {
            factor
        };
        r
    }

    /// Sets `l0_slowdown_writes_trigger`, at least 1.
    pub fn with_l0_slowdown_writes_trigger(self, trigger: usize) -> (r: Self)
        ensures
            r == (KvEngineOptions {
                l0_slowdown_writes_trigger: if trigger < 1 {
                    1
                } else {
                    trigger
                },
                ..self
            }),
    {
        let mut r = self;
        r.l0_slowdown_writes_trigger = if trigger < 1 {
            1
        } else {
            trigger
        };
        r
    }

    /// Sets `l0_stop_writes_trigger`, at least 1.
    pub fn with_l0_stop_writes_trigger(self, trigger: usize) -> (r: Self)
        ensures
            r == (KvEngineOptions {
                l0_stop_writes_trigger: if trigger < 1 {
                    1
                } else {
                    trigger
                },
                ..self
            }),
    {
        let mut r = self;
        r.l0_stop_writes_trigger = if trigger < 1 {
            1
        } else {
            trigger
        };
        r
    }

    /// Sets `soft_pending_compaction_bytes_limit`, at least 1.
    pub fn with_soft_pending_compaction_bytes_limit(self, bytes: u64) -> (r: Self)
        ensures
            r == (KvEngineOptions {
                soft_pending_compaction_bytes_limit: if bytes < 1 {
                    1
                } else {
                    bytes
                },
                ..self
            }),
    {
        let mut r = self;
        r.soft_pending_compaction_bytes_limit = if bytes < 1 {
            1
        } else {
            bytes
        };
        r
    }

    /// Sets `hard_pending_compaction_bytes_limit`, at least 1.
    pub fn with_hard_pending_compaction_bytes_limit(self, bytes: u64) -> (r: Self)
        ensures
            r == (KvEngineOptions {
                hard_pending_compaction_bytes_limit: if bytes < 1 {
                    1
                } else {
                    bytes
                },
                ..self
            }),
    {
        let mut r = self;
        r.hard_pending_compaction_bytes_limit = if bytes < 1 {
            1
        } else {
            bytes
        };
        r
    }

    /// Sets `write_slowdown_delay_ms`, at least 1.
    pub fn with_write_slowdown_delay_ms(self, delay_ms: u64) -> (r: Self)
        ensures
            r == (KvEngineOptions {
                write_slowdown_delay_ms: if delay_ms < 1 {
                    1
                } else {
                    delay_ms
                },
                ..self
            }),
    {
        let mut r = self;
        r.write_slowdown_delay_ms = if delay_ms < 1 {
            1
        } else {
            delay_ms
        };
        r
    }
}

} // verus!
