//! Logs that are written in the background, and the simple ones.

use bytes::Bytes;
use goat_db::error_text::ErrorKind;
use goat_db::format::internal_key::{InternalKey, InternalKeyKind};
use goat_db::storage::wal::manager::{Durability, Enqueue, WalManager, WalManagerConfig, Work};
use goat_db::storage::wal::rotation::{describe_failure, FailedStage, RotateOutcome};
use goat_db::storage::wal::wal_manager;
use goat_db::storage::wal::{replay_wal_file, WalAction, WalCodec, WalError, WalHandle};
use goat_db::storage::wal_manager as simple;
use goat_db::utils::cleanup_task::CleanupTask;
use goat_db::wal_manager as plain;

const MILLI: u128 = 1_000_000;

fn key(n: u64) -> InternalKey {
    InternalKey::new(format!("key{}", n).into_bytes(), n, InternalKeyKind::Put)
}

fn synced() -> WalManagerConfig {
    WalManagerConfig { wal_sync: true, sync_interval_ms: 10, sync_bytes: 1000, max_buffer_bytes: 100 }
}

fn unsynced() -> WalManagerConfig {
    WalManagerConfig { wal_sync: false, ..synced() }
}

#[test]
fn synced_writes_become_durable_with_the_flush() {
    let mut log = WalManager::new(synced());
    let record = WalCodec::encode_record(&key(1), b"v");
    let end = match log.append(&key(1), b"v") {
        Enqueue::Accepted(end) => end,
        other => panic!("unexpected: {:?}", other),
    };
    assert_eq!(end, record.len() as u64);
    assert_eq!(log.wait_for_durable(0), Durability::Ready);
    assert_eq!(log.wait_for_durable(end), Durability::Wait);
    // Someone waits, so the worker does not.
    assert!(log.should_flush(0));
    match log.writer_loop(0) {
        Work::Flush { data, rotate } => {
            assert_eq!(data, record);
            assert!(rotate.is_none());
        }
        _ => panic!("a flush is due"),
    }
    assert_eq!(log.write_next(WalAction::Write), WalAction::Flush);
    assert_eq!(log.write_next(WalAction::Flush), WalAction::Sync);
    assert_eq!(log.wait_for_durable(end), Durability::Wait);
    log.flush_succeeded();
    assert_eq!(log.wait_for_durable(end), Durability::Ready);
    assert!(!log.should_flush(u128::MAX));
}

#[test]
fn unsynced_writes_wait_for_time_or_size() {
    let mut log = WalManager::new(unsynced());
    assert_eq!(log.append(&key(1), b"v"), Enqueue::Accepted(0));
    assert!(!log.should_flush(9 * MILLI));
    match log.writer_loop(4 * MILLI) {
        Work::Wait { nanos } => assert_eq!(nanos, 6 * MILLI),
        _ => panic!("nothing is due"),
    }
    assert!(log.should_flush(10 * MILLI));
    match log.writer_loop(10 * MILLI) {
        Work::Flush { data, .. } => assert_eq!(data, WalCodec::encode_record(&key(1), b"v")),
        _ => panic!("a flush is due"),
    }
    match log.writer_loop(4 * MILLI) {
        Work::Wait { nanos } => assert_eq!(nanos, 10 * MILLI),
        _ => panic!("nothing is due"),
    }
}

#[test]
fn full_buffers_make_writers_wait() {
    let mut log = WalManager::new(synced());
    // A write larger than the buffer is taken where the buffer is empty.
    assert!(matches!(log.append(&key(1), &[0; 200]), Enqueue::Accepted(_)));
    assert_eq!(log.append(&key(2), b"v"), Enqueue::Wait);
    let mut other = WalManager::new(unsynced());
    assert_eq!(other.append(&key(1), &[0; 200]), Enqueue::Wait);
}

#[test]
fn batches_are_handed_over_in_one_piece() {
    let mut log = WalManager::new(synced());
    let records: Vec<(InternalKey, Bytes)> =
        (1..3).map(|n| (key(n), Bytes::from_static(b"v"))).collect();
    assert!(matches!(log.append_batch(&records), Enqueue::Accepted(_)));
    assert_eq!(log.append_batch(&[]), Enqueue::Accepted(0));
    match log.writer_loop(0) {
        Work::Flush { data, .. } => assert_eq!(replay_wal_file(&data).entries.len(), 2),
        _ => panic!("a flush is due"),
    }
}

#[test]
fn closed_logs_take_nothing_and_lose_nothing() {
    let mut log = WalManager::new(unsynced());
    log.append(&key(1), b"v");
    log.close();
    assert_eq!(log.append(&key(2), b"v"), Enqueue::Closed);
    assert_eq!(log.wait_for_durable(5), Durability::Closed);
    match log.writer_loop(0) {
        Work::Close { rest } => assert_eq!(rest, WalCodec::encode_record(&key(1), b"v")),
        _ => panic!("the log was closed"),
    }
}

#[test]
fn rotations_are_answered() {
    let mut log = WalManager::new(unsynced());
    log.append(&key(1), b"v");
    let id = log.rotate("next.wal".to_string());
    assert!(matches!(log.rotate_outcome(id), RotateOutcome::Wait));
    match log.writer_loop(0) {
        Work::Flush { data, rotate } => {
            assert_eq!(data, WalCodec::encode_record(&key(1), b"v"));
            assert_eq!(rotate, Some("next.wal".to_string()));
        }
        _ => panic!("a rotation is due"),
    }
    assert_eq!(log.rotate_next(WalAction::Flush), WalAction::Reopen);
    log.flush_succeeded();
    log.handle_rotate(None);
    assert!(matches!(log.rotate_outcome(id), RotateOutcome::Rotated));

    let failing = log.rotate("other.wal".to_string());
    let _ = log.writer_loop(0);
    log.handle_rotate(Some((FailedStage::Open, "denied".to_string())));
    match log.rotate_outcome(failing) {
        RotateOutcome::Failed(reason) => {
            assert_eq!(reason, "Failed to open new WAL file: denied")
        }
        other => panic!("unexpected: {:?}", other),
    }
    // An error is told once.
    assert!(matches!(log.rotate_outcome(failing), RotateOutcome::Rotated));
    log.close();
    assert!(matches!(log.rotate_outcome(failing), RotateOutcome::Closed));
}

#[test]
fn failures_are_described() {
    assert_eq!(describe_failure(FailedStage::Write, "x"), "WAL write failed: x");
    assert_eq!(describe_failure(FailedStage::Flush, "x"), "WAL flush failed: x");
    assert_eq!(describe_failure(FailedStage::Sync, "x"), "WAL sync failed: x");
}

#[test]
fn write_errors_close_the_log() {
    let mut log = WalManager::new(synced());
    log.append(&key(1), b"v");
    let _ = log.writer_loop(0);
    log.on_write_error("disk full");
    assert_eq!(log.append(&key(2), b"v"), Enqueue::Closed);
}

#[test]
fn numbered_log_is_synced_up_to_what_was_written() {
    let mut log = wal_manager::WalManager::new(synced(), 2);
    let end = match log.append(&key(1), b"v", 0) {
        Enqueue::Accepted(end) => end,
        other => panic!("unexpected: {:?}", other),
    };
    assert_eq!(log.wait_for_durable(end), Durability::Wait);
    match log.spawn_writer(0) {
        wal_manager::Work::Flush { data, rotate } => {
            assert_eq!(data, WalCodec::encode_record(&key(1), b"v"));
            assert!(rotate.is_none());
        }
        _ => panic!("a flush is due"),
    }
    log.flush_succeeded();
    assert_eq!(log.wait_for_durable(end), Durability::Ready);
    log.close();
    assert_eq!(log.append(&key(2), b"v", 1), Enqueue::Closed);
}

#[test]
fn numbered_log_spreads_writes_that_do_not_wait() {
    let config = WalManagerConfig { max_buffer_bytes: 1 << 16, ..unsynced() };
    let mut log = wal_manager::WalManager::new(config, 2);
    assert_eq!((log.shard_index(5), log.shard_index(4)), (1, 0));
    log.append(&key(1), b"v", 1);
    log.append(&key(2), b"v", 0);
    let records: Vec<(InternalKey, Bytes)> = vec![(key(3), Bytes::from_static(b"v"))];
    assert_eq!(log.append_batch(&records, 0, 1), (1, Enqueue::Accepted(0)));
    match log.spawn_writer(10 * MILLI) {
        wal_manager::Work::Flush { data, .. } => {
            let mut expected = WalCodec::encode_record(&key(2), b"v");
            WalCodec::encode_record_into(&mut expected, &key(1), b"v");
            WalCodec::encode_record_into(&mut expected, &key(3), b"v");
            assert_eq!(data, expected);
        }
        _ => panic!("a flush is due"),
    }
    log.flush_succeeded();
    log.append(&key(4), b"v", 0);
    log.close();
    match log.spawn_writer(0) {
        wal_manager::Work::Close { records, rest } => {
            assert!(records.is_empty());
            assert_eq!(rest, WalCodec::encode_record(&key(4), b"v"));
        }
        _ => panic!("the log was closed"),
    }
}

#[test]
fn runs_write_what_was_accepted_in_order_and_once() {
    let mut log = WalManager::new(synced());
    let mut numbered = wal_manager::WalManager::new(synced(), 2);
    let (mut accepted, mut written, mut numbered_written) = (Vec::new(), Vec::new(), Vec::new());
    for n in 1..=9u64 {
        accepted.extend(WalCodec::encode_record(&key(n), b"v"));
        let end = accepted.len() as u64;
        assert_eq!(log.append(&key(n), b"v"), Enqueue::Accepted(end));
        assert_eq!(numbered.append(&key(n), b"v", 0), Enqueue::Accepted(end));
        if n % 3 == 0 && n < 9 {
            match (log.writer_loop(0), numbered.spawn_writer(0)) {
                (Work::Flush { data, .. }, wal_manager::Work::Flush { data: other, .. }) => {
                    written.extend(data);
                    numbered_written.extend(other);
                }
                _ => panic!("flushes are due"),
            }
            log.flush_succeeded();
            numbered.flush_succeeded();
            // Who is ready waits for what is written.
            assert_eq!(log.wait_for_durable(end), Durability::Ready);
            assert_eq!(numbered.wait_for_durable(end), Durability::Ready);
            assert_eq!(written, accepted);
        }
    }
    let end = accepted.len() as u64;
    assert_eq!(log.wait_for_durable(end), Durability::Wait);
    assert_eq!(numbered.wait_for_durable(end), Durability::Wait);
    log.close();
    numbered.close();
    match (log.writer_loop(0), numbered.spawn_writer(0)) {
        (Work::Close { rest }, wal_manager::Work::Close { records, rest: other }) => {
            written.extend(rest);
            numbered_written.extend(records);
            assert!(other.is_empty());
        }
        _ => panic!("the logs are closed"),
    }
    assert_eq!(written, accepted);
    assert_eq!(numbered_written, accepted);
}

#[test]
fn runs_write_each_buffer_in_order_and_once() {
    let mut log = wal_manager::WalManager::new(unsynced(), 2);
    let mut written = Vec::new();
    for n in 1..=3u64 {
        assert_eq!(log.append(&key(n), b"", n as usize % 2), Enqueue::Accepted(0));
    }
    match log.spawn_writer(u128::MAX) {
        wal_manager::Work::Flush { data, .. } => written.extend(data),
        _ => panic!("a flush is due"),
    }
    log.flush_succeeded();
    assert_eq!(log.append(&key(4), b"", 0), Enqueue::Accepted(0));
    log.close();
    match log.spawn_writer(0) {
        wal_manager::Work::Close { records, rest } => {
            assert!(records.is_empty());
            written.extend(rest);
        }
        _ => panic!("the log is closed"),
    }
    let expected: Vec<u8> =
        [2u64, 1, 3, 4].iter().flat_map(|n| WalCodec::encode_record(&key(*n), b"")).collect();
    assert_eq!(written, expected);
}

#[test]
fn numbered_log_rotates() {
    let mut log = wal_manager::WalManager::new(synced(), 1);
    let id = log.rotate("next.wal".to_string());
    match log.spawn_writer(0) {
        wal_manager::Work::Flush { data, rotate } => {
            assert!(data.is_empty());
            assert_eq!(rotate, Some("next.wal".to_string()));
        }
        _ => panic!("a rotation is due"),
    }
    log.flush_succeeded();
    log.handle_rotate(None);
    assert!(matches!(log.rotate_outcome(id), RotateOutcome::Rotated));
}

#[test]
fn buffers_follow_the_processors() {
    assert_eq!(wal_manager::shard_count(Some(4)), 8);
    assert_eq!(wal_manager::shard_count(Some(0)), 1);
    assert_eq!(wal_manager::shard_count(Some(usize::MAX)), usize::MAX);
    assert_eq!(wal_manager::shard_count(None), 8);
}

#[test]
fn simple_log_is_iterated() {
    let mut log = simple::WalManager::new();
    log.write(&key(1), b"one");
    log.write(&key(2), b"two");
    let bytes = log.take_pending();
    assert!(log.take_pending().is_empty());
    let mut iter = simple::WalIterator::new(bytes.clone());
    assert_eq!(iter.next().unwrap().unwrap(), (key(1), b"one".to_vec()));
    assert_eq!(iter.next().unwrap().unwrap(), (key(2), b"two".to_vec()));
    assert!(iter.next().is_none());

    let mut torn = simple::WalIterator::new(bytes[..bytes.len() - 1].to_vec());
    assert!(torn.next().unwrap().is_ok());
    let short = torn.next().unwrap().unwrap_err();
    assert!(matches!(short, WalError::ShortRead));
    assert_eq!(short.kind(), ErrorKind::Io);
    assert_eq!(short.to_string(), "failed to fill whole buffer");
    let mut wrong = bytes.clone();
    wrong[0] ^= 1;
    match simple::WalIterator::new(wrong).next() {
        Some(Err(error @ WalError::ChecksumMismatch { .. })) => {
            assert!(error.to_string().starts_with("Checksum mismatch for key: "));
        }
        other => panic!("unexpected entry: {:?}", other),
    }
    let mut short = bytes;
    short[4..8].copy_from_slice(&7u32.to_le_bytes());
    assert!(matches!(
        simple::WalIterator::new(short).next(),
        Some(Err(WalError::InvalidKeyLen))
    ));
    assert_eq!(
        simple::WalManager::get_checksum(&key(1), 12, b"one", 3).to_le_bytes(),
        WalCodec::encode_record(&key(1), b"one")[..4]
    );
}

#[test]
fn plain_log_is_checksum_lengths_key_and_value() {
    let mut log = plain::WalManager::new();
    log.write(b"ab", b"c");
    let mut body = 2u32.to_le_bytes().to_vec();
    body.extend(b"ab");
    body.extend(1u32.to_le_bytes());
    body.extend(b"c");
    let mut expected = crc32fast::hash(&body).to_le_bytes().to_vec();
    expected.extend(body);
    assert_eq!(log.take_pending(), expected);
}

#[test]
fn handles_ask_for_cleanup() {
    let handle = WalHandle::new(7);
    assert_eq!(handle.log_number(), 7);
    assert_eq!(handle.release(true), Some(CleanupTask::Wal(7)));
    assert_eq!(WalHandle::new(8).release(false), None);
}
