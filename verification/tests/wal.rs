//! Writing, reading and replaying logs.

use bytes::Bytes;
use goat_db::error_text::ErrorKind;
use goat_db::format::internal_key::{InternalKey, InternalKeyKind};
use goat_db::storage::wal::record::checksum_for;
use goat_db::storage::wal::{
    replay_wal_file, WalAction, WalCodec, WalError, WalReader, WalWriter, WalWriterConfig,
};

/// A log file in memory.
struct Log {
    writer: WalWriter,
    file: Vec<u8>,
}

impl Log {
    fn open(file: Vec<u8>, config: WalWriterConfig) -> Log {
        let (writer, first) = WalWriter::new(file.len() as u64, config);
        let mut log = Log { writer, file };
        if let WalAction::SetLen(len) = first {
            log.file.resize(len as usize, 0);
            log.writer.open_done(first);
        }
        log
    }

    fn perform(&mut self, data: &[u8], first: WalAction) {
        let mut action = first;
        while action != WalAction::Done {
            match action {
                WalAction::SetLen(len) => self.file.resize(len as usize, 0),
                WalAction::Write => {
                    let at = self.writer.logical_size() as usize;
                    if self.file.len() < at + data.len() {
                        self.file.resize(at + data.len(), 0);
                    }
                    self.file[at..at + data.len()].copy_from_slice(data);
                }
                _ => {}
            }
            action = self.writer.append_done(action, data.len() as u64);
        }
    }

    fn append(&mut self, key: &InternalKey, value: &[u8]) -> Result<(), WalError> {
        let (data, first) = self.writer.append(key, value);
        self.perform(&data, first?);
        Ok(())
    }

    fn append_batch(&mut self, records: &[(InternalKey, Bytes)]) -> Result<(), WalError> {
        let (data, first) = self.writer.append_batch(records);
        self.perform(&data, first?);
        Ok(())
    }

    fn close(mut self) -> Vec<u8> {
        let mut action = self.writer.close();
        while action != WalAction::Done {
            if let WalAction::SetLen(len) = action {
                self.file.resize(len as usize, 0);
            }
            action = self.writer.close_done(action);
        }
        self.file
    }
}

#[test]
fn test_wal_writer_new() {
    let (_, first) = WalWriter::new(0, WalWriterConfig::default());
    assert_eq!(first, WalAction::Done);
}

#[test]
fn test_wal_writer_write_and_checksum() {
    let mut wal = Log::open(Vec::new(), WalWriterConfig::default());

    let key = InternalKey::new(b"test_key".to_vec(), 1, InternalKeyKind::Put);
    let value = b"test_value".to_vec();
    wal.append(&key, &value).expect("Failed to append to WAL");

    assert!(wal.file.len() > 0);

    let checksum = checksum_for(&key, &value);
    let stored_checksum = u32::from_le_bytes(wal.file[0..4].try_into().unwrap());
    assert_eq!(checksum, stored_checksum);
}

#[test]
fn test_wal_writer_preallocate_and_truncate_on_drop() {
    let config = WalWriterConfig {
        wal_sync: false,
        wal_preallocate_bytes: 4096,
        ..WalWriterConfig::default()
    };

    let key = InternalKey::new(b"prealloc".to_vec(), 1, InternalKeyKind::Put);
    let value = b"value".to_vec();

    let mut wal = Log::open(Vec::new(), config);
    wal.append(&key, &value).expect("append wal");
    assert!(
        wal.file.len() >= 4096,
        "file should be preallocated while writer is alive"
    );
    let logical_size = wal.writer.logical_size();

    let final_size = wal.close().len() as u64;
    assert_eq!(final_size, logical_size);
}

#[test]
fn test_wal_writer_periodic_sync_when_wal_sync_disabled() {
    let config = WalWriterConfig {
        wal_sync: false,
        wal_bytes_per_sync: 1,
        ..WalWriterConfig::default()
    };

    let mut wal = Log::open(Vec::new(), config);
    let key = InternalKey::new(b"sync".to_vec(), 1, InternalKeyKind::Put);
    wal.append(&key, b"v1").expect("append first record");
    assert!(
        wal.writer.sync_calls() >= 1,
        "periodic sync should trigger once bytes_per_sync is reached"
    );
}

#[test]
fn test_wal_reader_empty() {
    let mut reader = WalReader::new(Vec::new());
    assert!(reader.next().is_none());
}

#[test]
fn test_wal_write_and_read() {
    let mut wal = Log::open(Vec::new(), WalWriterConfig::default());

    let key1 = InternalKey::new(b"key1".to_vec(), 1, InternalKeyKind::Put);
    let value1 = b"value1".to_vec();
    wal.append(&key1, &value1).expect("Failed to write key1");

    let key2 = InternalKey::new(b"key2".to_vec(), 2, InternalKeyKind::Delete);
    let value2 = b"";
    wal.append(&key2, value2).expect("Failed to write key2");

    let mut reader = WalReader::new(wal.close());

    let entry1 = reader
        .next()
        .expect("Expected first entry")
        .expect("Failed to read entry");
    assert_eq!(entry1.0.user_key(), b"key1");
    assert_eq!(entry1.0.sequence_number(), 1);
    assert_eq!(entry1.1, b"value1");

    let entry2 = reader
        .next()
        .expect("Expected second entry")
        .expect("Failed to read entry");
    assert_eq!(entry2.0.user_key(), b"key2");
    assert_eq!(entry2.0.sequence_number(), 2);
    assert_eq!(entry2.1, b"");

    assert!(reader.next().is_none());
}

#[test]
fn test_wal_reader_skips_atomic_batch_markers() {
    let mut wal = Log::open(Vec::new(), WalWriterConfig::default());
    let records = vec![
        (
            InternalKey::new(b"key1".to_vec(), 10, InternalKeyKind::Put),
            Bytes::from_static(b"value1"),
        ),
        (
            InternalKey::new(b"key2".to_vec(), 11, InternalKeyKind::Delete),
            Bytes::new(),
        ),
    ];
    wal.append_batch(&records).expect("append atomic batch");

    let mut reader = WalReader::new(wal.close());
    let entry1 = reader.next().expect("entry1").expect("entry1 ok");
    let entry2 = reader.next().expect("entry2").expect("entry2 ok");
    assert_eq!(entry1.0.user_key(), b"key1");
    assert_eq!(entry1.1, b"value1");
    assert_eq!(entry2.0.user_key(), b"key2");
    assert!(entry2.1.is_empty());
    assert!(reader.next().is_none());

    let mut marked = Vec::new();
    WalCodec::encode_atomic_batch_into(&mut marked, &records).expect("encode batch");
    let mut reader = WalReader::new(marked);
    assert_eq!(reader.next().expect("entry1").expect("entry1 ok").0.user_key(), b"key1");
    assert_eq!(reader.next().expect("entry2").expect("entry2 ok").0.user_key(), b"key2");
    assert!(reader.next().is_none());
}

#[test]
fn test_wal_checksum_validation() {
    let mut wal = Log::open(Vec::new(), WalWriterConfig::default());

    let key = InternalKey::new(b"test".to_vec(), 1, InternalKeyKind::Put);
    let value = b"valid".to_vec();
    wal.append(&key, &value).expect("Failed to write");

    let mut file_content = wal.close();
    file_content[0] = file_content[0].wrapping_add(1);

    let mut reader = WalReader::new(file_content);
    let result = reader.next().expect("Expected entry");
    assert!(result.is_err());
    let error = result.unwrap_err();
    assert_eq!(error.kind(), ErrorKind::Corruption);
    assert!(error.to_string().contains("checksum mismatch"));
}

#[test]
fn test_wal_corrupted_file_handling() {
    let mut reader = WalReader::new(vec![0x01, 0x02]);
    let result = reader.next();
    assert!(result.is_none());
}

fn record_with(encoded: u64, value: &[u8]) -> Vec<u8> {
    let key = InternalKey::from_encoded(b"bad_kind".to_vec(), encoded);
    let key_len = key.serialized_size() as u32;
    let value_len = value.len() as u32;
    let checksum = checksum_for(&key, value);

    let mut record = Vec::new();
    record.extend_from_slice(&checksum.to_le_bytes());
    record.extend_from_slice(&key_len.to_le_bytes());
    record.extend_from_slice(key.user_key());
    record.extend_from_slice(&key.encoded_sequence_number().to_le_bytes());
    record.extend_from_slice(&value_len.to_le_bytes());
    record.extend_from_slice(value);
    record
}

#[test]
fn test_wal_reader_reports_invalid_internal_key_kind() {
    let mut reader = WalReader::new(record_with((7 << 8) | 3, b"value"));
    let err = reader
        .next()
        .expect("Expected entry")
        .expect_err("invalid kind should return corruption");
    assert_eq!(err.kind(), ErrorKind::Corruption);
    assert!(err.to_string().contains("invalid internal key kind"));
}

#[test]
fn test_wal_replay_reports_invalid_internal_key_kind() {
    let err = replay_wal_file(&record_with((11 << 8) | 3, b"v"))
        .outcome
        .expect_err("invalid kind should fail WAL replay");
    assert_eq!(err.kind(), ErrorKind::Corruption);
    assert!(err.to_string().contains("invalid internal key kind"));
}

#[test]
fn test_wal_replay_truncates_preallocated_zero_tail() {
    let config = WalWriterConfig {
        wal_sync: false,
        ..WalWriterConfig::default()
    };
    let mut wal = Log::open(Vec::new(), config);
    let key = InternalKey::new(b"ok".to_vec(), 7, InternalKeyKind::Put);
    wal.append(&key, b"value").expect("append wal");

    let mut file = wal.close();
    let good_len = file.len();
    file.resize(good_len + 4096, 0);

    let replay = replay_wal_file(&file);
    let stats = replay.outcome.expect("replay wal");
    assert_eq!(replay.entries.len(), 1);
    assert_eq!(stats.entries, 1);
    assert!(
        stats.truncated,
        "zero tail should be truncated during replay"
    );
    file.truncate(replay.truncate_to.expect("cut") as usize);
    assert_eq!(file.len(), good_len);
}

#[test]
fn test_wal_replay_discards_incomplete_atomic_batch() {
    let records = vec![
        (
            InternalKey::new(b"k1".to_vec(), 21, InternalKeyKind::Put),
            Bytes::from_static(b"v1"),
        ),
        (
            InternalKey::new(b"k2".to_vec(), 22, InternalKeyKind::Put),
            Bytes::from_static(b"v2"),
        ),
    ];

    let mut encoded = Vec::new();
    WalCodec::encode_atomic_batch_into(&mut encoded, &records).expect("encode batch");

    let marker = InternalKey::new(Vec::new(), 21, InternalKeyKind::TxnBatchBegin);
    let marker_value = WalCodec::encode_batch_begin_value(records.len()).expect("marker");
    let marker_len = WalCodec::record_size(&marker, &marker_value);
    let first_record_len = WalCodec::record_size(&records[0].0, records[0].1.as_ref());
    let second_record_prefix_len =
        WalCodec::record_size(&records[1].0, records[1].1.as_ref()) / 2;
    let truncated_len = marker_len + first_record_len + second_record_prefix_len;

    let replay = replay_wal_file(&encoded[..truncated_len]);
    let stats = replay.outcome.expect("replay");
    assert!(
        replay.entries.is_empty(),
        "incomplete batch must not partially replay"
    );
    assert_eq!(stats.entries, 0);
    assert_eq!(stats.max_sequence, 0);
    assert!(
        stats.truncated,
        "incomplete batch should trigger truncation"
    );
    assert_eq!(
        replay.truncate_to,
        Some(0),
        "recovery should roll back the whole incomplete batch"
    );
}

// ---- beyond the basics ----

fn sample(n: u64) -> Vec<(InternalKey, Bytes)> {
    (0..n)
        .map(|i| {
            (
                InternalKey::new(format!("key{}", i).into_bytes(), 5 + i, InternalKeyKind::Put),
                Bytes::from(format!("value{}", i)),
            )
        })
        .collect()
}

#[test]
fn record_layout_is_checksum_lengths_key_and_value() {
    let key = InternalKey::new(b"ab".to_vec(), 1, InternalKeyKind::Put);
    let record = WalCodec::encode_record(&key, b"xyz");
    assert_eq!(record.len(), 4 + 4 + 2 + 8 + 4 + 3);
    assert_eq!(record.len(), WalCodec::record_size(&key, b"xyz"));
    // The checksum covers all that follows it.
    assert_eq!(crc32fast::hash(&record[4..]).to_le_bytes(), record[..4]);
    assert_eq!(record[4..8], 10u32.to_le_bytes());
    assert_eq!(&record[8..10], b"ab");
    assert_eq!(&record[22..], b"xyz");
}

#[test]
fn replay_gives_back_what_was_logged() {
    let records = sample(5);
    let mut file = Vec::new();
    for (key, value) in &records {
        WalCodec::encode_record_into(&mut file, key, value);
    }
    WalCodec::encode_atomic_batch_into(&mut file, &records).unwrap();
    let replay = replay_wal_file(&file);
    let stats = replay.outcome.unwrap();
    assert_eq!(replay.truncate_to, None);
    assert_eq!((stats.entries, stats.max_sequence, stats.truncated), (10, 9, false));
    for (i, (key, value)) in replay.entries.iter().enumerate() {
        assert_eq!(key, &records[i % 5].0);
        assert_eq!(value.as_slice(), records[i % 5].1.as_ref());
    }
}

#[test]
fn every_torn_log_replays_a_prefix_and_then_the_same() {
    let records = sample(3);
    let mut file = Vec::new();
    for (key, value) in &records {
        WalCodec::encode_record_into(&mut file, key, value);
    }
    let one = WalCodec::record_size(&records[0].0, &records[0].1);
    for cut in 0..=file.len() {
        let replay = replay_wal_file(&file[..cut]);
        assert!(replay.outcome.is_ok());
        assert_eq!(replay.entries.len(), cut / one);
        let kept = replay.truncate_to.map_or(cut, |n| n as usize);
        assert_eq!(kept, cut / one * one);
        let again = replay_wal_file(&file[..kept]);
        assert_eq!(again.entries.len(), cut / one);
        assert_eq!(again.truncate_to, None);
    }
}

#[test]
fn replay_stops_at_a_wrong_checksum() {
    let records = sample(3);
    let mut file = Vec::new();
    for (key, value) in &records {
        WalCodec::encode_record_into(&mut file, key, value);
    }
    let one = WalCodec::record_size(&records[0].0, &records[0].1);
    file[one] ^= 1;
    let replay = replay_wal_file(&file);
    let stats = replay.outcome.unwrap();
    assert_eq!(replay.entries.len(), 1);
    assert_eq!((stats.entries, stats.truncated), (1, true));
    assert_eq!(replay.truncate_to, Some(one as u64));
    let mut reader = WalReader::new(file);
    assert!(reader.next().unwrap().is_ok());
    match reader.next().unwrap() {
        Err(WalError::CorruptRecord { key }) => assert_eq!(key, b"key1"),
        other => panic!("unexpected entry: {:?}", other),
    }
}

#[test]
fn wrong_checksums_are_told_by_whoever_finds_them() {
    let found = WalError::ChecksumMismatch { key: b"k".to_vec() };
    assert_eq!(found.kind(), ErrorKind::Corruption);
    assert!(found.to_string().starts_with("Checksum mismatch for key: "));
    let handed_on = WalError::CorruptRecord { key: b"k".to_vec() };
    assert_eq!(handed_on.kind(), ErrorKind::Corruption);
    assert!(handed_on.to_string().starts_with("checksum mismatch for key: "));
}

#[test]
fn batch_markers_are_checked() {
    let value = WalCodec::encode_batch_begin_value(7).unwrap();
    assert_eq!(value.len(), 8);
    assert_eq!(WalCodec::decode_batch_begin_value(&value).unwrap(), 7);
    assert!(matches!(
        WalCodec::decode_batch_begin_value(&value[..7]),
        Err(WalError::BatchMarkerLength(7))
    ));
    let mut wrong = value.clone();
    wrong[0] ^= 1;
    assert!(matches!(
        WalCodec::decode_batch_begin_value(&wrong),
        Err(WalError::BatchMarkerMagic)
    ));
}

#[test]
fn batches_with_gaps_are_refused() {
    let mut records = sample(2);
    records[1].0 = InternalKey::new(b"k".to_vec(), 9, InternalKeyKind::Put);
    let mut file = Vec::new();
    match WalCodec::encode_atomic_batch_into(&mut file, &records) {
        Err(WalError::BatchSequence { expected, actual }) => {
            assert_eq!((expected, actual), (6, 9))
        }
        other => panic!("unexpected result: {:?}", other),
    }
    WalCodec::encode_record_into(&mut file, &records[1].0, b"v");
    let replay = replay_wal_file(&file);
    assert!(replay.outcome.unwrap().truncated);
    assert!(replay.entries.is_empty());
    assert_eq!(replay.truncate_to, Some(0));
}

#[test]
fn markers_do_not_belong_in_batches() {
    let mut records = sample(2);
    records[1].0 = InternalKey::new(Vec::new(), 6, InternalKeyKind::TxnBatchBegin);
    let refused = WalCodec::encode_atomic_batch_into(&mut Vec::new(), &records).unwrap_err();
    assert!(matches!(refused, WalError::BatchDataKind));
    assert!(WalCodec::encode_atomic_batch_into(&mut Vec::new(), &[]).is_ok());
}

#[test]
fn batch_markers_with_contents_of_their_own_are_refused() {
    let marker = |user: &[u8], count: usize| {
        let key = InternalKey::new(user.to_vec(), 5, InternalKeyKind::TxnBatchBegin);
        WalCodec::encode_record(&key, &WalCodec::encode_batch_begin_value(count).unwrap())
    };
    assert!(matches!(
        replay_wal_file(&marker(b"x", 1)).outcome,
        Err(WalError::BatchMarkerUserKey)
    ));
    assert!(matches!(
        replay_wal_file(&marker(b"", 0)).outcome,
        Err(WalError::BatchMarkerEmpty)
    ));
    let mut nested = marker(b"", 2);
    nested.extend(marker(b"", 1));
    let replay = replay_wal_file(&nested);
    assert!(replay.outcome.unwrap().truncated);
    assert_eq!(replay.truncate_to, Some(0));
}

#[test]
fn closed_writers_refuse() {
    let (mut writer, _) = WalWriter::new(0, WalWriterConfig::default());
    let mut action = writer.close();
    while action != WalAction::Done {
        action = writer.close_done(action);
    }
    let key = InternalKey::new(b"k".to_vec(), 1, InternalKeyKind::Put);
    let refused = writer.append(&key, b"v").1.unwrap_err();
    assert!(matches!(refused, WalError::Closed));
    assert_eq!(refused.kind(), ErrorKind::Unavailable);
    assert!(writer.rotate().is_err());
}

#[test]
fn lengths_grow_in_steps() {
    let config = WalWriterConfig {
        wal_sync: false,
        wal_preallocate_bytes: 64,
        ..WalWriterConfig::default()
    };
    let mut wal = Log::open(Vec::new(), config);
    assert_eq!(wal.file.len(), 64);
    let key = InternalKey::new(b"k".to_vec(), 1, InternalKeyKind::Put);
    wal.append(&key, &[0; 60]).unwrap();
    assert_eq!(wal.writer.logical_size(), 81);
    assert_eq!(wal.file.len(), 128);
}

#[test]
fn rotation_finishes_one_file_and_opens_the_next() {
    let config = WalWriterConfig {
        wal_sync: true,
        wal_preallocate_bytes: 64,
        ..WalWriterConfig::default()
    };
    let mut wal = Log::open(Vec::new(), config);
    let key = InternalKey::new(b"k".to_vec(), 1, InternalKeyKind::Put);
    wal.append(&key, b"v").unwrap();
    let size = wal.writer.logical_size();
    let mut steps = Vec::new();
    let mut action = wal.writer.rotate().unwrap();
    while action != WalAction::Done && action != WalAction::Reopen {
        steps.push(action);
        action = wal.writer.rotate_done(action);
    }
    assert_eq!(steps, vec![WalAction::Flush, WalAction::SetLen(size), WalAction::Sync]);
    assert_eq!(action, WalAction::Reopen);
    assert_eq!(wal.writer.reopened(0), WalAction::SetLen(64));
}
