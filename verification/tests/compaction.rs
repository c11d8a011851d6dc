//! Splitting compactions.

use std::sync::Arc;

use goat_db::format::internal_key::{InternalKey, InternalKeyKind};
use goat_db::storage::compaction::picker::{
    build_subcompaction_ranges, collect_user_key_boundaries,
};
use goat_db::storage::compaction::plan::{split_user_key_ranges, SubcompactionRange};
use goat_db::storage::metadata::{FileMetadata, TableProperties};

fn make_file(file_id: u64, smallest_user: &[u8], largest_user: &[u8]) -> Arc<FileMetadata> {
    let smallest = InternalKey::new(smallest_user.to_vec(), 20, InternalKeyKind::Put).serialize();
    let largest = InternalKey::new(largest_user.to_vec(), 10, InternalKeyKind::Put).serialize();
    let props = TableProperties::new(1024, smallest, largest, 10, 20);
    Arc::new(FileMetadata::from_props(file_id, props))
}

#[test]
fn collect_user_key_boundaries_drops_global_max() {
    let source = vec![make_file(1, b"a", b"f"), make_file(2, b"g", b"m")];
    let target = vec![make_file(3, b"n", b"z")];
    let boundaries = collect_user_key_boundaries(&source, &target);
    assert_eq!(boundaries, vec![b"f".to_vec(), b"m".to_vec()]);
}

#[test]
fn build_subcompaction_ranges_respects_order() {
    let source = vec![
        make_file(1, b"a", b"c"),
        make_file(2, b"d", b"f"),
        make_file(3, b"g", b"i"),
        make_file(4, b"j", b"l"),
    ];
    let ranges = build_subcompaction_ranges(&source, &[], 3);
    assert!(ranges.len() <= 3);
    for window in ranges.windows(2) {
        assert_eq!(window[0].end_user_key, window[1].start_user_key);
    }
}

#[test]
fn split_user_key_ranges_returns_full_when_no_boundary() {
    let ranges = split_user_key_ranges(&[], 4);
    assert_eq!(ranges, vec![SubcompactionRange::full()]);
}

#[test]
fn split_user_key_ranges_respects_requested_upper_bound() {
    let boundaries = vec![
        b"c".to_vec(),
        b"f".to_vec(),
        b"j".to_vec(),
        b"p".to_vec(),
        b"t".to_vec(),
    ];
    let ranges = split_user_key_ranges(&boundaries, 3);
    assert!(ranges.len() <= 3);
}

#[test]
fn split_user_key_ranges_are_ordered_and_non_overlapping() {
    let boundaries = vec![b"d".to_vec(), b"h".to_vec(), b"m".to_vec(), b"z".to_vec()];
    let ranges = split_user_key_ranges(&boundaries, 5);
    assert_eq!(ranges.len(), 5);

    for window in ranges.windows(2) {
        let left = &window[0];
        let right = &window[1];
        assert_eq!(left.end_user_key, right.start_user_key);
        if let (Some(start), Some(end)) = (&left.start_user_key, &left.end_user_key) {
            assert!(start < end);
        }
    }
    assert!(ranges.first().unwrap().start_user_key.is_none());
    assert!(ranges.last().unwrap().end_user_key.is_none());
}

#[test]
fn cuts_are_spread_evenly() {
    let boundaries: Vec<Vec<u8>> = (0u8..6).map(|i| vec![b'a' + i]).collect();
    // Two cuts among six boundaries: at 1 * 6 / 3 and 2 * 6 / 3.
    let ranges = split_user_key_ranges(&boundaries, 3);
    let ends: Vec<Option<Vec<u8>>> = ranges.iter().map(|r| r.end_user_key.clone()).collect();
    assert_eq!(ends, vec![Some(b"c".to_vec()), Some(b"e".to_vec()), None]);
    assert_eq!(ranges[0].clone(), ranges[0]);
}

#[test]
fn equal_cuts_are_taken_once() {
    let boundaries = vec![b"k".to_vec(), b"k".to_vec(), b"k".to_vec()];
    let ranges = split_user_key_ranges(&boundaries, 4);
    assert_eq!(ranges.len(), 2);
    assert_eq!(ranges[0].end_user_key, Some(b"k".to_vec()));
    assert_eq!(split_user_key_ranges(&boundaries, 0), vec![SubcompactionRange::full()]);
    assert_eq!(split_user_key_ranges(&boundaries, 1), vec![SubcompactionRange::full()]);
}

#[test]
fn boundaries_are_sorted_and_unique() {
    let files = vec![
        make_file(1, b"a", b"m"),
        make_file(2, b"a", b"c"),
        make_file(3, b"a", b"m"),
        make_file(4, b"a", b"t"),
    ];
    let boundaries = collect_user_key_boundaries(&files, &files);
    assert_eq!(boundaries, vec![b"c".to_vec(), b"m".to_vec()]);
    assert!(collect_user_key_boundaries(&[], &[]).is_empty());
}

#[test]
fn every_key_lies_in_one_range() {
    let files: Vec<Arc<FileMetadata>> =
        (0u64..9).map(|i| make_file(i, b"a", &[b'b' + 2 * i as u8])).collect();
    for max in 0usize..8 {
        let ranges = build_subcompaction_ranges(&files, &[], max);
        for key in 0u8..=255 {
            let key = vec![key];
            let holding = ranges
                .iter()
                .filter(|r| {
                    r.start_user_key.as_ref().map_or(true, |start| start <= &key)
                        && r.end_user_key.as_ref().map_or(true, |end| &key < end)
                })
                .count();
            assert_eq!(holding, 1);
        }
        assert!(ranges.len() <= max.max(1));
    }
}
