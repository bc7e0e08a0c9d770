//! Levels of the sorted string table, merges and compaction.

use rkvs::storage_engine::memtable::{MemTableValue, Table};
use rkvs::storage_engine::sstable::compaction::{added_segments, CompactionBt};
use rkvs::storage_engine::sstable::level::merge::{merge_segments, merge_sort};
use rkvs::storage_engine::sstable::level::segment::{Segment, SegmentReadBuf, SegmentWriter};
use rkvs::storage_engine::sstable::level::{
    LevelContainer, OverlappingLevel, PartitionedLevel, SsTableLevel,
};
use rkvs::storage_engine::sstable::{SsTable, SsTableEntry};
use std::sync::Arc;

#[test]
fn merge_two_non_overlapping_segments() {
    let mut table = Table::new();
    let kv_pairs1 = vec![
        (
            String::from("key1"),
            MemTableValue {
                value: Some(String::from("value1")),
                sequence_number: 2,
            },
        ),
        (
            String::from("key2"),
            MemTableValue {
                value: Some(String::from("value2")),
                sequence_number: 2,
            },
        ),
        (
            String::from("key3"),
            MemTableValue {
                value: Some(String::from("value3")),
                sequence_number: 2,
            },
        ),
        (
            String::from("key4"),
            MemTableValue {
                value: Some(String::from("value4")),
                sequence_number: 2,
            },
        ),
    ];
    for (key, value) in &kv_pairs1 {
        table.insert(key.clone(), value.clone());
    }
    let sequence_number = 0;
    let sparsity_factor = 1;
    let (fp, data) = SegmentWriter::segment_file_from_memtable(
        &table,
        &sequence_number,
        &sparsity_factor,
    );
    let segment1 = Segment::from_file(fp, data).unwrap();
    table.clear();
    let kv_pairs2 = vec![
        (
            String::from("key5"),
            MemTableValue {
                value: Some(String::from("value5")),
                sequence_number: 2,
            },
        ),
        (
            String::from("key6"),
            MemTableValue {
                value: Some(String::from("value6")),
                sequence_number: 2,
            },
        ),
        (
            String::from("key7"),
            MemTableValue {
                value: Some(String::from("value7")),
                sequence_number: 2,
            },
        ),
        (
            String::from("key8"),
            MemTableValue {
                value: Some(String::from("value8")),
                sequence_number: 2,
            },
        ),
    ];
    for (key, value) in &kv_pairs2 {
        table.insert(key.clone(), value.clone());
    }
    let sequence_number = 2;
    let sparsity_factor = 1;
    let (fp, data) = SegmentWriter::segment_file_from_memtable(
        &table,
        &sequence_number,
        &sparsity_factor,
    );
    let segment2 = Segment::from_file(fp, data).unwrap();
    let level = Arc::new(SsTableLevel::<PartitionedLevel>::new(0, 1));
    let segments = vec![Arc::new(segment1), Arc::new(segment2)];
    let (new_level, segments_to_delete) = level.merge(&segments).unwrap();
    assert!(segments_to_delete.is_empty());
    for (key, value) in kv_pairs1 {
        let entry = SsTableEntry::from(key.clone(), value);
        let read_entry = new_level.get(&key).unwrap();
        assert_eq!(entry, read_entry);
    }
    for (key, value) in kv_pairs2 {
        let entry = SsTableEntry::from(key.clone(), value);
        let read_entry = new_level.get(&key).unwrap();
        assert_eq!(entry, read_entry);
    }
}

fn entry(key: &str, value: Option<&str>, sequence_number: u64) -> SsTableEntry {
    SsTableEntry {
        key: String::from(key),
        value: value.map(|v| String::from(v)),
        sequence_number,
    }
}

fn file_of(level: u64, number: u64, entries: &[SsTableEntry]) -> (String, Vec<u8>) {
    let mut writer = SegmentWriter::create_new_segment(&level, &number, 1);
    for e in entries {
        writer.write_entry(e);
    }
    writer.write_index_and_footer();
    writer.into_file()
}

fn segment_of(level: u64, number: u64, entries: &[SsTableEntry]) -> Arc<Segment> {
    let (name, data) = file_of(level, number, entries);
    Arc::new(Segment::from_file(name, data).unwrap())
}

fn keys(segment: &Arc<Segment>) -> (String, String) {
    (segment.first_key().clone(), segment.last_key().clone())
}

#[test]
fn merge_sort_keeps_the_newest() {
    let a = segment_of(0, 1, &[entry("a", Some("old"), 1), entry("c", Some("c"), 2)]);
    let b = segment_of(0, 2, &[entry("a", Some("new"), 3), entry("b", None, 4)]);
    let mut bufs = vec![SegmentReadBuf::new(a, 1000), SegmentReadBuf::new(b, 1000)];
    for buf in bufs.iter_mut() {
        buf.fill();
    }
    let out: Vec<SsTableEntry> = merge_sort(&mut bufs).into_iter().collect();
    // Only up to the smallest of the last keys, "b", is nothing missing.
    assert_eq!(out, vec![entry("a", Some("new"), 3), entry("b", None, 4)]);
    let out: Vec<SsTableEntry> = merge_sort(&mut bufs).into_iter().collect();
    assert_eq!(out, vec![entry("c", Some("c"), 2)]);
    assert!(merge_sort(&mut bufs).is_empty());
}

#[test]
fn merge_of_overlapping_segments_keeps_the_newest() {
    let level = SsTableLevel::<PartitionedLevel>::new(1000, 1);
    let (level, gone) = level
        .merge(&vec![segment_of(0, 1, &[entry("a", Some("1"), 1), entry("d", Some("1"), 2)])])
        .unwrap();
    assert!(gone.is_empty());
    let (level, gone) = level
        .merge(&vec![segment_of(0, 2, &[entry("a", Some("2"), 3), entry("b", None, 4)])])
        .unwrap();
    assert_eq!(gone.len(), 1);
    assert_eq!(level.get(&String::from("a")), Some(entry("a", Some("2"), 3)));
    assert_eq!(level.get(&String::from("b")), Some(entry("b", None, 4)));
    assert_eq!(level.get(&String::from("d")), Some(entry("d", Some("1"), 2)));
    assert_eq!(level.get(&String::from("c")), None);
    assert_eq!(level.highest_sequence_no(), 4);
}

#[test]
fn merge_leaves_segments_that_it_does_not_meet() {
    let level = SsTableLevel::<PartitionedLevel>::new(1000, 1);
    let (level, _) = level.merge(&vec![segment_of(0, 1, &[entry("m", Some("1"), 1)])]).unwrap();
    let incoming = vec![
        segment_of(0, 2, &[entry("a", Some("2"), 2)]),
        segment_of(0, 3, &[entry("z", Some("3"), 3)]),
    ];
    let (level, gone) = level.merge(&incoming).unwrap();
    assert!(gone.is_empty());
    let ranges: Vec<(String, String)> = level.segments().iter().map(keys).collect();
    for (i, (first, last)) in ranges.iter().enumerate() {
        assert!(first <= last);
        for (other, _) in &ranges[i + 1..] {
            assert!(last < other);
        }
    }
    for key in ["a", "m", "z"] {
        assert!(level.get(&String::from(key)).is_some());
    }
}

#[test]
fn merge_without_numbers_left_is_refused() {
    let segments = vec![segment_of(0, 1, &[entry("a", Some("1"), 1)])];
    assert!(merge_segments(&segments, &Vec::new(), u32::MAX as u64, 1, 1).is_none());
    assert!(merge_segments(&segments, &Vec::new(), 0, 1, 1).is_some());
    assert_eq!(merge_segments(&Vec::new(), &Vec::new(), 0, 1, 1).unwrap().len(), 0);
}

#[test]
fn overlapping_level_finds_the_newest() {
    let mut level = SsTableLevel::<OverlappingLevel>::new(100);
    assert!(!level.exceeds_target_size());
    for n in 1..5 {
        let (name, data) = file_of(0, n, &[entry("key", Some(&format!("value{}", n)), n)]);
        level.add_segment(Segment::from_file(name, data).unwrap());
    }
    assert_eq!(level.get(&String::from("key")), Some(entry("key", Some("value4"), 4)));
    assert_eq!(level.get(&String::from("other")), None);
    assert_eq!(level.highest_segment_number(), 4);
    assert_eq!(level.highest_sequence_no(), 4);
    assert_eq!(level.segments_to_merge().len(), 4);
    assert!(level.exceeds_target_size());
}

#[test]
fn partitioned_level_gives_its_oldest_segments() {
    let level = SsTableLevel::<PartitionedLevel>::new(10, 1);
    let incoming = vec![segment_of(0, 1, &[entry("a", Some("1"), 1)])];
    let (level, _) = level.merge(&incoming).unwrap();
    let incoming = vec![segment_of(0, 2, &[entry("b", Some("2"), 2)])];
    let (level, _) = level.merge(&incoming).unwrap();
    assert!(level.exceeds_target_size());
    let out = level.segments_to_merge();
    let rest = level.rest();
    assert_eq!(out.len() + rest.segments().len(), level.segments().len());
    assert!(!rest.exceeds_target_size());
    assert_eq!(rest.level_number(), 1);
    assert_eq!(rest.target_size(), 10);
}

#[test]
fn container_swaps_its_levels() {
    let mut container = LevelContainer::new(50);
    let (name, data) = file_of(0, 1, &[entry("a", Some("1"), 1)]);
    assert!(container.add_to_level_zero(name, data));
    assert!(!container.add_to_level_zero(String::from("x"), Vec::new()));
    assert_eq!(container.level_zero().segments().len(), 1);
    assert!(container.do_compact());
    let level = Arc::new(SsTableLevel::<PartitionedLevel>::new(7, 1));
    container.swap_all_levels(vec![level]);
    assert!(container.level_zero().segments().is_empty());
    assert_eq!(container.partitioned_levels().len(), 1);
    container.swap_partitioned_levels(Vec::new());
    assert!(container.partitioned_levels().is_empty());
}

#[test]
fn compaction_keeps_every_newest_version() {
    let mut table = SsTable::start(60);
    let mut task = CompactionBt::new();
    let mut written = Vec::new();
    let mut removed = Vec::new();
    for round in 0..6u64 {
        for n in 0..3u64 {
            let number = table.highest_segment_number(&0) + 1;
            let sequence = round * 10 + n;
            let value = format!("value{}", sequence);
            let entries = [
                entry(&format!("key{}", n), Some(&value), sequence),
                entry("shared", Some(&value), sequence),
            ];
            let (name, data) = file_of(0, number, &entries);
            written.push(name.clone());
            assert!(table.find_and_add_segment(name, data));
        }
        let (files, goes_on) = table.compact(&mut task);
        assert!(goes_on);
        removed.extend(files);
        assert!(table.level_zero().segments().is_empty());
        for n in 0..3u64 {
            let sequence = round * 10 + n;
            let found = table.get(&format!("key{}", n)).unwrap();
            assert_eq!(found.sequence_number, sequence);
            assert_eq!(found.value, Some(format!("value{}", sequence)));
        }
        assert_eq!(table.get(&String::from("shared")).unwrap().sequence_number, round * 10 + 2);
        assert_eq!(table.get(&String::from("absent")), None);
    }
    // Level zero is removed, since nobody holds its segments any more.
    for name in &written {
        assert!(removed.contains(name));
    }
    // The levels grow tenfold.
    let levels = table.partitioned_levels();
    assert_eq!(levels[0].target_size(), 600);
    for (i, level) in levels.iter().enumerate() {
        assert_eq!(level.level_number(), i as u64 + 1);
        assert!(!level.exceeds_target_size());
    }
}

#[test]
fn files_that_are_read_are_kept() {
    let mut table = SsTable::start(10);
    let mut task = CompactionBt::new();
    let (name, data) = file_of(0, 1, &[entry("a", Some("1"), 1)]);
    assert!(table.find_and_add_segment(name.clone(), data));
    let reader = table.level_zero();
    let (files, _) = table.compact(&mut task);
    assert!(!files.contains(&name));
    assert_eq!(reader.get(&String::from("a")), Some(entry("a", Some("1"), 1)));
    drop(reader);
    let (files, goes_on) = table.compact(&mut task);
    assert!(goes_on);
    assert!(files.contains(&name));
    let (files, _) = table.compact(&mut task);
    assert!(files.is_empty());
}

#[test]
fn unreferenced_files_are_taken_by_their_counts() {
    let mut container = LevelContainer::new(10);
    for n in 1..4 {
        let (name, data) = file_of(0, n, &[entry("a", Some("1"), n)]);
        assert!(container.add_to_level_zero(name, data));
    }
    let mut task = CompactionBt::new();
    let new = task.compact_from_level_zero(&container).unwrap();
    assert_eq!(new.len(), 1);
    let files = task.take_unreferenced(&vec![2, 1, 3]);
    assert_eq!(files, vec![String::from("0000000000000002.sst")]);
    let files = task.take_unreferenced(&vec![1, 1]);
    assert_eq!(files.len(), 2);
}

#[test]
fn a_large_level_is_compacted() {
    let mut container = LevelContainer::new(1000);
    let level = SsTableLevel::<PartitionedLevel>::new(10, 1);
    let (level, _) = level.merge(&vec![segment_of(0, 1, &[entry("a", Some("1"), 1)])]).unwrap();
    container.swap_partitioned_levels(vec![level]);
    let (before, from) = CompactionBt::find_partitioned_levels_to_compact(&container);
    assert!(before.is_empty());
    assert_eq!(from.len(), 1);
    let mut task = CompactionBt::new();
    let (_, goes_on) = task.run(&mut container, false);
    assert!(goes_on);
    let levels = container.partitioned_levels();
    assert_eq!(levels.len(), 2);
    assert!(levels[0].segments().is_empty());
    assert_eq!(levels[1].target_size(), 100);
    assert_eq!(levels[1].get(&String::from("a")), Some(entry("a", Some("1"), 1)));
}

#[test]
fn a_merge_keeps_entries_larger_than_its_buffers() {
    let large = "x".repeat(6_000_000);
    let a = segment_of(0, 1, &[entry("a", Some(&large), 1), entry("c", Some("3"), 2)]);
    let b = segment_of(0, 2, &[entry("b", Some("2"), 3), entry("d", Some(&large), 4)]);
    let level = SsTableLevel::<PartitionedLevel>::new(100, 1);
    let (merged, gone) = level.merge(&vec![a, b]).unwrap();
    assert!(gone.is_empty());
    assert_eq!(merged.get(&String::from("a")), Some(entry("a", Some(&large), 1)));
    assert_eq!(merged.get(&String::from("b")), Some(entry("b", Some("2"), 3)));
    assert_eq!(merged.get(&String::from("c")), Some(entry("c", Some("3"), 2)));
    assert_eq!(merged.get(&String::from("d")), Some(entry("d", Some(&large), 4)));
}

#[test]
fn the_file_of_a_segment_of_the_levels_is_not_removed() {
    let mut container = LevelContainer::new(1);
    let mut task = CompactionBt::new();
    for n in 1..20 {
        let key = format!("key{}", n % 7);
        let (name, data) = file_of(0, 1, &[entry(&key, Some("value"), n)]);
        assert!(container.add_to_level_zero(name, data));
        let mut removed = Vec::new();
        for do_compact in [true, false, false] {
            let (files, goes_on) = task.run(&mut container, do_compact);
            assert!(goes_on);
            for level in container.partitioned_levels() {
                for segment in level.segments() {
                    assert!(!files.contains(&segment.filepath()));
                }
            }
            removed.extend(files);
        }
        assert!(removed.contains(&String::from("0000000000000001.sst")));
    }
}

#[test]
fn added_segments_are_those_that_were_not_there() {
    let mut container = LevelContainer::new(100);
    let mut task = CompactionBt::new();
    let mut written: Vec<String> = Vec::new();
    for n in 1..30u64 {
        let key = format!("key{}", (n * 7) % 11);
        let (name, data) = file_of(0, n, &[entry(&key, Some("value"), n)]);
        assert!(container.add_to_level_zero(name, data));
        let before = container.partitioned_levels();
        let do_compact = container.do_compact();
        let (_, goes_on) = task.run(&mut container, do_compact);
        assert!(goes_on);
        let after = container.partitioned_levels();
        let added = added_segments(&before, &after);
        let was: Vec<String> =
            before.iter().flat_map(|l| l.segments().iter().map(|s| s.filepath())).collect();
        let now: Vec<String> =
            after.iter().flat_map(|l| l.segments().iter().map(|s| s.filepath())).collect();
        let expected: Vec<String> = now.iter().filter(|f| !was.contains(f)).cloned().collect();
        let names: Vec<String> = added.iter().map(|s| s.filepath()).collect();
        assert_eq!(names, expected);
        for name in names {
            assert!(!written.contains(&name));
            written.push(name);
        }
    }
    assert!(written.len() > 3);
    let levels = container.partitioned_levels();
    assert!(added_segments(&levels, &levels).is_empty());
    let none = Vec::new();
    let count: usize = levels.iter().map(|l| l.segments().len()).sum();
    assert_eq!(added_segments(&none, &levels).len(), count);
    assert!(added_segments(&levels, &none).is_empty());
}
