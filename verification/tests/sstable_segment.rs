//! The segments of the sorted string table: entries, index, files and read
//! buffers.

use rkvs::storage_engine::memtable::{MemTableValue, Table};
use rkvs::storage_engine::sstable::level::segment::{
    IndexSearchResult, Segment, SegmentFooter, SegmentIndex, SegmentIndexEntry, SegmentReadBuf,
    SegmentWriter,
};
use rkvs::storage_engine::sstable::SsTableEntry;
use std::collections::VecDeque;
use std::sync::Arc;

#[test]
fn serde_index_entry() {
    let entry_write = SegmentIndexEntry {
        key: String::from("key"),
        offset: 20,
    };
    let entry_read = SegmentIndexEntry::from_bytes(&entry_write.to_bytes());
    assert_eq!(entry_write, entry_read);
}

#[test]
fn serde_index_entry_empty_key() {
    let entry_write = SegmentIndexEntry {
        key: String::from(""),
        offset: 20,
    };
    let entry_read = SegmentIndexEntry::from_bytes(&entry_write.to_bytes());
    assert_eq!(entry_write, entry_read);
}

#[test]
fn empty_index() {
    let segment_index = SegmentIndex::new();
    let res = segment_index.find(&String::from("key"));
    assert!(matches!(res, IndexSearchResult::Range(start, end) if start == 0 && end.is_none()));
}

#[test]
fn index_find_contains_key() {
    let mut segment_index = SegmentIndex::new();
    segment_index.add_index(String::from("key0"), 0);
    segment_index.add_index(String::from("key1"), 5);
    segment_index.add_index(String::from("key2"), 10);
    let res = segment_index.find(&String::from("key0"));
    assert!(matches!(res, IndexSearchResult::Match(offset) if offset == 0));
    let res = segment_index.find(&String::from("key1"));
    assert!(matches!(res, IndexSearchResult::Match(offset) if offset == 5));
    let res = segment_index.find(&String::from("key2"));
    assert!(matches!(res, IndexSearchResult::Match(offset) if offset == 10));
}

#[test]
fn index_find_contains_empty_key() {
    let mut segment_index = SegmentIndex::new();
    segment_index.add_index(String::from(""), 0);
    segment_index.add_index(String::from("key1"), 5);
    segment_index.add_index(String::from("key2"), 10);
    let res = segment_index.find(&String::from(""));
    assert!(matches!(res, IndexSearchResult::Match(offset) if offset == 0));
    let res = segment_index.find(&String::from("key1"));
    assert!(matches!(res, IndexSearchResult::Match(offset) if offset == 5));
    let res = segment_index.find(&String::from("key2"));
    assert!(matches!(res, IndexSearchResult::Match(offset) if offset == 10));
}

#[test]
fn index_find_empty_key_sparse() {
    let mut segment_index = SegmentIndex::new();
    segment_index.add_index(String::from("key1"), 5);
    segment_index.add_index(String::from("key2"), 10);
    let res = segment_index.find(&String::from(""));
    assert!(
        matches!(res, IndexSearchResult::Range(start, end) if start == 0 && end.unwrap() == 5)
    );
    let res = segment_index.find(&String::from("key1"));
    assert!(matches!(res, IndexSearchResult::Match(offset) if offset == 5));
    let res = segment_index.find(&String::from("key2"));
    assert!(matches!(res, IndexSearchResult::Match(offset) if offset == 10));
}

#[test]
fn index_find_sparse() {
    let mut segment_index = SegmentIndex::new();
    segment_index.add_index(String::from("key0"), 0);
    segment_index.add_index(String::from("key2"), 5);
    segment_index.add_index(String::from("key4"), 10);
    let res = segment_index.find(&String::from("key1"));
    assert!(
        matches!(res, IndexSearchResult::Range(start, end) if start == 0 && end.unwrap() == 5)
    );
    let res = segment_index.find(&String::from("key3"));
    assert!(
        matches!(res, IndexSearchResult::Range(start, end) if start == 5 && end.unwrap() == 10)
    );
    let res = segment_index.find(&String::from("key5"));
    assert!(
        matches!(res, IndexSearchResult::Range(start, end) if start == 10 && end.is_none())
    );
}

#[test]
fn index_to_bytes() {
    let mut segment_index_write = SegmentIndex::new();
    segment_index_write.add_index(String::from("key0"), 0);
    segment_index_write.add_index(String::from("key2"), 5);
    segment_index_write.add_index(String::from("key4"), 10);
    let segment_index_read = SegmentIndex::from_bytes(&segment_index_write.to_bytes());
    assert_eq!(segment_index_read, segment_index_write);
}

#[test]
fn segment_basic_get() {
    let mut table = Table::new();
    table.insert(
        String::from("key"),
        MemTableValue {
            value: Some(String::from("value")),
            sequence_number: 2,
        },
    );
    let sequence_number = 0;
    let sparsity_factor = 1;
    let (fp, data) = SegmentWriter::segment_file_from_memtable(
        &table,
        &sequence_number,
        &sparsity_factor,
    );
    let segment = Segment::from_file(fp, data).unwrap();
    assert_eq!(*segment.first_key(), String::from("key"));
    assert_eq!(*segment.last_key(), String::from("key"));
    let value = segment.get(&String::from("key"));
    assert!(value.is_some());
    let entry = SsTableEntry::from(
        String::from("key"),
        MemTableValue {
            value: Some(String::from("value")),
            sequence_number: 2,
        },
    );
    assert_eq!(value.unwrap(), entry);
    let value = segment.get(&String::from("absent_key"));
    assert!(matches!(value, None));
    let value = segment.get(&String::from("l_absent_key"));
    assert!(matches!(value, None));
}

#[test]
fn segment_basic_get_multiple_keys() {
    let mut table = Table::new();
    let kv_pairs = vec![
        (
            String::from("first_key"),
            MemTableValue {
                value: Some(String::from("first_value")),
                sequence_number: 2,
            },
        ),
        (
            String::from("second_key"),
            MemTableValue {
                value: Some(String::from("second_value")),
                sequence_number: 2,
            },
        ),
        (
            String::from("third_key"),
            MemTableValue {
                value: Some(String::from("third_value")),
                sequence_number: 2,
            },
        ),
        (
            String::from("fourth_key"),
            MemTableValue {
                value: Some(String::from("fourth_value")),
                sequence_number: 2,
            },
        ),
    ];
    let entries_write: Vec<Option<SsTableEntry>> = kv_pairs
        .iter()
        .map(|(key, value)| Some(SsTableEntry::from(key.clone(), value.clone())))
        .collect();
    for (key, value) in &kv_pairs {
        table.insert(key.clone(), value.clone());
    }
    let sequence_number = 0;
    let sparsity_factor = 1;
    let (fp, data) = SegmentWriter::segment_file_from_memtable(
        &table,
        &sequence_number,
        &sparsity_factor,
    );
    let segment = Segment::from_file(fp, data).unwrap();
    assert_eq!(*segment.first_key(), String::from("first_key"));
    assert_eq!(*segment.last_key(), String::from("third_key"));
    let mut entries_read = Vec::<Option<SsTableEntry>>::new();
    for (key, _) in &kv_pairs {
        entries_read.push(segment.get(key));
    }
    assert_eq!(entries_read, entries_write);
    let value = segment.get(&String::from("absent_key"));
    assert!(matches!(value, None));
    let value = segment.get(&String::from("l_absent_key"));
    assert!(matches!(value, None));
    let value = segment.get(&String::from("z_absent_key"));
    assert!(matches!(value, None));
}

#[test]
fn segment_basic_get_multiple_keys_sparse_index() {
    let mut table = Table::new();
    let kv_pairs = vec![
        (
            String::from("first_key"),
            MemTableValue {
                value: Some(String::from("first_value")),
                sequence_number: 2,
            },
        ),
        (
            String::from("second_key"),
            MemTableValue {
                value: Some(String::from("second_value")),
                sequence_number: 2,
            },
        ),
        (
            String::from("third_key"),
            MemTableValue {
                value: Some(String::from("third_value")),
                sequence_number: 2,
            },
        ),
        (
            String::from("fourth_key"),
            MemTableValue {
                value: Some(String::from("fourth_value")),
                sequence_number: 2,
            },
        ),
        (
            String::from("fifth_key"),
            MemTableValue {
                value: Some(String::from("fifth_value")),
                sequence_number: 2,
            },
        ),
        (
            String::from("sixth_key"),
            MemTableValue {
                value: Some(String::from("sixth_value")),
                sequence_number: 2,
            },
        ),
        (
            String::from("seventh_key"),
            MemTableValue {
                value: Some(String::from("seventh_value")),
                sequence_number: 2,
            },
        ),
        (
            String::from("eighth_key"),
            MemTableValue {
                value: Some(String::from("eighth_value")),
                sequence_number: 2,
            },
        ),
        (
            String::from("ninth_key"),
            MemTableValue {
                value: Some(String::from("ninth_value")),
                sequence_number: 2,
            },
        ),
        (
            String::from("tenth_key"),
            MemTableValue {
                value: Some(String::from("tenth_value")),
                sequence_number: 2,
            },
        ),
    ];
    let entries_write: Vec<Option<SsTableEntry>> = kv_pairs
        .iter()
        .map(|(key, value)| Some(SsTableEntry::from(key.clone(), value.clone())))
        .collect();
    for (key, value) in &kv_pairs {
        table.insert(key.clone(), value.clone());
    }
    let sequence_number = 0;
    let sparsity_factor = 4;
    let (fp, data) = SegmentWriter::segment_file_from_memtable(
        &table,
        &sequence_number,
        &sparsity_factor,
    );
    let segment = Segment::from_file(fp, data).unwrap();
    assert_eq!(*segment.first_key(), String::from("eighth_key"));
    assert_eq!(*segment.last_key(), String::from("third_key"));

    let mut entries_read = Vec::<Option<SsTableEntry>>::new();
    for (key, _) in &kv_pairs {
        entries_read.push(segment.get(key));
    }

    assert_eq!(entries_read, entries_write);
    let value = segment.get(&String::from("absent_key"));
    assert!(matches!(value, None));
    let value = segment.get(&String::from("l_absent_key"));
    assert!(matches!(value, None));
    let value = segment.get(&String::from("z_absent_key"));
    assert!(matches!(value, None));
}

#[test]
fn segment_parse_entries() {
    let kv_pairs = vec![
        (
            String::from("first_key"),
            MemTableValue {
                value: Some(String::from("first_value")),
                sequence_number: 2,
            },
        ),
        (
            String::from("second_key"),
            MemTableValue {
                value: Some(String::from("second_value")),
                sequence_number: 2,
            },
        ),
        (
            String::from("third_key"),
            MemTableValue {
                value: Some(String::from("third_value")),
                sequence_number: 2,
            },
        ),
        (
            String::from("fourth_key"),
            MemTableValue {
                value: Some(String::from("fourth_value")),
                sequence_number: 2,
            },
        ),
        (
            String::from("fifth_key"),
            MemTableValue {
                value: Some(String::from("fifth_value")),
                sequence_number: 2,
            },
        ),
        (
            String::from("sixth_key"),
            MemTableValue {
                value: Some(String::from("sixth_value")),
                sequence_number: 2,
            },
        ),
        (
            String::from("seventh_key"),
            MemTableValue {
                value: Some(String::from("seventh_value")),
                sequence_number: 2,
            },
        ),
        (
            String::from("eighth_key"),
            MemTableValue {
                value: Some(String::from("eighth_value")),
                sequence_number: 2,
            },
        ),
        (
            String::from("ninth_key"),
            MemTableValue {
                value: Some(String::from("ninth_value")),
                sequence_number: 2,
            },
        ),
        (
            String::from("tenth_key"),
            MemTableValue {
                value: Some(String::from("tenth_value")),
                sequence_number: 2,
            },
        ),
    ];
    let entries_write: Vec<SsTableEntry> = kv_pairs
        .iter()
        .map(|(key, value)| SsTableEntry::from(key.clone(), value.clone()))
        .collect();
    let mut bytes = Vec::<u8>::new();
    for entry in &entries_write {
        let entry_len = entry.len() as u32;
        bytes.append(&mut entry_len.to_le_bytes().to_vec());
        bytes.append(&mut entry.to_bytes());
    }
    let entries_read = Segment::parse_entries(bytes);
    assert_eq!(entries_read, entries_write);
}

#[test]
fn segment_writer_basic() {
    let mut segment_writer = SegmentWriter::create_new_segment(&0, &0, 1);
    let entries = vec![
        SsTableEntry {
            key: String::from("key1"),
            sequence_number: 0,
            value: Some(String::from("value1")),
        },
        SsTableEntry {
            key: String::from("key2"),
            sequence_number: 1,
            value: None,
        },
        SsTableEntry {
            key: String::from("key3"),
            sequence_number: 2,
            value: Some(String::from("value3")),
        },
    ];
    for entry in &entries {
        segment_writer.write_entry(&entry);
    }
    segment_writer.write_index_and_footer();
    let (filename, data) = segment_writer.into_file();
    let segment = Segment::from_file(filename, data).unwrap();
    for entry in entries {
        let entry_read = segment.get(&entry.key).unwrap();
        assert_eq!(entry, entry_read);
    }
    let no_entry = segment.get(&String::from("key"));
    assert!(matches!(no_entry, None));
}

#[test]
fn segment_read_buf_read_all() {
    let mut segment_writer = SegmentWriter::create_new_segment(&0, &0, 1);
    let entries = vec![
        SsTableEntry {
            key: String::from("key1"),
            sequence_number: 0,
            value: Some(String::from("value1")),
        },
        SsTableEntry {
            key: String::from("key2"),
            sequence_number: 1,
            value: None,
        },
        SsTableEntry {
            key: String::from("key3"),
            sequence_number: 2,
            value: Some(String::from("value3")),
        },
    ];
    for entry in &entries {
        segment_writer.write_entry(&entry);
    }
    segment_writer.write_index_and_footer();
    let (filename, data) = segment_writer.into_file();
    let segment = Segment::from_file(filename, data).unwrap();
    let mut read_buf = SegmentReadBuf::new(Arc::new(segment), 1024);
    read_buf.fill();
    let mut entries_read: Vec<SsTableEntry> = Vec::new();
    while let Some(entry) = read_buf.pop_front() {
        entries_read.push(entry);
    }
    assert_eq!(entries_read.len(), 3);
    assert_eq!(entries, entries_read);
}

fn entry(key: &str, value: Option<&str>, sequence_number: u64) -> SsTableEntry {
    SsTableEntry {
        key: String::from(key),
        value: value.map(|v| String::from(v)),
        sequence_number,
    }
}

fn segment_of(number: u64, sparsity: u32, entries: &[SsTableEntry]) -> Segment {
    let mut writer = SegmentWriter::create_new_segment(&1, &number, sparsity);
    for e in entries {
        writer.write_entry(e);
    }
    writer.write_index_and_footer();
    let (filename, data) = writer.into_file();
    Segment::from_file(filename, data).unwrap()
}

#[test]
fn serde_table_entry() {
    let put = entry("key", Some("value"), 9);
    let delete = entry("key", None, 9);
    let empty = entry("key", Some(""), 9);
    for e in [put, delete, empty] {
        let bytes = e.to_bytes();
        assert_eq!(bytes.len(), e.len());
        assert_eq!(SsTableEntry::from_bytes(&bytes), e);
        assert_eq!(SsTableEntry::parse(&bytes[..bytes.len() - 1]), None);
    }
    assert_eq!(entry("key", Some("value"), 9).len(), 4 + 3 + 8 + 8 + 1 + 5);
}

#[test]
fn serde_footer() {
    let footer = SegmentFooter { index_offset: 0x0102030405060708 };
    let bytes = footer.to_bytes();
    assert_eq!(bytes[..8], [8, 7, 6, 5, 4, 3, 2, 1]);
    assert_eq!(SegmentFooter::from_bytes(&bytes[..8].to_vec()).index_offset, footer.index_offset);
}

#[test]
fn index_sizes() {
    let mut index = SegmentIndex::new();
    assert_eq!(index.len(), 0);
    index.add_index(String::from("key0"), 0);
    index.add_index(String::from("key2"), 5);
    assert_eq!(index.len(), 2 * (4 + 12));
    assert_eq!(index.size(), 2 * (4 + 8));
    assert_eq!(index.to_bytes().len(), 2 * (4 + 16));
    assert!(SegmentIndex::parse(&index.to_bytes()[..21]).is_none());
    let (found, position) = index.binary_search(&String::from("key1"));
    assert_eq!(found.key, "key0");
    assert_eq!(position, 0);
}

#[test]
fn segment_filenames() {
    assert_eq!(
        Segment::determine_segment_filename(&1, &255),
        "00000001000000ff.sst"
    );
}

#[test]
fn damaged_segment_files_are_not_opened() {
    let mut writer = SegmentWriter::create_new_segment(&0, &3, 1);
    writer.write_entry(&entry("key", Some("value"), 1));
    writer.write_index_and_footer();
    let (filename, data) = writer.into_file();
    assert!(Segment::from_file(filename.clone(), data.clone()).is_some());
    assert!(Segment::from_file(filename.clone(), data[..data.len() - 1].to_vec()).is_none());
    assert!(Segment::from_file(filename.clone(), Vec::new()).is_none());
    assert!(Segment::from_file(String::from("segment"), data).is_none());
}

#[test]
fn segment_facts() {
    let a = segment_of(7, 2, &[entry("b", Some("1"), 4), entry("d", None, 9)]);
    let b = segment_of(8, 2, &[entry("c", Some("1"), 5)]);
    let c = segment_of(9, 2, &[entry("e", Some("1"), 5)]);
    assert_eq!(*a.segment_number(), 7);
    assert_eq!(a.highest_sequence_number(), 9);
    assert_eq!(a.size() as usize, a.bytes().len());
    assert!(a.overlaps(&b) && b.overlaps(&a));
    assert!(!a.overlaps(&c) && !c.overlaps(&a));
    assert_eq!(a.get(&String::from("d")), Some(entry("d", None, 9)));
    assert_eq!(a.get(&String::from("c")), None);
}

#[test]
fn read_buf_in_pieces() {
    let entries: Vec<SsTableEntry> =
        (0..10).map(|n| entry(&format!("key{}", n), Some("value"), n)).collect();
    let room = (entries[0].len() as u64 + 4) * 3 + 1;
    let mut buf = SegmentReadBuf::new(Arc::new(segment_of(0, 1, &entries)), room);
    assert!(buf.is_empty());
    buf.fill();
    assert_eq!(buf.front(), Some(&entries[0]));
    assert_eq!(buf.back(), Some(&entries[2]));
    let mut read = Vec::new();
    while let Some(e) = buf.pop_front() {
        read.push(e);
        buf.fill();
    }
    assert_eq!(read, entries);
}

#[test]
fn read_at_most_gives_whole_entries() {
    let entries = vec![entry("key1", Some("value1"), 0), entry("key2", Some("value2"), 1)];
    let segment = segment_of(0, 1, &entries);
    let len = entries[0].len() as u64 + 4;
    assert_eq!(segment.read_at_most(&0, &(len - 1)).len(), 0);
    assert_eq!(segment.read_at_most(&0, &(len + 3)).len(), 1);
    assert_eq!(segment.read_at_most(&len, &1000).front(), Some(&entries[1]));
}

#[test]
fn write_slice_stops_at_the_target() {
    let mut slice: VecDeque<SsTableEntry> =
        (0..10).map(|n| entry(&format!("key{}", n), Some("value"), n)).collect();
    let mut file = Vec::new();
    let mut index = SegmentIndex::new();
    Segment::write_slice(&mut file, &mut index, &mut slice, &100, 1);
    assert!(!slice.is_empty());
    let written = 10 - slice.len();
    assert!(written > 0);
    let name = Segment::determine_segment_filename(&1, &1);
    let segment = Segment::from_file(name, file).unwrap();
    assert_eq!(*segment.last_key(), format!("key{}", written - 1));
    let mut file = Vec::new();
    let mut index = SegmentIndex::new();
    Segment::write_slice(&mut file, &mut index, &mut slice, &100000, 1);
    assert!(slice.is_empty());
}

#[test]
fn an_entry_that_takes_more_than_the_room_is_read_alone() {
    let entries = vec![
        entry("a", Some("1"), 1),
        entry("b", Some(&"x".repeat(500)), 2),
        entry("c", Some("3"), 3),
    ];
    let mut buf = SegmentReadBuf::new(Arc::new(segment_of(0, 1, &entries)), 40);
    buf.fill();
    assert_eq!(buf.back(), Some(&entries[0]));
    assert_eq!(buf.pop_front().as_ref(), Some(&entries[0]));
    buf.fill();
    assert_eq!(buf.front(), Some(&entries[1]));
    assert_eq!(buf.back(), Some(&entries[1]));
    buf.fill();
    assert_eq!(buf.back(), Some(&entries[1]));
    assert_eq!(buf.pop_front().as_ref(), Some(&entries[1]));
    buf.fill();
    assert_eq!(buf.pop_front().as_ref(), Some(&entries[2]));
    buf.fill();
    assert!(buf.is_empty());
}
