//! The records of the log and its files.

use rkvs::storage_engine::memtable::wal::segment::{
    calculate_checksum, determine_segment_filename, final_entry_after, parse_filename,
    read_records, OpType, ParseEnd, RecoveryError, Segment, WalEntry, HEADER_SIZE,
};
use rkvs::storage_engine::memtable::wal::{read_log, LogFile, Wal, WalStep};

#[test]
fn serde_wal_entry_delete_ok() {
    let write_entry = WalEntry {
        operation_type: OpType::Delete,
        key: String::from("key"),
        value: None,
        sequence_number: 1024,
    };
    let bytes = write_entry.to_bytes();
    let read_entry = WalEntry::from_bytes(&bytes[2 * size_of::<u32>()..]).unwrap();
    assert_eq!(read_entry.key, write_entry.key);
    assert!(read_entry.value.is_none());
    assert_eq!(read_entry.sequence_number, write_entry.sequence_number);
    assert_eq!(read_entry.operation_type, write_entry.operation_type);
}

#[test]
fn serde_wal_entry_put_ok() {
    let write_entry = WalEntry {
        operation_type: OpType::Put,
        key: String::from("key"),
        value: Some(String::from("value")),
        sequence_number: 1024,
    };
    let bytes = write_entry.to_bytes();
    let read_entry = WalEntry::from_bytes(&bytes[2 * size_of::<u32>()..]).unwrap();
    assert_eq!(read_entry.key, write_entry.key);
    assert_eq!(read_entry.sequence_number, write_entry.sequence_number);
    assert_eq!(read_entry.operation_type, write_entry.operation_type);
    assert_eq!(read_entry.value, write_entry.value);
}

#[test]
fn serde_wal_entry_put_truncated_key_len() {
    let write_entry = WalEntry {
        operation_type: OpType::Put,
        key: String::from("key"),
        value: Some(String::from("value")),
        sequence_number: 1024,
    };
    let bytes = write_entry.to_bytes();
    let read_entry = WalEntry::from_bytes(&bytes[2 * size_of::<u32>()..HEADER_SIZE - 2]);
    assert!(matches!(read_entry, Err(RecoveryError::Corrupted)));
}

#[test]
fn serde_wal_entry_put_truncated_key() {
    let write_entry = WalEntry {
        operation_type: OpType::Put,
        key: String::from("key"),
        value: Some(String::from("value")),
        sequence_number: 1024,
    };
    let bytes = write_entry.to_bytes();
    let read_entry = WalEntry::from_bytes(&bytes[2 * size_of::<u32>()..HEADER_SIZE + 1]);
    assert!(matches!(read_entry, Err(RecoveryError::Corrupted)));
}

#[test]
fn serde_wal_entry_put_truncated_value_len() {
    let write_entry = WalEntry {
        operation_type: OpType::Put,
        key: String::from("key"),
        value: Some(String::from("value")),
        sequence_number: 1024,
    };
    let bytes = write_entry.to_bytes();
    let read_entry = WalEntry::from_bytes(&bytes[2 * size_of::<u32>()..HEADER_SIZE + 4]);
    assert!(matches!(read_entry, Err(RecoveryError::Corrupted)));
}

#[test]
fn serde_wal_entry_put_truncated_value() {
    let write_entry = WalEntry {
        operation_type: OpType::Put,
        key: String::from("key"),
        value: Some(String::from("value")),
        sequence_number: 1024,
    };
    let bytes = write_entry.to_bytes();
    let read_entry = WalEntry::from_bytes(&bytes[2 * size_of::<u32>()..HEADER_SIZE + 8]);
    assert!(matches!(read_entry, Err(RecoveryError::Corrupted)));
}

#[test]
fn serde_wal_entry_put_truncated_sequence_no() {
    let write_entry = WalEntry {
        operation_type: OpType::Put,
        key: String::from("key"),
        value: Some(String::from("value")),
        sequence_number: 1024,
    };
    let bytes = write_entry.to_bytes();
    let read_entry = WalEntry::from_bytes(&bytes[2 * size_of::<u32>()..bytes.len() - 2]);
    assert!(matches!(read_entry, Err(RecoveryError::Corrupted)));
}

#[test]
fn serde_wal_entry_del_truncated_key_len() {
    let write_entry = WalEntry {
        operation_type: OpType::Delete,
        key: String::from("key"),
        value: None,
        sequence_number: 1024,
    };
    let bytes = write_entry.to_bytes();
    let read_entry = WalEntry::from_bytes(&bytes[2 * size_of::<u32>()..HEADER_SIZE - 2]);
    assert!(matches!(read_entry, Err(RecoveryError::Corrupted)));
}

#[test]
fn serde_wal_entry_del_truncated_key() {
    let write_entry = WalEntry {
        operation_type: OpType::Delete,
        key: String::from("key"),
        value: None,
        sequence_number: 1024,
    };
    let bytes = write_entry.to_bytes();
    let read_entry = WalEntry::from_bytes(&bytes[2 * size_of::<u32>()..HEADER_SIZE + 1]);
    assert!(matches!(read_entry, Err(RecoveryError::Corrupted)));
}

#[test]
fn serde_wal_entry_del_truncated_sequence_no() {
    let write_entry = WalEntry {
        operation_type: OpType::Delete,
        key: String::from("key"),
        value: None,
        sequence_number: 1024,
    };
    let bytes = write_entry.to_bytes();
    let read_entry = WalEntry::from_bytes(&bytes[2 * size_of::<u32>()..bytes.len() - 4]);
    assert!(matches!(read_entry, Err(RecoveryError::Corrupted)));
}

#[test]
fn serde_multiple_wal_entries() {
    let mut wal_entries_write = Vec::<WalEntry>::new();
    for n in 0..1000 {
        if n % 7 == 0 {
            wal_entries_write.push(WalEntry {
                operation_type: OpType::Put,
                key: String::from("key") + &n.to_string(),
                value: Some(String::from("value") + &n.to_string()),
                sequence_number: n as u64,
            });
        } else {
            wal_entries_write.push(WalEntry {
                operation_type: OpType::Delete,
                key: String::from("key") + &n.to_string(),
                value: None,
                sequence_number: n as u64,
            });
        }
    }
    let mut bytes = Vec::<u8>::new();
    for entry in &wal_entries_write {
        bytes.append(&mut entry.to_bytes());
    }
    let mut wal_entries_read = Vec::<WalEntry>::new();
    let res = Segment::parse_validate_wal_entries(&bytes, &mut wal_entries_read);
    assert!(matches!(res, Ok(None)));
    assert_eq!(wal_entries_read, wal_entries_write);
}

#[test]
fn serde_multiple_wal_entries_checksum_mismatch() {
    let mut wal_entries_write = Vec::<WalEntry>::new();
    for n in 0..1000 {
        if n % 7 == 0 {
            wal_entries_write.push(WalEntry {
                operation_type: OpType::Put,
                key: String::from("key") + &n.to_string(),
                value: Some(String::from("value") + &n.to_string()),
                sequence_number: n as u64,
            });
        } else {
            wal_entries_write.push(WalEntry {
                operation_type: OpType::Delete,
                key: String::from("key") + &n.to_string(),
                value: None,
                sequence_number: n as u64,
            });
        }
    }
    let mut bytes = Vec::<u8>::new();
    for entry in &wal_entries_write {
        if entry.sequence_number == 500 {
            let mut corrupted_bytes = entry.to_bytes();
            corrupted_bytes[7] += 1;
            bytes.append(&mut corrupted_bytes);
        } else {
            bytes.append(&mut entry.to_bytes());
        }
    }
    let mut wal_entries_read = Vec::<WalEntry>::new();
    let res = Segment::parse_validate_wal_entries(&bytes, &mut wal_entries_read);
    assert!(matches!(res, Err(RecoveryError::Corrupted)));
    assert_eq!(wal_entries_read.len(), 500);
    assert_eq!(wal_entries_read, wal_entries_write[0..500]);
}

#[test]
fn serde_multiple_wal_entries_truncated_entry() {
    let mut wal_entries_write = Vec::<WalEntry>::new();
    for n in 0..1000 {
        if n % 7 == 0 {
            wal_entries_write.push(WalEntry {
                operation_type: OpType::Put,
                key: String::from("key") + &n.to_string(),
                value: Some(String::from("value") + &n.to_string()),
                sequence_number: n as u64,
            });
        } else {
            wal_entries_write.push(WalEntry {
                operation_type: OpType::Delete,
                key: String::from("key") + &n.to_string(),
                value: None,
                sequence_number: n as u64,
            });
        }
    }
    let mut bytes = Vec::<u8>::new();
    for entry in &wal_entries_write {
        if entry.sequence_number == 500 {
            let corrupted_bytes = entry.to_bytes();
            bytes.append(&mut corrupted_bytes[0..corrupted_bytes.len() - 5].to_vec());
        } else {
            bytes.append(&mut entry.to_bytes());
        }
    }
    let mut wal_entries_read = Vec::<WalEntry>::new();
    let res = Segment::parse_validate_wal_entries(&bytes, &mut wal_entries_read);
    assert!(matches!(res, Err(RecoveryError::Corrupted)));
    assert_eq!(wal_entries_read.len(), 500);
    assert_eq!(wal_entries_read, wal_entries_write[0..500]);
}

#[test]
fn serde_multiple_wal_entries_zero_len_entry() {
    let mut wal_entries_write = Vec::<WalEntry>::new();
    for n in 0..10 {
        if n % 7 == 0 {
            wal_entries_write.push(WalEntry {
                operation_type: OpType::Put,
                key: String::from("key") + &n.to_string(),
                value: Some(String::from("value") + &n.to_string()),
                sequence_number: n as u64,
            });
        } else {
            wal_entries_write.push(WalEntry {
                operation_type: OpType::Delete,
                key: String::from("key") + &n.to_string(),
                value: None,
                sequence_number: n as u64,
            });
        }
    }
    let mut bytes = Vec::<u8>::new();
    for entry in &wal_entries_write {
        if entry.sequence_number == 5 {
            let len: u32 = 0;
            let mut corrupted_bytes = entry.to_bytes();
            corrupted_bytes[0..size_of::<u32>()].copy_from_slice(&len.to_le_bytes());
            bytes.append(&mut corrupted_bytes);
        } else {
            bytes.append(&mut entry.to_bytes());
        }
    }
    let mut wal_entries_read = Vec::<WalEntry>::new();
    let res = Segment::parse_validate_wal_entries(&bytes, &mut wal_entries_read);
    assert!(matches!(res, Err(RecoveryError::Corrupted)));
    assert_eq!(wal_entries_read.len(), 5);
    assert_eq!(wal_entries_read, wal_entries_write[0..5]);
}

#[test]
fn segment_append_ok() {
    let segment_size = 256;
    let mut segment = Segment::new(0, segment_size);
    segment.append(vec![0, 1, 2, 3].as_slice());
    assert_eq!(segment.file_size(), 4);
}

#[test]
fn segment_append_empty() {
    let segment_size = 256;
    let mut segment = Segment::new(0, segment_size);
    let buf = Vec::new();
    segment.append(&buf);
    assert_eq!(segment.file_size(), 0);
}

#[test]
fn segment_append_one_entry() {
    let segment_size = 256;
    let mut segment = Segment::new(0, segment_size);
    let bytes = WalEntry {
        operation_type: OpType::Put,
        key: String::from("key"),
        sequence_number: 1024,
        value: Some(String::from("value")),
    }
    .to_bytes();
    segment.append(&bytes);
    assert_eq!(segment.file_size() as usize, bytes.len());
}

#[test]
fn segment_pad() {
    let segment_size = 256;
    let mut segment = Segment::new(0, segment_size);
    segment.append(vec![0, 1, 2, 3].as_slice());
    assert_eq!(segment.file_size(), 4);
    let padding = segment.pad();
    assert_eq!(segment.file_size(), segment_size);
    assert_eq!(4 + padding.len() as u64, segment_size as u64);
    assert!(padding.iter().all(|b| *b == 0));
}

struct FilenameTest {
    pub timeline: u32,
    pub sequence_number: u64,
    pub segment_size: u32,
    pub expected: String,
}

#[test]
fn segment_filename() {
    let base_two: u32 = 2;
    let base_two_u64: u64 = 2;
    let tests = vec![
        FilenameTest {
            timeline: 0,
            sequence_number: 0,
            segment_size: 2,
            expected: String::from("000000000000000000000000.wal"),
        },
        FilenameTest {
            timeline: 0,
            sequence_number: base_two_u64.pow(16) + 30, // 0x000000000001001e
            segment_size: base_two.pow(8),
            expected: String::from("000000000000000000000100.wal"),
        },
        FilenameTest {
            timeline: 0,
            sequence_number: base_two_u64.pow(40) + 8443, // 0x00000100000020fb
            segment_size: base_two.pow(16),
            expected: String::from("000000000000010000000000.wal"),
        },
        FilenameTest {
            timeline: 0,
            sequence_number: 56014641572749563, // 0x00c701050d2a20fb
            segment_size: base_two.pow(16),
            expected: String::from("0000000000c7010500000d2a.wal"),
        },
    ];
    for test in tests {
        assert_eq!(
            determine_segment_filename(
                &test.timeline,
                &test.sequence_number,
                &test.segment_size
            ),
            test.expected
        );
    }
}

struct FinalEntryAfterTest {
    pub filename: String,
    pub sequence_number: u64,
    pub file_size: u64,
    pub expected: bool,
}

#[test]
fn segment_final_entry_after() {
    let base_two_u64: u64 = 2;
    let tests = vec![
        FinalEntryAfterTest {
            filename: String::from("0000000000c7010500000d2a.wal"),
            sequence_number: 0,
            file_size: base_two_u64.pow(24),
            expected: true,
        },
        FinalEntryAfterTest {
            filename: String::from("000000000000000000000000.wal"),
            sequence_number: 65,
            file_size: base_two_u64.pow(6),
            expected: false,
        },
        FinalEntryAfterTest {
            filename: String::from("0000000000c7010500000d2a.wal"),
            sequence_number: 56014641572741120,
            file_size: base_two_u64.pow(24),
            expected: true,
        },
        FinalEntryAfterTest {
            filename: String::from("0000000000c7010500000d2a.wal"),
            sequence_number: 0x00c70105 * base_two_u64.pow(32) + 0xd2b * base_two_u64.pow(24),
            file_size: base_two_u64.pow(24),
            expected: false,
        },
    ];
    for test in tests {
        assert_eq!(
            final_entry_after(&test.filename, test.file_size, &test.sequence_number),
            test.expected
        );
    }
}

#[test]
fn checksum_of_known_bytes() {
    assert_eq!(calculate_checksum(b"123456789"), 0xe3069283);
    assert_eq!(calculate_checksum(b""), 0);
    assert_eq!(calculate_checksum(&[0u8; 32]), 0x8a9136aa);
}

#[test]
fn record_layout() {
    let entry = WalEntry {
        operation_type: OpType::Put,
        key: String::from("key"),
        value: Some(String::from("value")),
        sequence_number: 7,
    };
    let bytes = entry.to_bytes();
    assert_eq!(bytes.len(), 4 + 4 + 1 + 4 + 3 + 4 + 5 + 8);
    let len = u32::from_le_bytes([bytes[0], bytes[1], bytes[2], bytes[3]]);
    assert_eq!(len as usize, bytes.len() - 4);
    let checksum = u32::from_le_bytes([bytes[4], bytes[5], bytes[6], bytes[7]]);
    assert_eq!(checksum, calculate_checksum(&bytes[8..]));
    assert_eq!(&bytes[bytes.len() - 8..], &7u64.to_le_bytes());
}

#[test]
fn records_end_in_a_rest() {
    let entry = WalEntry {
        operation_type: OpType::Delete,
        key: String::from("key"),
        value: None,
        sequence_number: 1,
    };
    let one = entry.to_bytes();
    let mut bytes = entry.to_bytes();
    bytes.extend_from_slice(&one[..10]);
    let mut entries = Vec::new();
    let end = read_records(&bytes, &mut entries);
    assert_eq!(end, ParseEnd::Rest(one.len()));
    assert_eq!(entries.len(), 1);
    let mut entries = Vec::new();
    let res = Segment::parse_validate_wal_entries(&bytes, &mut entries);
    assert!(matches!(res, Ok(Some(rest)) if rest == one[..10].to_vec()));
    let mut entries = Vec::new();
    let res = Segment::read_parse_validate_from_partial_record(
        one[..10].to_vec(),
        &one[10..].to_vec(),
        &mut entries,
    );
    assert!(matches!(res, Ok(None)));
    assert_eq!(entries[0], entry);
    let mut entries = Vec::new();
    let mut two = one.to_vec();
    two.extend_from_slice(&one);
    let res = Segment::read_parse_validate_from_offset(&two, &mut entries, one.len() as u32);
    assert!(matches!(res, Ok(None)));
    assert_eq!(entries.len(), 1);
}

#[test]
fn filenames_hold_their_numbers() {
    assert_eq!(parse_filename("0000000000c7010500000d2a.wal"), Some((0x00c70105, 0xd2a)));
    assert_eq!(parse_filename("0000000000c7010500000d2.wal"), None);
    assert_eq!(parse_filename("0000000000c7010500000d2"), None);
    assert_eq!(parse_filename(""), None);
}

#[test]
fn a_segment_is_found_by_its_name() {
    let segment = Segment::from(String::from("000000000000000000000002.wal"), 10, 64).unwrap();
    assert_eq!(segment.file_size(), 10);
    assert_eq!(segment.next_lsn(), 138);
    assert_eq!(segment.remaining_space(), 54);
    assert_eq!(segment.max_size(), 64);
    assert_eq!(segment.file_path(), "000000000000000000000002.wal");
    assert_eq!(segment.duplicate().next_lsn(), 138);
    assert!(Segment::from(String::from("000000000000000000000002.wal"), 65, 64).is_none());
    assert!(Segment::from(String::from("2.wal"), 10, 64).is_none());
}

#[test]
fn a_record_is_broken_up_behind_its_header() {
    let (wal, step) = Wal::create_new(64);
    assert_eq!(step, WalStep::Create(String::from("000000000000000000000000.wal")));
    let entry = |n: u64| WalEntry {
        operation_type: OpType::Put,
        key: String::from("key1"),
        value: Some(String::from("value1")),
        sequence_number: n,
    };
    let len = entry(0).to_bytes().len();
    assert_eq!(len, 35);
    let (wal, steps) = wal.append(&entry(0));
    assert_eq!(steps, vec![WalStep::Append(entry(0).to_bytes())]);
    assert_eq!(wal.next_sequence_number(), 35);
    assert!(wal.can_append(35, len));
    let record = entry(35).to_bytes();
    let (wal, steps) = wal.append(&entry(35));
    let mut first = record[..HEADER_SIZE].to_vec();
    first.resize(64 - 35, 0);
    let mut written = Vec::new();
    let mut files = vec![LogFile {
        name: String::from("000000000000000000000000.wal"),
        bytes: entry(0).to_bytes(),
    }];
    for step in &steps {
        match step {
            WalStep::Append(bytes) => {
                written.extend_from_slice(bytes);
                files.last_mut().unwrap().bytes.extend_from_slice(bytes);
            }
            WalStep::Create(name) => {
                assert_eq!(written, first);
                written.clear();
                files.push(LogFile { name: name.clone(), bytes: Vec::new() });
            }
            _ => panic!("an append only writes"),
        }
    }
    assert_eq!(written, record[HEADER_SIZE..].to_vec());
    assert_eq!(wal.next_sequence_number(), 64 + 22);
    let (entries, broken) = read_log(&files, 64, 0);
    assert_eq!(entries, vec![entry(0), entry(35)]);
    assert!(broken.is_none());
    files[1].bytes.truncate(21);
    let (entries, broken) = read_log(&files, 64, 0);
    assert_eq!(entries, vec![entry(0)]);
    assert_eq!(broken, Some((0, 35)));
}

#[test]
fn a_body_that_was_cut_short_is_refused() {
    let put = WalEntry {
        operation_type: OpType::Put,
        key: String::from("key"),
        value: Some(String::from("a longer value")),
        sequence_number: 1024,
    };
    let bytes = put.to_bytes();
    let body = &bytes[8..];
    for n in 0..body.len() {
        // Eight bytes behind the key the body of a put reads as one without a value.
        assert_eq!(WalEntry::from_bytes(&body[..n]).is_err(), n != 16);
    }
    let delete = WalEntry {
        operation_type: OpType::Delete,
        key: String::from("key"),
        value: None,
        sequence_number: 1024,
    };
    let bytes = delete.to_bytes();
    let body = &bytes[8..];
    for n in 0..body.len() {
        assert!(WalEntry::from_bytes(&body[..n]).is_err());
    }
}
