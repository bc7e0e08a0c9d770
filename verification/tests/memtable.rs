//! The in-memory table: writes, lookups, and recovery from its log. The log is
//! kept in a directory that holds its files in memory.

use rkvs::storage_engine::memtable::wal::{sort_files, LogDirectory, LogFile, WalStep};
use rkvs::storage_engine::memtable::{MemTable, MemTableValue, StartError, Table};

fn empty_dir() -> LogDirectory {
    LogDirectory { files: Vec::new() }
}

fn start(dir: &mut LogDirectory, segment_size: u32, sequence_number: u64) -> MemTable {
    let (memtable, steps) =
        MemTable::start(&dir.files, segment_size, sequence_number, 2u64.pow(32)).unwrap();
    dir.perform_all(&steps);
    memtable
}

fn put(
    memtable: &mut MemTable,
    dir: &mut LogDirectory,
    key: &str,
    value: &str,
) -> Option<MemTableValue> {
    assert!(memtable.can_write(&String::from(key), Some(&String::from(value))));
    let write = memtable.put(String::from(key), String::from(value));
    dir.perform_all(write.steps());
    memtable.complete(write)
}

fn del(memtable: &mut MemTable, dir: &mut LogDirectory, key: &str) -> Option<MemTableValue> {
    assert!(memtable.can_write(&String::from(key), None));
    let write = memtable.delete(&String::from(key));
    dir.perform_all(write.steps());
    memtable.complete(write)
}

/// Cuts off the last bytes of a file.
fn cut(dir: &mut LogDirectory, name: &str, bytes: usize) {
    for file in dir.files.iter_mut() {
        if file.name == name {
            let len = file.bytes.len();
            file.bytes.truncate(len - bytes);
        }
    }
}

#[test]
fn basic_put_get() {
    let mut dir = empty_dir();
    let mut memtable = start(&mut dir, 256, 0);
    let res = put(&mut memtable, &mut dir, "key", "value");
    assert!(matches!(res, None));
    let v = memtable.get(&String::from("key")).unwrap();
    assert!(matches!(v.value, Some(value) if value == String::from("value")));
}

#[test]
fn put_twice() {
    let mut dir = empty_dir();
    let mut memtable = start(&mut dir, 256, 0);
    let res = put(&mut memtable, &mut dir, "key", "value1");
    assert!(matches!(res, None));
    let old_value = put(&mut memtable, &mut dir, "key", "value2");
    assert!(
        matches!(old_value, Some(value) if value.clone().value.unwrap() == String::from("value1"))
    );
    let v = memtable.get(&String::from("key")).unwrap();
    assert!(matches!(v.value, Some(value) if value == String::from("value2")));
}

#[test]
fn get_empty_key() {
    let mut dir = empty_dir();
    let memtable = start(&mut dir, 256, 0);
    let res = memtable.get(&String::from(""));
    assert!(matches!(res, None));
}

#[test]
fn delete() {
    let mut dir = empty_dir();
    let mut memtable = start(&mut dir, 256, 0);
    let res = del(&mut memtable, &mut dir, "key");
    assert!(matches!(res, None));
    let res = put(&mut memtable, &mut dir, "key", "value");
    // A delete leaves a mark behind, since the key may still be in the sorted
    // string table.
    assert!(matches!(res, Some(_)));
    let mvalue = res.unwrap();
    assert!(matches!(mvalue.value, None));
    let v = memtable.get(&String::from("key"));
    assert!(
        matches!(v, Some(value) if value.clone().value.unwrap_or(String::from("")) == String::from("value"))
    );
    let res = del(&mut memtable, &mut dir, "key");
    assert!(
        matches!(res, Some(s) if s.clone().value.unwrap_or(String::from("")) == String::from("value"))
    );
    let value = memtable.get(&String::from("key")).unwrap();
    assert!(matches!(value.value, None));
}

#[test]
fn recover_single_segment() {
    let mut dir = empty_dir();
    let segment_size = 4096;
    {
        let mut memtable = start(&mut dir, segment_size, 0);
        put(&mut memtable, &mut dir, "key1", "value1");
        put(&mut memtable, &mut dir, "key1", "new_value1");
        put(&mut memtable, &mut dir, "key2", "value2");
        del(&mut memtable, &mut dir, "key2");
        put(&mut memtable, &mut dir, "key3", "value3");
    }

    let memtable = start(&mut dir, segment_size, 0);
    let mut res = memtable.get(&String::from("key1")).unwrap();
    assert!(matches!(res.value, Some(v) if v == String::from("new_value1")));
    res = memtable.get(&String::from("key2")).unwrap();
    assert!(matches!(res.value, None));
    res = memtable.get(&String::from("key3")).unwrap();
    assert!(matches!(res.value, Some(v) if v == String::from("value3")));
}

fn recover_twice(segment_size: u32) {
    let mut dir = empty_dir();
    {
        let mut memtable = start(&mut dir, segment_size, 0);
        put(&mut memtable, &mut dir, "key1", "value1");
        put(&mut memtable, &mut dir, "key1", "new_value1");
        put(&mut memtable, &mut dir, "key2", "value2");
        del(&mut memtable, &mut dir, "key2");
        put(&mut memtable, &mut dir, "key3", "value3");
    }
    {
        let mut memtable = start(&mut dir, segment_size, 0);
        let mut res = memtable.get(&String::from("key1")).unwrap();
        assert!(matches!(res.value, Some(value) if value == String::from("new_value1")));
        res = memtable.get(&String::from("key2")).unwrap();
        assert!(matches!(res.value, None));
        res = memtable.get(&String::from("key3")).unwrap();
        assert!(matches!(res.value, Some(value) if value == String::from("value3")));
        put(&mut memtable, &mut dir, "key4", "value4");
        put(&mut memtable, &mut dir, "key2", "new_value2");
        del(&mut memtable, &mut dir, "key3");
    }

    let memtable = start(&mut dir, segment_size, 0);
    let mut res = memtable.get(&String::from("key1")).unwrap();
    assert!(matches!(res.value, Some(value) if value == String::from("new_value1")));
    res = memtable.get(&String::from("key2")).unwrap();
    assert!(matches!(res.value, Some(value) if value == String::from("new_value2")));
    res = memtable.get(&String::from("key3")).unwrap();
    assert!(matches!(res.value, None));
    res = memtable.get(&String::from("key4")).unwrap();
    assert!(matches!(res.value, Some(value) if value == String::from("value4")));
}

#[test]
fn recover_twice_single_segment() {
    recover_twice(4096);
}

#[test]
fn recover_multiple_segments() {
    let mut dir = empty_dir();
    let segment_size = 64;
    {
        let mut memtable = start(&mut dir, segment_size, 0);
        put(&mut memtable, &mut dir, "key1", "value1");
        put(&mut memtable, &mut dir, "key1", "new_value1");
        put(&mut memtable, &mut dir, "key2", "value2");
        del(&mut memtable, &mut dir, "key2");
        put(&mut memtable, &mut dir, "key3", "value3");
    }

    let memtable = start(&mut dir, segment_size, 0);
    let mut res = memtable.get(&String::from("key1")).unwrap();
    assert!(matches!(res.value, Some(value) if value == String::from("new_value1")));
    res = memtable.get(&String::from("key2")).unwrap();
    assert!(matches!(res.value, None));
    res = memtable.get(&String::from("key3")).unwrap();
    assert!(matches!(res.value, Some(value) if value == String::from("value3")));
}

#[test]
fn recover_twice_multiple_segments() {
    recover_twice(4096);
}

#[test]
fn recover_twice_small_segments() {
    recover_twice(64);
}

#[test]
fn recover_multiple_segments_higher_sequence_no() {
    let mut dir = empty_dir();
    let segment_size = 64;
    let sequence_number: u64;
    {
        let mut memtable = start(&mut dir, segment_size, 0);
        put(&mut memtable, &mut dir, "key1", "value1");
        put(&mut memtable, &mut dir, "key1", "new_value1");
        put(&mut memtable, &mut dir, "key2", "value2");
        let v = memtable.get(&String::from("key2")).unwrap();
        sequence_number = v.sequence_number;
        del(&mut memtable, &mut dir, "key2");
        put(&mut memtable, &mut dir, "key3", "value3");
    }

    let memtable = start(&mut dir, segment_size, sequence_number);
    let res = memtable.get(&String::from("key1"));
    assert!(matches!(res, None));
    let res = memtable.get(&String::from("key2")).unwrap();
    assert!(matches!(res.value, None));
    let res = memtable.get(&String::from("key3")).unwrap();
    assert!(matches!(res.value, Some(value) if value == String::from("value3")));
}

#[test]
fn recover_corrupted_wal() {
    let mut dir = empty_dir();
    let segment_size = 4096;
    {
        let mut memtable = start(&mut dir, segment_size, 0);
        put(&mut memtable, &mut dir, "key1", "value1");
        put(&mut memtable, &mut dir, "key1", "new_value1");
        put(&mut memtable, &mut dir, "key2", "value2");
        del(&mut memtable, &mut dir, "key2");
        put(&mut memtable, &mut dir, "key3", "value3");
    }

    {
        let files = MemTable::list_segment_files(&dir.files, &segment_size, &0);
        assert_eq!(files.len(), 1);
        cut(&mut dir, &files.first().unwrap().name, 4);
    }

    let memtable = start(&mut dir, segment_size, 0);
    let mut res = memtable.get(&String::from("key1")).unwrap();
    assert!(matches!(res.value, Some(v) if v == String::from("new_value1")));
    res = memtable.get(&String::from("key2")).unwrap();
    assert!(matches!(res.value, None));
    let res = memtable.get(&String::from("key3"));
    assert!(matches!(res, None));
}

#[test]
fn recover_corrupted_wal_twice() {
    let mut dir = empty_dir();
    let segment_size = 4096;
    {
        let mut memtable = start(&mut dir, segment_size, 0);
        put(&mut memtable, &mut dir, "key1", "value1");
        put(&mut memtable, &mut dir, "key1", "new_value1");
        put(&mut memtable, &mut dir, "key2", "value2");
        del(&mut memtable, &mut dir, "key2");
        put(&mut memtable, &mut dir, "key3", "value3");
    }

    {
        let files = MemTable::list_segment_files(&dir.files, &segment_size, &0);
        assert_eq!(files.len(), 1);
        cut(&mut dir, &files.first().unwrap().name, 4);
    }

    {
        let mut memtable = start(&mut dir, segment_size, 0);
        let mut res = memtable.get(&String::from("key1")).unwrap();
        assert!(matches!(res.value, Some(v) if v == String::from("new_value1")));
        res = memtable.get(&String::from("key2")).unwrap();
        assert!(matches!(res.value, None));
        let res = memtable.get(&String::from("key3"));
        assert!(matches!(res, None));
        del(&mut memtable, &mut dir, "key2");
        put(&mut memtable, &mut dir, "key3", "new_value3");
        put(&mut memtable, &mut dir, "key4", "value4");
    }

    let memtable = start(&mut dir, segment_size, 0);
    let res = memtable.get(&String::from("key1")).unwrap();
    assert!(matches!(res.value, Some(v) if v == String::from("new_value1")));
    let res = memtable.get(&String::from("key2")).unwrap();
    assert!(matches!(res.value, None));
    let res = memtable.get(&String::from("key3")).unwrap();
    assert!(matches!(res.value, Some(v) if v == String::from("new_value3")));
    let res = memtable.get(&String::from("key4")).unwrap();
    assert!(matches!(res.value, Some(v) if v == String::from("value4")));
}

#[test]
fn recover_corrupted_wal_multiple_segments() {
    let mut dir = empty_dir();
    let segment_size = 64;
    {
        let mut memtable = start(&mut dir, segment_size, 0);
        put(&mut memtable, &mut dir, "key1", "value1");
        put(&mut memtable, &mut dir, "key1", "new_value1");
        put(&mut memtable, &mut dir, "key2", "value2");
        put(&mut memtable, &mut dir, "key3", "value3");
        del(&mut memtable, &mut dir, "key3");
    }

    {
        let files = MemTable::list_segment_files(&dir.files, &segment_size, &0);
        assert!(files.len() > 1);
        cut(&mut dir, &files.last().unwrap().name, 4);
    }

    let memtable = start(&mut dir, segment_size, 0);
    let mut res = memtable.get(&String::from("key1")).unwrap();
    assert!(matches!(res.value, Some(v) if v == String::from("new_value1")));
    res = memtable.get(&String::from("key2")).unwrap();
    assert!(matches!(res.value, Some(v) if v == String::from("value2")));
    res = memtable.get(&String::from("key3")).unwrap();
    assert!(matches!(res.value, Some(v) if v == String::from("value3")));
}

#[test]
fn recover_corrupted_wal_multiple_segments_middle() {
    let mut dir = empty_dir();
    let segment_size = 64;
    {
        let mut memtable = start(&mut dir, segment_size, 0);
        put(&mut memtable, &mut dir, "key1", "value1");
        put(&mut memtable, &mut dir, "key1", "new_value1");
        put(&mut memtable, &mut dir, "key2", "value2");
        del(&mut memtable, &mut dir, "key2");
        put(&mut memtable, &mut dir, "key3", "value3");
    }

    {
        let files = MemTable::list_segment_files(&dir.files, &segment_size, &0);
        assert!(files.len() > 2);
        cut(&mut dir, &files[1].name, 4);
    }

    let memtable = start(&mut dir, segment_size, 0);
    let res = memtable.get(&String::from("key1")).unwrap();
    assert!(matches!(res.value, Some(v) if v == String::from("new_value1")));
    let res = memtable.get(&String::from("key2"));
    assert!(matches!(res, None));
    let res = memtable.get(&String::from("key3"));
    assert!(matches!(res, None));
}

#[test]
fn recovery_removes_what_is_behind_the_break() {
    let mut dir = empty_dir();
    let segment_size = 64;
    {
        let mut memtable = start(&mut dir, segment_size, 0);
        for n in 0..8 {
            put(&mut memtable, &mut dir, &format!("key{}", n), "value");
        }
    }
    assert!(dir.files.len() > 2);
    let name = dir.files[1].name.clone();
    cut(&mut dir, &name, 4);
    let (_, steps) = MemTable::start(&dir.files, segment_size, 0, 1000).unwrap();
    assert!(matches!(steps.first(), Some(WalStep::Truncate(_, _))));
    let removed = steps.iter().filter(|s| matches!(s, WalStep::Remove(_))).count();
    assert_eq!(removed, steps.len() - 1);
    assert!(removed > 0);
    dir.perform_all(&steps);

    // A second start finds a sound log.
    let (_, steps) = MemTable::start(&dir.files, segment_size, 0, 1000).unwrap();
    assert!(steps.is_empty());
}

#[test]
fn start_without_files_creates_the_first() {
    let (memtable, steps) = MemTable::start(&Vec::new(), 256, 0, 1000).unwrap();
    assert_eq!(
        steps,
        vec![WalStep::Create(String::from("000000000000000000000000.wal"))]
    );
    assert_eq!(memtable.next_sequence_number(), 0);
}

#[test]
fn start_refuses_a_file_that_is_too_large() {
    let files = vec![LogFile {
        name: String::from("000000000000000000000000.wal"),
        bytes: vec![0; 65],
    }];
    let res = MemTable::start(&files, 64, 0, 1000);
    assert!(matches!(res, Err(StartError::FileTooLarge)));
}

#[test]
fn other_files_are_passed_over() {
    let files = vec![
        LogFile { name: String::from("notes.txt"), bytes: vec![1, 2, 3] },
        LogFile { name: String::from("000000000000000000000000.wal"), bytes: vec![0; 10] },
    ];
    let listed = MemTable::list_segment_files(&files, &64, &0);
    assert_eq!(listed.len(), 1);
    assert_eq!(listed[0].name, "000000000000000000000000.wal");
    assert!(MemTable::list_segment_files(&files, &64, &10).is_empty());
    assert_eq!(MemTable::list_segment_files(&files, &64, &9).len(), 1);
}

#[test]
fn recover_reports_where_the_log_is_broken() {
    let mut dir = empty_dir();
    let mut memtable = start(&mut dir, 256, 0);
    put(&mut memtable, &mut dir, "key1", "value1");
    let good = dir.files[0].bytes.len() as u64;
    put(&mut memtable, &mut dir, "key2", "value2");
    let name = dir.files[0].name.clone();
    cut(&mut dir, &name, 1);
    let mut table = Table::new();
    match MemTable::recover(&dir.files, 256, 0, &mut table) {
        Ok(_) => panic!("the log is broken"),
        Err((_, corruption)) => {
            assert_eq!(corruption.filename, name);
            assert_eq!(corruption.offset, good);
        }
    }
    assert_eq!(table.len(), 1);
}

#[test]
fn writes_that_the_log_cannot_hold_are_refused() {
    let mut dir = empty_dir();
    let memtable = start(&mut dir, 64, 0);
    assert!(!memtable.can_write(&String::from(""), Some(&String::from("value"))));
    let long = "v".repeat(200);
    assert!(!memtable.can_write(&String::from("key"), Some(&long)));
    assert!(memtable.can_write(&String::from("key"), Some(&String::from("value"))));
}

#[test]
fn sequence_numbers_grow_with_the_log() {
    let mut dir = empty_dir();
    let mut memtable = start(&mut dir, 4096, 0);
    let mut last = None;
    for n in 0..10 {
        put(&mut memtable, &mut dir, "key", &format!("value{}", n));
        let v = memtable.get(&String::from("key")).unwrap().sequence_number;
        assert!(last < Some(v));
        last = Some(v);
    }
    assert_eq!(memtable.next_sequence_number(), dir.files[0].bytes.len() as u64);
}

#[test]
fn a_full_table_is_flushed() {
    let mut dir = empty_dir();
    let (mut memtable, steps) = MemTable::start(&dir.files, 4096, 0, 10).unwrap();
    dir.perform_all(&steps);
    assert!(!memtable.needs_flush());
    put(&mut memtable, &mut dir, "a key", "a value");
    assert!(memtable.needs_flush());
    assert_eq!(memtable.contents().len(), 1);
    memtable.flushed();
    assert!(!memtable.needs_flush());
    assert!(memtable.get(&String::from("a key")).is_none());
}

#[test]
fn table_keeps_its_entries_in_order() {
    let mut table = Table::new();
    for key in ["b", "c", "a", "b"] {
        table.insert(
            String::from(key),
            MemTableValue { value: Some(String::from(key)), sequence_number: 1 },
        );
    }
    assert_eq!(table.len(), 3);
    let keys: Vec<&str> = table.sorted_entries().iter().map(|e| e.key.as_str()).collect();
    assert_eq!(keys, vec!["a", "b", "c"]);
    table.clear();
    assert_eq!(table.len(), 0);
}

#[test]
fn log_files_are_put_into_order() {
    let names = ["b.wal", "a.wal", "c.wal", "a.wal"];
    let files: Vec<LogFile> = names
        .iter()
        .enumerate()
        .map(|(i, name)| LogFile { name: String::from(*name), bytes: vec![i as u8] })
        .collect();
    let sorted = sort_files(files);
    let order: Vec<&str> = sorted.iter().map(|f| f.name.as_str()).collect();
    assert_eq!(order, vec!["a.wal", "a.wal", "b.wal", "c.wal"]);
    let mut bytes: Vec<u8> = sorted.iter().map(|f| f.bytes[0]).collect();
    bytes.sort();
    assert_eq!(bytes, vec![0, 1, 2, 3]);
    // The names of a log sort as the sequence numbers do.
    let mut dir = empty_dir();
    let mut memtable = start(&mut dir, 64, 0);
    for n in 0..100 {
        put(&mut memtable, &mut dir, &format!("key{}", n), "value");
    }
    for pair in dir.files.windows(2) {
        assert!(pair[0].name < pair[1].name);
    }
}

#[test]
fn writes_go_on_behind_the_intact_records_of_a_damaged_log() {
    let mut dir = empty_dir();
    let mut memtable = start(&mut dir, 128, 0);
    for n in 0..8 {
        put(&mut memtable, &mut dir, &format!("key{}", n), "value");
    }
    let name = dir.files[0].name.clone();
    cut(&mut dir, &name, 3);
    let mut memtable = start(&mut dir, 128, 0);
    assert_eq!(dir.files.len(), 1);
    let intact = (0..8).filter(|n| memtable.get(&format!("key{}", n)).is_some()).count();
    assert!(0 < intact && intact < 8);
    put(&mut memtable, &mut dir, "other", "1");
    del(&mut memtable, &mut dir, "key0");
    let again = start(&mut dir, 128, 0);
    for n in 1..8 {
        let value = again.get(&format!("key{}", n));
        assert_eq!(value.is_some(), n < intact);
    }
    assert_eq!(again.get(&String::from("key0")).unwrap().value, None);
    assert_eq!(again.get(&String::from("other")).unwrap().value, Some(String::from("1")));
}

#[test]
fn the_size_is_that_of_what_the_table_holds() {
    let mut dir = empty_dir();
    let (mut memtable, steps) = MemTable::start(&dir.files, 4096, 0, 50).unwrap();
    dir.perform_all(&steps);
    for n in 0..5 {
        put(&mut memtable, &mut dir, "a", &n.to_string());
        assert_eq!(memtable.contents().size(), 23);
        assert!(!memtable.needs_flush());
    }
    put(&mut memtable, &mut dir, "b", "12345");
    assert_eq!(memtable.contents().size(), 50);
    assert!(memtable.needs_flush());
    let (again, _) = MemTable::start(&dir.files, 4096, 0, 50).unwrap();
    assert_eq!(again.contents().size(), 50);
    assert!(again.needs_flush());
    // A deleted key is kept without its value.
    del(&mut memtable, &mut dir, "b");
    assert_eq!(memtable.contents().size(), 45);
    assert!(!memtable.needs_flush());
    memtable.flushed();
    assert_eq!(memtable.contents().size(), 0);
}

#[test]
fn a_cut_record_and_all_behind_it_are_discarded() {
    let mut dir = empty_dir();
    let mut memtable = start(&mut dir, 64, 0);
    let mut ends: Vec<(usize, usize)> = Vec::new();
    for n in 0..9 {
        put(&mut memtable, &mut dir, &format!("key{}", n), &"v".repeat(1 + n % 3));
        let last = dir.files.len() - 1;
        ends.push((last, dir.files[last].bytes.len()));
    }
    assert!(dir.files.len() > 3);
    for file in 0..dir.files.len() {
        for len in 0..dir.files[file].bytes.len() {
            if len == 0 || ends.contains(&(file, len)) {
                continue;
            }
            let files = dir.files.iter().map(|f| LogFile {
                name: f.name.clone(),
                bytes: f.bytes.clone(),
            });
            let mut damaged = LogDirectory { files: files.collect() };
            damaged.files[file].bytes.truncate(len);
            let intact = ends.iter().filter(|e| e.0 < file || (e.0 == file && e.1 <= len)).count();
            let mut after = start(&mut damaged, 64, 0);
            for n in 0..9 {
                let value = after.get(&format!("key{}", n));
                assert_eq!(value.is_some(), n < intact);
            }
            put(&mut after, &mut damaged, "other", "1");
            let again = start(&mut damaged, 64, 0);
            assert_eq!(again.contents().len(), intact + 1);
        }
    }
}
