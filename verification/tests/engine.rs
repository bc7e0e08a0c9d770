//! The engine as a whole: writes, flushes, compactions and restarts.

use rkvs::storage_engine::memtable::wal::{LogDirectory, LogFile, WalStep};
use rkvs::storage_engine::memtable::{MemTableValue, StartError, Table};
use rkvs::storage_engine::memtable_flusher::{Flusher, MemTableFlush};
use rkvs::storage_engine::sstable::SsTable;
use rkvs::storage_engine::{
    Command, Prepared, Step, StorageEngineConf, StorageEngineError, Worker,
};
use std::collections::HashMap;

fn conf(memtable_max_size: u64) -> StorageEngineConf {
    StorageEngineConf {
        dir: String::from("data"),
        segment_size: 256,
        memtable_max_size,
        level_zero_max_size: 300,
        index_sparsity_factor: 2,
    }
}

fn start(dir: &mut LogDirectory, conf: &StorageEngineConf) -> Worker {
    let (worker, steps) = match Worker::start(conf, &dir.files) {
        Ok(started) => started,
        Err(_) => panic!("the log can be read"),
    };
    dir.perform_all(&steps);
    worker
}

fn execute(worker: &mut Worker, dir: &mut LogDirectory, command: Command) -> Option<String> {
    if worker.flush_due() {
        let file = worker.flush().unwrap();
        worker.complete_flush(file);
        worker.compact();
    }
    match worker.prepare(command) {
        Prepared::Answer(value) => value,
        Prepared::Write(write) => {
            dir.perform_all(write.steps());
            worker.complete(write)
        }
        Prepared::Refused => panic!("the log can hold the write"),
    }
}

fn put(worker: &mut Worker, dir: &mut LogDirectory, key: &str, value: &str) -> Option<String> {
    execute(worker, dir, Command::Put(String::from(key), String::from(value)))
}

fn delete(worker: &mut Worker, dir: &mut LogDirectory, key: &str) -> Option<String> {
    execute(worker, dir, Command::Delete(String::from(key)))
}

fn get(worker: &mut Worker, dir: &mut LogDirectory, key: &str) -> Option<String> {
    execute(worker, dir, Command::Get(String::from(key)))
}

#[test]
fn a_read_gives_back_the_last_write() {
    let mut dir = LogDirectory { files: Vec::new() };
    let mut worker = start(&mut dir, &conf(1000));
    assert_eq!(get(&mut worker, &mut dir, "key"), None);
    assert_eq!(put(&mut worker, &mut dir, "key", "value1"), None);
    assert_eq!(put(&mut worker, &mut dir, "key", "value2"), Some(String::from("value1")));
    assert_eq!(get(&mut worker, &mut dir, "key"), Some(String::from("value2")));
    assert_eq!(delete(&mut worker, &mut dir, "key"), Some(String::from("value2")));
    assert_eq!(get(&mut worker, &mut dir, "key"), None);
}

#[test]
fn refused_writes_change_nothing() {
    let mut dir = LogDirectory { files: Vec::new() };
    let worker = start(&mut dir, &conf(1000));
    let command = Command::Put(String::from(""), String::from("value"));
    assert!(matches!(worker.prepare(command), Prepared::Refused));
    assert!(!worker.can_delete(&String::from("")));
    assert!(!worker.can_put(&String::from("key"), &"v".repeat(1000)));
    assert_eq!(dir.files[0].bytes.len(), 0);
}

#[test]
fn a_flush_keeps_every_value() {
    let mut dir = LogDirectory { files: Vec::new() };
    let mut worker = start(&mut dir, &conf(1));
    put(&mut worker, &mut dir, "a", "1");
    put(&mut worker, &mut dir, "b", "2");
    delete(&mut worker, &mut dir, "a");
    let file = worker.flush().unwrap();
    assert_eq!(file.filename, "0000000000000003.sst");
    worker.complete_flush(file);
    assert!(!worker.flush_due());
    assert!(worker.flush().is_none());
    assert_eq!(worker.tables().level_zero().segments().len(), 3);
    assert_eq!(get(&mut worker, &mut dir, "a"), None);
    assert_eq!(get(&mut worker, &mut dir, "b"), Some(String::from("2")));
}

#[test]
fn flusher_numbers_its_files() {
    let tables = SsTable::start(100);
    assert_eq!(tables.highest_sequence_number(), 0);
    let flusher = Flusher::from(&tables, 1);
    let mut table = Table::new();
    assert!(flusher.flush(&table).is_none());
    table.insert(
        String::from("key"),
        MemTableValue {
            value: Some(String::from("value")),
            sequence_number: 1,
        },
    );
    assert_eq!(flusher.flush(&table).unwrap().filename, "0000000000000001.sst");
    assert!(Flusher::from(&tables, 0).flush(&table).is_none());
}

#[test]
fn many_writes_survive_flushes_compactions_and_a_restart() {
    let mut dir = LogDirectory { files: Vec::new() };
    let conf = conf(150);
    let mut worker = start(&mut dir, &conf);
    let mut expected: HashMap<String, Option<String>> = HashMap::new();
    let mut seed: u32 = 7;
    for n in 0..400 {
        seed = seed.wrapping_mul(1664525).wrapping_add(1013904223);
        let key = format!("key{}", (seed >> 16) % 23);
        if (seed >> 8) % 5 == 0 {
            delete(&mut worker, &mut dir, &key);
            expected.insert(key, None);
        } else {
            let value = format!("value{}", n);
            put(&mut worker, &mut dir, &key, &value);
            expected.insert(key, Some(value));
        }
    }
    assert!(!worker.tables().partitioned_levels().is_empty());
    for (key, value) in &expected {
        assert_eq!(worker.get(key), *value);
    }
    assert!(dir.files.len() > 10);
    let restarted = start(&mut dir, &conf);
    for (key, value) in &expected {
        assert_eq!(restarted.get(key), *value);
    }
    assert_eq!(restarted.get(&String::from("absent")), None);
}

#[test]
fn an_engine_does_not_start_with_a_log_of_larger_files() {
    let mut dir = LogDirectory { files: Vec::new() };
    let mut worker = start(&mut dir, &conf(1000));
    for n in 0..10 {
        put(&mut worker, &mut dir, &format!("key{}", n), "value");
    }
    let mut small = conf(1000);
    small.segment_size = 64;
    assert!(matches!(Worker::start(&small, &dir.files), Err(StartError::FileTooLarge)));
}

#[test]
fn engine_error_codes() {
    assert_eq!(StorageEngineError::IoError.to_rc(), 1);
    assert_eq!(StorageEngineError::NotFound.to_rc(), 2);
    assert_eq!(StorageEngineError::Shutdown.to_rc(), 3);
}

fn copy(dir: &LogDirectory) -> LogDirectory {
    let files = dir
        .files
        .iter()
        .map(|f| LogFile { name: f.name.clone(), bytes: f.bytes.clone() })
        .collect();
    LogDirectory { files }
}

#[test]
fn a_write_is_all_or_nothing() {
    let mut conf = conf(100000);
    conf.segment_size = 64;
    let mut dir = LogDirectory { files: Vec::new() };
    let mut worker = start(&mut dir, &conf);
    let mut expected: HashMap<String, Option<String>> = HashMap::new();
    for n in 0..12 {
        let key = format!("key{}", n % 5);
        let value = "v".repeat(n % 7);
        let write = worker.put(key.clone(), value.clone());
        let total: usize = write
            .steps()
            .iter()
            .map(|s| match s {
                WalStep::Append(bytes) => bytes.len(),
                _ => 0,
            })
            .sum();
        // The crash comes after this many bytes, before or after the next file
        // is created.
        for cut in 0..total {
            for create in [false, true] {
                let mut torn = copy(&dir);
                let mut left = cut;
                for step in write.steps() {
                    match step {
                        WalStep::Append(bytes) => {
                            let part = bytes[..left.min(bytes.len())].to_vec();
                            left -= part.len();
                            torn.perform(&WalStep::Append(part));
                        }
                        step => {
                            if left > 0 || create {
                                torn.perform(step);
                            }
                        }
                    }
                    if left == 0 && !create {
                        break;
                    }
                }
                let crashed = start(&mut torn, &conf);
                for (key, value) in &expected {
                    assert_eq!(crashed.get(key), *value);
                }
                if !expected.contains_key(&key) {
                    assert_eq!(crashed.get(&key), None);
                }
            }
        }
        dir.perform_all(write.steps());
        worker.complete(write);
        expected.insert(key, Some(value));
    }
    assert!(dir.files.len() > 3);
}

#[test]
fn a_full_table_is_flushed_before_a_write() {
    let mut dir = LogDirectory { files: Vec::new() };
    let mut worker = start(&mut dir, &conf(40));
    put(&mut worker, &mut dir, "a", "1");
    assert!(!worker.flush_due());
    put(&mut worker, &mut dir, "b", "2");
    assert!(worker.flush_due());
    // A read does not flush.
    let read = Command::Get(String::from("a"));
    assert!(matches!(
        worker.step(read),
        Step::Ready(Prepared::Answer(Some(v))) if v == "1"
    ));
    let write = Command::Put(String::from("c"), String::from("3"));
    let (file, command) = match worker.step(write) {
        Step::Flush(file, command) => (file, command),
        _ => panic!("the table is full"),
    };
    assert_eq!(command, Command::Put(String::from("c"), String::from("3")));
    let write = match worker.resume(file, command) {
        Prepared::Write(write) => write,
        _ => panic!("the log can hold the write"),
    };
    assert!(!worker.flush_due());
    dir.perform_all(write.steps());
    assert_eq!(worker.complete(write), None);
    let level_zero = worker.tables().level_zero();
    let flushed = &level_zero.segments()[0];
    assert_eq!(flushed.first_key(), "a");
    assert_eq!(flushed.last_key(), "b");
    assert_eq!(flushed.get(&String::from("c")), None);
    // The table holds the write alone.
    let file = worker.flush().unwrap();
    worker.complete_flush(file);
    let level_zero = worker.tables().level_zero();
    assert_eq!(level_zero.segments()[1].first_key(), "c");
    let highest = level_zero.segments()[1].highest_sequence_number();
    assert!(highest > level_zero.segments()[0].highest_sequence_number());
    assert_eq!(worker.tables().highest_sequence_number(), highest);
    worker.compact();
    assert_eq!(worker.tables().highest_sequence_number(), highest);
    assert_eq!(level_zero.segments()[1].last_key(), "c");
}

#[test]
fn a_table_that_cannot_be_flushed_takes_no_write() {
    let mut dir = LogDirectory { files: Vec::new() };
    let mut conf = conf(1);
    conf.index_sparsity_factor = 0;
    let mut worker = start(&mut dir, &conf);
    let write = match worker.step(Command::Delete(String::from("a"))) {
        Step::Ready(Prepared::Write(write)) => write,
        _ => panic!("the table is empty"),
    };
    dir.perform_all(write.steps());
    worker.complete(write);
    assert!(matches!(worker.step(Command::Delete(String::from("a"))), Step::Unflushable));
}

#[test]
fn numbers_of_segments_are_not_given_again() {
    let mut dir = LogDirectory { files: Vec::new() };
    let mut worker = start(&mut dir, &conf(1));
    let mut seen: Vec<String> = Vec::new();
    for n in 0..30 {
        put(&mut worker, &mut dir, &format!("key{}", n % 4), &"v".repeat(40));
        let file = worker.flush().unwrap();
        // Level zero goes on counting after it was emptied.
        assert!(!seen.contains(&file.filename));
        assert_eq!(file.filename, format!("00000000{:08x}.sst", n + 1));
        seen.push(file.filename.clone());
        worker.complete_flush(file);
        let before: Vec<String> = live(&worker);
        worker.compact();
        for name in live(&worker) {
            if !before.contains(&name) {
                assert!(!seen.contains(&name));
                seen.push(name);
            }
        }
    }
    assert!(!worker.tables().partitioned_levels().is_empty());
}

/// The names of the segments behind level zero.
fn live(worker: &Worker) -> Vec<String> {
    let mut names = Vec::new();
    for level in worker.tables().partitioned_levels() {
        for segment in level.segments() {
            names.push(segment.filepath());
        }
    }
    names
}

#[test]
fn the_last_write_of_a_crash_is_lost_and_the_log_goes_on() {
    let conf = conf(100000);
    let mut dir = LogDirectory { files: Vec::new() };
    let mut worker = start(&mut dir, &conf);
    for n in 0..20 {
        put(&mut worker, &mut dir, &format!("key{}", n), "value");
    }
    let write = worker.put(String::from("key3"), String::from("other"));
    if let WalStep::Append(bytes) = &write.steps()[0] {
        dir.perform(&WalStep::Append(bytes[..bytes.len() - 1].to_vec()));
    }
    let mut worker = start(&mut dir, &conf);
    assert_eq!(worker.get(&String::from("key3")), Some(String::from("value")));
    for n in 20..40 {
        put(&mut worker, &mut dir, &format!("key{}", n), "value");
    }
    delete(&mut worker, &mut dir, "key3");
    let again = start(&mut dir, &conf);
    for n in 0..40 {
        let value = again.get(&format!("key{}", n));
        assert_eq!(value.is_some(), n != 3);
    }
}

#[test]
fn the_log_goes_on_in_the_file_that_it_names() {
    let conf = conf(100000);
    let mut dir = LogDirectory { files: Vec::new() };
    let mut worker = start(&mut dir, &conf);
    assert_eq!(worker.log_name(), dir.files[0].name);
    for n in 0..40 {
        put(&mut worker, &mut dir, &format!("key{}", n), "value");
        assert_eq!(worker.log_name(), dir.files[dir.files.len() - 1].name);
    }
    assert!(dir.files.len() > 3);
    // The log is broken in its second file, so that it goes on there.
    let second = dir.files[1].name.clone();
    dir.files[1].bytes.truncate(50);
    let mut worker = start(&mut dir, &conf);
    assert_eq!(worker.log_name(), second);
    assert_eq!(dir.files.len(), 2);
    assert!(dir.files[1].bytes.len() <= 50);
    put(&mut worker, &mut dir, "other", "1");
    let again = start(&mut dir, &conf);
    assert_eq!(again.get(&String::from("other")), Some(String::from("1")));
    // A file of another kind that sorts behind the log is not written.
    dir.files.push(LogFile { name: String::from("zzz.txt"), bytes: Vec::new() });
    let again = start(&mut dir, &conf);
    assert_eq!(again.log_name(), second);
}
