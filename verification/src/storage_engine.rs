//! The storage engine: the in-memory table of the latest writes, its log, and
//! the sorted string table that it is flushed to.

pub mod history;
pub mod memtable;
pub mod memtable_flusher;
pub mod sstable;

use memtable::wal::{LogFile, WalStep};
use memtable::{MemTable, MemTableValue, PendingWrite, StartError};
use memtable_flusher::{Flusher, MemTableFlush, SegmentFile};
use sstable::compaction::CompactionBt;
use sstable::level::segment::Segment;
use sstable::level::{PartitionedLevel, SstLevel};
use sstable::{SsTable, SsTableEntry};
use std::sync::Arc;
use vstd::prelude::*;

verus! {

/// Why the storage engine does not answer a request.
#[derive(Debug, PartialEq, Eq, Clone, Copy, Structural)]
pub enum StorageEngineError {
    IoError,
    NotFound,
    Shutdown,
}

impl StorageEngineError {
    /// The return code that a client gets.
    pub open spec fn code(&self) -> u8 {
        match self {
            StorageEngineError::IoError => 1,
            StorageEngineError::NotFound => 2,
            StorageEngineError::Shutdown => 3,
        }
    }

    /// The return code that a client gets.
    pub fn to_rc(&self) -> (rc: u8)
        ensures
            rc == self.code(),
    {
        match self {
            StorageEngineError::IoError => 1,
            StorageEngineError::NotFound => 2,
            StorageEngineError::Shutdown => 3,
        }
    }
}

/// The configuration of the engine: the directory of its files, the size of a
/// file of the log, the size at which the in-memory table is flushed, the size
/// at which level zero is compacted, and how many entries of a segment share
/// one entry of its index.
#[derive(Debug, PartialEq)]
pub struct StorageEngineConf {
    pub dir: String,
    pub segment_size: u32,
    pub memtable_max_size: u64,
    pub level_zero_max_size: u64,
    pub index_sparsity_factor: u32,
}

/// What the engine is asked for.
#[derive(Debug, PartialEq)]
pub enum Command {
    Delete(String),
    Get(String),
    Put(String, String),
}

/// What the engine does with a command: it answers at once, it writes, or it
/// refuses a write that its log cannot hold.
pub enum Prepared {
    Answer(Option<String>),
    Write(PendingWrite),
    Refused,
}

/// What comes first for a command: the in-memory table is flushed to a file and
/// the command waits, or the table would have to be flushed and cannot be, or
/// the command is prepared.
pub enum Step {
    Flush(SegmentFile, Command),
    Unflushable,
    Ready(Prepared),
}

/// The state of the engine.
pub struct Worker {
    memtable: MemTable,
    sstable: SsTable,
    task: CompactionBt,
    index_sparsity_factor: u32,
}

/// What an entry of the table says of its key, where there is one.
pub open spec fn entry_value(e: Option<sstable::EntryView>) -> Option<Seq<char>> {
    match e {
        Some(x) => x.value,
        None => None,
    }
}

/// What is done with a command.
pub open spec fn prepared(w: Worker, command: Command, r: Prepared) -> bool {
    match command {
        Command::Get(key) => r matches Prepared::Answer(v) && sstable::text_view(v) == w.lookup(
            key@,
        ),
        Command::Put(key, value) => if w.memtable().accepts(key@, Some(value@)) {
            &&& r matches Prepared::Write(p)
            &&& p.entry() == memtable::next_entry(w.memtable(), key@, Some(value@))
            &&& memtable::planned(w.memtable(), p)
        } else {
            r is Refused
        },
        Command::Delete(key) => if w.memtable().accepts(key@, None) {
            &&& r matches Prepared::Write(p)
            &&& p.entry() == memtable::next_entry(w.memtable(), key@, None)
            &&& memtable::planned(w.memtable(), p)
        } else {
            r is Refused
        },
    }
}

/// The in-memory table is to be flushed before the next write.
pub open spec fn due(m: MemTable) -> bool {
    m.filled() >= m.limit() && m.entries().len() > 0
}

/// The number of the next segment of level zero.
pub open spec fn next_segment(w: Worker) -> nat {
    (w.sstable().zero_issued() + 1) as nat
}

/// The in-memory table can be flushed.
pub open spec fn can_flush(w: Worker) -> bool {
    memtable_flusher::flushable(w.memtable().entries(), next_segment(w), w.sparsity() as nat)
}

/// The file holds all of the in-memory table.
pub open spec fn holds_table(w: Worker, file: SegmentFile) -> bool {
    memtable_flusher::flush_file(
        file,
        w.memtable().entries(),
        next_segment(w),
        w.sparsity() as nat,
    )
}

/// The in-memory table was flushed to a file: the file is the newest segment of
/// level zero, and the in-memory table is empty.
pub open spec fn flush_done(before: Worker, file: SegmentFile, after: Worker) -> bool {
    &&& after.wf()
    &&& after.sparsity() == before.sparsity()
    &&& after.waiting() == before.waiting()
    &&& after.memtable().values() == Map::<Seq<char>, memtable::ValueView>::empty()
    &&& after.memtable().filled() == 0
    &&& after.memtable().limit() == before.memtable().limit()
    &&& after.memtable().log() == before.memtable().log()
    &&& after.sstable().levels() == before.sstable().levels()
    &&& after.sstable().zero_target() == before.sstable().zero_target()
    &&& after.sstable().zero_issued() == next_segment(before)
    &&& after.sstable().compaction_due() == sstable::level::exceeds(
        after.sstable().zero(),
        after.sstable().zero_target(),
    )
    &&& exists|seg: Segment|
        {
            &&& after.sstable().zero() == before.sstable().zero().push(Arc::new(seg))
            &&& #[trigger] seg.wf()
            &&& seg.entries() == before.memtable().entries()
            &&& seg.name() == file.filename@
            &&& seg.contents() == file.bytes@
        }
}

/// What comes first for a command. Before a write the in-memory table is flushed
/// where that is due.
pub open spec fn comes_first(w: Worker, command: Command, r: Step) -> bool {
    if command !is Get && due(w.memtable()) {
        if can_flush(w) {
            r matches Step::Flush(file, c) && c == command && holds_table(w, file)
        } else {
            r is Unflushable
        }
    } else {
        r matches Step::Ready(p) && prepared(w, command, p)
    }
}

/// A write took effect.
pub open spec fn completed(before: Worker, write: PendingWrite, after: Worker) -> bool {
    &&& after.wf()
    &&& after.sstable() == before.sstable()
    &&& after.memtable().log() == write.log()
    &&& after.memtable().values() == before.memtable().values().insert(
        write.entry().key,
        memtable::ValueView {
            value: write.entry().value,
            sequence_number: write.entry().sequence_number,
        },
    )
}

/// A turn of the compaction was taken, with the names of the files that are to be
/// removed and whether the compaction goes on.
pub open spec fn compacted(
    before: Worker,
    after: Worker,
    files: Seq<Seq<char>>,
    goes_on: bool,
) -> bool {
    &&& after.wf()
    &&& after.memtable() == before.memtable()
    &&& after.sparsity() == before.sparsity()
    &&& after.sstable().zero_target() == before.sstable().zero_target()
    &&& after.sstable().zero_issued() == before.sstable().zero_issued()
    &&& after.sstable().compaction_due() == (before.sstable().compaction_due() && !goes_on)
    &&& sstable::compaction::turned(
        turn_view(before),
        before.sstable().zero_target(),
        before.sstable().compaction_due(),
        turn_view(after),
        files,
        goes_on,
    )
}

/// The value that was held for a key.
pub open spec fn held_value(
    m: Map<Seq<char>, memtable::ValueView>,
    key: Seq<char>,
) -> Option<Seq<char>> {
    if m.contains_key(key) {
        m[key].value
    } else {
        None
    }
}

impl Worker {
    /// The in-memory table.
    pub closed spec fn memtable(&self) -> MemTable {
        self.memtable
    }

    /// The sorted string table.
    pub closed spec fn sstable(&self) -> SsTable {
        self.sstable
    }

    /// One of this many entries is in the index of a flushed segment.
    pub closed spec fn sparsity(&self) -> u32 {
        self.index_sparsity_factor
    }

    /// The segments that compactions replaced and whose files are still there.
    pub closed spec fn waiting(&self) -> Seq<Arc<Segment>> {
        self.task.to_delete()
    }

    /// The numbers of references that the last turn of the compaction read.
    pub closed spec fn counted(&self) -> Seq<sstable::references::References> {
        self.task.counted()
    }

    /// Both tables are well formed.
    pub closed spec fn wf(&self) -> bool {
        self.memtable.wf() && self.sstable.wf()
    }

    /// What holds of the tables.
    pub proof fn lemma_parts(&self)
        requires
            self.wf(),
        ensures
            self.memtable().wf(),
            self.sstable().wf(),
    {
    }

    /// The value of a key: what the in-memory table holds for it, else what the
    /// sorted string table has.
    pub open spec fn lookup(&self, key: Seq<char>) -> Option<Seq<char>> {
        if self.memtable().values().contains_key(key) {
            self.memtable().values()[key].value
        } else {
            entry_value(self.sstable().lookup(key))
        }
    }

    /// Starts the engine with the files of the log, in the order of their
    /// names. The log is read from the highest sequence number of the sorted
    /// string table on, which is zero, since that table begins without segments.
    /// Gives the engine and what is to be done to the files before it is used.
    pub fn start(config: &StorageEngineConf, files: &Vec<LogFile>) -> (r: Result<
        (Worker, Vec<WalStep>),
        StartError,
    >)
        requires
            config.segment_size > 0,
        ensures
            ({
                let fs = memtable::wal::file_views(files@);
                let all = memtable::listed(fs, config.segment_size, 0);
                let log = memtable::wal::recover_log(
                    memtable::wal::contents(all),
                    config.segment_size as int,
                    0,
                    memtable::wal::nothing_carried(),
                    0,
                );
                &&& r is Err <==> all.len() > 0 && (memtable::too_large(all, config.segment_size)
                    || log.broken is None && all.last().bytes.len() > config.segment_size)
                &&& r matches Ok((w, steps)) ==> {
                    &&& w.wf()
                    &&& w.memtable().limit() == config.memtable_max_size
                    &&& w.memtable().log().max() == config.segment_size
                    &&& memtable::started(
                        fs,
                        config.segment_size,
                        0,
                        w.memtable(),
                        memtable::wal::step_views(steps@),
                    )
                    &&& w.sstable().zero() == Seq::<Arc<Segment>>::empty()
                    &&& w.sstable().levels() == Seq::<PartitionedLevel>::empty()
                    &&& w.sstable().zero_target() == config.level_zero_max_size
                    &&& w.sstable().zero_issued() == 0
                    &&& w.sstable().highest_sequence() == 0
                    &&& w.sparsity() == config.index_sparsity_factor
                    &&& w.waiting() == Seq::<Arc<Segment>>::empty()
                    &&& !w.sstable().compaction_due()
                }
            }),
            (forall|i: int|
                0 <= i < files@.len() ==> (#[trigger] files@[i]).bytes@.len()
                    <= config.segment_size) ==> r is Ok,
    {
        let sstable: SsTable = SsTable::start(config.level_zero_max_size);
        let number: u64 = sstable.highest_sequence_number();
        match MemTable::start(files, config.segment_size, number, config.memtable_max_size) {
            Ok((memtable, steps)) => Ok(
                (
                    Worker {
                        memtable,
                        sstable,
                        task: CompactionBt::new(),
                        index_sparsity_factor: config.index_sparsity_factor,
                    },
                    steps,
                ),
            ),
            Err(e) => Err(e),
        }
    }

    /// The value of a key.
    pub fn get(&self, key: &String) -> (r: Option<String>)
        requires
            self.wf(),
        ensures
            sstable::text_view(r) == self.lookup(key@),
    {
        match self.memtable.get(key) {
            Some(mvalue) => mvalue.value,
            None => match self.sstable.get(key) {
                Some(entry) => entry.value,
                None => None,
            },
        }
    }

    /// Whether a value can be put: the key is not empty, and the record of the
    /// write fits into a file of the log.
    pub fn can_put(&self, key: &String, value: &String) -> (r: bool)
        requires
            self.wf(),
        ensures
            r == self.memtable().accepts(key@, Some(value@)),
    {
        self.memtable.can_write(key, Some(value))
    }

    /// Whether a key can be deleted: it is not empty, and the record of the
    /// write fits into a file of the log.
    pub fn can_delete(&self, key: &String) -> (r: bool)
        requires
            self.wf(),
        ensures
            r == self.memtable().accepts(key@, None),
    {
        self.memtable.can_write(key, None)
    }

    /// Prepares a put.
    pub fn put(&self, key: String, value: String) -> (w: PendingWrite)
        requires
            self.wf(),
            self.memtable().accepts(key@, Some(value@)),
        ensures
            w.entry() == memtable::next_entry(self.memtable(), key@, Some(value@)),
            memtable::planned(self.memtable(), w),
    {
        self.memtable.put(key, value)
    }

    /// Prepares a delete.
    pub fn delete(&self, key: &String) -> (w: PendingWrite)
        requires
            self.wf(),
            self.memtable().accepts(key@, None),
        ensures
            w.entry() == memtable::next_entry(self.memtable(), key@, None),
            memtable::planned(self.memtable(), w),
    {
        self.memtable.delete(key)
    }

    /// What is done with a command.
    pub fn prepare(&self, command: Command) -> (r: Prepared)
        requires
            self.wf(),
        ensures
            prepared(*self, command, r),
    {
        match command {
            Command::Get(key) => Prepared::Answer(self.get(&key)),
            Command::Put(key, value) => if self.can_put(&key, &value) {
                Prepared::Write(self.put(key, value))
            } else {
                Prepared::Refused
            },
            Command::Delete(key) => if self.can_delete(&key) {
                Prepared::Write(self.delete(&key))
            } else {
                Prepared::Refused
            },
        }
    }

    /// Lets a write take effect whose steps are done. Gives the value that the
    /// in-memory table held for the key before.
    pub fn complete(&mut self, write: PendingWrite) -> (r: Option<String>)
        requires
            old(self).wf(),
            write.log().wf(),
        ensures
            final(self).wf(),
            final(self).sstable() == old(self).sstable(),
            final(self).sparsity() == old(self).sparsity(),
            final(self).waiting() == old(self).waiting(),
            final(self).memtable().log() == write.log(),
            final(self).memtable().limit() == old(self).memtable().limit(),
            final(self).memtable().values() == old(self).memtable().values().insert(
                write.entry().key,
                memtable::ValueView {
                    value: write.entry().value,
                    sequence_number: write.entry().sequence_number,
                },
            ),
            final(self).memtable().filled() + memtable::held_len(
                old(self).memtable().values(),
                write.entry().key,
            ) == old(self).memtable().filled() + memtable::write_len(write.entry()),
            sstable::text_view(r) == held_value(
                old(self).memtable().values(),
                write.entry().key,
            ),
            completed(*old(self), write, *final(self)),
    {
        let previous: Option<MemTableValue> = self.memtable.complete(write);
        match previous {
            Some(mvalue) => mvalue.value,
            None => None,
        }
    }

    /// Whether the in-memory table is to be flushed before the next write.
    pub fn flush_due(&self) -> (r: bool)
        requires
            self.wf(),
        ensures
            r == due(self.memtable()),
    {
        self.memtable.needs_flush() && self.memtable.contents().len() > 0
    }

    /// The file that the in-memory table is flushed to, or nothing where it
    /// cannot be flushed.
    pub fn flush(&self) -> (r: Option<SegmentFile>)
        requires
            self.wf(),
        ensures
            r is Some <==> can_flush(*self),
            r matches Some(f) ==> holds_table(*self, f),
    {
        let flusher: Flusher = Flusher::from(&self.sstable, self.index_sparsity_factor);
        flusher.flush(self.memtable.contents())
    }

    /// Goes on after the in-memory table was flushed to a file: the file
    /// becomes the newest segment of level zero, and the in-memory table is
    /// empty.
    pub fn complete_flush(&mut self, file: SegmentFile)
        requires
            old(self).wf(),
            can_flush(*old(self)),
            holds_table(*old(self), file),
        ensures
            flush_done(*old(self), file, *final(self)),
    {
        proof {
            let es = self.memtable.entries();
            let number = (self.sstable.zero_issued() + 1) as nat;
            self.memtable.lemma_parts();
            memtable::lemma_flush_keeps_values(es, self.index_sparsity_factor as int, Seq::empty());
            sstable::level::segment::lemma_number_in(0, number);
        }
        let SegmentFile { filename, bytes } = file;
        let ghost before = self.sstable.zero();
        let ghost es = self.memtable.entries();
        let ghost name = filename@;
        let ghost data = bytes@;
        let _ = self.sstable.find_and_add_segment(filename, bytes);
        proof {
            let seg = choose|seg: Segment|
                {
                    &&& self.sstable.zero() == before.push(Arc::new(seg))
                    &&& #[trigger] seg.wf()
                    &&& seg.contents() == data
                    &&& seg.name() == name
                };
            seg.lemma_entries();
            assert(seg.entries() == es);
        }
        self.memtable.flushed();
    }

    /// What comes first for a command. Before a write the in-memory table is
    /// flushed where that is due.
    pub fn step(&self, command: Command) -> (r: Step)
        requires
            self.wf(),
        ensures
            if command !is Get && due(self.memtable()) {
                if can_flush(*self) {
                    r matches Step::Flush(file, c) && c == command && holds_table(*self, file)
                } else {
                    r is Unflushable
                }
            } else {
                r matches Step::Ready(p) && prepared(*self, command, p)
            },
            comes_first(*self, command, r),
    {
        let writes: bool = match &command {
            Command::Get(_) => false,
            _ => true,
        };
        if writes && self.flush_due() {
            match self.flush() {
                Some(file) => Step::Flush(file, command),
                None => Step::Unflushable,
            }
        } else {
            Step::Ready(self.prepare(command))
        }
    }

    /// Goes on with a command after the in-memory table was flushed for it.
    pub fn resume(&mut self, file: SegmentFile, command: Command) -> (r: Prepared)
        requires
            old(self).wf(),
            can_flush(*old(self)),
            holds_table(*old(self), file),
        ensures
            flush_done(*old(self), file, *final(self)),
            prepared(*final(self), command, r),
    {
        self.complete_flush(file);
        self.prepare(command)
    }

    /// One turn of the compaction. Gives the names of the files that are to be
    /// removed and whether the compaction goes on.
    pub fn compact(&mut self) -> (r: (Vec<String>, bool))
        requires
            old(self).wf(),
        ensures
            final(self).wf(),
            final(self).memtable() == old(self).memtable(),
            final(self).sparsity() == old(self).sparsity(),
            final(self).sstable().zero_target() == old(self).sstable().zero_target(),
            final(self).sstable().zero_issued() == old(self).sstable().zero_issued(),
            final(self).sstable().compaction_due() == (old(self).sstable().compaction_due() && !r.1),
            sstable::compaction::turned(
                turn_view(*old(self)),
                old(self).sstable().zero_target(),
                old(self).sstable().compaction_due(),
                turn_view(*final(self)),
                sstable::compaction::names(r.0@),
                r.1,
            ),
            compacted(*old(self), *final(self), sstable::compaction::names(r.0@), r.1),
    {
        let r: (Vec<String>, bool) = self.sstable.compact(&mut self.task);
        proof {
            assert(old(self).sstable.zero() == old(self).sstable().zero());
            assert(old(self).sstable.levels() == old(self).sstable().levels());
            assert(old(self).sstable.zero_target() == old(self).sstable().zero_target());
            assert(self.sstable.levels() == self.sstable().levels());
        }
        r
    }

    /// The name of the file of the log that the next write is appended to.
    pub fn log_name(&self) -> (s: String)
        ensures
            s@ == self.memtable().log().name(),
    {
        self.memtable.log_name()
    }

    /// The sorted string table.
    pub fn tables(&self) -> (r: &SsTable)
        ensures
            *r == self.sstable(),
    {
        &self.sstable
    }
}

/// The sequence number of the next write.
pub open spec fn next_number(w: Worker) -> int {
    w.memtable().log().first() + w.memtable().log().size()
}

/// What comes first in a lookup is later: the segments and levels are in order,
/// what the in-memory table holds for a key was written after what the sorted
/// string table has of it, and the next write comes after all of them.
pub open spec fn sound(w: Worker) -> bool {
    let zero = w.sstable().zero();
    let levels = w.sstable().levels();
    let values = w.memtable().values();
    &&& w.wf()
    &&& sstable::compaction::in_order(zero, levels)
    &&& forall|e: sstable::EntryView| #[trigger]
        sstable::recency::present(zero, levels, e) ==> {
            &&& e.sequence_number < next_number(w)
            &&& values.contains_key(e.key) ==> e.sequence_number < values[e.key].sequence_number
        }
    &&& forall|k: Seq<char>| #[trigger]
        values.contains_key(k) ==> values[k].sequence_number < next_number(w)
}

/// An engine that has just been started, with nothing in its log, is sound and
/// has no key.
pub proof fn lemma_empty_engine(w: Worker)
    requires
        w.wf(),
        w.memtable().values() == Map::<Seq<char>, memtable::ValueView>::empty(),
        w.sstable().zero() == Seq::<Arc<Segment>>::empty(),
        w.sstable().levels() == Seq::<PartitionedLevel>::empty(),
    ensures
        sound(w),
        forall|key: Seq<char>| #[trigger] w.lookup(key) is None,
{
    let zero = w.sstable().zero();
    let levels = w.sstable().levels();
    assert(forall|e: sstable::EntryView| !#[trigger] sstable::recency::held(zero, e));
    assert(forall|e: sstable::EntryView| !#[trigger] sstable::recency::held_in(levels, e));
    assert forall|key: Seq<char>| #[trigger] w.lookup(key) is None by {
        assert(sstable::level::overlapping_lookup(zero, key) is None);
        assert(sstable::recency::levels_lookup(levels, key) is None);
    }
}

/// The in-memory table is flushed before a write exactly where its size has
/// reached the limit, all of it goes to the new segment, and the write finds it
/// empty. The key of the write is in the in-memory table afterwards.
pub proof fn lemma_write_job(
    before: Worker,
    file: SegmentFile,
    flushed: Worker,
    key: Seq<char>,
    value: Option<Seq<char>>,
    write: PendingWrite,
    after: Worker,
)
    requires
        before.wf(),
        before.memtable().limit() > 0,
        due(before.memtable()) ==> holds_table(before, file) && flush_done(before, file, flushed),
        !due(before.memtable()) ==> flushed == before,
        write.entry() == memtable::next_entry(flushed.memtable(), key, value),
        after.sstable() == flushed.sstable(),
        after.memtable().values() == flushed.memtable().values().insert(
            key,
            memtable::ValueView { value, sequence_number: write.entry().sequence_number },
        ),
        after.memtable().filled() + memtable::held_len(flushed.memtable().values(), key)
            == flushed.memtable().filled() + memtable::write_len(write.entry()),
    ensures
        due(before.memtable()) <==> before.memtable().filled() >= before.memtable().limit(),
        due(before.memtable()) ==> {
            let zero = after.sstable().zero();
            &&& zero.len() == before.sstable().zero().len() + 1
            &&& zero.drop_last() == before.sstable().zero()
            &&& zero.last().entries() == before.memtable().entries()
            &&& after.memtable().values().dom() == set![key]
            &&& after.memtable().filled() == memtable::write_len(write.entry())
        },
        !due(before.memtable()) ==> {
            &&& after.sstable() == before.sstable()
            &&& after.memtable().values().dom() == before.memtable().values().dom().insert(key)
        },
        after.memtable().values().contains_key(key),
        after.memtable().values()[key].value == value,
{
    before.lemma_parts();
    before.memtable().lemma_parts();
    if due(before.memtable()) {
        let zero = before.sstable().zero();
        let seg = choose|seg: Segment|
            {
                &&& flushed.sstable().zero() == zero.push(Arc::new(seg))
                &&& #[trigger] seg.wf()
                &&& seg.entries() == before.memtable().entries()
                &&& seg.name() == file.filename@
                &&& seg.contents() == file.bytes@
            };
        assert(zero.push(Arc::new(seg)).drop_last() =~= zero);
        assert(after.memtable().values().dom() =~= set![key]);
    } else {
        assert(after.memtable().values().dom() =~= before.memtable().values().dom().insert(key));
    }
}

/// A read gives back the last write: after a put the key has the value, after a
/// delete it has none, every other key has what it had, and the engine stays
/// sound.
pub proof fn lemma_read_after_write(
    before: Worker,
    key: Seq<char>,
    value: Option<Seq<char>>,
    write: PendingWrite,
    after: Worker,
)
    requires
        sound(before),
        before.memtable().accepts(key, value),
        write.entry() == memtable::next_entry(before.memtable(), key, value),
        memtable::planned(before.memtable(), write),
        after.wf(),
        after.sstable() == before.sstable(),
        after.memtable().log() == write.log(),
        after.memtable().values() == before.memtable().values().insert(
            key,
            memtable::ValueView { value, sequence_number: write.entry().sequence_number },
        ),
        0x1_0000_0000int % before.memtable().log().max() as int == 0,
        before.memtable().log().first() as int % before.memtable().log().max() as int == 0,
    ensures
        after.lookup(key) == value,
        forall|other: Seq<char>| other != key ==> #[trigger] after.lookup(other) == before.lookup(
            other,
        ),
        sound(after),
        after.memtable().log().first() as int % after.memtable().log().max() as int == 0,
{
    before.lemma_parts();
    before.memtable().lemma_parts();
    before.memtable().log().lemma_active();
    memtable::lemma_sequence_numbers_increase(before.memtable(), write);
    let values = before.memtable().values();
    let now = after.memtable().values();
    assert(next_number(before) == write.entry().sequence_number);
    assert forall|e: sstable::EntryView| #[trigger]
        sstable::recency::present(after.sstable().zero(), after.sstable().levels(), e) implies {
        &&& e.sequence_number < next_number(after)
        &&& now.contains_key(e.key) ==> e.sequence_number < now[e.key].sequence_number
    } by {
        assert(sstable::recency::present(before.sstable().zero(), before.sstable().levels(), e));
        if e.key != key && now.contains_key(e.key) {
            assert(values.contains_key(e.key));
        }
    }
    assert forall|k: Seq<char>| #[trigger] now.contains_key(k) implies now[k].sequence_number
        < next_number(after) by {
        if k != key {
            assert(values.contains_key(k));
        }
    }
}

/// One more segment in level zero that is later than everything else decides
/// lookups first.
proof fn lemma_newest_segment(
    zero: Seq<Arc<Segment>>,
    levels: Seq<PartitionedLevel>,
    seg: Arc<Segment>,
)
    requires
        sstable::compaction::in_order(zero, levels),
        seg.wf(),
        forall|e: sstable::EntryView, f: sstable::EntryView|
            #[trigger] sstable::recency::held(seq![seg], e)
                && #[trigger] sstable::recency::present(zero, levels, f) ==> sstable::recency::later(
                e,
                f,
            ),
    ensures
        sstable::compaction::in_order(zero.push(seg), levels),
        forall|key: Seq<char>| #[trigger]
            sstable::recency::table_lookup(zero.push(seg), levels, key) == (
            match sstable::level::segment::lookup(seg.entries(), key) {
                Some(e) => Some(e),
                None => sstable::recency::table_lookup(zero, levels, key),
            }),
{
    let now = zero.push(seg);
    assert(now.drop_last() =~= zero);
    assert forall|i: int| 0 <= i < now.len() implies (#[trigger] now[i]).wf() by {
        if i < zero.len() {
            assert(now[i] == zero[i]);
        }
    }
    assert forall|i: int, j: int| 0 <= i < j < now.len() implies sstable::recency::recent(
        seq![#[trigger] now[j]],
        seq![#[trigger] now[i]],
    ) by {
        assert(now[i] == zero[i]);
        if j < zero.len() {
            assert(now[j] == zero[j]);
        } else {
            assert forall|e: sstable::EntryView, f: sstable::EntryView|
                #[trigger] sstable::recency::held(seq![now[j]], e)
                    && #[trigger] sstable::recency::held(seq![now[i]], f) implies
                sstable::recency::later(e, f) by {
                sstable::recency::lemma_held_one(zero, f);
                assert(sstable::recency::present(zero, levels, f));
            }
        }
    }
    assert forall|j: int| 0 <= j < levels.len() implies sstable::recency::recent(
        now,
        (#[trigger] levels[j]).segs(),
    ) by {
        assert forall|e: sstable::EntryView, f: sstable::EntryView|
            #[trigger] sstable::recency::held(now, e) && #[trigger] sstable::recency::held(
                levels[j].segs(),
                f,
            ) implies sstable::recency::later(e, f) by {
            assert(now =~= zero + seq![seg]);
            sstable::recency::lemma_held_concat(zero, seq![seg], e);
            assert(sstable::recency::held_in(levels, f));
            assert(sstable::recency::present(zero, levels, f));
            if sstable::recency::held(zero, e) {
                assert(sstable::recency::recent(zero, levels[j].segs()));
            }
        }
    }
}

/// Flushing changes no lookup, and the engine stays sound.
pub proof fn lemma_flush_keeps_lookups(before: Worker, seg: Segment, after: Worker)
    requires
        sound(before),
        after.wf(),
        seg.wf(),
        seg.entries() == before.memtable().entries(),
        after.sstable().zero() == before.sstable().zero().push(Arc::new(seg)),
        after.sstable().levels() == before.sstable().levels(),
        after.memtable().values() == Map::<Seq<char>, memtable::ValueView>::empty(),
        after.memtable().log() == before.memtable().log(),
    ensures
        forall|key: Seq<char>| #[trigger] after.lookup(key) == before.lookup(key),
        sound(after),
{
    let zero = before.sstable().zero();
    let levels = before.sstable().levels();
    let values = before.memtable().values();
    let es = before.memtable().entries();
    let new = Arc::new(seg);
    let one = seq![new];
    before.lemma_parts();
    before.memtable().lemma_parts();
    // What the new segment has is what the in-memory table held.
    assert forall|e: sstable::EntryView| #[trigger] sstable::recency::held(one, e) implies {
        &&& values.contains_key(e.key)
        &&& values[e.key] == memtable::value_of(e)
    } by {
        sstable::recency::lemma_segment_lookup(new, e.key);
        lemma_map_lookup(es, e.key);
    }
    assert forall|e: sstable::EntryView, f: sstable::EntryView|
        #[trigger] sstable::recency::held(one, e) && #[trigger] sstable::recency::present(
            zero,
            levels,
            f,
        ) implies sstable::recency::later(e, f) by {
        assert(values.contains_key(e.key));
    }
    lemma_newest_segment(zero, levels, new);
    let now = zero.push(new);
    assert forall|key: Seq<char>| #[trigger] after.lookup(key) == before.lookup(key) by {
        lemma_map_lookup(es, key);
        assert(after.sstable().lookup(key) == sstable::recency::table_lookup(now, levels, key));
    }
    assert forall|e: sstable::EntryView| #[trigger] sstable::recency::present(
        now,
        levels,
        e,
    ) implies e.sequence_number < next_number(after) by {
        assert(now =~= zero + one);
        sstable::recency::lemma_held_concat(zero, one, e);
        if sstable::recency::held(one, e) {
            assert(values.contains_key(e.key));
        } else {
            assert(sstable::recency::present(zero, levels, e));
        }
    }
}

/// A lookup in the entries of the in-memory table gives what it holds.
proof fn lemma_map_lookup(es: Seq<sstable::EntryView>, key: Seq<char>)
    requires
        sstable::level::segment::sorted(es),
    ensures
        sstable::level::segment::lookup(es, key) is Some <==> memtable::map_of(es).contains_key(key),
        sstable::level::segment::lookup(es, key) matches Some(e) ==> e.key == key
            && memtable::map_of(es)[key] == memtable::value_of(e),
{
    if sstable::level::segment::has_key(es, key) {
        let i = choose|i: int| 0 <= i < es.len() && (#[trigger] es[i]).key == key;
        sstable::level::segment::lemma_lookup(es, i);
    }
}

/// Compacting level zero changes no lookup, and the engine stays sound.
pub proof fn lemma_compaction_keeps_engine(
    before: Worker,
    after: Worker,
    number: u64,
    gone: Seq<Arc<Segment>>,
)
    requires
        sound(before),
        after.wf(),
        after.memtable() == before.memtable(),
        after.sstable().zero() == Seq::<Arc<Segment>>::empty(),
        sstable::compaction::settles(
            before.sstable().zero(),
            before.sstable().levels(),
            sstable::compaction::grown(before.sstable().zero_target()),
            number,
            after.sstable().levels(),
            gone,
        ),
    ensures
        forall|key: Seq<char>| #[trigger] after.lookup(key) == before.lookup(key),
        sound(after),
{
    let zero = before.sstable().zero();
    let levels = before.sstable().levels();
    let now = after.sstable().levels();
    let target = sstable::compaction::grown(before.sstable().zero_target());
    let none = Seq::<Arc<Segment>>::empty();
    assert forall|key: Seq<char>| #[trigger] after.lookup(key) == before.lookup(key) by {
        sstable::compaction::lemma_compaction_keeps_lookups(
            zero,
            levels,
            target,
            number,
            now,
            gone,
            key,
        );
    }
    sstable::compaction::lemma_compaction_keeps_lookups(
        zero,
        levels,
        target,
        number,
        now,
        gone,
        Seq::empty(),
    );
    assert forall|e: sstable::EntryView| #[trigger] sstable::recency::present(
        none,
        now,
        e,
    ) implies sstable::recency::present(zero, levels, e) by {
        sstable::compaction::lemma_compaction_invents_nothing(
            zero,
            levels,
            target,
            number,
            now,
            gone,
            e,
        );
    }
}

/// Compacting a level that is too large changes no lookup, and the engine stays
/// sound.
pub proof fn lemma_relieving_keeps_engine(
    before: Worker,
    after: Worker,
    gone: Seq<Arc<Segment>>,
)
    requires
        sound(before),
        after.wf(),
        after.memtable() == before.memtable(),
        after.sstable().zero() == before.sstable().zero(),
        sstable::compaction::relieved(
            before.sstable().levels(),
            after.sstable().levels(),
            gone,
        ),
    ensures
        forall|key: Seq<char>| #[trigger] after.lookup(key) == before.lookup(key),
        sound(after),
{
    let zero = before.sstable().zero();
    let levels = before.sstable().levels();
    let now = after.sstable().levels();
    assert forall|key: Seq<char>| #[trigger] after.lookup(key) == before.lookup(key) by {
        sstable::compaction::lemma_relieving_keeps_lookups(zero, levels, now, gone, key);
    }
    sstable::compaction::lemma_relieving_keeps_lookups(zero, levels, now, gone, Seq::empty());
    assert forall|e: sstable::EntryView| #[trigger] sstable::recency::present(
        zero,
        now,
        e,
    ) implies sstable::recency::present(zero, levels, e) by {
        sstable::compaction::lemma_relieving_keeps_lookups(zero, levels, now, gone, e.key);
    }
}

/// What a turn of the compaction works on in an engine.
pub open spec fn turn_view(w: Worker) -> sstable::compaction::TurnView {
    sstable::compaction::TurnView {
        zero: w.sstable().zero(),
        levels: w.sstable().levels(),
        waiting: w.waiting(),
        counts: w.counted(),
    }
}

/// A turn of the compaction changes no lookup, and the engine stays sound.
pub proof fn lemma_turn_keeps_engine(
    before: Worker,
    after: Worker,
    files: Seq<Seq<char>>,
    goes_on: bool,
)
    requires
        sound(before),
        after.wf(),
        after.memtable() == before.memtable(),
        sstable::compaction::turned(
            turn_view(before),
            before.sstable().zero_target(),
            before.sstable().compaction_due(),
            turn_view(after),
            files,
            goes_on,
        ),
    ensures
        forall|key: Seq<char>| #[trigger] after.lookup(key) == before.lookup(key),
        sound(after),
{
    let b = turn_view(before);
    let a = turn_view(after);
    let target = sstable::compaction::grown(before.sstable().zero_target());
    if goes_on && before.sstable().compaction_due() {
        let gone = choose|gone: Seq<Arc<Segment>>| #[trigger]
            sstable::compaction::settles(b.zero, b.levels, target, 1, a.levels, gone)
                && sstable::compaction::swept(
                b.waiting + gone,
                a.waiting,
                a.counts,
                a.zero,
                a.levels,
                files,
            );
        assert(sstable::compaction::settles(
            before.sstable().zero(),
            before.sstable().levels(),
            target,
            1,
            after.sstable().levels(),
            gone,
        ));
        lemma_compaction_keeps_engine(before, after, 1, gone);
    } else if goes_on {
        let (gone, kept) = choose|gone: Seq<Arc<Segment>>, kept: Seq<Arc<Segment>>|
            #![trigger sstable::compaction::relieved(b.levels, a.levels, gone),
                sstable::compaction::swept(b.waiting, kept, a.counts, a.zero, a.levels, files)]
            sstable::compaction::relieved(b.levels, a.levels, gone)
                && sstable::compaction::swept(b.waiting, kept, a.counts, a.zero, a.levels, files) && a.waiting
                == kept + gone;
        assert(sstable::compaction::relieved(
            before.sstable().levels(),
            after.sstable().levels(),
            gone,
        ));
        lemma_relieving_keeps_engine(before, after, gone);
    } else {
        assert(a.zero == b.zero && a.levels == b.levels);
    }
}

/// The files of the log give exactly what the engine holds: of every key the
/// value that a lookup gives, and no write that is not before the next one.
pub open spec fn logged(files: Seq<memtable::wal::FileView>, w: Worker) -> bool {
    let es = memtable::log_of(files, 0, w.memtable().log().max()).entries;
    &&& memtable::holds_log(files, 0, w.memtable().log())
    &&& memtable::tidy(files, w.memtable().log().max())
    &&& forall|key: Seq<char>| #[trigger]
        w.lookup(key) == held_value(memtable::replay(Map::empty(), es), key)
    &&& forall|i: int| 0 <= i < es.len() ==> (#[trigger] es[i]).sequence_number < next_number(w)
}

/// A write to the engine survives a crash: when its steps are done, the files
/// of the log give what the engine holds with the write.
pub proof fn lemma_engine_write_is_durable(
    files: Seq<memtable::wal::FileView>,
    before: Worker,
    key: Seq<char>,
    value: Option<Seq<char>>,
    write: PendingWrite,
    after: Worker,
)
    requires
        sound(before),
        logged(files, before),
        before.memtable().accepts(key, value),
        memtable::wal::segment::record_len(write.entry()) <= u32::MAX,
        write.entry() == memtable::next_entry(before.memtable(), key, value),
        memtable::planned(before.memtable(), write),
        after.wf(),
        after.sstable() == before.sstable(),
        after.memtable().log() == write.log(),
        after.memtable().values() == before.memtable().values().insert(
            key,
            memtable::ValueView { value, sequence_number: write.entry().sequence_number },
        ),
        0x1_0000_0000int % before.memtable().log().max() as int == 0,
    ensures
        logged(memtable::wal::perform_all(files, write.plan()), after),
{
    let max = before.memtable().log().max();
    let now = memtable::wal::perform_all(files, write.plan());
    let es = memtable::log_of(files, 0, max).entries;
    let more = es.push(write.entry());
    before.lemma_parts();
    before.memtable().lemma_parts();
    before.memtable().log().lemma_active();
    memtable::lemma_first_in(files.last().name, max);
    memtable::lemma_write_is_logged(files, 0, before.memtable(), write);
    memtable::lemma_written_files_tidy(files, before.memtable(), write);
    memtable::lemma_sequence_numbers_increase(before.memtable(), write);
    lemma_read_after_write(before, key, value, write, after);
    assert(more.drop_last() =~= es);
    let was = memtable::replay(Map::empty(), es);
    let is = memtable::replay(Map::empty(), more);
    assert forall|k: Seq<char>| #[trigger] after.lookup(k) == held_value(is, k) by {
        if k != key {
            assert(after.lookup(k) == before.lookup(k));
            assert(is.contains_key(k) == was.contains_key(k));
        }
    }
    assert forall|i: int| 0 <= i < more.len() implies (#[trigger] more[i]).sequence_number
        < next_number(after) by {
        if i < es.len() {
            assert(more[i] == es[i]);
        }
    }
}

/// What writes leave in a table has the sequence number of a write.
proof fn lemma_replay_numbers(es: Seq<memtable::wal::segment::WalEntryView>, n: int)
    requires
        forall|i: int| 0 <= i < es.len() ==> (#[trigger] es[i]).sequence_number < n,
    ensures
        forall|k: Seq<char>| #[trigger]
            memtable::replay(Map::empty(), es).contains_key(k) ==> memtable::replay(
                Map::empty(),
                es,
            )[k].sequence_number < n,
    decreases es.len(),
{
    if es.len() > 0 {
        let init = es.drop_last();
        assert forall|i: int| 0 <= i < init.len() implies (#[trigger] init[i]).sequence_number
            < n by {
            assert(init[i] == es[i]);
        }
        lemma_replay_numbers(init, n);
        assert(es.last() == es[es.len() - 1]);
        let was = memtable::replay(Map::empty(), init);
        let is = memtable::replay(Map::empty(), es);
        assert forall|k: Seq<char>| #[trigger] is.contains_key(k) implies is[k].sequence_number
            < n by {
            if k != es.last().key {
                assert(was.contains_key(k));
            }
        }
    }
}

/// A restart gives everything back: an engine that is started with the files
/// which give what an engine holds answers every lookup as that one did, it is
/// sound, and its next write has the same sequence number. When the steps of the
/// start are done, the files give what it holds.
pub proof fn lemma_engine_restart(
    files: Seq<memtable::wal::FileView>,
    before: Worker,
    after: Worker,
    steps: Seq<memtable::wal::StepView>,
)
    requires
        before.wf(),
        logged(files, before),
        before.memtable().log().max() > 0,
        after.wf(),
        after.memtable().log().max() == before.memtable().log().max(),
        memtable::started(files, before.memtable().log().max(), 0, after.memtable(), steps),
        after.sstable().zero() == Seq::<Arc<Segment>>::empty(),
        after.sstable().levels() == Seq::<PartitionedLevel>::empty(),
    ensures
        forall|key: Seq<char>| #[trigger] after.lookup(key) == before.lookup(key),
        sound(after),
        next_number(after) == next_number(before),
        logged(memtable::files_started(files, steps), after),
{
    let max = before.memtable().log().max();
    let es = memtable::log_of(files, 0, max).entries;
    after.lemma_parts();
    assert(files.last() == files[files.len() - 1]);
    memtable::lemma_started_tidy(files, max, after.memtable(), steps);
    lemma_table_logged(memtable::files_started(files, steps), after);
    assert forall|key: Seq<char>| #[trigger] after.lookup(key) == before.lookup(key) by {
        lemma_lookup_in_table(after, key);
        assert(before.lookup(key) == held_value(memtable::replay(Map::empty(), es), key));
    }
}

/// What changes neither the log nor a lookup, as flushes and compactions do,
/// leaves the files of the log giving what the engine holds.
pub proof fn lemma_unchanged_lookups_stay_logged(
    files: Seq<memtable::wal::FileView>,
    before: Worker,
    after: Worker,
)
    requires
        logged(files, before),
        after.memtable().log() == before.memtable().log(),
        forall|key: Seq<char>| #[trigger] after.lookup(key) == before.lookup(key),
    ensures
        logged(files, after),
{
    let es = memtable::log_of(files, 0, before.memtable().log().max()).entries;
    assert forall|key: Seq<char>| #[trigger] after.lookup(key) == held_value(
        memtable::replay(Map::empty(), es),
        key,
    ) by {
        assert(after.lookup(key) == before.lookup(key));
        assert(before.lookup(key) == held_value(memtable::replay(Map::empty(), es), key));
    }
}

/// An engine that is started without a log begins one, which gives what the
/// engine holds: nothing.
pub proof fn lemma_engine_begun(w: Worker, steps: Seq<memtable::wal::StepView>)
    requires
        w.wf(),
        w.memtable().log().max() > 0,
        memtable::started(Seq::empty(), w.memtable().log().max(), 0, w.memtable(), steps),
        w.sstable().zero() == Seq::<Arc<Segment>>::empty(),
        w.sstable().levels() == Seq::<PartitionedLevel>::empty(),
    ensures
        logged(memtable::wal::perform_all(Seq::empty(), steps), w),
        sound(w),
        forall|key: Seq<char>| #[trigger] w.lookup(key) is None,
{
    let none = Seq::<memtable::wal::FileView>::empty();
    w.lemma_parts();
    assert(memtable::listed(none, w.memtable().log().max(), 0) =~= none);
    lemma_empty_engine(w);
    memtable::lemma_log_begun(w.memtable(), steps);
}

/// Lookups in an engine without segments find what the in-memory table holds.
proof fn lemma_lookup_in_table(w: Worker, key: Seq<char>)
    requires
        w.sstable().zero() == Seq::<Arc<Segment>>::empty(),
        w.sstable().levels() == Seq::<PartitionedLevel>::empty(),
    ensures
        w.lookup(key) == held_value(w.memtable().values(), key),
{
    assert(sstable::level::overlapping_lookup(w.sstable().zero(), key) is None);
    assert(sstable::recency::levels_lookup(w.sstable().levels(), key) is None);
}

/// An engine without segments whose log gives its table is logged and sound,
/// where the next write comes after those of the log.
proof fn lemma_table_logged(files: Seq<memtable::wal::FileView>, w: Worker)
    requires
        w.wf(),
        w.sstable().zero() == Seq::<Arc<Segment>>::empty(),
        w.sstable().levels() == Seq::<PartitionedLevel>::empty(),
        memtable::backs(files, 0, w.memtable()),
        memtable::tidy(files, w.memtable().log().max()),
        ({
            let es = memtable::log_of(files, 0, w.memtable().log().max()).entries;
            forall|i: int|
                0 <= i < es.len() ==> (#[trigger] es[i]).sequence_number < next_number(w)
        }),
    ensures
        logged(files, w),
        sound(w),
{
    let es = memtable::log_of(files, 0, w.memtable().log().max()).entries;
    let zero = w.sstable().zero();
    let levels = w.sstable().levels();
    assert(forall|e: sstable::EntryView| !#[trigger] sstable::recency::held(zero, e));
    assert(forall|e: sstable::EntryView| !#[trigger] sstable::recency::held_in(levels, e));
    assert forall|key: Seq<char>| #[trigger] w.lookup(key) == held_value(
        memtable::replay(Map::empty(), es),
        key,
    ) by {
        lemma_lookup_in_table(w, key);
    }
    lemma_replay_numbers(es, next_number(w));
}

/// A write that a crash interrupts is as if it had not been: an engine that is
/// started with the files that the crash left answers every lookup as the engine
/// did before the write. It is sound, and when the steps of the start are done,
/// the files give what it holds, so that it goes on as any other.
pub proof fn lemma_engine_crash(
    files: Seq<memtable::wal::FileView>,
    before: Worker,
    key: Seq<char>,
    value: Option<Seq<char>>,
    write: PendingWrite,
    now: Seq<memtable::wal::FileView>,
    k: int,
    after: Worker,
    steps: Seq<memtable::wal::StepView>,
)
    requires
        before.wf(),
        logged(files, before),
        before.memtable().accepts(key, value),
        0x1_0000_0000int % before.memtable().log().max() as int == 0,
        memtable::wal::segment::record_len(write.entry()) <= u32::MAX,
        write.entry() == memtable::next_entry(before.memtable(), key, value),
        memtable::crashed(files, before.memtable().log().max(), write.entry(), now, k),
        after.wf(),
        after.memtable().log().max() == before.memtable().log().max(),
        memtable::started(now, before.memtable().log().max(), 0, after.memtable(), steps),
        after.sstable().zero() == Seq::<Arc<Segment>>::empty(),
        after.sstable().levels() == Seq::<PartitionedLevel>::empty(),
    ensures
        forall|q: Seq<char>| #[trigger] after.lookup(q) == before.lookup(q),
        sound(after),
        logged(memtable::files_started(now, steps), after),
        next_number(before) <= next_number(after),
{
    let max = before.memtable().log().max();
    let es = memtable::log_of(files, 0, max).entries;
    let left = memtable::files_started(now, steps);
    before.lemma_parts();
    before.memtable().lemma_parts();
    before.memtable().log().lemma_active();
    after.lemma_parts();
    memtable::lemma_crash_keeps_log(files, before.memtable(), write, now, k);
    memtable::lemma_crashed_files_tidy(files, before.memtable(), write, now, k);
    memtable::lemma_started_tidy(now, max, after.memtable(), steps);
    assert(files.last() == files[files.len() - 1]);
    assert(now[files.len() - 1].name == files.last().name);
    lemma_table_logged(left, after);
    assert forall|q: Seq<char>| #[trigger] after.lookup(q) == before.lookup(q) by {
        lemma_lookup_in_table(after, q);
        assert(before.lookup(q) == held_value(memtable::replay(Map::empty(), es), q));
    }
}

/// What a get gives is what was written last. A get of a key that was put gives
/// the value, and one of a key that was deleted gives none. A get of any other
/// key gives what it gave before.
pub proof fn lemma_get_after_write(
    before: Worker,
    command: Command,
    write: PendingWrite,
    after: Worker,
    asked: String,
    earlier: Prepared,
    r: Prepared,
)
    requires
        before.wf(),
        command !is Get,
        prepared(before, command, Prepared::Write(write)),
        completed(before, write, after),
        prepared(before, Command::Get(asked), earlier),
        prepared(after, Command::Get(asked), r),
    ensures
        r matches Prepared::Answer(answer) && match command {
            Command::Put(key, value) => key@ == asked@ ==> (answer matches Some(v) && v@ == value@),
            Command::Delete(key) => key@ == asked@ ==> answer is None,
            Command::Get(_) => true,
        },
        ({
            let key = match command {
                Command::Put(key, _) => key@,
                Command::Delete(key) => key@,
                Command::Get(key) => key@,
            };
            key != asked@ ==> match (earlier, r) {
                (Prepared::Answer(Some(a)), Prepared::Answer(Some(b))) => a@ == b@,
                (Prepared::Answer(None), Prepared::Answer(None)) => true,
                _ => false,
            }
        }),
{
    before.lemma_parts();
    match command {
        Command::Put(key, value) => {
            memtable::lemma_record_of_write(before.memtable(), key@, Some(value@));
        },
        Command::Delete(key) => {
            memtable::lemma_record_of_write(before.memtable(), key@, None);
        },
        Command::Get(_) => {},
    }
}

/// A put or a delete is carried out wherever the log can hold its record, and the
/// write is that of the command. It is refused where the key is empty, or where
/// not even the record without its header fits into a file of the log.
pub proof fn lemma_write_is_carried_out(w: Worker, command: Command, r: Prepared)
    requires
        w.wf(),
        command !is Get,
        prepared(w, command, r),
    ensures
        ({
            let (key, value) = match command {
                Command::Put(key, value) => (key@, Some(value@)),
                Command::Delete(key) => (key@, None),
                Command::Get(key) => (key@, None),
            };
            let n = memtable::bytes_in_log(key, value);
            let log = w.memtable().log();
            &&& r is Write || r is Refused
            &&& vstd::utf8::encode_utf8(key).len() > 0 && n <= log.max() && log.first() + log.size()
                + n + log.max() <= u64::MAX ==> r is Write
            &&& vstd::utf8::encode_utf8(key).len() > 0 && log.size() + n <= log.max() ==> r is Write
            &&& vstd::utf8::encode_utf8(key).len() == 0 || n > log.max() + 13 ==> r is Refused
            &&& r matches Prepared::Write(p) ==> {
                &&& p.entry().key == key
                &&& p.entry().value == value
                &&& p.entry().sequence_number == log.first() + log.size()
            }
        }),
{
    w.lemma_parts();
    match command {
        Command::Put(key, value) => {
            memtable::lemma_write_is_accepted(w.memtable(), key@, Some(value@));
            memtable::lemma_record_of_write(w.memtable(), key@, Some(value@));
        },
        Command::Delete(key) => {
            memtable::lemma_write_is_accepted(w.memtable(), key@, None);
            memtable::lemma_record_of_write(w.memtable(), key@, None);
        },
        Command::Get(_) => {},
    }
}

/// The bytes that the entries of the in-memory table take in it.
pub open spec fn bytes_in_table(es: Seq<sstable::EntryView>) -> int {
    es.map_values(
        |e: sstable::EntryView|
            21 + vstd::utf8::encode_utf8(e.key).len() as int + match e.value {
                Some(v) => vstd::utf8::encode_utf8(v).len() as int,
                None => 0,
            },
    ).fold_left(0, |sum: int, n: int| sum + n)
}

/// The in-memory table is flushed before a write exactly where it is not empty
/// and what it holds takes at least as many bytes as its limit. The file then
/// opens as a segment with everything that the table holds, and the command waits
/// for it. A read never waits. Where the limit is not reached, a write is carried
/// out at once.
pub proof fn lemma_full_table_is_flushed(w: Worker, command: Command, r: Step)
    requires
        w.wf(),
        comes_first(w, command, r),
    ensures
        ({
            let es = w.memtable().entries();
            let full = es.len() > 0 && bytes_in_table(es) >= w.memtable().limit();
            &&& command is Get || !full ==> (r matches Step::Ready(p) && prepared(w, command, p))
            &&& command is Get ==> (r matches Step::Ready(p) && p is Answer)
            &&& command !is Get && full ==> r is Flush || r is Unflushable
            &&& r matches Step::Flush(file, c) ==> {
                &&& c == command
                &&& sstable::level::segment::open_image(file.bytes@) == Some(es)
                &&& sstable::level::segment::number_in(file.filename@) == Some(
                    (w.sstable().zero_issued() + 1) as nat,
                )
            }
            &&& command !is Get && full && (forall|i: int|
                0 <= i < es.len() ==> memtable_flusher::bytes_in_file(#[trigger] es[i]) - 4
                    <= u32::MAX) && es.map_values(
                |e: sstable::EntryView| memtable_flusher::bytes_in_file(e),
            ).fold_left(0, |sum: int, n: int| sum + n) <= usize::MAX && w.sstable().zero_issued()
                + 1 < 0x1_0000_0000 && w.sparsity() > 0 ==> r is Flush
        }),
{
    let es = w.memtable().entries();
    w.lemma_parts();
    w.memtable().lemma_parts();
    memtable::lemma_size_of_entries(es);
    memtable_flusher::lemma_table_can_be_flushed(es, next_segment(w), w.sparsity() as nat);
    match r {
        Step::Flush(file, c) => {
            memtable_flusher::lemma_flushed_file_holds_table(
                file,
                es,
                next_segment(w),
                w.sparsity() as nat,
                0,
                0,
            );
        },
        _ => {},
    }
}

/// A flush loses and invents nothing: every key has the value that it had, the
/// engine stays sound, and the in-memory table is empty.
pub proof fn lemma_flush_loses_nothing(before: Worker, file: SegmentFile, after: Worker)
    requires
        sound(before),
        flush_done(before, file, after),
    ensures
        forall|key: Seq<char>| #[trigger] after.lookup(key) == before.lookup(key),
        sound(after),
        after.memtable().values() == Map::<Seq<char>, memtable::ValueView>::empty(),
        after.sstable().zero().len() == before.sstable().zero().len() + 1,
        after.sstable().zero().last().contents() == file.bytes@,
        after.sstable().zero().last().name() == file.filename@,
        after.sstable().zero_issued() == before.sstable().zero_issued() + 1,
        after.memtable().log() == before.memtable().log(),
        after.memtable().limit() == before.memtable().limit(),
{
    let seg = choose|seg: Segment|
        {
            &&& after.sstable().zero() == before.sstable().zero().push(Arc::new(seg))
            &&& #[trigger] seg.wf()
            &&& seg.entries() == before.memtable().entries()
            &&& seg.name() == file.filename@
            &&& seg.contents() == file.bytes@
        };
    lemma_flush_keeps_lookups(before, seg, after);
}

/// After a flush level zero is to be compacted exactly where its files take more
/// bytes than its target. The highest target is no limit.
pub proof fn lemma_full_level_zero_is_compacted(before: Worker, file: SegmentFile, after: Worker)
    requires
        flush_done(before, file, after),
    ensures
        after.sstable().compaction_due() <==> after.sstable().zero_target() < u64::MAX
            && sstable::level::file_bytes(after.sstable().zero()) > after.sstable().zero_target(),
        after.sstable().zero_target() == before.sstable().zero_target(),
{
    sstable::level::lemma_size_of_files(after.sstable().zero(), after.sstable().zero_target());
}

/// A compaction does what was due and changes no value. Where level zero was to be
/// compacted, it is empty afterwards and nothing is due any more. Where that
/// failed, it stays due, and level zero stays as it is. A get gives what it gave
/// before, the in-memory table and its log are not touched, and the engine stays
/// sound.
pub proof fn lemma_compaction_does_what_is_due(
    before: Worker,
    after: Worker,
    files: Seq<Seq<char>>,
    goes_on: bool,
    asked: String,
    earlier: Prepared,
    r: Prepared,
)
    requires
        sound(before),
        compacted(before, after, files, goes_on),
        prepared(before, Command::Get(asked), earlier),
        prepared(after, Command::Get(asked), r),
    ensures
        before.sstable().compaction_due() && goes_on ==> after.sstable().zero().len() == 0
            && !after.sstable().compaction_due(),
        before.sstable().compaction_due() && !goes_on ==> after.sstable().zero()
            == before.sstable().zero() && after.sstable().compaction_due(),
        !before.sstable().compaction_due() ==> after.sstable().zero() == before.sstable().zero()
            && !after.sstable().compaction_due(),
        !goes_on ==> after.sstable().levels() == before.sstable().levels(),
        match (earlier, r) {
            (Prepared::Answer(Some(a)), Prepared::Answer(Some(b))) => a@ == b@,
            (Prepared::Answer(None), Prepared::Answer(None)) => true,
            _ => false,
        },
        after.memtable() == before.memtable(),
        sound(after),
{
    lemma_turn_keeps_engine(before, after, files, goes_on);
    assert(after.lookup(asked@) == before.lookup(asked@));
}

/// What a write replaces is given back: the value that the in-memory table held
/// for the key, and none where it held none.
pub proof fn lemma_previous_value(w: Worker, key: Seq<char>, value: Seq<char>)
    ensures
        held_value(w.memtable().values(), key) == Some(value) <==> w.memtable().values().contains_key(
            key,
        ) && w.memtable().values()[key].value == Some(value),
        held_value(w.memtable().values(), key) is Some ==> held_value(w.memtable().values(), key)
            == w.lookup(key),
{
}

} // verus!
