//! The write-ahead log.

pub mod segment;

use crate::codec;
use crate::codec::{copy_range, put_bytes};
use crate::order;
use segment::{ParseEnd, Segment, WalEntry, HEADER_SIZE};
use vstd::prelude::*;

verus! {

/// A file of the log with its bytes.
#[derive(Debug, PartialEq)]
pub struct LogFile {
    pub name: String,
    pub bytes: Vec<u8>,
}

/// The model of a file.
pub struct FileView {
    pub name: Seq<char>,
    pub bytes: Seq<u8>,
}

impl View for LogFile {
    type V = FileView;

    open spec fn view(&self) -> FileView {
        FileView { name: self.name@, bytes: self.bytes@ }
    }
}

/// What is to be done to the files of the log: create an empty file that comes
/// behind the others, append bytes to the last file, cut a file off, or remove
/// a file.
#[derive(Debug, PartialEq)]
pub enum WalStep {
    Create(String),
    Append(Vec<u8>),
    Truncate(String, u64),
    Remove(String),
}

/// The model of a step.
pub enum StepView {
    Create(Seq<char>),
    Append(Seq<u8>),
    Truncate(Seq<char>, int),
    Remove(Seq<char>),
}

impl View for WalStep {
    type V = StepView;

    open spec fn view(&self) -> StepView {
        match self {
            WalStep::Create(name) => StepView::Create(name@),
            WalStep::Append(bytes) => StepView::Append(bytes@),
            WalStep::Truncate(name, n) => StepView::Truncate(name@, *n as int),
            WalStep::Remove(name) => StepView::Remove(name@),
        }
    }
}

/// The models of steps.
pub open spec fn step_views(steps: Seq<WalStep>) -> Seq<StepView> {
    steps.map_values(|s: WalStep| s@)
}

/// The models of files.
pub open spec fn file_views(files: Seq<LogFile>) -> Seq<FileView> {
    files.map_values(|f: LogFile| f@)
}

/// The bytes of the files.
pub open spec fn contents(files: Seq<FileView>) -> Seq<Seq<u8>> {
    files.map_values(|f: FileView| f.bytes)
}

/// A file that is cut off where it has the name.
pub open spec fn cut(f: FileView, name: Seq<char>, n: int) -> FileView {
    if f.name == name && 0 <= n <= f.bytes.len() {
        FileView { name: f.name, bytes: f.bytes.take(n) }
    } else {
        f
    }
}

/// The files without those of a name.
pub open spec fn without(files: Seq<FileView>, name: Seq<char>) -> Seq<FileView>
    decreases files.len(),
{
    if files.len() == 0 {
        Seq::empty()
    } else {
        let rest = without(files.drop_last(), name);
        if files.last().name == name {
            rest
        } else {
            rest.push(files.last())
        }
    }
}

/// The files after a step.
pub open spec fn perform(files: Seq<FileView>, step: StepView) -> Seq<FileView> {
    match step {
        StepView::Create(name) => files.push(FileView { name, bytes: Seq::empty() }),
        StepView::Append(bytes) => if files.len() == 0 {
            files
        } else {
            files.update(
                files.len() - 1,
                FileView { name: files.last().name, bytes: files.last().bytes + bytes },
            )
        },
        StepView::Truncate(name, n) => files.map_values(|f: FileView| cut(f, name, n)),
        StepView::Remove(name) => without(files, name),
    }
}

/// The files after several steps.
pub open spec fn perform_all(files: Seq<FileView>, steps: Seq<StepView>) -> Seq<FileView>
    decreases steps.len(),
{
    if steps.len() == 0 {
        files
    } else {
        perform(perform_all(files, steps.drop_last()), steps.last())
    }
}

/// What becomes of the last record that is read from a file: there is none, it
/// goes on in the next file, or it is broken.
pub enum Outcome {
    Clean,
    Carry(int),
    Broken(int),
}

/// How reading `n` bytes, the first `carried` of which are from the file
/// before, ends for a file. A record may go on in the next file only where the
/// file is full and the record has begun in it. In a full file less than a
/// header at the end is padding.
pub open spec fn outcome(end: segment::LogEnd, n: int, full: bool, carried: int) -> Outcome {
    match end {
        segment::LogEnd::Done => Outcome::Clean,
        segment::LogEnd::Rest(p) => if !full {
            Outcome::Broken(p)
        } else if n - p < HEADER_SIZE {
            Outcome::Clean
        } else if p >= carried {
            Outcome::Carry(p)
        } else {
            Outcome::Broken(p)
        },
        segment::LogEnd::Bad(p) => if full && n - p < HEADER_SIZE {
            Outcome::Clean
        } else {
            Outcome::Broken(p)
        },
    }
}

/// The header of a record that goes on in the next file, and where it stands:
/// the position of its file among the files, and its position in the file.
pub struct Carried {
    pub bytes: Seq<u8>,
    pub file: int,
    pub at: int,
}

/// What a log gives: its records, and where the first broken record stands.
pub struct Recovered {
    pub entries: Seq<segment::WalEntryView>,
    pub broken: Option<(int, int)>,
}

/// Nothing goes on in the next file.
pub open spec fn nothing_carried() -> Carried {
    Carried { bytes: Seq::empty(), file: 0, at: 0 }
}

/// What is read from a file, beginning with what was carried over.
pub open spec fn readable_bytes(file: Seq<u8>, start: int, carry: Carried) -> Seq<u8> {
    if start <= file.len() {
        carry.bytes + file.skip(start)
    } else {
        carry.bytes
    }
}

/// Where a position in what is read from a file stands.
pub open spec fn place(p: int, i: int, start: int, carry: Carried) -> (int, int) {
    if p < carry.bytes.len() {
        (carry.file, carry.at)
    } else {
        (i, start + p - carry.bytes.len())
    }
}

/// What files of a log give, the first of which is read from a position on and
/// is the file at position `i` of all.
pub open spec fn recover_log(
    files: Seq<Seq<u8>>,
    max: int,
    start: int,
    carry: Carried,
    i: int,
) -> Recovered
    decreases files.len(),
{
    if files.len() == 0 {
        Recovered {
            entries: Seq::empty(),
            broken: if carry.bytes.len() == 0 {
                None
            } else {
                Some((carry.file, carry.at))
            },
        }
    } else {
        let b = readable_bytes(files[0], start, carry);
        let parse = segment::parse_log(b, 0);
        match outcome(parse.end, b.len() as int, files[0].len() == max, carry.bytes.len() as int) {
            Outcome::Clean => {
                let rest = recover_log(files.drop_first(), max, 0, nothing_carried(), i + 1);
                Recovered { entries: parse.entries + rest.entries, broken: rest.broken }
            },
            Outcome::Carry(p) => {
                let at = place(p, i, start, carry);
                let next = Carried {
                    bytes: b.subrange(p, p + HEADER_SIZE),
                    file: at.0,
                    at: at.1,
                };
                let rest = recover_log(files.drop_first(), max, 0, next, i + 1);
                Recovered { entries: parse.entries + rest.entries, broken: rest.broken }
            },
            Outcome::Broken(p) => Recovered {
                entries: parse.entries,
                broken: Some(place(p, i, start, carry)),
            },
        }
    }
}

/// The files after a record was appended: to the last file where it fits. Else
/// its header goes to the last file where that fits, and the rest to a new one.
/// Else all of it goes to a new one. A file that another one follows is filled
/// up with zeros.
pub open spec fn appended(files: Seq<Seq<u8>>, max: int, record: Seq<u8>) -> Seq<Seq<u8>> {
    let last = files.last();
    let free = max - last.len();
    if record.len() <= free {
        files.drop_last().push(last + record)
    } else if HEADER_SIZE <= free {
        files.drop_last().push(
            last + record.take(HEADER_SIZE as int) + segment::zeros((free - HEADER_SIZE) as nat),
        ).push(record.skip(HEADER_SIZE as int))
    } else {
        files.drop_last().push(last + segment::zeros(free as nat)).push(record)
    }
}

/// A file of the log has exactly its size once another one follows it, and none
/// has more.
pub proof fn lemma_files_are_filled(files: Seq<Seq<u8>>, max: int, record: Seq<u8>)
    requires
        files.len() > 0,
        forall|i: int| 0 <= i < files.len() - 1 ==> (#[trigger] files[i]).len() == max,
        files.last().len() <= max,
        HEADER_SIZE <= record.len() <= max,
    ensures
        ({
            let now = appended(files, max, record);
            &&& forall|i: int| 0 <= i < now.len() - 1 ==> (#[trigger] now[i]).len() == max
            &&& now.last().len() <= max
        }),
{
    let now = appended(files, max, record);
    assert forall|i: int| 0 <= i < now.len() - 1 implies (#[trigger] now[i]).len() == max by {
        if i < files.len() - 1 {
            assert(now[i] == files[i]);
        }
    }
}

/// Zeros are no record.
proof fn lemma_zeros_value(b: Seq<u8>, from: int)
    requires
        0 <= from,
        from + 4 <= b.len(),
        forall|i: int| from <= i < from + 4 ==> b[i] == 0,
    ensures
        codec::le_value(b.subrange(from, from + 4)) == 0,
{
    let s = b.subrange(from, from + 4);
    reveal_with_fuel(codec::le_value, 5);
    assert(s[0] == 0 && s.drop_first()[0] == 0 && s.drop_first().drop_first()[0] == 0
        && s.drop_first().drop_first().drop_first()[0] == 0);
}

/// A record alone in its file, or behind its header, is read.
proof fn lemma_single(record: Seq<u8>, e: segment::WalEntryView)
    requires
        segment::readable(e),
        record == segment::record_bytes(e),
    ensures
        segment::parse_log(record, 0).entries == seq![e],
        segment::parse_log(record, 0).end is Done,
{
    segment::lemma_record_len(e);
    assert(record.subrange(0, record.len() as int) =~= record);
    segment::lemma_parse_record(record, 0, e);
    assert(seq![e] + segment::parse_log(record, record.len() as int).entries =~= seq![e]);
}

/// What a single file of a log gives.
proof fn lemma_one_file(file: Seq<u8>, max: int, start: int, carry: Carried, i: int)
    ensures
        ({
            let b = readable_bytes(file, start, carry);
            let parse = segment::parse_log(b, 0);
            let r = recover_log(seq![file], max, start, carry, i);
            match outcome(parse.end, b.len() as int, file.len() == max, carry.bytes.len() as int) {
                Outcome::Clean => r.broken is None && r.entries == parse.entries,
                Outcome::Carry(p) => 0 <= p && p + HEADER_SIZE <= b.len() ==> r.broken is Some,
                Outcome::Broken(_) => r.broken is Some,
            }
        }),
{
    let one = seq![file];
    let b = readable_bytes(file, start, carry);
    let parse = segment::parse_log(b, 0);
    assert(one.drop_first() =~= Seq::<Seq<u8>>::empty());
    let done = recover_log(one.drop_first(), max, 0, nothing_carried(), i + 1);
    assert(parse.entries + done.entries =~= parse.entries);
    if let Outcome::Carry(p) = outcome(
        parse.end,
        b.len() as int,
        file.len() == max,
        carry.bytes.len() as int,
    ) {
        let at = place(p, i, start, carry);
        let over = Carried { bytes: b.subrange(p, p + HEADER_SIZE), file: at.0, at: at.1 };
        if 0 <= p && p + HEADER_SIZE <= b.len() {
            assert(over.bytes.len() == HEADER_SIZE);
            assert(recover_log(one.drop_first(), max, 0, over, i + 1).broken is Some);
        }
    }
}

/// What a file gives that another one follows.
proof fn lemma_two_files(
    file: Seq<u8>,
    next: Seq<u8>,
    max: int,
    start: int,
    carry: Carried,
    i: int,
)
    ensures
        ({
            let b = readable_bytes(file, start, carry);
            let parse = segment::parse_log(b, 0);
            let r = recover_log(seq![file, next], max, start, carry, i);
            match outcome(parse.end, b.len() as int, file.len() == max, carry.bytes.len() as int) {
                Outcome::Clean => {
                    let rest = recover_log(seq![next], max, 0, nothing_carried(), i + 1);
                    r.broken == rest.broken && r.entries == parse.entries + rest.entries
                },
                Outcome::Carry(p) => {
                    let at = place(p, i, start, carry);
                    let over = Carried {
                        bytes: b.subrange(p, p + HEADER_SIZE),
                        file: at.0,
                        at: at.1,
                    };
                    let rest = recover_log(seq![next], max, 0, over, i + 1);
                    r.broken == rest.broken && r.entries == parse.entries + rest.entries
                },
                Outcome::Broken(_) => r.broken is Some,
            }
        }),
{
    assert(seq![file, next].drop_first() =~= seq![next]);
}

/// In a sound last file the records are read to the end, but for padding.
proof fn lemma_sound_last(file: Seq<u8>, max: int, start: int, carry: Carried, i: int)
    requires
        0 <= start <= file.len() <= max,
        recover_log(seq![file], max, start, carry, i).broken is None,
    ensures
        ({
            let b = readable_bytes(file, start, carry);
            let parse = segment::parse_log(b, 0);
            &&& outcome(
                parse.end,
                b.len() as int,
                file.len() == max,
                carry.bytes.len() as int,
            ) is Clean
            &&& file.len() < max ==> parse.end is Done
            &&& recover_log(seq![file], max, start, carry, i).entries == parse.entries
        }),
{
    let b = readable_bytes(file, start, carry);
    segment::lemma_parse_end(b, 0);
    lemma_one_file(file, max, start, carry, i);
}

/// The record fits into the last file.
proof fn lemma_append_fits(
    file: Seq<u8>,
    max: int,
    start: int,
    carry: Carried,
    i: int,
    e: segment::WalEntryView,
)
    requires
        0 <= start <= file.len(),
        segment::readable(e),
        file.len() + segment::record_len(e) <= max,
        recover_log(seq![file], max, start, carry, i).broken is None,
    ensures
        ({
            let r = recover_log(seq![file + segment::record_bytes(e)], max, start, carry, i);
            &&& r.broken is None
            &&& r.entries == recover_log(seq![file], max, start, carry, i).entries.push(e)
        }),
{
    let record = segment::record_bytes(e);
    let b = readable_bytes(file, start, carry);
    let parse = segment::parse_log(b, 0);
    segment::lemma_record_len(e);
    lemma_sound_last(file, max, start, carry, i);
    let file2 = file + record;
    let b2 = readable_bytes(file2, start, carry);
    assert(b2 =~= b + record);
    segment::lemma_parse_extend(b, record, 0);
    assert(b2.subrange(b.len() as int, b2.len() as int) =~= record);
    segment::lemma_parse_record(b2, b.len() as int, e);
    assert(segment::parse_log(b2, 0).entries =~= parse.entries.push(e));
    lemma_one_file(file2, max, start, carry, i);
}

/// Only the header of the record fits into the last file.
proof fn lemma_append_splits(
    file: Seq<u8>,
    max: int,
    start: int,
    carry: Carried,
    i: int,
    e: segment::WalEntryView,
)
    requires
        0 <= start <= file.len(),
        segment::readable(e),
        file.len() + HEADER_SIZE <= max < file.len() + segment::record_len(e),
        recover_log(seq![file], max, start, carry, i).broken is None,
    ensures
        ({
            let record = segment::record_bytes(e);
            let full = file + record.take(HEADER_SIZE as int) + segment::zeros(
                (max - file.len() - HEADER_SIZE) as nat,
            );
            let r = recover_log(
                seq![full, record.skip(HEADER_SIZE as int)],
                max,
                start,
                carry,
                i,
            );
            &&& r.broken is None
            &&& r.entries == recover_log(seq![file], max, start, carry, i).entries.push(e)
        }),
{
    let record = segment::record_bytes(e);
    let header = record.take(HEADER_SIZE as int);
    let pad = segment::zeros((max - file.len() - HEADER_SIZE) as nat);
    let b = readable_bytes(file, start, carry);
    let parse = segment::parse_log(b, 0);
    segment::lemma_record_len(e);
    lemma_sound_last(file, max, start, carry, i);
    lemma_single(record, e);
    lemma_record_header(e);
    let file2 = file + header + pad;
    let file3 = record.skip(HEADER_SIZE as int);
    let b2 = readable_bytes(file2, start, carry);
    let p = b.len() as int;
    assert(b2 =~= b + (header + pad));
    segment::lemma_parse_extend(b, header + pad, 0);
    assert(b2.subrange(p, p + 4) =~= record.subrange(0, 4));
    assert(segment::parse_log(b2, p).end == segment::LogEnd::Rest(p));
    assert(segment::parse_log(b2, 0).entries =~= parse.entries);
    let at = place(p, i, start, carry);
    let over = Carried { bytes: b2.subrange(p, p + HEADER_SIZE), file: at.0, at: at.1 };
    assert(over.bytes =~= header);
    assert(readable_bytes(file3, 0, over) =~= record);
    lemma_two_files(file2, file3, max, start, carry, i);
    lemma_one_file(file3, max, 0, over, i + 1);
    assert(parse.entries + seq![e] =~= parse.entries.push(e));
}

/// Nothing of the record fits into the last file.
proof fn lemma_append_follows(
    file: Seq<u8>,
    max: int,
    start: int,
    carry: Carried,
    i: int,
    e: segment::WalEntryView,
)
    requires
        0 <= start <= file.len() <= max < file.len() + HEADER_SIZE,
        segment::readable(e),
        recover_log(seq![file], max, start, carry, i).broken is None,
    ensures
        ({
            let record = segment::record_bytes(e);
            let full = file + segment::zeros((max - file.len()) as nat);
            let r = recover_log(seq![full, record], max, start, carry, i);
            &&& r.broken is None
            &&& r.entries == recover_log(seq![file], max, start, carry, i).entries.push(e)
        }),
{
    let record = segment::record_bytes(e);
    let pad = segment::zeros((max - file.len()) as nat);
    let b = readable_bytes(file, start, carry);
    let parse = segment::parse_log(b, 0);
    lemma_sound_last(file, max, start, carry, i);
    lemma_single(record, e);
    let file2 = file + pad;
    let b2 = readable_bytes(file2, start, carry);
    let p = b.len() as int;
    assert(b2 =~= b + pad);
    if pad.len() > 0 {
        segment::lemma_parse_extend(b, pad, 0);
        if pad.len() >= 4 {
            lemma_zeros_value(b2, p);
        }
        assert(segment::parse_log(b2, 0).entries =~= parse.entries);
    } else {
        assert(b2 =~= b);
        assert(file2 =~= file);
    }
    assert(readable_bytes(record, 0, nothing_carried()) =~= record);
    lemma_two_files(file2, record, max, start, carry, i);
    lemma_one_file(record, max, 0, nothing_carried(), i + 1);
    assert(parse.entries + seq![e] =~= parse.entries.push(e));
}

/// The last file of a log with one more record.
proof fn lemma_append_last(
    file: Seq<u8>,
    max: int,
    start: int,
    carry: Carried,
    i: int,
    e: segment::WalEntryView,
)
    requires
        0 <= start <= file.len() <= max,
        segment::readable(e),
        recover_log(seq![file], max, start, carry, i).broken is None,
    ensures
        ({
            let r = recover_log(
                appended(seq![file], max, segment::record_bytes(e)),
                max,
                start,
                carry,
                i,
            );
            &&& r.broken is None
            &&& r.entries == recover_log(seq![file], max, start, carry, i).entries.push(e)
        }),
{
    let record = segment::record_bytes(e);
    let one = seq![file];
    let free = max - file.len();
    let after = appended(one, max, record);
    segment::lemma_record_len(e);
    assert(one.drop_last() =~= Seq::<Seq<u8>>::empty());
    if record.len() <= free {
        lemma_append_fits(file, max, start, carry, i, e);
        assert(after =~= seq![file + record]);
    } else if HEADER_SIZE <= free {
        lemma_append_splits(file, max, start, carry, i, e);
        let full = file + record.take(HEADER_SIZE as int) + segment::zeros(
            (free - HEADER_SIZE) as nat,
        );
        assert(after =~= seq![full, record.skip(HEADER_SIZE as int)]);
    } else {
        lemma_append_follows(file, max, start, carry, i, e);
        assert(after =~= seq![file + segment::zeros(free as nat), record]);
    }
}

/// The length that a record begins with.
proof fn lemma_record_header(e: segment::WalEntryView)
    requires
        segment::readable(e),
    ensures
        codec::le_value(segment::record_bytes(e).subrange(0, 4)) == segment::record_len(e) - 4,
{
    broadcast use codec::lemma_le_bytes_len;

    reveal(segment::record_bytes);
    segment::lemma_record_len(e);
    codec::lemma_byte_bounds();
    assert(segment::record_bytes(e).subrange(0, 4) =~= codec::le_bytes(
        segment::body_bytes(e).len() + 4,
        4,
    ));
    codec::lemma_le_round_trip(segment::body_bytes(e).len() + 4, 4);
}

/// A record that was appended to a sound log is recovered: the log gives the
/// records that it gave before, and then this one.
pub proof fn lemma_append_recovered(
    files: Seq<Seq<u8>>,
    max: int,
    start: int,
    carry: Carried,
    i: int,
    e: segment::WalEntryView,
)
    requires
        files.len() > 0,
        0 <= start <= files[0].len(),
        files.last().len() <= max,
        segment::readable(e),
        recover_log(files, max, start, carry, i).broken is None,
    ensures
        recover_log(
            appended(files, max, segment::record_bytes(e)),
            max,
            start,
            carry,
            i,
        ).broken is None,
        recover_log(
            appended(files, max, segment::record_bytes(e)),
            max,
            start,
            carry,
            i,
        ).entries == recover_log(files, max, start, carry, i).entries.push(e),
    decreases files.len(),
{
    let record = segment::record_bytes(e);
    if files.len() == 1 {
        assert(files =~= seq![files[0]]);
        lemma_append_last(files[0], max, start, carry, i, e);
    } else {
        let rest = files.drop_first();
        let after = appended(files, max, record);
        assert(rest.last() == files.last());
        assert(rest.drop_last() =~= files.drop_last().drop_first());
        assert(after.drop_first() =~= appended(rest, max, record));
        assert(after[0] == files[0]);
        let b = readable_bytes(files[0], start, carry);
        let parse = segment::parse_log(b, 0);
        match outcome(parse.end, b.len() as int, files[0].len() == max, carry.bytes.len() as int) {
            Outcome::Clean => {
                lemma_append_recovered(rest, max, 0, nothing_carried(), i + 1, e);
                let r = recover_log(rest, max, 0, nothing_carried(), i + 1);
                assert(parse.entries + r.entries.push(e) =~= (parse.entries + r.entries).push(e));
            },
            Outcome::Carry(p) => {
                let at = place(p, i, start, carry);
                let next = Carried {
                    bytes: b.subrange(p, p + HEADER_SIZE),
                    file: at.0,
                    at: at.1,
                };
                lemma_append_recovered(rest, max, 0, next, i + 1, e);
                let r = recover_log(rest, max, 0, next, i + 1);
                assert(parse.entries + r.entries.push(e) =~= (parse.entries + r.entries).push(e));
            },
            Outcome::Broken(p) => {},
        }
    }
}

/// What of a record goes to the last file, which has the given size.
pub open spec fn to_last(size: int, max: int, record: Seq<u8>) -> Seq<u8> {
    let free = max - size;
    if record.len() <= free {
        record
    } else if HEADER_SIZE <= free {
        record.take(HEADER_SIZE as int) + segment::zeros((free - HEADER_SIZE) as nat)
    } else {
        segment::zeros(free as nat)
    }
}

/// What of a record goes to a new file, where it does not fit into the last one.
pub open spec fn to_next(size: int, max: int, record: Seq<u8>) -> Seq<u8> {
    if HEADER_SIZE <= max - size {
        record.skip(HEADER_SIZE as int)
    } else {
        record
    }
}

/// The files where appending a record was interrupted: only some of what goes
/// to the last file was written, or all of that and only some of what goes to
/// the next.
pub open spec fn interrupted(
    files: Seq<Seq<u8>>,
    max: int,
    record: Seq<u8>,
    now: Seq<Seq<u8>>,
    k: int,
) -> bool {
    let last = files.last();
    let size = last.len() as int;
    let first = to_last(size, max, record);
    ||| {
        &&& 0 <= k <= first.len()
        &&& record.len() <= max - size ==> k < first.len()
        &&& now == files.drop_last().push(last + first.take(k))
    }
    ||| {
        &&& record.len() > max - size
        &&& 0 <= k < to_next(size, max, record).len()
        &&& now == files.drop_last().push(last + first).push(
            to_next(size, max, record).take(k),
        )
    }
}

/// The start of a record is no record.
proof fn lemma_start_of_record(c: Seq<u8>, p: int, e: segment::WalEntryView)
    requires
        segment::readable(e),
        0 <= p <= c.len() < p + segment::record_len(e),
        c.len() - p >= 4 ==> c.subrange(p, p + 4) == segment::record_bytes(e).subrange(0, 4),
    ensures
        segment::parse_log(c, p).entries.len() == 0,
        c.len() > p ==> segment::parse_log(c, p).end == segment::LogEnd::Rest(p),
{
    segment::lemma_record_len(e);
    lemma_record_header(e);
}

/// What a single file of a log gives are the records that are read from it.
proof fn lemma_one_entries(file: Seq<u8>, max: int, start: int, carry: Carried, i: int)
    ensures
        recover_log(seq![file], max, start, carry, i).entries == segment::parse_log(
            readable_bytes(file, start, carry),
            0,
        ).entries,
{
    let one = seq![file];
    let b = readable_bytes(file, start, carry);
    let parse = segment::parse_log(b, 0);
    reveal_with_fuel(recover_log, 3);
    assert(one.drop_first() =~= Seq::<Seq<u8>>::empty());
    assert(parse.entries + Seq::<segment::WalEntryView>::empty() =~= parse.entries);
}

/// Where a single file of a log is broken.
proof fn lemma_one_place(file: Seq<u8>, max: int, start: int, carry: Carried, i: int)
    requires
        0 <= start <= file.len(),
    ensures
        ({
            let b = readable_bytes(file, start, carry);
            let end = segment::parse_log(b, 0).end;
            let r = recover_log(seq![file], max, start, carry, i);
            r.broken matches Some(at) ==> {
                &&& !(end is Done)
                &&& end matches segment::LogEnd::Rest(p) ==> at == place(p, i, start, carry)
                &&& end matches segment::LogEnd::Bad(p) ==> at == place(p, i, start, carry)
            }
        }),
{
    let one = seq![file];
    let b = readable_bytes(file, start, carry);
    segment::lemma_parse_end(b, 0);
    reveal_with_fuel(recover_log, 3);
    assert(one.drop_first() =~= Seq::<Seq<u8>>::empty());
}

/// Some of what goes to the last file adds no record.
proof fn lemma_torn_last(
    file: Seq<u8>,
    max: int,
    start: int,
    carry: Carried,
    i: int,
    e: segment::WalEntryView,
    k: int,
)
    requires
        0 <= start <= file.len() <= max,
        segment::readable(e),
        recover_log(seq![file], max, start, carry, i).broken is None,
        0 <= k <= to_last(file.len() as int, max, segment::record_bytes(e)).len(),
        segment::record_len(e) <= max - file.len() ==> k < segment::record_len(e),
    ensures
        ({
            let x = to_last(file.len() as int, max, segment::record_bytes(e)).take(k);
            let parse = segment::parse_log(readable_bytes(file, start, carry), 0);
            let torn = segment::parse_log(readable_bytes(file + x, start, carry), 0);
            let n = readable_bytes(file, start, carry).len() as int;
            &&& torn.entries == parse.entries
            &&& k > 0 ==> torn.end == segment::LogEnd::Rest(n) || torn.end
                == segment::LogEnd::Bad(n)
            &&& k > 0 && HEADER_SIZE <= max - file.len() ==> torn.end == segment::LogEnd::Rest(n)
        }),
{
    let record = segment::record_bytes(e);
    let free = max - file.len();
    let w = to_last(file.len() as int, max, record);
    let x = w.take(k);
    let b = readable_bytes(file, start, carry);
    let c = readable_bytes(file + x, start, carry);
    let n = b.len() as int;
    segment::lemma_record_len(e);
    lemma_sound_last(file, max, start, carry, i);
    if file.len() == max {
        assert(file + x =~= file);
    } else {
        assert(c =~= b + x);
        segment::lemma_parse_extend(b, x, 0);
        if record.len() <= free || HEADER_SIZE <= free {
            if k >= 4 {
                assert(c.subrange(n, n + 4) =~= record.subrange(0, 4));
            }
            lemma_start_of_record(c, n, e);
        } else if k >= 4 {
            lemma_zeros_value(c, n);
        }
        assert(segment::parse_log(c, 0).entries =~= segment::parse_log(b, 0).entries);
    }
}

/// Some of what goes to the next file adds no record.
proof fn lemma_torn_next(
    file: Seq<u8>,
    max: int,
    start: int,
    carry: Carried,
    i: int,
    e: segment::WalEntryView,
    k: int,
)
    requires
        0 <= start <= file.len() <= max,
        segment::readable(e),
        recover_log(seq![file], max, start, carry, i).broken is None,
        segment::record_len(e) > max - file.len(),
        0 <= k < to_next(file.len() as int, max, segment::record_bytes(e)).len(),
        to_next(file.len() as int, max, segment::record_bytes(e)).len() <= max,
    ensures
        ({
            let record = segment::record_bytes(e);
            let size = file.len() as int;
            let torn = seq![
                file + to_last(size, max, record),
                to_next(size, max, record).take(k),
            ];
            let r = recover_log(torn, max, start, carry, i);
            &&& r.entries == recover_log(seq![file], max, start, carry, i).entries
            &&& r.broken is None || r.broken == Some((i, size)) || r.broken == Some((i + 1, 0int))
        }),
{
    let record = segment::record_bytes(e);
    let size = file.len() as int;
    let w = to_last(size, max, record);
    let full = file + w;
    let next = to_next(size, max, record).take(k);
    let b = readable_bytes(file, start, carry);
    let c = readable_bytes(full, start, carry);
    let torn = seq![full, next];
    segment::lemma_record_len(e);
    lemma_sound_last(file, max, start, carry, i);
    assert(w.take(w.len() as int) =~= w);
    lemma_torn_last(file, max, start, carry, i, e, w.len() as int);
    assert(full.len() == max);
    assert(torn.drop_first() =~= seq![next]);
    let parse = segment::parse_log(c, 0);
    assert(parse.entries + Seq::<segment::WalEntryView>::empty() =~= parse.entries);
    match outcome(parse.end, c.len() as int, true, carry.bytes.len() as int) {
        Outcome::Clean => {
            let d = readable_bytes(next, 0, nothing_carried());
            assert(d =~= next);
            if max >= size + HEADER_SIZE {
                assert(c =~= b + w);
            } else {
                if k >= 4 {
                    assert(d.subrange(0, 4) =~= record.subrange(0, 4));
                }
                lemma_start_of_record(d, 0, e);
            }
            lemma_one_entries(next, max, 0, nothing_carried(), i + 1);
            lemma_one_place(next, max, 0, nothing_carried(), i + 1);
            assert(segment::parse_log(d, 0).entries =~= Seq::<segment::WalEntryView>::empty());
        },
        Outcome::Carry(p) => {
            let at = place(p, i, start, carry);
            let over = Carried { bytes: c.subrange(p, p + HEADER_SIZE), file: at.0, at: at.1 };
            let d = readable_bytes(next, 0, over);
            if w.len() == 0 {
                assert(full =~= file);
            }
            assert(c =~= b + w);
            assert(p == b.len());
            assert(over.bytes =~= record.take(HEADER_SIZE as int));
            assert(d =~= record.take(HEADER_SIZE + k));
            assert(d.subrange(0, 4) =~= record.subrange(0, 4));
            lemma_start_of_record(d, 0, e);
            lemma_one_entries(next, max, 0, over, i + 1);
            lemma_one_place(next, max, 0, over, i + 1);
            assert(at == (i, size));
            assert(segment::parse_log(d, 0).entries =~= Seq::<segment::WalEntryView>::empty());
        },
        Outcome::Broken(_) => {},
    }
}

/// A write is all or nothing: where appending a record was interrupted, the log
/// gives the records that it gave before, and it is broken nowhere but where the
/// record begins.
pub proof fn lemma_interrupted_append(
    files: Seq<Seq<u8>>,
    max: int,
    start: int,
    carry: Carried,
    i: int,
    e: segment::WalEntryView,
    now: Seq<Seq<u8>>,
    k: int,
)
    requires
        files.len() > 0,
        0 <= start <= files[0].len(),
        files.last().len() <= max,
        segment::readable(e),
        recover_log(files, max, start, carry, i).broken is None,
        interrupted(files, max, segment::record_bytes(e), now, k),
        now.len() > files.len() ==> to_next(
            files.last().len() as int,
            max,
            segment::record_bytes(e),
        ).len() <= max,
    ensures
        recover_log(now, max, start, carry, i).entries == recover_log(
            files,
            max,
            start,
            carry,
            i,
        ).entries,
        recover_log(now, max, start, carry, i).broken matches Some((j, at)) ==> {
            ||| j == i + files.len() - 1 && at == files.last().len()
            ||| now.len() > files.len() && j == i + files.len() && at == 0
        },
    decreases files.len(),
{
    let record = segment::record_bytes(e);
    let last = files.last();
    let size = last.len() as int;
    let first = to_last(size, max, record);
    segment::lemma_record_len(e);
    if files.len() == 1 {
        assert(files =~= seq![last]);
        if now.len() == 1 {
            assert(now =~= seq![last + first.take(k)]);
            lemma_torn_last(last, max, start, carry, i, e, k);
            lemma_one_entries(last, max, start, carry, i);
            lemma_one_entries(last + first.take(k), max, start, carry, i);
            lemma_one_place(last + first.take(k), max, start, carry, i);
            if k == 0 {
                assert(last + first.take(k) =~= last);
            }
        } else {
            assert(now =~= seq![last + first, to_next(size, max, record).take(k)]);
            lemma_torn_next(last, max, start, carry, i, e, k);
        }
    } else {
        let rest = files.drop_first();
        let after = now.drop_first();
        assert(rest.last() == last);
        assert(now[0] == files[0]);
        if now.len() == files.len() {
            assert(after =~= rest.drop_last().push(last + first.take(k)));
        } else {
            assert(after =~= rest.drop_last().push(last + first).push(
                to_next(size, max, record).take(k),
            ));
        }
        let b = readable_bytes(files[0], start, carry);
        let parse = segment::parse_log(b, 0);
        match outcome(parse.end, b.len() as int, files[0].len() == max, carry.bytes.len() as int) {
            Outcome::Clean => {
                lemma_interrupted_append(rest, max, 0, nothing_carried(), i + 1, e, after, k);
            },
            Outcome::Carry(p) => {
                let at = place(p, i, start, carry);
                let next = Carried {
                    bytes: b.subrange(p, p + HEADER_SIZE),
                    file: at.0,
                    at: at.1,
                };
                lemma_interrupted_append(rest, max, 0, next, i + 1, e, after, k);
            },
            Outcome::Broken(p) => {},
        }
    }
}

/// The log up to a position in one of its files.
pub open spec fn truncated(files: Seq<Seq<u8>>, j: int, at: int) -> Seq<Seq<u8>> {
    files.take(j).push(files[j].take(at))
}

/// Reading ends at the start or behind a whole record.
proof fn lemma_parse_first(b: Seq<u8>)
    ensures
        match segment::parse_log(b, 0).end {
            segment::LogEnd::Done => true,
            segment::LogEnd::Rest(p) => p >= HEADER_SIZE || p == 0 && segment::parse_log(
                b,
                0,
            ).entries.len() == 0,
            segment::LogEnd::Bad(p) => p >= HEADER_SIZE || p == 0 && segment::parse_log(
                b,
                0,
            ).entries.len() == 0,
        },
{
    if b.len() >= 4 {
        let len = codec::le_value(b.subrange(0, 4)) as int;
        if len >= 9 && 4 + len <= b.len() {
            segment::lemma_parse_end(b, 4 + len);
        }
    }
}

/// The carried header is a whole one, from a file before.
pub open spec fn carried_before(carry: Carried, i: int) -> bool {
    carry.bytes.len() > 0 ==> carry.bytes.len() == HEADER_SIZE && carry.file < i
}

/// A broken record stands in one of the files, or it is the carried one, and
/// then nothing is read behind it.
pub proof fn lemma_broken_place(files: Seq<Seq<u8>>, max: int, start: int, carry: Carried, i: int)
    requires
        carried_before(carry, i),
        files.len() > 0 ==> 0 <= start <= files[0].len(),
    ensures
        recover_log(files, max, start, carry, i).broken matches Some((j, at)) ==> {
            ||| {
                &&& carry.bytes.len() > 0
                &&& j == carry.file
                &&& at == carry.at
                &&& recover_log(files, max, start, carry, i).entries.len() == 0
            }
            ||| {
                &&& i <= j < i + files.len()
                &&& 0 <= at < files[j - i].len()
                &&& j == i ==> start <= at
            }
        },
    decreases files.len(),
{
    if files.len() > 0 {
        let rest = files.drop_first();
        let b = readable_bytes(files[0], start, carry);
        let parse = segment::parse_log(b, 0);
        segment::lemma_parse_end(b, 0);
        lemma_parse_first(b);
        match outcome(parse.end, b.len() as int, files[0].len() == max, carry.bytes.len() as int) {
            Outcome::Clean => {
                lemma_broken_place(rest, max, 0, nothing_carried(), i + 1);
                if let Some((j, at)) = recover_log(
                    rest,
                    max,
                    0,
                    nothing_carried(),
                    i + 1,
                ).broken {
                    assert(rest[j - i - 1] == files[j - i]);
                }
            },
            Outcome::Carry(p) => {
                let at = place(p, i, start, carry);
                let next = Carried {
                    bytes: b.subrange(p, p + HEADER_SIZE),
                    file: at.0,
                    at: at.1,
                };
                lemma_broken_place(rest, max, 0, next, i + 1);
                if let Some((j, at)) = recover_log(rest, max, 0, next, i + 1).broken {
                    if j > i {
                        assert(rest[j - i - 1] == files[j - i]);
                    }
                }
            },
            Outcome::Broken(p) => {},
        }
    }
}

/// The first broken record of a log stands in one of its files.
pub proof fn lemma_broken_in(files: Seq<Seq<u8>>, max: int, start: int)
    requires
        0 <= start,
    ensures
        recover_log(files, max, start, nothing_carried(), 0).broken matches Some((j, at)) ==> 0 <= j
            < files.len() && 0 <= at < files[j].len(),
{
    if files.len() > 0 {
        if start <= files[0].len() {
            lemma_broken_place(files, max, start, nothing_carried(), 0);
        } else {
            // Nothing is read from the first file.
            let rest = files.drop_first();
            let b = readable_bytes(files[0], start, nothing_carried());
            assert(b =~= Seq::<u8>::empty());
            lemma_broken_place(rest, max, 0, nothing_carried(), 1);
            if let Some((j, at)) = recover_log(rest, max, 0, nothing_carried(), 1).broken {
                assert(rest[j - 1] == files[j]);
            }
        }
    }
}

/// A file that is cut off at its last record, which is not whole, is sound.
proof fn lemma_cut_file(
    file: Seq<u8>,
    max: int,
    start: int,
    carry: Carried,
    i: int,
    p: int,
)
    requires
        0 <= start <= file.len(),
        carry.bytes.len() <= p,
        ({
            let end = segment::parse_log(readable_bytes(file, start, carry), 0).end;
            end == segment::LogEnd::Rest(p) || end == segment::LogEnd::Bad(p)
        }),
    ensures
        ({
            let at = start + p - carry.bytes.len();
            let r = recover_log(seq![file.take(at)], max, start, carry, i);
            &&& r.broken is None
            &&& r.entries == segment::parse_log(readable_bytes(file, start, carry), 0).entries
        }),
{
    let b = readable_bytes(file, start, carry);
    let at = start + p - carry.bytes.len();
    segment::lemma_parse_cut(b, 0, p);
    let file2 = file.take(at);
    assert(readable_bytes(file2, start, carry) =~= b.take(p));
    lemma_one_file(file2, max, start, carry, i);
}

/// Recovering twice is correct: a log that is cut off at its first broken
/// record is sound and gives the records before that one.
pub proof fn lemma_truncated_log(
    files: Seq<Seq<u8>>,
    max: int,
    start: int,
    carry: Carried,
    i: int,
    j: int,
    at: int,
)
    requires
        carried_before(carry, i),
        files.len() > 0 ==> 0 <= start <= files[0].len(),
        i <= j,
        recover_log(files, max, start, carry, i).broken == Some((j, at)),
    ensures
        j < i + files.len(),
        recover_log(truncated(files, j - i, at), max, start, carry, i).broken is None,
        recover_log(truncated(files, j - i, at), max, start, carry, i).entries == recover_log(
            files,
            max,
            start,
            carry,
            i,
        ).entries,
    decreases files.len(),
{
    lemma_broken_place(files, max, start, carry, i);
    let rest = files.drop_first();
    let b = readable_bytes(files[0], start, carry);
    let parse = segment::parse_log(b, 0);
    let after = truncated(files, j - i, at);
    segment::lemma_parse_end(b, 0);
    if j == i {
        assert(after =~= seq![files[0].take(at)]);
    } else {
        assert(after.drop_first() =~= truncated(rest, j - i - 1, at));
        assert(after[0] == files[0]);
    }
    match outcome(parse.end, b.len() as int, files[0].len() == max, carry.bytes.len() as int) {
        Outcome::Clean => {
            lemma_broken_place(rest, max, 0, nothing_carried(), i + 1);
            lemma_truncated_log(rest, max, 0, nothing_carried(), i + 1, j, at);
        },
        Outcome::Carry(p) => {
            let q = place(p, i, start, carry);
            let next = Carried { bytes: b.subrange(p, p + HEADER_SIZE), file: q.0, at: q.1 };
            lemma_broken_place(rest, max, 0, next, i + 1);
            if j == i {
                lemma_cut_file(files[0], max, start, carry, i, p);
                assert(parse.entries + recover_log(rest, max, 0, next, i + 1).entries
                    =~= parse.entries);
            } else {
                lemma_truncated_log(rest, max, 0, next, i + 1, j, at);
            }
        },
        Outcome::Broken(p) => {
            lemma_cut_file(files[0], max, start, carry, i, p);
        },
    }
}

/// The start of bytes holds the first of the records that they hold.
proof fn lemma_parse_start(b: Seq<u8>, from: int, m: int)
    requires
        0 <= from <= m <= b.len(),
    ensures
        segment::parse_log(b.take(m), from).entries.is_prefix_of(
            segment::parse_log(b, from).entries,
        ),
    decreases b.len() - from,
{
    let c = b.take(m);
    let x = segment::parse_log(c, from).entries;
    let y = segment::parse_log(b, from).entries;
    if m - from >= 4 {
        assert(c.subrange(from, from + 4) =~= b.subrange(from, from + 4));
        let len = codec::le_value(b.subrange(from, from + 4)) as int;
        let to = from + 4 + len;
        if len >= 9 && to <= m {
            assert(c.subrange(from + 4, from + 8) =~= b.subrange(from + 4, from + 8));
            assert(c.subrange(from + 8, to) =~= b.subrange(from + 8, to));
            if segment::record_at(b, from, to) is Some {
                lemma_parse_start(b, to, m);
                let e = segment::record_at(b, from, to).unwrap();
                let u = segment::parse_log(c, to).entries;
                let v = segment::parse_log(b, to).entries;
                assert(x == seq![e] + u && y == seq![e] + v);
                assert(x =~= y.subrange(0, x.len() as int)) by {
                    assert(u =~= v.subrange(0, u.len() as int));
                }
            }
        }
    }
    assert(x =~= y.subrange(0, x.len() as int));
}

/// What begins with something and then the start of something begins both.
proof fn lemma_prefix<A>(a: Seq<A>, x: Seq<A>, y: Seq<A>)
    requires
        x.is_prefix_of(y),
    ensures
        (a + x).is_prefix_of(a + y),
        a.is_prefix_of(a + y),
{
    assert(x == y.subrange(0, x.len() as int));
    assert(a + x =~= (a + y).subrange(0, (a + x).len() as int));
    assert(a =~= (a + y).subrange(0, a.len() as int));
}

/// A start of a start is a start.
proof fn lemma_prefix_of_prefix<A>(a: Seq<A>, b: Seq<A>, c: Seq<A>)
    requires
        a.is_prefix_of(b),
        b.is_prefix_of(c),
    ensures
        a.is_prefix_of(c),
{
    assert(a =~= c.subrange(0, a.len() as int)) by {
        assert(a == b.subrange(0, a.len() as int));
        assert(b == c.subrange(0, b.len() as int));
    }
}

/// What the first file gives comes first.
proof fn lemma_first_entries(files: Seq<Seq<u8>>, max: int, start: int, carry: Carried, i: int)
    requires
        files.len() > 0,
    ensures
        segment::parse_log(readable_bytes(files[0], start, carry), 0).entries.is_prefix_of(
            recover_log(files, max, start, carry, i).entries,
        ),
{
    let parse = segment::parse_log(readable_bytes(files[0], start, carry), 0).entries;
    let all = recover_log(files, max, start, carry, i).entries;
    assert(parse =~= all.subrange(0, parse.len() as int));
}

/// The first file was cut short within a record.
proof fn lemma_cut_first(
    files: Seq<Seq<u8>>,
    max: int,
    start: int,
    carry: Carried,
    i: int,
    n: int,
)
    requires
        carried_before(carry, i),
        files.len() > 0,
        0 <= start <= n < files[0].len() <= max,
        recover_log(files.update(0, files[0].take(n)), max, start, carry, i).broken matches Some(
            (at_file, _),
        ) && at_file <= i,
    ensures
        recover_log(
            files.update(0, files[0].take(n)),
            max,
            start,
            carry,
            i,
        ).entries.is_prefix_of(recover_log(files, max, start, carry, i).entries),
        carry.bytes.len() == 0 ==> n > start,
{
    let now = files.update(0, files[0].take(n));
    let rest = files.drop_first();
    let b = readable_bytes(files[0], start, carry);
    let c = readable_bytes(now[0], start, carry);
    let m = carry.bytes.len() + n - start;
    assert(c =~= b.take(m));
    lemma_parse_start(b, 0, m);
    segment::lemma_parse_end(c, 0);
    assert(now.drop_first() =~= rest);
    lemma_broken_place(rest, max, 0, nothing_carried(), i + 1);
    let is = segment::parse_log(c, 0);
    assert(!(outcome(is.end, c.len() as int, false, carry.bytes.len() as int) is Clean));
    assert(recover_log(now, max, start, carry, i).entries == is.entries);
    lemma_first_entries(files, max, start, carry, i);
    lemma_prefix_of_prefix(
        is.entries,
        segment::parse_log(b, 0).entries,
        recover_log(files, max, start, carry, i).entries,
    );
}

/// A log one of whose files was cut short within a record gives the records
/// before that one.
pub proof fn lemma_cut_log(
    files: Seq<Seq<u8>>,
    max: int,
    start: int,
    carry: Carried,
    i: int,
    j: int,
    n: int,
)
    requires
        carried_before(carry, i),
        0 <= j < files.len(),
        0 <= n < files[j].len() <= max,
        0 <= start <= files[0].len(),
        j == 0 ==> start <= n,
        recover_log(files.update(j, files[j].take(n)), max, start, carry, i).broken matches Some(
            (at_file, _),
        ) && at_file <= i + j,
    ensures
        recover_log(
            files.update(j, files[j].take(n)),
            max,
            start,
            carry,
            i,
        ).entries.is_prefix_of(recover_log(files, max, start, carry, i).entries),
        j == 0 && carry.bytes.len() == 0 ==> n > start,
    decreases files.len(),
{
    if j == 0 {
        lemma_cut_first(files, max, start, carry, i, n);
    } else {
        let now = files.update(j, files[j].take(n));
        let rest = files.drop_first();
        let left = now.drop_first();
        let b = readable_bytes(files[0], start, carry);
        let was = segment::parse_log(b, 0);
        segment::lemma_parse_end(b, 0);
        assert(now[0] == files[0]);
        assert(left =~= rest.update(j - 1, rest[j - 1].take(n)));
        match outcome(was.end, b.len() as int, files[0].len() == max, carry.bytes.len() as int) {
            Outcome::Clean => {
                lemma_cut_log(rest, max, 0, nothing_carried(), i + 1, j - 1, n);
                lemma_prefix(
                    was.entries,
                    recover_log(left, max, 0, nothing_carried(), i + 1).entries,
                    recover_log(rest, max, 0, nothing_carried(), i + 1).entries,
                );
            },
            Outcome::Carry(p) => {
                let at = place(p, i, start, carry);
                let next = Carried {
                    bytes: b.subrange(p, p + HEADER_SIZE),
                    file: at.0,
                    at: at.1,
                };
                lemma_cut_log(rest, max, 0, next, i + 1, j - 1, n);
                lemma_prefix(
                    was.entries,
                    recover_log(left, max, 0, next, i + 1).entries,
                    recover_log(rest, max, 0, next, i + 1).entries,
                );
            },
            Outcome::Broken(p) => {
                assert(was.entries =~= was.entries.subrange(0, was.entries.len() as int));
            },
        }
    }
}

/// The log and the file that records are appended to.
pub struct Wal {
    active_segment: Segment,
    segment_max_size: u32,
}

impl Wal {
    /// The name of the file that records are appended to.
    pub closed spec fn name(&self) -> Seq<char> {
        self.active_segment.name()
    }

    /// The number of bytes of that file.
    pub closed spec fn size(&self) -> u32 {
        self.active_segment.size()
    }

    /// The sequence number of the first byte of that file.
    pub closed spec fn first(&self) -> u64 {
        self.active_segment.first()
    }

    /// The number of bytes that a file may have.
    pub closed spec fn max(&self) -> u32 {
        self.segment_max_size
    }

    /// The file is not too large.
    pub closed spec fn wf(&self) -> bool {
        &&& self.active_segment.wf()
        &&& self.active_segment.max() == self.segment_max_size
    }

    /// What holds of the file that records are appended to.
    pub proof fn lemma_active(&self)
        requires
            self.wf(),
        ensures
            self.size() <= self.max(),
            self.max() > 0,
            self.first() + self.max() <= u64::MAX,
    {
        self.active_segment.lemma_size();
    }
}

/// The file that follows when a record is appended that does not fit.
pub open spec fn next_filename(sequence_number: u64, record_len: nat, max: u32) -> Seq<char> {
    segment::segment_filename(0, (sequence_number + record_len) as u64, max)
}

/// The steps by which a record is appended.
pub open spec fn append_steps(
    size: int,
    max: int,
    record: Seq<u8>,
    next: Seq<char>,
) -> Seq<StepView> {
    let free = max - size;
    if record.len() <= free {
        seq![StepView::Append(record)]
    } else if HEADER_SIZE <= free {
        seq![
            StepView::Append(record.take(HEADER_SIZE as int)),
            StepView::Append(segment::zeros((free - HEADER_SIZE) as nat)),
            StepView::Create(next),
            StepView::Append(record.skip(HEADER_SIZE as int)),
        ]
    } else {
        seq![
            StepView::Append(segment::zeros(free as nat)),
            StepView::Create(next),
            StepView::Append(record),
        ]
    }
}

/// A record of so many bytes can be appended: what goes to a new file fits
/// into it, and the sequence numbers suffice.
pub open spec fn appendable(
    size: int,
    max: u32,
    sequence_number: u64,
    record_len: nat,
) -> bool {
    let free = max - size;
    ||| record_len <= free
    ||| {
        &&& if HEADER_SIZE <= free {
            record_len - HEADER_SIZE <= max
        } else {
            record_len <= max
        }
        &&& sequence_number + record_len <= u64::MAX
        &&& segment::first_of((sequence_number + record_len) as u64, max) + max <= u64::MAX
    }
}

/// The sizes of the file that records are appended to before and after a
/// record.
pub open spec fn size_after(size: int, max: int, record_len: int) -> int {
    let free = max - size;
    if record_len <= free {
        size + record_len
    } else if HEADER_SIZE <= free {
        record_len - HEADER_SIZE
    } else {
        record_len
    }
}

impl Wal {
    /// The name of the file that records are appended to.
    pub fn file_name(&self) -> (s: String)
        ensures
            s@ == self.name(),
    {
        self.active_segment.file_path()
    }

    /// A new log, and how its first file is made.
    pub fn create_new(segment_max_size: u32) -> (r: (Self, WalStep))
        requires
            segment_max_size > 0,
        ensures
            r.0.wf(),
            r.0.max() == segment_max_size,
            r.0.size() == 0,
            r.0.first() == 0,
            r.0.name() == segment::segment_filename(0, 0, segment_max_size),
            r.1@ == StepView::Create(r.0.name()),
    {
        assert(0int / segment_max_size as int * segment_max_size as int == 0) by (nonlinear_arith)
            requires
                segment_max_size > 0,
        ;
        let segment: Segment = Segment::new(0, segment_max_size);
        let step: WalStep = WalStep::Create(segment.file_path());
        (Wal { active_segment: segment, segment_max_size }, step)
    }

    /// The log that goes on in a file.
    pub fn from_segment(segment: Segment) -> (r: Self)
        requires
            segment.wf(),
        ensures
            r.wf(),
            r.name() == segment.name(),
            r.size() == segment.size(),
            r.first() == segment.first(),
            r.max() == segment.max(),
    {
        let segment_max_size: u32 = segment.max_size();
        Wal { active_segment: segment, segment_max_size }
    }

    /// Whether a record of so many bytes can be appended.
    pub fn can_append(&self, sequence_number: u64, record_len: usize) -> (r: bool)
        requires
            self.wf(),
        ensures
            r == appendable(
                self.size() as int,
                self.max(),
                sequence_number,
                record_len as nat,
            ),
    {
        let free: u32 = self.active_segment.remaining_space();
        if record_len as u64 <= free as u64 {
            return true;
        }
        let rest: u64 = if HEADER_SIZE as u64 <= free as u64 {
            record_len as u64 - HEADER_SIZE as u64
        } else {
            record_len as u64
        };
        if rest > self.segment_max_size as u64 {
            return false;
        }
        if sequence_number > u64::MAX - record_len as u64 {
            return false;
        }
        let next: u64 = sequence_number + record_len as u64;
        let no: u64 = next % 0x1_0000_0000 / self.segment_max_size as u64;
        proof {
            let a = (next % 0x1_0000_0000) as int;
            let m = self.segment_max_size as int;
            assert(0 <= a / m * m <= a) by (nonlinear_arith)
                requires
                    m > 0,
                    a >= 0,
            ;
        }
        let first: u64 = next / 0x1_0000_0000 * 0x1_0000_0000 + no * self.segment_max_size as u64;
        first as u128 + self.segment_max_size as u128 <= u64::MAX as u128
    }

    /// How a record is appended, and the log afterwards.
    pub fn append(&self, entry: &WalEntry) -> (r: (Wal, Vec<WalStep>))
        requires
            self.wf(),
            segment::writable(entry@),
            segment::record_len(entry@) <= usize::MAX,
            appendable(
                self.size() as int,
                self.max(),
                entry.sequence_number,
                segment::record_len(entry@),
            ),
        ensures
            ({
                let n = segment::record_len(entry@);
                let next = next_filename(entry.sequence_number, n, self.max());
                let fits = self.size() + n <= self.max();
                &&& r.0.wf()
                &&& r.0.max() == self.max()
                &&& r.0.size() == size_after(self.size() as int, self.max() as int, n as int)
                &&& r.0.name() == (if fits {
                    self.name()
                } else {
                    next
                })
                &&& r.0.first() == (if fits {
                    self.first() as int
                } else {
                    segment::first_of((entry.sequence_number + n) as u64, self.max())
                })
                &&& step_views(r.1@) == append_steps(
                    self.size() as int,
                    self.max() as int,
                    segment::record_bytes(entry@),
                    next,
                )
            }),
    {
        proof {
            self.active_segment.lemma_size();
            segment::lemma_record_len(entry@);
        }
        let buf: Vec<u8> = entry.to_bytes();
        let n: usize = buf.len();
        let mut steps: Vec<WalStep> = Vec::new();
        let mut active: Segment = self.active_segment.duplicate();
        let free: u32 = active.remaining_space();
        if n as u64 <= free as u64 {
            active.append(buf.as_slice());
            steps.push(WalStep::Append(buf));
        } else if HEADER_SIZE as u64 <= free as u64 {
            let header: Vec<u8> = copy_range(buf.as_slice(), 0, HEADER_SIZE);
            assert(header@ =~= buf@.take(HEADER_SIZE as int));
            active.append(header.as_slice());
            steps.push(WalStep::Append(header));
            steps.push(WalStep::Append(active.pad()));
            active = Segment::new(entry.sequence_number + n as u64, self.segment_max_size);
            steps.push(WalStep::Create(active.file_path()));
            let rest: Vec<u8> = copy_range(buf.as_slice(), HEADER_SIZE, n);
            assert(rest@ =~= buf@.skip(HEADER_SIZE as int));
            active.append(rest.as_slice());
            steps.push(WalStep::Append(rest));
        } else {
            steps.push(WalStep::Append(active.pad()));
            active = Segment::new(entry.sequence_number + n as u64, self.segment_max_size);
            steps.push(WalStep::Create(active.file_path()));
            active.append(buf.as_slice());
            steps.push(WalStep::Append(buf));
        }
        assert(step_views(steps@) =~= append_steps(
            self.size() as int,
            self.max() as int,
            segment::record_bytes(entry@),
            next_filename(entry.sequence_number, segment::record_len(entry@), self.max()),
        ));
        (Wal { active_segment: active, segment_max_size: self.segment_max_size }, steps)
    }

    /// The sequence number of the next record.
    pub fn next_sequence_number(&self) -> (n: u64)
        requires
            self.wf(),
        ensures
            n == self.first() + self.size(),
    {
        self.active_segment.next_lsn()
    }
}

/// The steps by which a record is appended to a log do append it.
pub proof fn lemma_append_steps(
    files: Seq<FileView>,
    max: int,
    record: Seq<u8>,
    next: Seq<char>,
)
    requires
        files.len() > 0,
        files.last().bytes.len() <= max,
        record.len() >= HEADER_SIZE,
    ensures
        ({
            let after = perform_all(
                files,
                append_steps(files.last().bytes.len() as int, max, record, next),
            );
            let size = files.last().bytes.len() as int;
            &&& contents(after) == appended(contents(files), max, record)
            &&& after.len() > 0
            &&& after.last().name == (if size + record.len() <= max {
                files.last().name
            } else {
                next
            })
            &&& after.last().bytes.len() == size_after(size, max, record.len() as int)
            &&& after.len() == files.len() + (if size + record.len() <= max {
                0int
            } else {
                1
            })
            &&& forall|i: int|
                0 <= i < files.len() ==> (#[trigger] after[i]).name == files[i].name
        }),
{
    let size = files.last().bytes.len() as int;
    let free = max - size;
    let steps = append_steps(size, max, record, next);
    reveal_with_fuel(perform_all, 5);
    let last = files.last();
    if record.len() <= free {
        assert(steps.drop_last() =~= Seq::<StepView>::empty());
        let after = perform(files, StepView::Append(record));
        assert(perform_all(files, steps) == after);
        assert(contents(after) =~= appended(contents(files), max, record));
    } else if HEADER_SIZE <= free {
        let header = record.take(HEADER_SIZE as int);
        let pad = segment::zeros((free - HEADER_SIZE) as nat);
        let rest = record.skip(HEADER_SIZE as int);
        let s3 = steps.drop_last();
        let s2 = s3.drop_last();
        let s1 = s2.drop_last();
        assert(s1.drop_last() =~= Seq::<StepView>::empty());
        let f1 = perform(files, StepView::Append(header));
        let f2 = perform(f1, StepView::Append(pad));
        let f3 = perform(f2, StepView::Create(next));
        let f4 = perform(f3, StepView::Append(rest));
        assert(perform_all(files, s1) == f1);
        assert(perform_all(files, s2) == f2);
        assert(perform_all(files, s3) == f3);
        assert(perform_all(files, steps) == f4);
        assert(Seq::<u8>::empty() + rest =~= rest);
        assert(contents(f4) =~= appended(contents(files), max, record));
    } else {
        let pad = segment::zeros(free as nat);
        let s2 = steps.drop_last();
        let s1 = s2.drop_last();
        assert(s1.drop_last() =~= Seq::<StepView>::empty());
        let f1 = perform(files, StepView::Append(pad));
        let f2 = perform(f1, StepView::Create(next));
        let f3 = perform(f2, StepView::Append(record));
        assert(perform_all(files, s1) == f1);
        assert(perform_all(files, s2) == f2);
        assert(perform_all(files, steps) == f3);
        assert(Seq::<u8>::empty() + record =~= record);
        assert(contents(f3) =~= appended(contents(files), max, record));
    }
}

/// What becomes of the last record that was read from a file.
enum Ending {
    Clean,
    Carry(usize),
    Broken(usize),
}

/// Decides what becomes of the last record that was read from a file.
fn judge(end: ParseEnd, n: usize, full: bool, carried: usize) -> (r: Ending)
    requires
        end matches ParseEnd::Rest(p) ==> p < n,
        end matches ParseEnd::Bad(p) ==> p < n,
    ensures
        match outcome(segment::end_view(end), n as int, full, carried as int) {
            Outcome::Clean => r is Clean,
            Outcome::Carry(p) => r matches Ending::Carry(q) && q == p && p + HEADER_SIZE <= n
                && carried <= p,
            Outcome::Broken(p) => r matches Ending::Broken(q) && q == p && p < n,
        },
{
    match end {
        ParseEnd::Done => Ending::Clean,
        ParseEnd::Rest(p) => if !full {
            Ending::Broken(p)
        } else if n - p < HEADER_SIZE {
            Ending::Clean
        } else if p >= carried {
            Ending::Carry(p)
        } else {
            Ending::Broken(p)
        },
        ParseEnd::Bad(p) => if full && n - p < HEADER_SIZE {
            Ending::Clean
        } else {
            Ending::Broken(p)
        },
    }
}

/// Reads the records of the files of a log, the first file from a position on.
/// Gives them and where the first broken record stands: in which of the files,
/// and where in it.
pub fn read_log(files: &Vec<LogFile>, max: u32, start: u64) -> (r: (
    Vec<WalEntry>,
    Option<(usize, u64)>,
))
    requires
        forall|i: int| 0 <= i < files@.len() ==> (#[trigger] files@[i]).bytes@.len() <= max,
    ensures
        ({
            let log = recover_log(
                contents(file_views(files@)),
                max as int,
                start as int,
                nothing_carried(),
                0,
            );
            &&& segment::wal_views(r.0@) == log.entries
            &&& match r.1 {
                Some((j, at)) => log.broken == Some((j as int, at as int)) && j < files@.len(),
                None => log.broken is None,
            }
        }),
{
    let ghost cs = contents(file_views(files@));
    let ghost log = recover_log(cs, max as int, start as int, nothing_carried(), 0);
    let n: usize = files.len();
    let mut entries: Vec<WalEntry> = Vec::new();
    let mut carry: Vec<u8> = Vec::new();
    let mut carry_file: usize = 0;
    let mut carry_at: u64 = 0;
    let mut from: u64 = start;
    let ghost mut c: Carried = nothing_carried();
    let mut i: usize = 0;
    proof {
        assert(cs.skip(0) =~= cs);
        assert(carry@ =~= Seq::<u8>::empty());
        assert(segment::wal_views(entries@) + log.entries =~= log.entries);
    }
    while i < n
        invariant
            i <= n == files@.len(),
            cs == contents(file_views(files@)),
            log == recover_log(cs, max as int, start as int, nothing_carried(), 0),
            forall|k: int| 0 <= k < files@.len() ==> (#[trigger] files@[k]).bytes@.len() <= max,
            carry@ == c.bytes,
            c.bytes.len() <= HEADER_SIZE,
            carry@.len() > 0 ==> carry_file == c.file && carry_at == c.at && carry_file < i,
            carry@.len() > 0 ==> from == 0,
            ({
                let rest = recover_log(cs.skip(i as int), max as int, from as int, c, i as int);
                &&& segment::wal_views(entries@) + rest.entries == log.entries
                &&& rest.broken == log.broken
            }),
        decreases n - i,
    {
        let content: &Vec<u8> = &files[i].bytes;
        let carried: usize = carry.len();
        let ghost here = cs.skip(i as int);
        let ghost rest = recover_log(here, max as int, from as int, c, i as int);
        let ghost b = readable_bytes(content@, from as int, c);
        let ghost parse = segment::parse_log(b, 0);
        let ghost before = segment::wal_views(entries@);
        assert(here[0] == content@);
        assert(here.drop_first() =~= cs.skip(i + 1));
        let len: usize = content.len();
        let mut bytes: Vec<u8> = Vec::new();
        put_bytes(&mut bytes, carry.as_slice());
        if from <= len as u64 {
            let tail: Vec<u8> = copy_range(content.as_slice(), from as usize, len);
            put_bytes(&mut bytes, tail.as_slice());
            assert(tail@ =~= content@.skip(from as int));
        }
        assert(bytes@ =~= b);
        let full: bool = len as u64 == max as u64;
        proof {
            segment::lemma_parse_end(b, 0);
        }
        let end: ParseEnd = segment::read_records(&bytes, &mut entries);
        let total: usize = bytes.len();
        match judge(end, total, full, carried) {
            Ending::Clean => {
                let none: Vec<u8> = Vec::new();
                carry = none;
                proof {
                    c = nothing_carried();
                    assert(carry@ =~= c.bytes);
                }
            },
            Ending::Carry(p) => {
                let header: Vec<u8> = copy_range(bytes.as_slice(), p, p + HEADER_SIZE);
                proof {
                    let q = place(p as int, i as int, from as int, c);
                    c = Carried { bytes: header@, file: q.0, at: q.1 };
                }
                carry = header;
                carry_file = i;
                carry_at = from + (p - carried) as u64;
            },
            Ending::Broken(p) => {
                let (file, at): (usize, u64) = if p < carried {
                    (carry_file, carry_at)
                } else {
                    (i, from + (p - carried) as u64)
                };
                assert(segment::wal_views(entries@) =~= log.entries);
                return (entries, Some((file, at)));
            },
        }
        from = 0;
        i += 1;
        proof {
            let next = recover_log(cs.skip(i as int), max as int, 0, c, i as int);
            assert(segment::wal_views(entries@) + next.entries =~= before + (parse.entries
                + next.entries));
        }
    }
    assert(cs.skip(n as int) =~= Seq::<Seq<u8>>::empty());
    assert(segment::wal_views(entries@) =~= log.entries);
    if carry.len() > 0 {
        (entries, Some((carry_file, carry_at)))
    } else {
        (entries, None)
    }
}

/// The files of a log in memory, on which steps can be performed.
pub struct LogDirectory {
    pub files: Vec<LogFile>,
}

impl LogDirectory {
    /// Performs a step.
    pub fn perform(&mut self, step: &WalStep)
        ensures
            file_views(final(self).files@) == perform(file_views(old(self).files@), step@),
    {
        let ghost before = file_views(self.files@);
        let n: usize = self.files.len();
        match step {
            WalStep::Create(name) => {
                self.files.push(LogFile { name: name.clone(), bytes: Vec::new() });
                assert(Seq::<u8>::empty() =~= self.files@[n as int].bytes@);
                assert(file_views(self.files@) =~= perform(before, step@));
            },
            WalStep::Append(bytes) => {
                if n > 0 {
                    put_bytes(&mut self.files[n - 1].bytes, bytes.as_slice());
                }
                assert(file_views(self.files@) =~= perform(before, step@));
            },
            WalStep::Truncate(name, at) => {
                let mut i: usize = 0;
                while i < n
                    invariant
                        i <= n == self.files@.len(),
                        n == before.len(),
                        forall|k: int|
                            i <= k < n ==> #[trigger] self.files@[k]@ == before[k],
                        forall|k: int|
                            0 <= k < i ==> #[trigger] self.files@[k]@ == cut(
                                before[k],
                                name@,
                                *at as int,
                            ),
                    decreases n - i,
                {
                    assert(self.files@[i as int]@ == before[i as int]);
                    if order::key_equal(&self.files[i].name, name) && *at
                        <= self.files[i].bytes.len() as u64 {
                        let bytes: Vec<u8> = copy_range(
                            self.files[i].bytes.as_slice(),
                            0,
                            *at as usize,
                        );
                        assert(bytes@ =~= before[i as int].bytes.take(*at as int));
                        self.files[i].bytes = bytes;
                    }
                    i += 1;
                }
                assert(file_views(self.files@) =~= perform(before, step@));
            },
            WalStep::Remove(name) => {
                let mut kept: Vec<LogFile> = Vec::new();
                let mut i: usize = 0;
                assert(before.take(0) =~= Seq::<FileView>::empty());
                assert(file_views(kept@) =~= Seq::<FileView>::empty());
                while i < n
                    invariant
                        i <= n == self.files@.len(),
                        before == file_views(self.files@),
                        file_views(kept@) == without(before.take(i as int), name@),
                    decreases n - i,
                {
                    assert(before.take(i + 1).drop_last() =~= before.take(i as int));
                    assert(before[i as int] == self.files@[i as int]@);
                    if !order::key_equal(&self.files[i].name, name) {
                        let ghost k = kept@;
                        let file: LogFile = copy_file(&self.files[i]);
                        kept.push(file);
                        assert(file_views(kept@) =~= file_views(k).push(file@));
                    }
                    i += 1;
                }
                assert(before.take(n as int) =~= before);
                self.files = kept;
            },
        }
    }

    /// Performs several steps.
    pub fn perform_all(&mut self, steps: &Vec<WalStep>)
        ensures
            file_views(final(self).files@) == perform_all(
                file_views(old(self).files@),
                step_views(steps@),
            ),
    {
        let ghost before = file_views(self.files@);
        let ghost sv = step_views(steps@);
        let n: usize = steps.len();
        let mut i: usize = 0;
        assert(sv.take(0) =~= Seq::<StepView>::empty());
        while i < n
            invariant
                i <= n == steps@.len(),
                sv == step_views(steps@),
                file_views(self.files@) == perform_all(before, sv.take(i as int)),
            decreases n - i,
        {
            assert(sv.take(i + 1).drop_last() =~= sv.take(i as int));
            assert(sv[i as int] == steps@[i as int]@);
            self.perform(&steps[i]);
            i += 1;
        }
        assert(sv.take(n as int) =~= sv);
    }
}

/// The files stand in the order of their names.
pub open spec fn in_name_order(files: Seq<FileView>) -> bool {
    forall|i: int, j: int|
        #![trigger files[i], files[j]]
        0 <= i < j < files.len() ==> order::key_le(files[i].name, files[j].name)
}

/// Puts the files of a directory into the order of their names, which is the
/// order in which a log is read.
pub fn sort_files(files: Vec<LogFile>) -> (r: Vec<LogFile>)
    ensures
        r@.to_multiset() == files@.to_multiset(),
        in_name_order(file_views(r@)),
{
    let mut rest: Vec<LogFile> = files;
    let mut r: Vec<LogFile> = Vec::new();
    assert(r@ + rest@ =~= files@);
    while rest.len() > 0
        invariant
            (r@ + rest@).to_multiset() == files@.to_multiset(),
            in_name_order(file_views(r@)),
        decreases rest@.len(),
    {
        let ghost before = r@ + rest@;
        let ghost sorted = r@;
        let ghost left = rest@;
        let file: LogFile = match rest.pop() {
            Some(file) => file,
            None => {
                return r;
            },
        };
        let n: usize = r.len();
        let mut i: usize = n;
        while i > 0
            invariant
                i <= n == r@.len(),
                r@ == sorted,
                forall|k: int| i <= k < n ==> order::key_lt(file.name@, (#[trigger] r@[k]).name@),
            ensures
                i > 0 ==> !order::key_lt(file.name@, sorted[i - 1].name@),
            decreases i,
        {
            if !order::key_less(&file.name, &r[i - 1].name) {
                break;
            }
            i -= 1;
        }
        proof {
            broadcast use order::group_key_order;

            let fs = file_views(sorted);
            let now = sorted.insert(i as int, file);
            let ns = file_views(now);
            assert(ns[i as int].name == file.name@);
            assert(i > 0 ==> order::key_le(sorted[i - 1].name@, file.name@));
            assert forall|a: int, b: int|
                #![trigger ns[a], ns[b]]
                0 <= a < b < ns.len() implies order::key_le(ns[a].name, ns[b].name) by {
                let (p, q) = (if a > i { a - 1 } else { a }, if b > i { b - 1 } else { b });
                if a != i && b != i {
                    assert(ns[a] == fs[p] && ns[b] == fs[q]);
                    assert(order::key_le(fs[p].name, fs[q].name));
                } else if a == i {
                    assert(ns[b] == fs[q] && fs[q].name == sorted[q].name@);
                } else {
                    assert(ns[a] == fs[a]);
                    assert(fs[i - 1].name == sorted[i - 1].name@);
                    assert(a < i - 1 ==> order::key_le(fs[a].name, fs[i - 1].name));
                }
            }
            lemma_insert_multiset(sorted, left.drop_last(), file, i as int);
            assert(before =~= sorted + left.drop_last().push(file));
        }
        r.insert(i, file);
    }
    assert(r@ + rest@ =~= r@);
    r
}

/// Moving an item from the end to a position within keeps what there is.
proof fn lemma_insert_multiset<A>(a: Seq<A>, b: Seq<A>, x: A, i: int)
    requires
        0 <= i <= a.len(),
    ensures
        (a.insert(i, x) + b).to_multiset() == (a + b.push(x)).to_multiset(),
{
    broadcast use vstd::seq_lib::group_to_multiset_ensures;

    let all = a.insert(i, x) + b;
    assert(all.remove(i) =~= a + b);
    assert(all[i] == x);
    assert(all.to_multiset().count(x) > 0) by {
        assert(all.contains(x));
    }
    assert(a + b.push(x) =~= (a + b).push(x));
    assert(all.to_multiset() =~= (a + b).to_multiset().insert(x));
}

/// The same file once more.
pub fn copy_file(f: &LogFile) -> (r: LogFile)
    ensures
        r@ == f@,
{
    let bytes: Vec<u8> = copy_range(f.bytes.as_slice(), 0, f.bytes.len());
    assert(bytes@ =~= f.bytes@);
    LogFile { name: f.name.clone(), bytes }
}

/// Recovering from a record on gives what the whole log gives, but for the records
/// before that one, and it finds the log broken where the whole log is.
pub proof fn lemma_recover_from(
    files: Seq<Seq<u8>>,
    max: int,
    es: Seq<segment::WalEntryView>,
    rest: Seq<u8>,
)
    requires
        files.len() > 0,
        files[0] == segment::records(es) + rest,
        forall|i: int| 0 <= i < es.len() ==> segment::readable(#[trigger] es[i]),
    ensures
        ({
            let start = segment::records(es).len() as int;
            let all = recover_log(files, max, 0, nothing_carried(), 0);
            let part = recover_log(files, max, start, nothing_carried(), 0);
            &&& all.entries == es + part.entries
            &&& all.broken == part.broken
        }),
{
    let b = files[0];
    let p = segment::records(es).len() as int;
    let none = nothing_carried();
    segment::lemma_records_round_trip(es);
    segment::lemma_parse_extend(segment::records(es), rest, 0);
    segment::lemma_parse_from(b, p, p);
    assert(readable_bytes(b, 0, none) =~= b);
    assert(readable_bytes(b, p, none) =~= b.skip(p));
    segment::lemma_parse_end(b.skip(p), 0);
    let whole = segment::parse_log(b, 0);
    let part = segment::parse_log(b.skip(p), 0);
    assert(whole.entries == es + part.entries);
    let all = recover_log(files, max, 0, none, 0);
    let tail = recover_log(files, max, p, none, 0);
    match outcome(part.end, b.len() - p, b.len() == max, 0) {
        Outcome::Carry(q) => {
            assert(outcome(whole.end, b.len() as int, b.len() == max, 0) == Outcome::Carry(q + p));
            assert(b.skip(p).subrange(q, q + HEADER_SIZE) =~= b.subrange(
                q + p,
                q + p + HEADER_SIZE,
            ));
        },
        _ => {},
    }
    assert(all.entries =~= es + tail.entries);
}

/// A record whose checksum does not agree ends the log. The records before it are
/// recovered, nothing behind it is, whatever that holds and however many files
/// follow, and the log is broken where the record begins.
pub proof fn lemma_corrupted_record_ends_log(
    es: Seq<segment::WalEntryView>,
    e: segment::WalEntryView,
    sum: Seq<u8>,
    rest: Seq<u8>,
    others: Seq<Seq<u8>>,
    max: int,
)
    requires
        forall|i: int| 0 <= i < es.len() ==> segment::readable(#[trigger] es[i]),
        segment::readable(e),
        sum.len() == 4,
        sum != segment::record_bytes(e).subrange(4, 8),
    ensures
        ({
            let r = segment::record_bytes(e);
            let file = segment::records(es) + (r.take(4) + sum + r.skip(8) + rest);
            let log = recover_log(seq![file] + others, max, 0, nothing_carried(), 0);
            &&& log.entries == es
            &&& log.broken == Some((0int, segment::records(es).len() as int))
        }),
{
    let r = segment::record_bytes(e);
    let file = segment::records(es) + (r.take(4) + sum + r.skip(8) + rest);
    segment::lemma_wrong_checksum(es, e, sum, rest);
    segment::lemma_record_len(e);
    assert((seq![file] + others)[0] == file);
    assert(readable_bytes(file, 0, nothing_carried()) =~= file);
}

/// What the steps on the files of a log do. A file that is created is empty and
/// stands behind the others. Bytes are appended to the last file. A file that is
/// cut off keeps its first bytes. A file that is removed is there no more. Every
/// other file stays as it is.
pub proof fn lemma_steps_on_files(files: Seq<FileView>, step: StepView, i: int)
    requires
        0 <= i < files.len(),
    ensures
        match step {
            StepView::Create(name) => {
                &&& perform(files, step).len() == files.len() + 1
                &&& perform(files, step)[i] == files[i]
                &&& perform(files, step).last().name == name
                &&& perform(files, step).last().bytes.len() == 0
            },
            StepView::Append(bytes) => {
                &&& perform(files, step).len() == files.len()
                &&& i < files.len() - 1 ==> perform(files, step)[i] == files[i]
                &&& perform(files, step).last().name == files.last().name
                &&& perform(files, step).last().bytes == files.last().bytes + bytes
            },
            StepView::Truncate(name, n) => {
                &&& perform(files, step).len() == files.len()
                &&& perform(files, step)[i].name == files[i].name
                &&& files[i].name != name ==> perform(files, step)[i].bytes == files[i].bytes
                &&& files[i].name == name && 0 <= n <= files[i].bytes.len() ==> perform(
                    files,
                    step,
                )[i].bytes == files[i].bytes.take(n)
            },
            StepView::Remove(name) => {
                &&& perform(files, step).contains(files[i]) <==> files[i].name != name
                &&& forall|k: int|
                    0 <= k < perform(files, step).len() ==> (#[trigger] perform(
                        files,
                        step,
                    )[k]).name != name && files.contains(perform(files, step)[k])
            },
        },
{
    if let StepView::Remove(name) = step {
        let now = perform(files, step);
        lemma_without(files, name, files[i]);
        assert(files.contains(files[i]));
        assert forall|k: int| 0 <= k < now.len() implies (#[trigger] now[k]).name != name
            && files.contains(now[k]) by {
            lemma_without(files, name, now[k]);
            assert(now.contains(now[k]));
        }
    }
}

/// The files without those of a name are the others.
proof fn lemma_without(files: Seq<FileView>, name: Seq<char>, f: FileView)
    ensures
        without(files, name).contains(f) <==> files.contains(f) && f.name != name,
    decreases files.len(),
{
    let all = without(files, name);
    if files.len() > 0 {
        let init = files.drop_last();
        let rest = without(init, name);
        let last = files.last();
        lemma_without(init, name, f);
        assert(files =~= init.push(last));
        assert(files.contains(f) <==> init.contains(f) || f == last) by {
            if init.contains(f) {
                let i = choose|i: int| 0 <= i < init.len() && init[i] == f;
                assert(files[i] == f);
            }
            assert(files[files.len() - 1] == last);
            if files.contains(f) && f != last {
                let i = choose|i: int| 0 <= i < files.len() && files[i] == f;
                assert(init[i] == f);
            }
        }
        if last.name != name {
            assert(all == rest.push(last));
            assert(all.contains(f) <==> rest.contains(f) || f == last) by {
                if rest.contains(f) {
                    let i = choose|i: int| 0 <= i < rest.len() && rest[i] == f;
                    assert(all[i] == f);
                }
                assert(all[all.len() - 1] == last);
                if all.contains(f) && f != last {
                    let i = choose|i: int| 0 <= i < all.len() && all[i] == f;
                    assert(rest[i] == f);
                }
            }
        }
    }
}

} // verus!
