//! Flushing the in-memory table to a segment of level zero.

use crate::codec::byte_len;
use crate::storage_engine::memtable::Table;
use crate::storage_engine::sstable::level::segment;
use crate::storage_engine::sstable::level::segment::SegmentWriter;
use crate::storage_engine::sstable::{SsTable, SsTableEntry};
use crate::storage_engine::sstable;
use vstd::prelude::*;
use vstd::utf8::encode_utf8;

verus! {

/// The file that a table is flushed to.
#[derive(Debug, PartialEq)]
pub struct SegmentFile {
    pub filename: String,
    pub bytes: Vec<u8>,
}

/// Turns the in-memory table into a file.
pub trait MemTableFlush {
    /// The file of the flushed table, or nothing where the table cannot be
    /// flushed.
    fn flush(&self, table: &Table) -> (r: Option<SegmentFile>)
        requires
            table.wf(),
    ;
}

/// Flushes a table to a segment of level zero.
pub struct Flusher {
    segment_number: u64,
    index_sparsity_factor: u32,
}

/// A table with these entries can be flushed to a segment of this number.
pub open spec fn flushable(es: Seq<sstable::EntryView>, number: nat, sparsity: nat) -> bool {
    &&& es.len() > 0
    &&& segment::all_encodable(es)
    &&& segment::frames(es).len() <= usize::MAX
    &&& number < 0x1_0000_0000
    &&& sparsity > 0
}

/// The file that a table with these entries is flushed to.
pub open spec fn flush_file(
    f: SegmentFile,
    es: Seq<sstable::EntryView>,
    number: nat,
    sparsity: nat,
) -> bool {
    &&& f.filename@ == segment::segment_filename(0, number)
    &&& f.bytes@ == segment::image(es, segment::sparse(es, sparsity as int, 0, 0))
}

/// Whether every entry fits, and all of them together.
fn entries_fit(entries: &Vec<SsTableEntry>) -> (r: bool)
    ensures
        r == (segment::all_encodable(segment::entry_views(entries@)) && segment::frames(
            segment::entry_views(entries@),
        ).len() <= usize::MAX),
{
    let ghost es = segment::entry_views(entries@);
    let n: usize = entries.len();
    let mut total: u128 = 0;
    let mut i: usize = 0;
    assert(es.take(0) =~= Seq::<sstable::EntryView>::empty());
    while i < n
        invariant
            i <= n == entries@.len(),
            es == segment::entry_views(entries@),
            total == segment::frames(es.take(i as int)).len(),
            total <= usize::MAX,
            forall|k: int| 0 <= k < i ==> sstable::encodable(#[trigger] es[k]),
        decreases n - i,
    {
        let entry: &SsTableEntry = &entries[i];
        proof {
            assert(es[i as int] == entry@);
            segment::lemma_offset_step(es, i as int);
            segment::lemma_block(es, i + 1, n as int);
        }
        let value_len: u128 = match &entry.value {
            Some(v) => byte_len(v) as u128 + 1,
            None => 1,
        };
        let len: u128 = 20 + byte_len(&entry.key) as u128 + value_len;
        if len > u32::MAX as u128 {
            assert(!sstable::encodable(es[i as int]));
            return false;
        }
        total = total + len + 4;
        if total > usize::MAX as u128 {
            return false;
        }
        i += 1;
    }
    assert(es.take(n as int) =~= es);
    true
}

impl Flusher {
    /// The number of the segment that is written next.
    pub closed spec fn number(&self) -> u64 {
        self.segment_number
    }

    /// One of this many entries is in the index of the segment.
    pub closed spec fn sparsity(&self) -> u32 {
        self.index_sparsity_factor
    }

    /// A flusher that writes the segment of level zero that follows those
    /// there were.
    pub fn from(sstable: &SsTable, sparsity_factor: u32) -> (r: Self)
        requires
            sstable.wf(),
        ensures
            r.number() == sstable.zero_issued() + 1,
            r.sparsity() == sparsity_factor,
    {
        Flusher {
            segment_number: sstable.next_segment_number(),
            index_sparsity_factor: sparsity_factor,
        }
    }
}

impl MemTableFlush for Flusher {
    fn flush(&self, table: &Table) -> (r: Option<SegmentFile>)
        ensures
            r is Some <==> flushable(
                table.entries(),
                self.number() as nat,
                self.sparsity() as nat,
            ),
            r matches Some(f) ==> flush_file(
                f,
                table.entries(),
                self.number() as nat,
                self.sparsity() as nat,
            ),
    {
        let entries: &Vec<SsTableEntry> = table.sorted_entries();
        if entries.len() == 0 || self.segment_number >= 0x1_0000_0000 || self.index_sparsity_factor
            == 0 || !entries_fit(entries) {
            return None;
        }
        let (filename, bytes) = SegmentWriter::segment_file_from_memtable(
            table,
            &self.segment_number,
            &self.index_sparsity_factor,
        );
        Some(SegmentFile { filename, bytes })
    }
}

/// The bytes that an entry takes in a file.
pub open spec fn bytes_in_file(e: sstable::EntryView) -> int {
    25 + encode_utf8(e.key).len() as int + match e.value {
        Some(v) => encode_utf8(v).len() as int,
        None => 0,
    }
}

/// The bytes that entries take in a file.
proof fn lemma_bytes_in_file(es: Seq<sstable::EntryView>)
    ensures
        segment::frames(es).len() == es.map_values(
            |e: sstable::EntryView| bytes_in_file(e),
        ).fold_left(0, |sum: int, n: int| sum + n),
    decreases es.len(),
{
    let lens = es.map_values(|e: sstable::EntryView| bytes_in_file(e));
    if es.len() > 0 {
        lemma_bytes_in_file(es.drop_last());
        assert(es.drop_last().map_values(|e: sstable::EntryView| bytes_in_file(e))
            =~= lens.drop_last());
        segment::lemma_frame_len(es.last());
        assert(segment::frame_len(es.last()) == bytes_in_file(es.last()));
    }
}

/// Every table that is not empty can be flushed, whatever the number of its keys
/// and whatever they are: it is refused only where an entry is too long for its
/// length, where the file would be too large for memory, where the numbers of
/// segments are used up, or where the index would hold one of no entries.
pub proof fn lemma_table_can_be_flushed(es: Seq<sstable::EntryView>, number: nat, sparsity: nat)
    ensures
        flushable(es, number, sparsity) <==> {
            &&& 0 < es.len()
            &&& forall|i: int|
                0 <= i < es.len() ==> bytes_in_file(#[trigger] es[i]) - 4 <= u32::MAX
            &&& es.map_values(|e: sstable::EntryView| bytes_in_file(e)).fold_left(
                0,
                |sum: int, n: int| sum + n,
            ) <= usize::MAX
            &&& number < 0x1_0000_0000
            &&& sparsity > 0
        },
{
    lemma_bytes_in_file(es);
    if segment::all_encodable(es) {
        assert forall|i: int| 0 <= i < es.len() implies bytes_in_file(#[trigger] es[i]) - 4
            <= u32::MAX by {
            assert(sstable::encodable(es[i]));
        }
    }
    if forall|i: int| 0 <= i < es.len() ==> bytes_in_file(#[trigger] es[i]) - 4 <= u32::MAX {
        assert forall|i: int| 0 <= i < es.len() implies sstable::encodable(#[trigger] es[i]) by {
            assert(bytes_in_file(es[i]) - 4 <= u32::MAX);
        }
    }
}

/// Everything that a table holds is in the file that it is flushed to, and
/// nothing else: the file opens as a segment of the number that has exactly the
/// entries of the table, and its name is that of no other level. Its index leads
/// to one of so many entries, beginning with the first.
pub proof fn lemma_flushed_file_holds_table(
    f: SegmentFile,
    es: Seq<sstable::EntryView>,
    number: nat,
    sparsity: nat,
    level: nat,
    other: nat,
)
    requires
        segment::sorted(es),
        flushable(es, number, sparsity),
        flush_file(f, es, number, sparsity),
    ensures
        segment::open_image(f.bytes@) == Some(es),
        segment::number_in(f.filename@) == Some(number),
        0 < level < 0x1_0000_0000 ==> f.filename@ != segment::segment_filename(level, other),
        forall|p: int|
            0 <= p < es.len() ==> #[trigger] segment::indexed(f.bytes@, es, p) == (p % sparsity as int == 0),
{
    segment::lemma_written_opens(es, sparsity as int, 0);
    assert forall|p: int| 0 <= p < es.len() implies #[trigger] segment::indexed(f.bytes@, es, p) == (p
        % sparsity as int == 0) by {
        segment::lemma_written_index(es, sparsity as int, 0, p);
    }
    segment::lemma_number_in(0, number);
    if 0 < level < 0x1_0000_0000 && f.filename@ == segment::segment_filename(level, other) {
        segment::lemma_level_in(0, number, level, other);
    }
}

} // verus!
