//! Sorted string tables: the persistent layer of the store.

pub mod compaction;
pub mod level;
pub mod numbers;
pub mod recency;
pub mod references;
pub mod turns;

use crate::codec::{byte_len, bytes_of, get_le32, get_le64, get_text, put_bytes, put_le};
use crate::codec;
use crate::storage_engine::memtable::MemTableValue;
use compaction::CompactionBt;
use level::{LevelContainer, OverlappingLevel, PartitionedLevel, Segment, SsTableLevel, SstLevel};
use std::sync::Arc;
use vstd::prelude::*;
use vstd::utf8::*;

verus! {

/// A key with what was last written to it. An entry without a value is a
/// tombstone: it says that the key was deleted.
#[derive(Debug, PartialEq)]
pub struct SsTableEntry {
    pub key: String,
    pub value: Option<String>,
    pub sequence_number: u64,
}

/// The model of an entry.
pub struct EntryView {
    pub key: Seq<char>,
    pub value: Option<Seq<char>>,
    pub sequence_number: u64,
}

/// The model of an optional string.
pub open spec fn text_view(s: Option<String>) -> Option<Seq<char>> {
    match s {
        Some(t) => Some(t@),
        None => None,
    }
}

impl View for SsTableEntry {
    type V = EntryView;

    open spec fn view(&self) -> EntryView {
        EntryView {
            key: self.key@,
            value: text_view(self.value),
            sequence_number: self.sequence_number,
        }
    }
}

/// A value as bytes: a mark, one for a tombstone and zero otherwise, and the
/// text.
pub open spec fn value_bytes(value: Option<Seq<char>>) -> Seq<u8> {
    match value {
        Some(v) => seq![0u8] + encode_utf8(v),
        None => seq![1u8],
    }
}

/// The number of bytes of an entry: three lengths of four bytes, the sequence
/// number, the key and the marked value.
pub open spec fn encoded_len(e: EntryView) -> nat {
    20 + encode_utf8(e.key).len() + value_bytes(e.value).len()
}

/// An entry as bytes: its length, the key with its length, the marked value
/// with its length, and the sequence number.
#[verifier::opaque]
pub open spec fn entry_bytes(e: EntryView) -> Seq<u8> {
    codec::le_bytes(encoded_len(e), 4)
        + codec::le_bytes(encode_utf8(e.key).len(), 4)
        + encode_utf8(e.key)
        + codec::le_bytes(value_bytes(e.value).len(), 4)
        + value_bytes(e.value)
        + codec::le_bytes(e.sequence_number as nat, 8)
}

/// The value that marked bytes hold.
pub open spec fn parse_value(b: Seq<u8>) -> Option<Option<Seq<char>>> {
    if b.len() == 0 {
        None
    } else if b[0] == 0 {
        match codec::text(b.drop_first()) {
            Some(v) => Some(Some(v)),
            None => None,
        }
    } else if b[0] == 1 && b.len() == 1 {
        Some(None)
    } else {
        None
    }
}

/// The entry that bytes hold, where they hold exactly one.
#[verifier::opaque]
pub open spec fn parse_entry(b: Seq<u8>) -> Option<EntryView> {
    let n = b.len() as int;
    if n < 20 {
        None
    } else {
        let k = codec::le_value(b.subrange(4, 8)) as int;
        if codec::le_value(b.subrange(0, 4)) != n || k > n - 20 {
            None
        } else {
            let v = codec::le_value(b.subrange(8 + k, 12 + k)) as int;
            if v != n - 20 - k {
                None
            } else {
                match (codec::text(b.subrange(8, 8 + k)), parse_value(b.subrange(12 + k, n - 8))) {
                    (Some(key), Some(value)) => Some(
                        EntryView {
                            key,
                            value,
                            sequence_number: codec::le_value(b.subrange(n - 8, n)) as u64,
                        },
                    ),
                    _ => None,
                }
            }
        }
    }
}

/// The length of an entry fits the four bytes that hold it.
pub open spec fn encodable(e: EntryView) -> bool {
    encoded_len(e) <= u32::MAX
}

pub proof fn lemma_entry_bytes_len(e: EntryView)
    ensures
        entry_bytes(e).len() == encoded_len(e),
{
    reveal(entry_bytes);
    broadcast use codec::lemma_le_bytes_len;

}

proof fn lemma_value_round_trip(value: Option<Seq<char>>)
    ensures
        parse_value(value_bytes(value)) == Some(value),
{
    if let Some(v) = value {
        codec::lemma_text_round_trip(v);
        assert(value_bytes(value).drop_first() =~= encode_utf8(v));
    }
}

/// An entry is read back from its bytes.
pub proof fn lemma_entry_round_trip(e: EntryView)
    requires
        encodable(e),
    ensures
        parse_entry(entry_bytes(e)) == Some(e),
{
    broadcast use codec::lemma_le_bytes_len;

    reveal(entry_bytes);
    reveal(parse_entry);
    let b = entry_bytes(e);
    let n = b.len() as int;
    let key = encode_utf8(e.key);
    let value = value_bytes(e.value);
    let k = key.len() as int;
    lemma_entry_bytes_len(e);
    codec::lemma_byte_bounds();
    assert(b.subrange(0, 4) =~= codec::le_bytes(encoded_len(e), 4));
    assert(b.subrange(4, 8) =~= codec::le_bytes(key.len(), 4));
    assert(b.subrange(8, 8 + k) =~= key);
    assert(b.subrange(8 + k, 12 + k) =~= codec::le_bytes(value.len(), 4));
    assert(b.subrange(12 + k, n - 8) =~= value);
    assert(b.subrange(n - 8, n) =~= codec::le_bytes(e.sequence_number as nat, 8));
    codec::lemma_le_round_trip(encoded_len(e), 4);
    codec::lemma_le_round_trip(key.len(), 4);
    codec::lemma_le_round_trip(value.len(), 4);
    codec::lemma_le_round_trip(e.sequence_number as nat, 8);
    codec::lemma_text_round_trip(e.key);
    lemma_value_round_trip(e.value);
}

proof fn lemma_value_exact(b: Seq<u8>)
    ensures
        parse_value(b) matches Some(value) ==> value_bytes(value) == b,
{
    if let Some(value) = parse_value(b) {
        if let Some(v) = value {
            decode_utf8_encode_utf8(b.drop_first());
            assert(b =~= seq![b[0]] + b.drop_first());
        } else {
            assert(b =~= seq![1u8]);
        }
    }
}

/// Bytes that hold an entry are the bytes of that entry.
pub proof fn lemma_entry_exact(b: Seq<u8>)
    ensures
        parse_entry(b) matches Some(e) ==> entry_bytes(e) == b && encodable(e),
{
    reveal(entry_bytes);
    reveal(parse_entry);
    if let Some(e) = parse_entry(b) {
        broadcast use codec::lemma_le_bytes_len;

        let n = b.len() as int;
        let k = codec::le_value(b.subrange(4, 8)) as int;
        codec::lemma_byte_bounds();
        codec::lemma_le_value_exact(b.subrange(0, 4));
        codec::lemma_le_value_exact(b.subrange(4, 8));
        codec::lemma_le_value_exact(b.subrange(8 + k, 12 + k));
        codec::lemma_le_value_exact(b.subrange(n - 8, n));
        codec::lemma_le_value_bound(b.subrange(0, 4));
        codec::lemma_le_value_bound(b.subrange(n - 8, n));
        decode_utf8_encode_utf8(b.subrange(8, 8 + k));
        lemma_value_exact(b.subrange(12 + k, n - 8));
        assert(b =~= b.subrange(0, 4) + b.subrange(4, 8) + b.subrange(8, 8 + k) + b.subrange(
            8 + k,
            12 + k,
        ) + b.subrange(12 + k, n - 8) + b.subrange(n - 8, n));
    }
}

impl SsTableEntry {
    /// The bytes of the entry.
    pub fn to_bytes(&self) -> (buf: Vec<u8>)
        requires
            encoded_len(self@) <= usize::MAX,
        ensures
            buf@ == entry_bytes(self@),
    {
        let mut buf: Vec<u8> = Vec::new();
        let entry_len: usize = self.len();
        put_le(&mut buf, entry_len as u64, 4);
        let key: &[u8] = bytes_of(&self.key);
        put_le(&mut buf, key.len() as u64, 4);
        put_bytes(&mut buf, key);
        match &self.value {
            Some(value) => {
                let bytes: &[u8] = bytes_of(value);
                let value_len: usize = bytes.len() + 1;
                put_le(&mut buf, value_len as u64, 4);
                buf.push(0);
                put_bytes(&mut buf, bytes);
            },
            None => {
                put_le(&mut buf, 1, 4);
                buf.push(1);
            },
        }
        put_le(&mut buf, self.sequence_number, 8);
        proof {
            reveal(entry_bytes);
        }
        assert(buf@ =~= entry_bytes(self@));
        buf
    }

    /// The entry that `bytes` hold, or nothing where they hold no entry.
    pub fn parse(bytes: &[u8]) -> (r: Option<Self>)
        ensures
            r is Some <==> parse_entry(bytes@) is Some,
            r matches Some(e) ==> parse_entry(bytes@) == Some(e@),
    {
        proof {
            reveal(parse_entry);
        }
        let n: usize = bytes.len();
        if n < 20 {
            return None;
        }
        let entry_len: u32 = get_le32(bytes, 0);
        let k: usize = get_le32(bytes, 4) as usize;
        if entry_len as usize != n || k > n - 20 {
            return None;
        }
        let v: usize = get_le32(bytes, 8 + k) as usize;
        if v != n - 20 - k {
            return None;
        }
        let key: String = match get_text(bytes, 8, 8 + k) {
            Some(key) => key,
            None => {
                return None;
            },
        };
        let ghost b = bytes@.subrange(12 + k, n - 8);
        if v == 0 {
            return None;
        }
        assert(b[0] == bytes@[12 + k]);
        assert(b.drop_first() =~= bytes@.subrange(13 + k, n - 8));
        let value: Option<String> = if bytes[12 + k] == 0 {
            match get_text(bytes, 13 + k, n - 8) {
                Some(value) => Some(value),
                None => {
                    return None;
                },
            }
        } else if bytes[12 + k] == 1 && v == 1 {
            None
        } else {
            return None;
        };
        let sequence_number: u64 = get_le64(bytes, n - 8);
        Some(SsTableEntry { key, value, sequence_number })
    }

    /// The entry that `bytes` hold.
    pub fn from_bytes(bytes: &Vec<u8>) -> (e: Self)
        requires
            parse_entry(bytes@) is Some,
        ensures
            parse_entry(bytes@) == Some(e@),
    {
        SsTableEntry::parse(bytes.as_slice()).unwrap()
    }

    /// The number of bytes of the entry.
    pub fn len(&self) -> (n: usize)
        requires
            encoded_len(self@) <= usize::MAX,
        ensures
            n == encoded_len(self@),
    {
        let value_len: usize = match &self.value {
            None => 1,
            Some(v) => byte_len(v) + 1,
        };
        20 + byte_len(&self.key) + value_len
    }

    /// The entry of a key and what the in-memory table holds for it.
    pub fn from(key: String, value: MemTableValue) -> (e: Self)
        ensures
            e.key == key,
            e.value == value.value,
            e.sequence_number == value.sequence_number,
    {
        SsTableEntry { key, value: value.value, sequence_number: value.sequence_number }
    }
}

impl Clone for SsTableEntry {
    fn clone(&self) -> (e: Self)
        ensures
            e == *self,
    {
        SsTableEntry {
            key: self.key.clone(),
            value: self.value.clone(),
            sequence_number: self.sequence_number,
        }
    }
}

/// The highest sequence number of the levels, zero where there is no segment.
pub open spec fn levels_highest(levels: Seq<PartitionedLevel>) -> u64
    decreases levels.len(),
{
    if levels.len() == 0 {
        0
    } else {
        level::later_number(
            levels_highest(levels.drop_last()),
            level::highest_sequence(levels.last().segs()),
        )
    }
}

/// The sorted string table: all levels, and whether level zero is to be
/// compacted.
pub struct SsTable {
    inner: LevelContainer,
    do_compact: bool,
}

impl SsTable {
    /// The segments of level zero.
    pub closed spec fn zero(&self) -> Seq<Arc<Segment>> {
        self.inner.zero().segs()
    }

    /// The size that level zero should not exceed.
    pub closed spec fn zero_target(&self) -> u64 {
        self.inner.zero().target()
    }

    /// The highest number that a segment of level zero ever had.
    pub closed spec fn zero_issued(&self) -> u64 {
        self.inner.zero().issued()
    }

    /// The levels behind level zero.
    pub closed spec fn levels(&self) -> Seq<PartitionedLevel> {
        self.inner.levels()
    }

    /// Level zero is to be compacted.
    pub closed spec fn compaction_due(&self) -> bool {
        self.do_compact
    }

    /// Every level is well formed.
    pub closed spec fn wf(&self) -> bool {
        self.inner.wf()
    }

    /// The entry that a lookup of a key gives.
    pub open spec fn lookup(&self, key: Seq<char>) -> Option<EntryView> {
        recency::table_lookup(self.zero(), self.levels(), key)
    }

    /// The highest sequence number of the table, zero where it has no segment.
    pub open spec fn highest_sequence(&self) -> u64 {
        level::later_number(level::highest_sequence(self.zero()), levels_highest(self.levels()))
    }

    /// A table without segments.
    pub fn start(level_zero_target_size: u64) -> (r: Self)
        ensures
            r.wf(),
            r.zero() == Seq::<Arc<Segment>>::empty(),
            r.levels() == Seq::<PartitionedLevel>::empty(),
            r.zero_target() == level_zero_target_size,
            r.zero_issued() == 0,
            !r.compaction_due(),
    {
        SsTable { inner: LevelContainer::new(level_zero_target_size), do_compact: false }
    }

    /// The entry of a key: that of level zero, else that of the first level
    /// that has one.
    pub fn get(&self, key: &String) -> (r: Option<SsTableEntry>)
        requires
            self.wf(),
        ensures
            level::segment::entry_view(r) == self.lookup(key@),
    {
        let level_zero = self.inner.level_zero();
        let partitioned_levels = self.inner.partitioned_levels();
        let ghost ls = level::levels_of(partitioned_levels@);
        let r: Option<SsTableEntry> = level_zero.get(key);
        if r.is_some() {
            return r;
        }
        let n: usize = partitioned_levels.len();
        let mut i: usize = 0;
        assert(ls.skip(0) =~= ls);
        while i < n
            invariant
                i <= n == partitioned_levels@.len(),
                ls == level::levels_of(partitioned_levels@),
                level::levels_wf(ls),
                ls == self.levels(),
                level::overlapping_lookup(self.zero(), key@) is None,
                recency::levels_lookup(ls, key@) == recency::levels_lookup(ls.skip(i as int), key@),
            decreases n - i,
        {
            assert(ls[i as int] == partitioned_levels@[i as int].inner());
            assert(ls.skip(i as int)[0] == ls[i as int]);
            assert(ls.skip(i as int).drop_first() =~= ls.skip(i + 1));
            assert(ls[i as int].wf());
            let r: Option<SsTableEntry> = partitioned_levels[i].get(key);
            if r.is_some() {
                return r;
            }
            i += 1;
        }
        None
    }

    /// Adds the file of a flushed table as the newest segment of level zero,
    /// and notes whether level zero is to be compacted. Gives whether the file
    /// holds a segment; where it does not, nothing changes.
    pub fn find_and_add_segment(&mut self, filename: String, data: Vec<u8>) -> (r: bool)
        requires
            old(self).wf(),
        ensures
            final(self).wf(),
            final(self).levels() == old(self).levels(),
            final(self).zero_target() == old(self).zero_target(),
            r == (level::segment::open_image(data@) is Some && level::segment::number_in(
                filename@,
            ) is Some),
            r ==> {
                &&& exists|seg: Segment|
                    {
                        &&& final(self).zero() == old(self).zero().push(Arc::new(seg))
                        &&& #[trigger] seg.wf()
                        &&& seg.contents() == data@
                        &&& seg.name() == filename@
                        &&& final(self).zero_issued() == level::later_number(
                            old(self).zero_issued(),
                            seg.numbered(),
                        )
                    }
                &&& final(self).compaction_due() == level::exceeds(
                    final(self).zero(),
                    final(self).zero_target(),
                )
            },
            !r ==> {
                &&& final(self).zero() == old(self).zero()
                &&& final(self).zero_issued() == old(self).zero_issued()
                &&& final(self).compaction_due() == old(self).compaction_due()
            },
    {
        if self.inner.add_to_level_zero(filename, data) {
            self.do_compact = self.inner.do_compact();
            true
        } else {
            false
        }
    }

    /// One turn of the compaction. Gives the names of the files that are to be
    /// removed and whether the compaction goes on.
    pub fn compact(&mut self, task: &mut CompactionBt) -> (r: (Vec<String>, bool))
        requires
            old(self).wf(),
        ensures
            final(self).wf(),
            final(self).zero_target() == old(self).zero_target(),
            final(self).zero_issued() == old(self).zero_issued(),
            final(self).compaction_due() == (old(self).compaction_due() && !r.1),
            compaction::turned(
                (compaction::TurnView {
                    zero: old(self).zero(),
                    levels: old(self).levels(),
                    waiting: old(task).to_delete(),
                    counts: old(task).counted(),
                }),
                old(self).zero_target(),
                old(self).compaction_due(),
                (compaction::TurnView {
                    zero: final(self).zero(),
                    levels: final(self).levels(),
                    waiting: final(task).to_delete(),
                    counts: final(task).counted(),
                }),
                compaction::names(r.0@),
                r.1,
            ),
    {
        let do_compact: bool = self.do_compact;
        let (files, goes_on) = task.run(&mut self.inner, do_compact);
        if goes_on {
            self.do_compact = false;
            proof {
                let zero = old(self).inner.zero();
                assert(zero.segs() == old(self).zero());
                assert(zero.target() == old(self).zero_target());
                assert(old(self).inner.levels() == old(self).levels());
                assert(self.inner.levels() == self.levels());
            }
        }
        (files, goes_on)
    }

    /// The levels, the next one after level zero first.
    pub fn partitioned_levels(&self) -> (r: Vec<Arc<SsTableLevel<PartitionedLevel>>>)
        ensures
            level::levels_of(r@) == self.levels(),
    {
        self.inner.partitioned_levels()
    }

    /// The highest number of a segment of a level, zero where there is none.
    pub fn highest_segment_number(&self, level: &u64) -> (n: u64)
        requires
            self.wf(),
        ensures
            n <= u32::MAX,
            *level == 0 ==> n == level::merge::highest_number(self.zero()),
            0 < *level <= self.levels().len() ==> n == level::merge::highest_number(
                self.levels()[*level - 1].segs(),
            ),
            *level > self.levels().len() ==> n == 0,
    {
        if *level == 0 {
            let zero = self.inner.level_zero();
            proof {
                level::lemma_highest_number(self.zero());
            }
            return zero.highest_segment_number();
        }
        let levels = self.inner.partitioned_levels();
        let i: u64 = *level - 1;
        if i < levels.len() as u64 {
            proof {
                assert(self.levels()[i as int] == levels@[i as int].inner());
                assert(self.levels()[i as int].wf());
                level::lemma_highest_number(self.levels()[i as int].segs());
            }
            levels[i as usize].highest_segment_number()
        } else {
            0
        }
    }

    /// The number of the next segment of level zero. It is higher than that of
    /// any segment that the level ever had.
    pub fn next_segment_number(&self) -> (n: u64)
        requires
            self.wf(),
        ensures
            n == self.zero_issued() + 1,
            n <= 0x1_0000_0000,
    {
        self.inner.level_zero().last_number() + 1
    }

    /// The highest sequence number of the table, zero where it has no segment.
    pub fn highest_sequence_number(&self) -> (n: u64)
        requires
            self.wf(),
        ensures
            n == self.highest_sequence(),
    {
        let zero: u64 = self.inner.level_zero().highest_sequence_no();
        let levels = self.inner.partitioned_levels();
        let ghost ls = level::levels_of(levels@);
        let count: usize = levels.len();
        let mut n: u64 = 0;
        let mut i: usize = 0;
        assert(ls.take(0) =~= Seq::<PartitionedLevel>::empty());
        while i < count
            invariant
                i <= count == levels@.len(),
                ls == level::levels_of(levels@),
                level::levels_wf(ls),
                n == levels_highest(ls.take(i as int)),
            decreases count - i,
        {
            assert(ls.take(i + 1).drop_last() =~= ls.take(i as int));
            assert(ls[i as int] == levels@[i as int].inner());
            assert(ls[i as int].wf());
            let highest: u64 = levels[i].highest_sequence_no();
            if highest > n {
                n = highest;
            }
            i += 1;
        }
        assert(ls.take(count as int) =~= ls);
        if n > zero {
            n
        } else {
            zero
        }
    }

    /// Level zero.
    pub fn level_zero(&self) -> (r: Arc<SsTableLevel<OverlappingLevel>>)
        ensures
            r.inner().segs() == self.zero(),
    {
        self.inner.level_zero()
    }
}

/// The highest sequence number of the levels bounds all entries, and one has it.
proof fn lemma_levels_highest(levels: Seq<PartitionedLevel>)
    requires
        level::levels_wf(levels),
    ensures
        forall|e: EntryView| #[trigger]
            recency::held_in(levels, e) ==> e.sequence_number <= levels_highest(levels),
        (exists|e: EntryView| #[trigger] recency::held_in(levels, e)) ==> exists|e: EntryView|
            #[trigger] recency::held_in(levels, e) && e.sequence_number == levels_highest(levels),
        (forall|e: EntryView| !#[trigger] recency::held_in(levels, e)) ==> levels_highest(levels)
            == 0,
    decreases levels.len(),
{
    if levels.len() > 0 {
        let init = levels.drop_last();
        let n = levels.len() - 1;
        let segs = levels[n].segs();
        assert forall|i: int| 0 <= i < init.len() implies (#[trigger] init[i]).wf() by {
            assert(init[i] == levels[i]);
        }
        lemma_levels_highest(init);
        assert(levels[n].wf());
        level::lemma_highest_sequence(segs);
        assert forall|e: EntryView| #[trigger] recency::held_in(levels, e) <==> recency::held_in(
            init,
            e,
        ) || recency::held(segs, e) by {
            if recency::held_in(levels, e) {
                let i = choose|i: int|
                    0 <= i < levels.len() && recency::held((#[trigger] levels[i]).segs(), e);
                if i < n {
                    assert(recency::held(init[i].segs(), e));
                }
            }
            if recency::held_in(init, e) {
                let i = choose|i: int|
                    0 <= i < init.len() && recency::held((#[trigger] init[i]).segs(), e);
                assert(recency::held(levels[i].segs(), e));
            }
            if recency::held(segs, e) {
                assert(recency::held(levels[n].segs(), e));
            }
        }
        assert forall|e: EntryView| #[trigger] recency::held_in(levels, e) implies e.sequence_number
            <= levels_highest(levels) by {
            if recency::held(segs, e) {
                let (i, x) = choose|i: int, x: int|
                    #![trigger segs[i].entries()[x]]
                    0 <= i < segs.len() && 0 <= x < segs[i].entries().len() && segs[i].entries()[x]
                        == e;
                assert(segs[i].entries()[x].sequence_number <= level::highest_sequence(segs));
            }
        }
        if segs.len() > 0 {
            let (i, x) = choose|i: int, x: int|
                0 <= i < segs.len() && 0 <= x < segs[i].entries().len() && (
                #[trigger] segs[i].entries()[x]).sequence_number == level::highest_sequence(segs);
            let e = segs[i].entries()[x];
            assert(recency::held(segs, e));
            assert(recency::held_in(levels, e));
        } else {
            assert(forall|e: EntryView| !#[trigger] recency::held(segs, e));
        }
        if exists|e: EntryView| #[trigger] recency::held_in(init, e) {
            let e = choose|e: EntryView| #[trigger]
                recency::held_in(init, e) && e.sequence_number == levels_highest(init);
            assert(recency::held_in(levels, e));
        }
    }
}

/// The highest sequence number of the table is that of one of its entries, and
/// none has a higher one. Where there is no entry, it is zero.
pub proof fn lemma_highest_of_table(t: SsTable)
    requires
        t.wf(),
    ensures
        forall|e: EntryView| #[trigger]
            recency::present(t.zero(), t.levels(), e) ==> e.sequence_number
                <= t.highest_sequence(),
        (exists|e: EntryView| #[trigger] recency::present(t.zero(), t.levels(), e)) ==> exists|
            e: EntryView,
        | #[trigger]
            recency::present(t.zero(), t.levels(), e) && e.sequence_number == t.highest_sequence(),
        (forall|e: EntryView| !#[trigger] recency::present(t.zero(), t.levels(), e))
            ==> t.highest_sequence() == 0,
{
    let zero = t.zero();
    let levels = t.levels();
    level::lemma_highest_sequence(zero);
    lemma_levels_highest(levels);
    assert forall|e: EntryView| #[trigger] recency::present(zero, levels, e) implies
        e.sequence_number <= t.highest_sequence() by {
        if recency::held(zero, e) {
            let (i, x) = choose|i: int, x: int|
                #![trigger zero[i].entries()[x]]
                0 <= i < zero.len() && 0 <= x < zero[i].entries().len() && zero[i].entries()[x]
                    == e;
            assert(zero[i].entries()[x].sequence_number <= level::highest_sequence(zero));
        }
    }
    if zero.len() > 0 {
        let (i, x) = choose|i: int, x: int|
            0 <= i < zero.len() && 0 <= x < zero[i].entries().len() && (
            #[trigger] zero[i].entries()[x]).sequence_number == level::highest_sequence(zero);
        let e = zero[i].entries()[x];
        assert(recency::held(zero, e));
        assert(recency::present(zero, levels, e));
    } else {
        assert(forall|e: EntryView| !#[trigger] recency::held(zero, e));
    }
    if exists|e: EntryView| #[trigger] recency::held_in(levels, e) {
        let e = choose|e: EntryView| #[trigger]
            recency::held_in(levels, e) && e.sequence_number == levels_highest(levels);
        assert(recency::present(zero, levels, e));
    } else {
        assert(forall|e: EntryView| #[trigger]
            recency::present(zero, levels, e) ==> recency::held(zero, e));
    }
    if forall|e: EntryView| !#[trigger] recency::present(zero, levels, e) {
        assert forall|e: EntryView| !#[trigger] recency::held_in(levels, e) by {
            assert(!recency::present(zero, levels, e));
        }
    }
}

/// What an entry looks like, byte by byte: its length, the key behind its length,
/// the value behind its length and a mark, which is one for a tombstone and zero
/// otherwise, and the sequence number.
pub proof fn lemma_entry_layout(e: EntryView)
    requires
        encoded_len(e) <= u32::MAX,
    ensures
        ({
            let b = entry_bytes(e);
            let k = encode_utf8(e.key).len() as int;
            let n = b.len() as int;
            let v = match e.value {
                Some(v) => encode_utf8(v),
                None => Seq::<u8>::empty(),
            };
            &&& n == 21 + k + v.len()
            &&& codec::le_value(b.subrange(0, 4)) == n
            &&& codec::le_value(b.subrange(4, 8)) == k
            &&& b.subrange(8, 8 + k) == encode_utf8(e.key)
            &&& codec::le_value(b.subrange(8 + k, 12 + k)) == 1 + v.len()
            &&& b[12 + k] == if e.value is Some {
                0u8
            } else {
                1u8
            }
            &&& b.subrange(13 + k, n - 8) == v
            &&& codec::le_value(b.skip(n - 8)) == e.sequence_number
        }),
{
    broadcast use codec::lemma_le_bytes_len;

    let b = entry_bytes(e);
    let n = b.len() as int;
    let key = encode_utf8(e.key);
    let k = key.len() as int;
    let v = value_bytes(e.value);
    lemma_entry_bytes_len(e);
    reveal(entry_bytes);
    codec::lemma_byte_bounds();
    codec::lemma_le_round_trip(encoded_len(e), 4);
    codec::lemma_le_round_trip(key.len(), 4);
    codec::lemma_le_round_trip(v.len(), 4);
    codec::lemma_le_round_trip(e.sequence_number as nat, 8);
    assert(b.subrange(0, 4) =~= codec::le_bytes(encoded_len(e), 4));
    assert(b.subrange(4, 8) =~= codec::le_bytes(key.len(), 4));
    assert(b.subrange(8, 8 + k) =~= key);
    assert(b.subrange(8 + k, 12 + k) =~= codec::le_bytes(v.len(), 4));
    assert(b[12 + k] == v[0]);
    assert(b.subrange(13 + k, n - 8) =~= v.drop_first());
    assert(b.skip(n - 8) =~= codec::le_bytes(e.sequence_number as nat, 8));
    match e.value {
        Some(t) => {
            assert(v.drop_first() =~= encode_utf8(t));
        },
        None => {
            assert(v.drop_first() =~= Seq::<u8>::empty());
        },
    }
}

} // verus!
