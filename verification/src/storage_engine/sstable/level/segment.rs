//! Segments: files of entries sorted by key, with an index and a footer.

use crate::codec::{byte_len, bytes_of, get_le32, get_le64, get_text, put_bytes, put_le};
use crate::codec;
use crate::hex;
use crate::order::{key_equal, key_less};
use crate::order;
use crate::storage_engine::memtable::Table;
use crate::storage_engine::memtable;
use crate::storage_engine::sstable::SsTableEntry;
use crate::storage_engine::sstable;
use std::collections::VecDeque;
use std::sync::Arc;
use vstd::prelude::*;
use vstd::utf8::*;

verus! {

/// The entry in its file: its length and its bytes.
pub open spec fn frame(e: sstable::EntryView) -> Seq<u8> {
    codec::le_bytes(sstable::encoded_len(e), 4) + sstable::entry_bytes(e)
}

/// The number of bytes of an entry in its file.
pub open spec fn frame_len(e: sstable::EntryView) -> nat {
    4 + sstable::encoded_len(e)
}

/// The data block of a file that holds the entries `es`.
pub open spec fn frames(es: Seq<sstable::EntryView>) -> Seq<u8>
    decreases es.len(),
{
    if es.len() == 0 {
        Seq::empty()
    } else {
        frames(es.drop_last()) + frame(es.last())
    }
}

/// Where the entry at position `p` starts in the data block.
pub open spec fn offset_of(es: Seq<sstable::EntryView>, p: int) -> nat {
    frames(es.take(p)).len()
}

/// Every entry has a length that fits the bytes that hold it.
pub open spec fn all_encodable(es: Seq<sstable::EntryView>) -> bool {
    forall|i: int| 0 <= i < es.len() ==> sstable::encodable(#[trigger] es[i])
}

/// Each key comes before the next.
pub open spec fn sorted(es: Seq<sstable::EntryView>) -> bool {
    forall|i: int, j: int| 0 <= i < j < es.len() ==> order::key_lt(
        (#[trigger] es[i]).key,
        (#[trigger] es[j]).key,
    )
}

/// Some entry has the key.
pub open spec fn has_key(es: Seq<sstable::EntryView>, key: Seq<char>) -> bool {
    exists|i: int| 0 <= i < es.len() && (#[trigger] es[i]).key == key
}

/// The entry with the key, where there is one.
pub open spec fn lookup(es: Seq<sstable::EntryView>, key: Seq<char>) -> Option<sstable::EntryView> {
    if has_key(es, key) {
        Some(es[choose|i: int| 0 <= i < es.len() && (#[trigger] es[i]).key == key])
    } else {
        None
    }
}

/// The entries of a data block.
pub open spec fn parse_frames(b: Seq<u8>) -> Option<Seq<sstable::EntryView>>
    decreases b.len(),
{
    if b.len() == 0 {
        Some(Seq::empty())
    } else if b.len() < 4 {
        None
    } else {
        let r = codec::le_value(b.subrange(0, 4)) as int;
        if r > b.len() - 4 {
            None
        } else {
            match (
                sstable::parse_entry(b.subrange(4, 4 + r)),
                parse_frames(b.subrange(4 + r, b.len() as int)),
            ) {
                (Some(e), Some(rest)) => Some(seq![e] + rest),
                _ => None,
            }
        }
    }
}

/// The entries that are whole at the start of a piece of a data block.
pub open spec fn whole_frames(b: Seq<u8>) -> Seq<sstable::EntryView>
    decreases b.len(),
{
    if b.len() < 4 {
        Seq::empty()
    } else {
        let r = codec::le_value(b.subrange(0, 4)) as int;
        if r > b.len() - 4 {
            Seq::empty()
        } else {
            match sstable::parse_entry(b.subrange(4, 4 + r)) {
                Some(e) => seq![e] + whole_frames(b.subrange(4 + r, b.len() as int)),
                None => Seq::empty(),
            }
        }
    }
}

/// The longest run of entries from the start of `es` that takes at most `m`
/// bytes.
pub open spec fn fitting(es: Seq<sstable::EntryView>, m: int) -> Seq<sstable::EntryView>
    decreases es.len(),
{
    if es.len() == 0 || frame_len(es[0]) > m {
        Seq::empty()
    } else {
        seq![es[0]] + fitting(es.drop_first(), m - frame_len(es[0]))
    }
}

/// What is read next of `es` with room for `m` bytes: the entries that fit and,
/// where none is held and not even the first fits, that one alone.
pub open spec fn fetched(es: Seq<sstable::EntryView>, m: int, none_held: bool) -> Seq<
    sstable::EntryView,
> {
    if none_held && es.len() > 0 && frame_len(es[0]) > m {
        es.take(1)
    } else {
        fitting(es, m)
    }
}

pub proof fn lemma_frame_len(e: sstable::EntryView)
    ensures
        frame(e).len() == frame_len(e),
{
    codec::lemma_le_bytes_len(sstable::encoded_len(e), 4);
    sstable::lemma_entry_bytes_len(e);
}

/// The data block of two runs of entries is the block of the first and then
/// that of the second.
pub proof fn lemma_frames_concat(a: Seq<sstable::EntryView>, b: Seq<sstable::EntryView>)
    ensures
        frames(a + b) == frames(a) + frames(b),
    decreases b.len(),
{
    if b.len() == 0 {
        assert(a + b =~= a);
        assert(frames(a) + frames(b) =~= frames(a));
    } else {
        assert((a + b).drop_last() =~= a + b.drop_last());
        assert((a + b).last() == b.last());
        lemma_frames_concat(a, b.drop_last());
        assert(frames(a) + (frames(b.drop_last()) + frame(b.last())) =~= (frames(a) + frames(
            b.drop_last(),
        )) + frame(b.last()));
    }
}

proof fn lemma_frames_one(e: sstable::EntryView)
    ensures
        frames(seq![e]) == frame(e),
{
    assert(seq![e].drop_last() =~= Seq::<sstable::EntryView>::empty());
    assert(frames(Seq::<sstable::EntryView>::empty()) + frame(e) =~= frame(e));
}

/// The first entry of a block, and the block of the rest.
proof fn lemma_frames_first(es: Seq<sstable::EntryView>)
    requires
        es.len() > 0,
    ensures
        frames(es) == frame(es[0]) + frames(es.drop_first()),
{
    assert(es =~= seq![es[0]] + es.drop_first());
    lemma_frames_concat(seq![es[0]], es.drop_first());
    lemma_frames_one(es[0]);
}

/// The pieces of the first frame of a block.
proof fn lemma_first_frame(e: sstable::EntryView, rest: Seq<u8>)
    requires
        sstable::encodable(e),
    ensures
        ({
            let b = frame(e) + rest;
            let r = codec::le_value(b.subrange(0, 4)) as int;
            &&& r == sstable::encoded_len(e)
            &&& b.subrange(4, 4 + r) == sstable::entry_bytes(e)
            &&& sstable::parse_entry(b.subrange(4, 4 + r)) == Some(e)
            &&& b.subrange(4 + r, b.len() as int) == rest
        }),
{
    let b = frame(e) + rest;
    lemma_frame_len(e);
    codec::lemma_le_bytes_len(sstable::encoded_len(e), 4);
    sstable::lemma_entry_bytes_len(e);
    codec::lemma_byte_bounds();
    assert(b.subrange(0, 4) =~= codec::le_bytes(sstable::encoded_len(e), 4));
    codec::lemma_le_round_trip(sstable::encoded_len(e), 4);
    let r = sstable::encoded_len(e) as int;
    assert(b.subrange(4, 4 + r) =~= sstable::entry_bytes(e));
    assert(b.subrange(4 + r, b.len() as int) =~= rest);
    sstable::lemma_entry_round_trip(e);
}

/// The entries of a data block are read back from it.
pub proof fn lemma_frames_round_trip(es: Seq<sstable::EntryView>)
    requires
        all_encodable(es),
    ensures
        parse_frames(frames(es)) == Some(es),
    decreases es.len(),
{
    if es.len() > 0 {
        let rest = es.drop_first();
        assert(all_encodable(rest)) by {
            assert forall|i: int| 0 <= i < rest.len() implies sstable::encodable(
                #[trigger] rest[i],
            ) by {
                assert(rest[i] == es[i + 1]);
            }
        }
        lemma_frames_round_trip(rest);
        lemma_frames_first(es);
        assert(sstable::encodable(es[0]));
        lemma_first_frame(es[0], frames(rest));
        lemma_frame_len(es[0]);
        assert(es =~= seq![es[0]] + rest);
    } else {
        assert(es =~= Seq::<sstable::EntryView>::empty());
    }
}

/// Bytes that hold a framed entry start with the frame of that entry.
proof fn lemma_frame_exact(b: Seq<u8>, r: int, e: sstable::EntryView)
    requires
        b.len() >= 4,
        r == codec::le_value(b.subrange(0, 4)),
        r <= b.len() - 4,
        sstable::parse_entry(b.subrange(4, 4 + r)) == Some(e),
    ensures
        b.subrange(0, 4 + r) == frame(e),
        sstable::encodable(e),
        r == sstable::encoded_len(e),
{
    sstable::lemma_entry_exact(b.subrange(4, 4 + r));
    sstable::lemma_entry_bytes_len(e);
    codec::lemma_le_value_exact(b.subrange(0, 4));
    assert(b.subrange(0, 4 + r) =~= b.subrange(0, 4) + b.subrange(4, 4 + r));
}

proof fn lemma_encodable_cons(e: sstable::EntryView, rest: Seq<sstable::EntryView>)
    requires
        sstable::encodable(e),
        all_encodable(rest),
    ensures
        all_encodable(seq![e] + rest),
{
    let es = seq![e] + rest;
    assert forall|i: int| 0 <= i < es.len() implies sstable::encodable(#[trigger] es[i]) by {
        if i > 0 {
            assert(es[i] == rest[i - 1]);
        }
    }
}

/// A block that holds entries is the block of these entries.
pub proof fn lemma_frames_exact(b: Seq<u8>)
    ensures
        parse_frames(b) matches Some(es) ==> frames(es) == b && all_encodable(es),
    decreases b.len(),
{
    if b.len() == 0 {
        assert(b =~= frames(Seq::<sstable::EntryView>::empty()));
    } else if parse_frames(b) is Some {
        let r = codec::le_value(b.subrange(0, 4)) as int;
        let e = sstable::parse_entry(b.subrange(4, 4 + r)).unwrap();
        let tail = b.subrange(4 + r, b.len() as int);
        let rest = parse_frames(tail).unwrap();
        lemma_frames_exact(tail);
        lemma_frame_exact(b, r, e);
        lemma_frames_concat(seq![e], rest);
        lemma_frames_one(e);
        lemma_encodable_cons(e, rest);
        assert(b =~= b.subrange(0, 4 + r) + tail);
    }
}

/// The whole entries of a piece of a block are those that fit the piece.
pub proof fn lemma_whole_frames(es: Seq<sstable::EntryView>, m: int)
    requires
        all_encodable(es),
        0 <= m <= frames(es).len(),
    ensures
        whole_frames(frames(es).take(m)) == fitting(es, m),
    decreases es.len(),
{
    let b = frames(es).take(m);
    if es.len() > 0 {
        let rest = es.drop_first();
        lemma_frames_first(es);
        lemma_frame_len(es[0]);
        assert(sstable::encodable(es[0]));
        lemma_first_frame(es[0], frames(rest));
        let all = frames(es);
        let n = sstable::encoded_len(es[0]) as int;
        if m >= 4 {
            assert(b.subrange(0, 4) =~= all.subrange(0, 4));
            if frame_len(es[0]) <= m {
                assert(b.subrange(4, 4 + n) =~= all.subrange(4, 4 + n));
                assert(b.subrange(4 + n, m) =~= frames(rest).take(m - frame_len(es[0])));
                assert(all_encodable(rest)) by {
                    assert forall|i: int| 0 <= i < rest.len() implies sstable::encodable(
                        #[trigger] rest[i],
                    ) by {
                        assert(rest[i] == es[i + 1]);
                    }
                }
                lemma_whole_frames(rest, m - frame_len(es[0]));
            }
        }
    }
}

/// The bytes that mark a segment file: "rkvs".
pub open spec fn magic_bytes() -> Seq<u8> {
    seq![0x72u8, 0x6Bu8, 0x76u8, 0x73u8]
}

/// An entry of the index: a key and where its entry starts in the data block.
#[derive(Debug, PartialEq)]
pub struct SegmentIndexEntry {
    pub key: String,
    pub offset: u64,
}

/// The model of an index entry.
pub struct IndexEntryView {
    pub key: Seq<char>,
    pub offset: u64,
}

impl View for SegmentIndexEntry {
    type V = IndexEntryView;

    open spec fn view(&self) -> IndexEntryView {
        IndexEntryView { key: self.key@, offset: self.offset }
    }
}

/// An index entry as bytes: the length of the key in four bytes, four zeros,
/// the key and the offset.
pub open spec fn index_entry_bytes(x: IndexEntryView) -> Seq<u8> {
    codec::le_bytes(encode_utf8(x.key).len(), 4) + codec::le_bytes(0, 4) + encode_utf8(x.key)
        + codec::le_bytes(x.offset as nat, 8)
}

/// The index entry at the start of some bytes, where there is one, by the
/// four bytes of the length of its key.
pub open spec fn parse_index_entry(b: Seq<u8>) -> Option<IndexEntryView> {
    let k = codec::le_value(b.subrange(0, 4)) as int;
    if b.len() < 16 || k > b.len() - 16 {
        None
    } else {
        match codec::text(b.subrange(8, 8 + k)) {
            Some(key) => Some(
                IndexEntryView {
                    key,
                    offset: codec::le_value(b.subrange(8 + k, 16 + k)) as u64,
                },
            ),
            None => None,
        }
    }
}

/// An index entry is read back from its bytes.
pub proof fn lemma_index_entry_round_trip(x: IndexEntryView)
    requires
        encode_utf8(x.key).len() <= u32::MAX,
    ensures
        parse_index_entry(index_entry_bytes(x)) == Some(x),
{
    broadcast use codec::lemma_le_bytes_len;

    let b = index_entry_bytes(x);
    let k = encode_utf8(x.key).len() as int;
    codec::lemma_byte_bounds();
    assert(b.subrange(0, 4) =~= codec::le_bytes(k as nat, 4));
    assert(b.subrange(8, 8 + k) =~= encode_utf8(x.key));
    assert(b.subrange(8 + k, 16 + k) =~= codec::le_bytes(x.offset as nat, 8));
    codec::lemma_le_round_trip(k as nat, 4);
    codec::lemma_le_round_trip(x.offset as nat, 8);
    codec::lemma_text_round_trip(x.key);
}

impl SegmentIndexEntry {
    /// The bytes of the index entry.
    pub fn to_bytes(&self) -> (buf: Vec<u8>)
        ensures
            buf@ == index_entry_bytes(self@),
    {
        let mut buf: Vec<u8> = Vec::new();
        let key: &[u8] = bytes_of(&self.key);
        put_le(&mut buf, key.len() as u64, 4);
        put_le(&mut buf, 0, 4);
        put_bytes(&mut buf, key);
        put_le(&mut buf, self.offset, 8);
        assert(buf@ =~= index_entry_bytes(self@));
        buf
    }

    /// The index entry at the start of `buf`.
    pub fn from_bytes(buf: &Vec<u8>) -> (x: Self)
        requires
            parse_index_entry(buf@) is Some,
        ensures
            parse_index_entry(buf@) == Some(x@),
    {
        let n: usize = buf.len();
        let key_len: usize = get_le32(buf.as_slice(), 0) as usize;
        let key: Option<String> = get_text(buf.as_slice(), 8, 8 + key_len);
        let offset: u64 = get_le64(buf.as_slice(), 8 + key_len);
        SegmentIndexEntry { key: key.unwrap(), offset }
    }
}

/// The index of a segment: some of its keys, in order, and where their entries
/// start.
#[derive(Debug, PartialEq)]
pub struct SegmentIndex {
    indices: Vec<SegmentIndexEntry>,
    len: usize,
}

/// What the index says of a key: where its entry starts, or between which
/// offsets it can only be. A range without an end reaches to the end of the
/// data block.
#[derive(Debug, PartialEq)]
pub enum IndexSearchResult {
    Match(u64),
    Range(u64, Option<u64>),
}

/// The keys of an index never go down.
pub open spec fn index_sorted(idx: Seq<IndexEntryView>) -> bool {
    forall|i: int, j: int| 0 <= i <= j < idx.len() ==> order::key_le(
        (#[trigger] idx[i]).key,
        (#[trigger] idx[j]).key,
    )
}

/// The last position whose key does not come after `key`, or -1.
pub open spec fn index_position(idx: Seq<IndexEntryView>, key: Seq<char>) -> int
    decreases idx.len(),
{
    if idx.len() == 0 {
        -1
    } else if order::key_le(idx.last().key, key) {
        idx.len() - 1
    } else {
        index_position(idx.drop_last(), key)
    }
}

/// What the index `idx` says of `key`.
pub open spec fn index_search(idx: Seq<IndexEntryView>, key: Seq<char>) -> IndexSearchResult {
    let i = index_position(idx, key);
    if i < 0 {
        IndexSearchResult::Range(
            0,
            if idx.len() == 0 {
                None
            } else {
                Some(idx[0].offset)
            },
        )
    } else if idx[i].key == key {
        IndexSearchResult::Match(idx[i].offset)
    } else {
        IndexSearchResult::Range(
            idx[i].offset,
            if i + 1 < idx.len() {
                Some(idx[i + 1].offset)
            } else {
                None
            },
        )
    }
}

/// The bytes of an index: those of its entries, one after the other.
pub open spec fn index_bytes(idx: Seq<IndexEntryView>) -> Seq<u8>
    decreases idx.len(),
{
    if idx.len() == 0 {
        Seq::empty()
    } else {
        index_bytes(idx.drop_last()) + index_entry_bytes(idx.last())
    }
}

/// The index that bytes hold. The length of a key is read from eight bytes.
pub open spec fn parse_index(b: Seq<u8>) -> Option<Seq<IndexEntryView>>
    decreases b.len(),
{
    if b.len() == 0 {
        Some(Seq::empty())
    } else {
        let k = codec::le_value(b.subrange(0, 8)) as int;
        if b.len() < 16 || k > b.len() - 16 {
            None
        } else {
            match (
                codec::text(b.subrange(8, 8 + k)),
                parse_index(b.subrange(16 + k, b.len() as int)),
            ) {
                (Some(key), Some(rest)) => Some(
                    seq![
                        IndexEntryView {
                            key,
                            offset: codec::le_value(b.subrange(8 + k, 16 + k)) as u64,
                        },
                    ] + rest,
                ),
                _ => None,
            }
        }
    }
}

/// The bytes that the keys of an index take, with twelve more for each.
pub open spec fn index_len(idx: Seq<IndexEntryView>) -> nat
    decreases idx.len(),
{
    if idx.len() == 0 {
        0
    } else {
        index_len(idx.drop_last()) + encode_utf8(idx.last().key).len() + 12
    }
}

/// The bytes that the keys of an index take, with eight more for each.
pub open spec fn index_size(idx: Seq<IndexEntryView>) -> nat
    decreases idx.len(),
{
    if idx.len() == 0 {
        0
    } else {
        index_size(idx.drop_last()) + encode_utf8(idx.last().key).len() + 8
    }
}

pub proof fn lemma_index_position(idx: Seq<IndexEntryView>, key: Seq<char>)
    ensures
        ({
            let i = index_position(idx, key);
            &&& -1 <= i < idx.len()
            &&& i >= 0 ==> order::key_le(idx[i].key, key)
            &&& forall|j: int| i < j < idx.len() ==> !order::key_le((#[trigger] idx[j]).key, key)
        }),
    decreases idx.len(),
{
    if idx.len() > 0 && !order::key_le(idx.last().key, key) {
        let init = idx.drop_last();
        lemma_index_position(init, key);
        let i = index_position(init, key);
        assert forall|j: int| i < j < idx.len() implies !order::key_le(
            (#[trigger] idx[j]).key,
            key,
        ) by {
            if j < init.len() {
                assert(init[j] == idx[j]);
            }
        }
    }
}

proof fn lemma_index_bytes_concat(a: Seq<IndexEntryView>, b: Seq<IndexEntryView>)
    ensures
        index_bytes(a + b) == index_bytes(a) + index_bytes(b),
    decreases b.len(),
{
    if b.len() == 0 {
        assert(a + b =~= a);
        assert(index_bytes(a) + index_bytes(b) =~= index_bytes(a));
    } else {
        assert((a + b).drop_last() =~= a + b.drop_last());
        lemma_index_bytes_concat(a, b.drop_last());
        assert(index_bytes(a) + (index_bytes(b.drop_last()) + index_entry_bytes(b.last())) =~= (
        index_bytes(a) + index_bytes(b.drop_last())) + index_entry_bytes(b.last()));
    }
}

/// Every key of the index has a length that fits four bytes.
pub open spec fn index_encodable(idx: Seq<IndexEntryView>) -> bool {
    forall|i: int| 0 <= i < idx.len() ==> encode_utf8((#[trigger] idx[i]).key).len() <= u32::MAX
}

/// An index is read back from its bytes.
pub proof fn lemma_index_round_trip(idx: Seq<IndexEntryView>)
    requires
        index_encodable(idx),
    ensures
        parse_index(index_bytes(idx)) == Some(idx),
    decreases idx.len(),
{
    if idx.len() == 0 {
        assert(idx =~= Seq::<IndexEntryView>::empty());
    } else {
        broadcast use codec::lemma_le_bytes_len;

        let x = idx[0];
        let rest = idx.drop_first();
        assert(index_encodable(rest)) by {
            assert forall|i: int| 0 <= i < rest.len() implies encode_utf8(
                (#[trigger] rest[i]).key,
            ).len() <= u32::MAX by {
                assert(rest[i] == idx[i + 1]);
            }
        }
        lemma_index_round_trip(rest);
        assert(idx =~= seq![x] + rest);
        lemma_index_bytes_concat(seq![x], rest);
        assert(seq![x].drop_last() =~= Seq::<IndexEntryView>::empty());
        assert(index_bytes(Seq::<IndexEntryView>::empty()) + index_entry_bytes(x)
            =~= index_entry_bytes(x));
        let b = index_bytes(idx);
        let k = encode_utf8(x.key).len() as int;
        assert(k <= u32::MAX);
        codec::lemma_byte_bounds();
        codec::lemma_le_bytes_widen(k as nat, 4, 4);
        codec::lemma_le_round_trip(k as nat, 8);
        codec::lemma_le_round_trip(x.offset as nat, 8);
        codec::lemma_text_round_trip(x.key);
        assert(b.subrange(0, 8) =~= codec::le_bytes(k as nat, 8));
        assert(b.subrange(8, 8 + k) =~= encode_utf8(x.key));
        assert(b.subrange(8 + k, 16 + k) =~= codec::le_bytes(x.offset as nat, 8));
        assert(b.subrange(16 + k, b.len() as int) =~= index_bytes(rest));
    }
}

impl View for SegmentIndex {
    type V = Seq<IndexEntryView>;

    closed spec fn view(&self) -> Seq<IndexEntryView> {
        self.indices@.map_values(|x: SegmentIndexEntry| x@)
    }
}

impl SegmentIndex {
    /// The length that the index keeps is that of its entries.
    pub closed spec fn wf(&self) -> bool {
        self.len == index_len(self@)
    }

    /// An index without entries.
    pub fn new() -> (r: Self)
        ensures
            r@ == Seq::<IndexEntryView>::empty(),
            r.wf(),
    {
        let r = SegmentIndex { indices: Vec::new(), len: 0 };
        assert(r@ =~= Seq::<IndexEntryView>::empty());
        r
    }

    /// What the index says of a key.
    pub fn find(&self, key: &String) -> (r: IndexSearchResult)
        requires
            index_sorted(self@),
        ensures
            r == index_search(self@, key@),
    {
        proof {
            lemma_index_position(self@, key@);
            order::lemma_key_lt_total(key@, self@[0].key);
        }
        if self.indices.len() == 0 {
            IndexSearchResult::Range(0, None)
        } else if key_less(key, &self.indices[0].key) {
            proof {
                broadcast use order::group_key_order;

                let i = index_position(self@, key@);
                if i >= 0 {
                    assert(order::key_le(self@[0].key, self@[i].key));
                }
            }
            assert(self@[0] == self.indices@[0]@);
            IndexSearchResult::Range(0, Some(self.indices[0].offset))
        } else {
            assert(self@[0] == self.indices@[0]@);
            let (entry, idx) = self.binary_search(key);
            assert(self@[idx as int] == self.indices@[idx as int]@);
            if key_equal(key, &entry.key) {
                IndexSearchResult::Match(entry.offset)
            } else if idx < self.indices.len() - 1 {
                assert(self@[idx + 1] == self.indices@[idx + 1]@);
                IndexSearchResult::Range(entry.offset, Some(self.indices[idx + 1].offset))
            } else {
                IndexSearchResult::Range(entry.offset, None)
            }
        }
    }

    /// The last entry whose key does not come after `key`, with its position.
    pub fn binary_search(&self, key: &String) -> (r: (&SegmentIndexEntry, usize))
        requires
            index_sorted(self@),
            self@.len() > 0,
            order::key_le(self@[0].key, key@),
        ensures
            r.1 < self@.len(),
            r.0@ == self@[r.1 as int],
            r.1 == index_position(self@, key@),
    {
        let mut l: usize = 0;
        let mut r: usize = self.indices.len() - 1;
        while l < r
            invariant
                l <= r < self@.len(),
                self@.len() == self.indices@.len(),
                index_sorted(self@),
                order::key_le(self@[l as int].key, key@),
                forall|j: int| r < j < self@.len() ==> !order::key_le((#[trigger] self@[j]).key, key@),
            decreases r - l,
        {
            let m: usize = l + (r - l) / 2 + (r - l) % 2;
            assert(self@[m as int] == self.indices@[m as int]@);
            proof {
                order::lemma_key_lt_total(key@, self@[m as int].key);
            }
            if !key_less(key, &self.indices[m].key) {
                l = m;
            } else {
                proof {
                    broadcast use order::group_key_order;

                    assert forall|j: int| m - 1 < j < self@.len() implies !order::key_le(
                        (#[trigger] self@[j]).key,
                        key@,
                    ) by {
                        assert(order::key_le(self@[m as int].key, self@[j].key));
                    }
                }
                r = m - 1;
            }
        }
        proof {
            lemma_index_position(self@, key@);
            assert(self@[l as int] == self.indices@[l as int]@);
        }
        (&self.indices[l], l)
    }

    /// The bytes of the index.
    pub fn to_bytes(&self) -> (buf: Vec<u8>)
        ensures
            buf@ == index_bytes(self@),
    {
        let mut buf: Vec<u8> = Vec::new();
        let n: usize = self.indices.len();
        let mut i: usize = 0;
        assert(self@.take(0) =~= Seq::<IndexEntryView>::empty());
        while i < n
            invariant
                i <= n == self.indices@.len(),
                self@.len() == n,
                buf@ == index_bytes(self@.take(i as int)),
            decreases n - i,
        {
            let bytes: Vec<u8> = self.indices[i].to_bytes();
            put_bytes(&mut buf, bytes.as_slice());
            assert(self@[i as int] == self.indices@[i as int]@);
            assert(self@.take(i + 1).drop_last() =~= self@.take(i as int));
            i += 1;
        }
        assert(self@.take(n as int) =~= self@);
        buf
    }

    /// Adds an entry at the end of the index.
    pub fn add_index(&mut self, key: String, offset: u64)
        requires
            old(self).wf(),
            index_len(old(self)@) + encode_utf8(key@).len() + 12 <= usize::MAX,
        ensures
            final(self).wf(),
            final(self)@ == old(self)@.push(IndexEntryView { key: key@, offset }),
    {
        let ghost before = self@;
        let n: usize = byte_len(&key);
        self.len = self.len + (n + 12);
        let x = SegmentIndexEntry { key, offset };
        let ghost added = x@;
        self.indices.push(x);
        proof {
            assert(self@ =~= before.push(added));
            assert(self@.drop_last() =~= before);
        }
    }

    /// The index that `buf` holds, or nothing where it holds none.
    pub fn parse(buf: &[u8]) -> (r: Option<Self>)
        ensures
            r is Some <==> parse_index(buf@) is Some,
            r matches Some(x) ==> parse_index(buf@) == Some(x@) && x.wf(),
    {
        let mut index = SegmentIndex::new();
        let n: usize = buf.len();
        let mut at: usize = 0;
        assert(buf@.subrange(0, n as int) =~= buf@);
        assert(parse_index(buf@) is Some ==> index@ + parse_index(buf@).unwrap() =~= parse_index(
            buf@,
        ).unwrap());
        while at < n
            invariant
                at <= n == buf@.len(),
                index.wf(),
                index_len(index@) <= at,
                parse_index(buf@.subrange(at as int, n as int)) is Some <==> parse_index(
                    buf@,
                ) is Some,
                parse_index(buf@) matches Some(all) ==> all == index@ + parse_index(
                    buf@.subrange(at as int, n as int),
                ).unwrap(),
            decreases n - at,
        {
            let ghost b = buf@.subrange(at as int, n as int);
            if n - at < 16 {
                return None;
            }
            assert(b.subrange(0, 8) =~= buf@.subrange(at as int, at + 8));
            let key_len: u64 = get_le64(buf, at);
            if key_len > (n - at - 16) as u64 {
                return None;
            }
            let k: usize = key_len as usize;
            assert(b.subrange(8, 8 + k) =~= buf@.subrange(at + 8, at + 8 + k));
            assert(b.subrange(8 + k, 16 + k) =~= buf@.subrange(at + 8 + k, at + 16 + k));
            assert(b.subrange(16 + k, b.len() as int) =~= buf@.subrange(at + 16 + k, n as int));
            let key: String = match get_text(buf, at + 8, at + 8 + k) {
                Some(key) => key,
                None => {
                    return None;
                },
            };
            let offset: u64 = get_le64(buf, at + 8 + k);
            proof {
                decode_utf8_encode_utf8(buf@.subrange(at + 8, at + 8 + k));
            }
            let ghost before = index@;
            let ghost x = IndexEntryView { key: key@, offset };
            index.add_index(key, offset);
            proof {
                assert(index@.drop_last() =~= before);
                let rest = buf@.subrange(at + 16 + k, n as int);
                if parse_index(rest) is Some {
                    assert(before + (seq![x] + parse_index(rest).unwrap()) =~= before.push(x)
                        + parse_index(rest).unwrap());
                }
            }
            at = at + 16 + k;
        }
        assert(index@ + Seq::<IndexEntryView>::empty() =~= index@);
        Some(index)
    }

    /// The index that `buf` holds.
    pub fn from_bytes(buf: &Vec<u8>) -> (r: Self)
        requires
            parse_index(buf@) is Some,
        ensures
            parse_index(buf@) == Some(r@),
            r.wf(),
    {
        SegmentIndex::parse(buf.as_slice()).unwrap()
    }

    /// The bytes that the keys take, with twelve more for each.
    pub fn len(&self) -> (n: usize)
        requires
            self.wf(),
        ensures
            n == index_len(self@),
    {
        self.len
    }

    /// The bytes that the keys take, with eight more for each.
    pub fn size(&self) -> (n: u64)
        requires
            index_size(self@) <= u64::MAX,
        ensures
            n == index_size(self@),
    {
        let mut total: u64 = 0;
        let n: usize = self.indices.len();
        let mut i: usize = 0;
        assert(self@.take(0) =~= Seq::<IndexEntryView>::empty());
        assert(self@.take(n as int) =~= self@);
        while i < n
            invariant
                i <= n == self.indices@.len(),
                self@.len() == n,
                total == index_size(self@.take(i as int)),
                self@.take(n as int) == self@,
                index_size(self@) <= u64::MAX,
            decreases n - i,
        {
            assert(self@[i as int] == self.indices@[i as int]@);
            assert(self@.take(i + 1).drop_last() =~= self@.take(i as int));
            proof {
                lemma_index_size_monotonic(self@, i + 1, n as int);
            }
            total = total + (byte_len(&self.indices[i].key) as u64 + 8);
            i += 1;
        }
        total
    }
}

proof fn lemma_index_size_monotonic(idx: Seq<IndexEntryView>, i: int, j: int)
    requires
        0 <= i <= j <= idx.len(),
    ensures
        index_size(idx.take(i)) <= index_size(idx.take(j)),
    decreases j - i,
{
    if i < j {
        lemma_index_size_monotonic(idx, i, j - 1);
        assert(idx.take(j).drop_last() =~= idx.take(j - 1));
    }
}

/// The end of a segment file: where the index starts, and the mark.
pub struct SegmentFooter {
    pub index_offset: u64,
}

/// The bytes of a footer.
pub open spec fn footer_bytes(index_offset: u64) -> Seq<u8> {
    codec::le_bytes(index_offset as nat, 8) + magic_bytes()
}

impl SegmentFooter {
    /// The footer whose bytes before the mark are `buf`.
    pub fn from_bytes(buf: &Vec<u8>) -> (r: Self)
        requires
            buf@.len() == 8,
        ensures
            r.index_offset == codec::le_value(buf@),
    {
        assert(buf@.subrange(0, 8) =~= buf@);
        SegmentFooter { index_offset: get_le64(buf.as_slice(), 0) }
    }

    /// The bytes of the footer.
    pub fn to_bytes(&self) -> (buf: Vec<u8>)
        ensures
            buf@ == footer_bytes(self.index_offset),
    {
        let mut buf: Vec<u8> = Vec::new();
        put_le(&mut buf, self.index_offset, 8);
        buf.push(0x72);
        buf.push(0x6B);
        buf.push(0x76);
        buf.push(0x73);
        assert(buf@ =~= footer_bytes(self.index_offset));
        buf
    }
}

/// The index entry `x` is that of the entry at position `p`.
pub open spec fn points_at(es: Seq<sstable::EntryView>, x: IndexEntryView, p: int) -> bool {
    0 <= p < es.len() && x.offset == offset_of(es, p) && x.key == es[p].key
}

/// The index entry `x` is that of some entry.
pub open spec fn pointed(es: Seq<sstable::EntryView>, x: IndexEntryView) -> bool {
    exists|p: int| points_at(es, x, p)
}

/// Every index entry is that of some entry, and they are in order.
pub open spec fn index_points(es: Seq<sstable::EntryView>, idx: Seq<IndexEntryView>) -> bool {
    &&& forall|i: int| 0 <= i < idx.len() ==> pointed(es, #[trigger] idx[i])
    &&& forall|i: int, j: int|
        0 <= i < j < idx.len() ==> (#[trigger] idx[i]).offset < (#[trigger] idx[j]).offset
}

/// The highest sequence number of some entries.
pub open spec fn highest(es: Seq<sstable::EntryView>) -> u64
    decreases es.len(),
{
    if es.len() == 0 {
        0
    } else if es.last().sequence_number > highest(es.drop_last()) {
        es.last().sequence_number
    } else {
        highest(es.drop_last())
    }
}

/// The segment file with the entries `es` and the index `idx`.
pub open spec fn image(es: Seq<sstable::EntryView>, idx: Seq<IndexEntryView>) -> Seq<u8> {
    frames(es) + index_bytes(idx) + footer_bytes(frames(es).len() as u64)
}

/// The entries of a segment file: there is at least one, their keys are in
/// order, and the index that the footer leads to points at them.
pub open spec fn open_image(data: Seq<u8>) -> Option<Seq<sstable::EntryView>> {
    let n = data.len() as int;
    if n < 12 || data.subrange(n - 4, n) != magic_bytes() {
        None
    } else {
        let end = codec::le_value(data.subrange(n - 12, n - 4)) as int;
        if end > n - 12 {
            None
        } else {
            match (parse_frames(data.subrange(0, end)), parse_index(data.subrange(end, n - 12))) {
                (Some(es), Some(idx)) => if es.len() > 0 && sorted(es) && index_points(es, idx) {
                    Some(es)
                } else {
                    None
                },
                _ => None,
            }
        }
    }
}

/// The number of a segment, which the second eight characters of its file name
/// give as hexadecimal digits.
pub open spec fn number_in(filename: Seq<char>) -> Option<nat> {
    let b = encode_utf8(filename);
    if b.len() < 16 {
        None
    } else {
        hex::digits_value(b.subrange(8, 16))
    }
}

/// The models of entries.
pub open spec fn entry_views(es: Seq<SsTableEntry>) -> Seq<sstable::EntryView> {
    es.map_values(|e: SsTableEntry| e@)
}

/// The model of an optional entry.
pub open spec fn entry_view(e: Option<SsTableEntry>) -> Option<sstable::EntryView> {
    match e {
        Some(x) => Some(x@),
        None => None,
    }
}

pub proof fn lemma_offset_step(es: Seq<sstable::EntryView>, p: int)
    requires
        0 <= p < es.len(),
    ensures
        offset_of(es, p + 1) == offset_of(es, p) + frame_len(es[p]),
{
    assert(es.take(p + 1).drop_last() =~= es.take(p));
    lemma_frame_len(es[p]);
}

pub proof fn lemma_offset_monotonic(es: Seq<sstable::EntryView>, p: int, q: int)
    requires
        0 <= p <= q <= es.len(),
    ensures
        offset_of(es, p) <= offset_of(es, q),
        p < q ==> offset_of(es, p) < offset_of(es, q),
    decreases q - p,
{
    if p < q {
        lemma_offset_monotonic(es, p, q - 1);
        lemma_offset_step(es, q - 1);
    }
}

/// A piece of a data block between two entries is the block of the entries
/// between them.
#[verifier::spinoff_prover]
#[verifier::rlimit(50)]
pub proof fn lemma_block(es: Seq<sstable::EntryView>, p: int, q: int)
    requires
        0 <= p <= q <= es.len(),
    ensures
        offset_of(es, p) <= offset_of(es, q) <= frames(es).len(),
        frames(es).subrange(offset_of(es, p) as int, offset_of(es, q) as int) == frames(
            es.subrange(p, q),
        ),
        offset_of(es, es.len() as int) == frames(es).len(),
        offset_of(es, 0) == 0,
{
    lemma_offset_monotonic(es, p, q);
    lemma_offset_monotonic(es, q, es.len() as int);
    assert(es.take(es.len() as int) =~= es);
    assert(es.take(0) =~= Seq::<sstable::EntryView>::empty());
    let rest = es.subrange(q, es.len() as int);
    assert(es =~= es.take(q) + rest);
    assert(es.take(q) =~= es.take(p) + es.subrange(p, q));
    lemma_frames_concat(es.take(q), rest);
    lemma_frames_concat(es.take(p), es.subrange(p, q));
    assert(frames(es).subrange(offset_of(es, p) as int, offset_of(es, q) as int) =~= frames(
        es.subrange(p, q),
    ));
}

/// In sorted entries a key leads to its entry.
pub proof fn lemma_lookup(es: Seq<sstable::EntryView>, i: int)
    requires
        sorted(es),
        0 <= i < es.len(),
    ensures
        has_key(es, es[i].key),
        lookup(es, es[i].key) == Some(es[i]),
{
    let key = es[i].key;
    assert(has_key(es, key));
    let j = choose|j: int| 0 <= j < es.len() && (#[trigger] es[j]).key == key;
    if j < i {
        order::lemma_key_lt_asymmetric(es[j].key, es[i].key);
    } else if i < j {
        order::lemma_key_lt_asymmetric(es[i].key, es[j].key);
    }
}

/// Looking a key up in a run of sorted entries that must contain it if any
/// does.
proof fn lemma_lookup_range(es: Seq<sstable::EntryView>, p: int, q: int, key: Seq<char>)
    requires
        sorted(es),
        0 <= p <= q <= es.len(),
        forall|i: int| 0 <= i < p ==> (#[trigger] es[i]).key != key,
        forall|i: int| q <= i < es.len() ==> (#[trigger] es[i]).key != key,
    ensures
        sorted(es.subrange(p, q)),
        lookup(es, key) == lookup(es.subrange(p, q), key),
{
    let part = es.subrange(p, q);
    assert forall|i: int, j: int| 0 <= i < j < part.len() implies order::key_lt(
        (#[trigger] part[i]).key,
        (#[trigger] part[j]).key,
    ) by {
        assert(part[i] == es[p + i] && part[j] == es[p + j]);
    }
    if has_key(es, key) {
        let i = choose|i: int| 0 <= i < es.len() && (#[trigger] es[i]).key == key;
        assert(p <= i < q);
        assert(part[i - p] == es[i]);
        lemma_lookup(es, i);
        lemma_lookup(part, i - p);
    } else if has_key(part, key) {
        let i = choose|i: int| 0 <= i < part.len() && (#[trigger] part[i]).key == key;
        assert(part[i] == es[p + i]);
    }
}

/// A file that was put together of entries and an index that points at them
/// is opened as these entries.
pub proof fn lemma_image_opens(es: Seq<sstable::EntryView>, idx: Seq<IndexEntryView>)
    requires
        es.len() > 0,
        sorted(es),
        all_encodable(es),
        index_points(es, idx),
        frames(es).len() <= u64::MAX,
    ensures
        open_image(image(es, idx)) == Some(es),
{
    broadcast use codec::lemma_le_bytes_len;

    let data = image(es, idx);
    let n = data.len() as int;
    let end = frames(es).len() as int;
    codec::lemma_byte_bounds();
    codec::lemma_le_round_trip(end as nat, 8);
    assert(data.subrange(n - 4, n) =~= magic_bytes());
    assert(data.subrange(n - 12, n - 4) =~= codec::le_bytes(end as nat, 8));
    assert(data.subrange(0, end) =~= frames(es));
    assert(data.subrange(end, n - 12) =~= index_bytes(idx));
    lemma_frames_round_trip(es);
    assert(index_encodable(idx)) by {
        assert forall|i: int| 0 <= i < idx.len() implies encode_utf8(
            (#[trigger] idx[i]).key,
        ).len() <= u32::MAX by {
            let p = choose|p: int| points_at(es, idx[i], p);
            assert(sstable::encodable(es[p]));
        }
    }
    lemma_index_round_trip(idx);
}

/// A segment of a level: a file of entries that is only read. The index and
/// what the store asks of a segment as a whole are kept beside it.
pub struct Segment {
    data: Vec<u8>,
    filename: String,
    index: SegmentIndex,
    highest_sequence_no: u64,
    data_block_end: usize,
    number: u64,
    first_key: String,
    last_key: String,
    entries: Ghost<Seq<sstable::EntryView>>,
}

impl SsTableEntry {
    /// The entries that are whole at the start of `bytes`.
    pub fn deque_from_bytes(bytes: &[u8]) -> (r: VecDeque<SsTableEntry>)
        ensures
            entry_views(r@) == whole_frames(bytes@),
    {
        let mut r: VecDeque<SsTableEntry> = VecDeque::new();
        let n: usize = bytes.len();
        let mut at: usize = 0;
        assert(bytes@.subrange(0, n as int) =~= bytes@);
        assert(entry_views(r@) + whole_frames(bytes@) =~= whole_frames(bytes@));
        while at < n
            invariant
                at <= n == bytes@.len(),
                entry_views(r@) + whole_frames(bytes@.subrange(at as int, n as int))
                    == whole_frames(bytes@),
            decreases n - at,
        {
            let ghost b = bytes@.subrange(at as int, n as int);
            let ghost none = Seq::<sstable::EntryView>::empty();
            assert(entry_views(r@) + none =~= entry_views(r@));
            if n - at < 4 {
                return r;
            }
            assert(b.subrange(0, 4) =~= bytes@.subrange(at as int, at + 4));
            let len: usize = get_le32(bytes, at) as usize;
            if len > n - at - 4 {
                return r;
            }
            assert(b.subrange(4, 4 + len) =~= bytes@.subrange(at + 4, at + 4 + len));
            assert(b.subrange(4 + len, b.len() as int) =~= bytes@.subrange(at + 4 + len, n as int));
            match SsTableEntry::parse(&bytes[at + 4..at + 4 + len]) {
                Some(e) => {
                    let ghost before = r@;
                    r.push_back(e);
                    proof {
                        assert(r@ =~= before.push(e));
                        assert(entry_views(r@) =~= entry_views(before).push(e@));
                        let rest = whole_frames(bytes@.subrange(at + 4 + len, n as int));
                        assert(entry_views(before) + (seq![e@] + rest) =~= entry_views(before).push(
                            e@,
                        ) + rest);
                    }
                },
                None => {
                    return r;
                },
            }
            at = at + 4 + len;
        }
        assert(entry_views(r@) + Seq::<sstable::EntryView>::empty() =~= entry_views(r@));
        r
    }
}

impl Segment {
    /// The entries of the segment, in the order of their keys.
    pub closed spec fn entries(&self) -> Seq<sstable::EntryView> {
        self.entries@
    }

    /// The bytes of the file.
    pub closed spec fn contents(&self) -> Seq<u8> {
        self.data@
    }

    /// The name of the file.
    pub closed spec fn name(&self) -> Seq<char> {
        self.filename@
    }

    /// The number of the segment.
    pub closed spec fn numbered(&self) -> u64 {
        self.number
    }

    /// The file holds the entries, and what is kept beside it is theirs.
    pub closed spec fn wf(&self) -> bool {
        &&& open_image(self.data@) == Some(self.entries@)
        &&& self.data_block_end == frames(self.entries@).len()
        &&& self.data_block_end <= self.data@.len()
        &&& self.data@.subrange(0, self.data_block_end as int) == frames(self.entries@)
        &&& all_encodable(self.entries@)
        &&& index_points(self.entries@, self.index@)
        &&& self.first_key@ == self.entries@[0].key
        &&& self.last_key@ == self.entries@.last().key
        &&& self.highest_sequence_no == highest(self.entries@)
        &&& number_in(self.filename@) == Some(self.number as nat)
    }

    /// What holds of the entries of a segment.
    pub proof fn lemma_entries(&self)
        requires
            self.wf(),
        ensures
            self.entries().len() > 0,
            sorted(self.entries()),
            all_encodable(self.entries()),
            open_image(self.contents()) == Some(self.entries()),
            number_in(self.name()) == Some(self.numbered() as nat),
            frames(self.entries()).len() <= usize::MAX,
            frames(self.entries()).len() <= self.contents().len(),
    {
    }

    /// The entries of a data block, or nothing where the block is malformed.
    pub fn parse_block(buf: &[u8]) -> (r: Option<Vec<SsTableEntry>>)
        ensures
            r is Some <==> parse_frames(buf@) is Some,
            r matches Some(es) ==> parse_frames(buf@) == Some(entry_views(es@)),
    {
        let mut es: Vec<SsTableEntry> = Vec::new();
        let n: usize = buf.len();
        let mut at: usize = 0;
        assert(buf@.subrange(0, n as int) =~= buf@);
        assert(parse_frames(buf@) matches Some(all) ==> entry_views(es@) + all =~= all);
        while at < n
            invariant
                at <= n == buf@.len(),
                parse_frames(buf@.subrange(at as int, n as int)) is Some <==> parse_frames(
                    buf@,
                ) is Some,
                parse_frames(buf@) matches Some(all) ==> all == entry_views(es@) + parse_frames(
                    buf@.subrange(at as int, n as int),
                ).unwrap(),
            decreases n - at,
        {
            let ghost b = buf@.subrange(at as int, n as int);
            if n - at < 4 {
                return None;
            }
            assert(b.subrange(0, 4) =~= buf@.subrange(at as int, at + 4));
            let len: usize = get_le32(buf, at) as usize;
            if len > n - at - 4 {
                return None;
            }
            assert(b.subrange(4, 4 + len) =~= buf@.subrange(at + 4, at + 4 + len));
            assert(b.subrange(4 + len, b.len() as int) =~= buf@.subrange(at + 4 + len, n as int));
            match SsTableEntry::parse(&buf[at + 4..at + 4 + len]) {
                Some(e) => {
                    let ghost before = es@;
                    es.push(e);
                    proof {
                        assert(entry_views(es@) =~= entry_views(before).push(e@));
                        let rest = parse_frames(buf@.subrange(at + 4 + len, n as int));
                        if rest is Some {
                            assert(entry_views(before) + (seq![e@] + rest.unwrap())
                                =~= entry_views(before).push(e@) + rest.unwrap());
                        }
                    }
                },
                None => {
                    return None;
                },
            }
            at = at + 4 + len;
        }
        assert(entry_views(es@) + Seq::<sstable::EntryView>::empty() =~= entry_views(es@));
        Some(es)
    }

    /// The entries of a data block.
    pub fn parse_entries(buf: Vec<u8>) -> (es: Vec<SsTableEntry>)
        requires
            parse_frames(buf@) is Some,
        ensures
            parse_frames(buf@) == Some(entry_views(es@)),
    {
        Segment::parse_block(buf.as_slice()).unwrap()
    }
}

proof fn lemma_entry_views(es: Seq<SsTableEntry>, i: int)
    requires
        0 <= i < es.len(),
    ensures
        entry_views(es)[i] == es[i]@,
        entry_views(es).len() == es.len(),
{
}

/// Whether the keys of the entries are in order.
fn check_sorted(es: &Vec<SsTableEntry>) -> (r: bool)
    ensures
        r == sorted(entry_views(es@)),
{
    let n: usize = es.len();
    let ghost views = entry_views(es@);
    let mut i: usize = 1;
    while i < n
        invariant
            1 <= i,
            n == es@.len(),
            views == entry_views(es@),
            views.len() == n,
            forall|p: int, q: int|
                0 <= p < q < i && q < n ==> order::key_lt(
                    (#[trigger] views[p]).key,
                    (#[trigger] views[q]).key,
                ),
        decreases n - i,
    {
        proof {
            lemma_entry_views(es@, i - 1);
            lemma_entry_views(es@, i as int);
        }
        if !key_less(&es[i - 1].key, &es[i].key) {
            assert(!order::key_lt(views[i - 1].key, views[i as int].key));
            return false;
        }
        proof {
            broadcast use order::group_key_order;

            assert forall|p: int, q: int| 0 <= p < q < i + 1 && q < n implies order::key_lt(
                (#[trigger] views[p]).key,
                (#[trigger] views[q]).key,
            ) by {
                if q == i && p < i - 1 {
                    assert(order::key_lt(views[p].key, views[i - 1].key));
                }
            }
        }
        i += 1;
    }
    true
}

/// Whether the index points at the entries.
fn check_index(es: &Vec<SsTableEntry>, index: &SegmentIndex) -> (r: bool)
    requires
        frames(entry_views(es@)).len() <= usize::MAX,
    ensures
        r == index_points(entry_views(es@), index@),
{
    let ghost views = entry_views(es@);
    let ghost idx = index@;
    let m: usize = index.indices.len();
    let n: usize = es.len();
    let mut i: usize = 1;
    while i < m
        invariant
            1 <= i,
            m == index.indices@.len(),
            idx == index@,
            idx.len() == m,
            forall|a: int, b: int|
                0 <= a < b < i && b < m ==> (#[trigger] idx[a]).offset < (#[trigger] idx[b]).offset,
        decreases m - i,
    {
        assert(idx[i - 1] == index.indices@[i - 1]@ && idx[i as int] == index.indices@[i as int]@);
        if index.indices[i - 1].offset >= index.indices[i].offset {
            assert(!(idx[i - 1].offset < idx[i as int].offset));
            return false;
        }
        i += 1;
    }
    let mut p: usize = 0;
    let mut j: usize = 0;
    let mut at: usize = 0;
    assert(views.take(0) =~= Seq::<sstable::EntryView>::empty());
    while p < n
        invariant
            p <= n == es@.len(),
            j <= m == index.indices@.len(),
            views == entry_views(es@),
            views.len() == n,
            idx == index@,
            idx.len() == m,
            at == offset_of(views, p as int),
            frames(views).len() <= usize::MAX,
            forall|a: int, b: int|
                0 <= a < b < m ==> (#[trigger] idx[a]).offset < (#[trigger] idx[b]).offset,
            forall|a: int| 0 <= a < j ==> pointed(views, #[trigger] idx[a]),
            forall|a: int, q: int|
                j <= a < m && 0 <= q < p ==> (#[trigger] idx[a]).offset != #[trigger] offset_of(
                    views,
                    q,
                ),
        decreases n - p,
    {
        proof {
            lemma_entry_views(es@, p as int);
            lemma_offset_step(views, p as int);
            lemma_block(views, p + 1, n as int);
        }
        if j < m {
            assert(idx[j as int] == index.indices@[j as int]@);
            let offset: u64 = index.indices[j].offset;
            if offset < at as u64 {
                proof {
                    if index_points(views, idx) {
                        let q = choose|q: int| points_at(views, idx[j as int], q);
                        if q >= p {
                            lemma_offset_monotonic(views, p as int, q);
                        }
                    }
                }
                return false;
            } else if offset == at as u64 {
                if !key_equal(&index.indices[j].key, &es[p].key) {
                    proof {
                        if index_points(views, idx) {
                            let q = choose|q: int| points_at(views, idx[j as int], q);
                            if q > p {
                                lemma_offset_monotonic(views, p as int, q);
                            } else if q < p {
                                lemma_offset_monotonic(views, q, p as int);
                            }
                        }
                    }
                    return false;
                }
                assert(points_at(views, idx[j as int], p as int));
                j += 1;
            }
        }
        assert forall|a: int, q: int| j <= a < m && 0 <= q < p + 1 implies (
        #[trigger] idx[a]).offset != #[trigger] offset_of(views, q) by {
            if a > 0 && j > 0 {
                assert(idx[j - 1].offset < idx[a].offset);
            }
            assert(idx[j as int].offset <= idx[a].offset);
        }
        at = at + (4 + es[p].len());
        p += 1;
    }
    proof {
        if j < m && index_points(views, idx) {
            let q = choose|q: int| points_at(views, idx[j as int], q);
            assert(idx[j as int].offset != offset_of(views, q));
        }
    }
    j == m
}

/// The highest sequence number of the entries.
fn find_highest(es: &Vec<SsTableEntry>) -> (r: u64)
    ensures
        r == highest(entry_views(es@)),
{
    let n: usize = es.len();
    let ghost views = entry_views(es@);
    let mut r: u64 = 0;
    let mut i: usize = 0;
    assert(views.take(0) =~= Seq::<sstable::EntryView>::empty());
    while i < n
        invariant
            i <= n == es@.len(),
            views == entry_views(es@),
            r == highest(views.take(i as int)),
        decreases n - i,
    {
        proof {
            lemma_entry_views(es@, i as int);
            assert(views.take(i + 1).drop_last() =~= views.take(i as int));
        }
        if es[i].sequence_number > r {
            r = es[i].sequence_number;
        }
        i += 1;
    }
    assert(views.take(n as int) =~= views);
    r
}

impl Segment {
    /// The segment that the file `filename` with the bytes `data` holds, or
    /// nothing where it holds none.
    pub fn from_file(filename: String, data: Vec<u8>) -> (r: Option<Segment>)
        ensures
            r is Some <==> open_image(data@) is Some && number_in(filename@) is Some,
            r matches Some(s) ==> {
                &&& s.wf()
                &&& s.contents() == data@
                &&& s.name() == filename@
                &&& open_image(data@) == Some(s.entries())
                &&& number_in(filename@) == Some(s.numbered() as nat)
            },
    {
        let name: &[u8] = bytes_of(&filename);
        if name.len() < 16 {
            return None;
        }
        let number: u64 = match hex::get_hex(name, 8, 8) {
            Some(number) => number,
            None => {
                return None;
            },
        };
        let n: usize = data.len();
        if n < 12 {
            return None;
        }
        let ghost mark = data@.subrange(n - 4, n as int);
        assert(mark[0] == data@[n - 4] && mark[1] == data@[n - 3] && mark[2] == data@[n - 2]
            && mark[3] == data@[n - 1]);
        if data[n - 4] != 0x72 || data[n - 3] != 0x6B || data[n - 2] != 0x76 || data[n - 1] != 0x73 {
            return None;
        }
        assert(mark =~= magic_bytes());
        let end64: u64 = get_le64(data.as_slice(), n - 12);
        if end64 > (n - 12) as u64 {
            return None;
        }
        let end: usize = end64 as usize;
        let es: Vec<SsTableEntry> = match Segment::parse_block(&data[0..end]) {
            Some(es) => es,
            None => {
                return None;
            },
        };
        let index: SegmentIndex = match SegmentIndex::parse(&data[end..n - 12]) {
            Some(index) => index,
            None => {
                return None;
            },
        };
        proof {
            lemma_frames_exact(data@.subrange(0, end as int));
        }
        if es.len() == 0 || !check_sorted(&es) || !check_index(&es, &index) {
            return None;
        }
        let highest_sequence_no: u64 = find_highest(&es);
        proof {
            lemma_entry_views(es@, 0);
            lemma_entry_views(es@, es@.len() - 1);
        }
        let first_key: String = es[0].key.clone();
        let last_key: String = es[es.len() - 1].key.clone();
        Some(
            Segment {
                data,
                filename,
                index,
                highest_sequence_no,
                data_block_end: end,
                number,
                first_key,
                last_key,
                entries: Ghost(entry_views(es@)),
            },
        )
    }

    /// The entry that starts at `offset`.
    fn read_table_entry(&self, offset: u64, Ghost(p): Ghost<int>) -> (e: SsTableEntry)
        requires
            self.wf(),
            0 <= p < self.entries().len(),
            offset == offset_of(self.entries(), p),
        ensures
            e@ == self.entries()[p],
    {
        let ghost es = self.entries();
        let ghost block = frames(es);
        proof {
            let one = es.subrange(p, p + 1);
            lemma_block(es, p, p + 1);
            lemma_offset_step(es, p);
            assert(one =~= seq![es[p]]);
            lemma_frames_one(es[p]);
            lemma_frame_len(es[p]);
            assert(sstable::encodable(es[p]));
            lemma_first_frame(es[p], Seq::<u8>::empty());
            assert(frame(es[p]) + Seq::<u8>::empty() =~= frame(es[p]));
            let f = frame(es[p]);
            let len = sstable::encoded_len(es[p]) as int;
            assert(self.data@.subrange(offset as int, offset + 4) =~= f.subrange(0, 4));
            assert(self.data@.subrange(offset + 4, offset + 4 + len) =~= f.subrange(4, 4 + len));
        }
        let at: usize = offset as usize;
        let len: usize = get_le32(self.data.as_slice(), at) as usize;
        SsTableEntry::parse(&self.data[at + 4..at + 4 + len]).unwrap()
    }

    /// The entries between two offsets.
    fn read_table_entries(&self, start: u64, end: u64, Ghost(p): Ghost<int>, Ghost(q): Ghost<
        int,
    >) -> (r: Vec<SsTableEntry>)
        requires
            self.wf(),
            0 <= p <= q <= self.entries().len(),
            start == offset_of(self.entries(), p),
            end == offset_of(self.entries(), q),
        ensures
            entry_views(r@) == self.entries().subrange(p, q),
    {
        proof {
            let es = self.entries();
            let part = es.subrange(p, q);
            lemma_block(es, p, q);
            assert(self.data@.subrange(start as int, end as int) =~= frames(es).subrange(
                start as int,
                end as int,
            ));
            assert(all_encodable(part)) by {
                assert forall|i: int| 0 <= i < part.len() implies sstable::encodable(
                    #[trigger] part[i],
                ) by {
                    assert(part[i] == es[p + i]);
                }
            }
            lemma_frames_round_trip(part);
        }
        let block: Vec<u8> = codec::copy_range(self.data.as_slice(), start as usize, end as usize);
        Segment::parse_entries(block)
    }

    /// The entry of a key, where the segment has one.
    pub fn get(&self, key: &String) -> (r: Option<SsTableEntry>)
        requires
            self.wf(),
        ensures
            entry_view(r) == lookup(self.entries(), key@),
    {
        let ghost es = self.entries();
        let ghost idx = self.index@;
        let ghost k = key@;
        proof {
            lemma_index_keys(es, idx);
            lemma_index_position(idx, k);
        }
        let ghost i = index_position(idx, k);
        match self.index.find(key) {
            IndexSearchResult::Match(offset) => {
                let ghost p = choose|p: int| points_at(es, idx[i], p);
                proof {
                    lemma_lookup(es, p);
                }
                let e: SsTableEntry = self.read_table_entry(offset, Ghost(p));
                Some(e)
            },
            IndexSearchResult::Range(start, opt) => {
                let end: u64 = match opt {
                    Some(end) => end,
                    None => self.data_block_end as u64,
                };
                let ghost p = if i < 0 {
                    0
                } else {
                    choose|p: int| points_at(es, idx[i], p)
                };
                let ghost q = if i + 1 < idx.len() {
                    choose|q: int| #[trigger] points_at(es, idx[i + 1], q)
                } else {
                    es.len() as int
                };
                proof {
                    broadcast use order::group_key_order;

                    lemma_block(es, 0, es.len() as int);
                    if i >= 0 && i + 1 < idx.len() {
                        assert(idx[i].offset < idx[i + 1].offset);
                        if q < p {
                            lemma_offset_monotonic(es, q, p);
                        }
                    }
                    assert forall|j: int| 0 <= j < p implies (#[trigger] es[j]).key != k by {
                        assert(order::key_lt(es[j].key, es[p].key));
                        assert(order::key_le(es[p].key, k));
                    }
                    assert forall|j: int| q <= j < es.len() implies (#[trigger] es[j]).key != k by {
                        assert(!order::key_le(es[q].key, k));
                        assert(j == q || order::key_lt(es[q].key, es[j].key));
                        order::lemma_key_lt_total(k, es[q].key);
                    }
                    lemma_lookup_range(es, p, q, k);
                }
                let entries: Vec<SsTableEntry> = self.read_table_entries(
                    start,
                    end,
                    Ghost(p),
                    Ghost(q),
                );
                Segment::search(entries, key)
            },
        }
    }

    /// The entry of a key among sorted entries.
    fn search(entries: Vec<SsTableEntry>, key: &String) -> (r: Option<SsTableEntry>)
        requires
            sorted(entry_views(entries@)),
        ensures
            entry_view(r) == lookup(entry_views(entries@), key@),
    {
        let ghost views = entry_views(entries@);
        let n: usize = entries.len();
        let mut i: usize = 0;
        while i < n
            invariant
                i <= n == entries@.len(),
                views == entry_views(entries@),
                views.len() == n,
                sorted(views),
                forall|j: int| 0 <= j < i ==> (#[trigger] views[j]).key != key@,
            decreases n - i,
        {
            proof {
                lemma_entry_views(entries@, i as int);
            }
            if key_equal(&entries[i].key, key) {
                proof {
                    lemma_lookup(views, i as int);
                }
                return Some(entries[i].clone());
            } else if key_less(key, &entries[i].key) {
                proof {
                    broadcast use order::group_key_order;

                    assert forall|j: int| 0 <= j < n implies (#[trigger] views[j]).key != key@ by {
                        if j > i {
                            assert(order::key_lt(views[i as int].key, views[j].key));
                        }
                    }
                }
                return None;
            }
            i += 1;
        }
        None
    }

    /// The whole entries in the at most `max_bytes` bytes of the data block
    /// from `offset`.
    pub fn read_at_most(&self, offset: &u64, max_bytes: &u64) -> (r: VecDeque<SsTableEntry>)
        requires
            self.wf(),
            *offset <= frames(self.entries()).len(),
        ensures
            ({
                let block = frames(self.entries());
                let rest = block.len() - *offset;
                let m = if rest < *max_bytes {
                    rest
                } else {
                    *max_bytes as int
                };
                entry_views(r@) == whole_frames(block.subrange(*offset as int, *offset + m))
            }),
    {
        let at: usize = *offset as usize;
        let rest: usize = self.data_block_end - at;
        let m: usize = if (rest as u64) < *max_bytes {
            rest
        } else {
            *max_bytes as usize
        };
        assert(self.data@.subrange(at as int, at + m) =~= frames(self.entries()).subrange(
            at as int,
            at + m,
        ));
        SsTableEntry::deque_from_bytes(&self.data[at..at + m])
    }

    /// The bytes that the entry at position `p` takes, which starts at `offset`
    /// of the data block.
    fn frame_len_at(&self, offset: u64, Ghost(p): Ghost<int>) -> (n: u64)
        requires
            self.wf(),
            0 <= p < self.entries().len(),
            offset == offset_of(self.entries(), p),
        ensures
            n == frame_len(self.entries()[p]),
    {
        proof {
            let es = self.entries();
            let e = es[p];
            let rest = es.subrange(p + 1, es.len() as int);
            lemma_offset_step(es, p);
            lemma_block(es, p, p + 1);
            lemma_block(es, p + 1, es.len() as int);
            assert(es.subrange(p, p + 1) =~= seq![e]);
            lemma_frames_one(e);
            lemma_first_frame(e, Seq::empty());
            lemma_frame_len(e);
            assert(frame(e) + Seq::<u8>::empty() =~= frame(e));
            assert(self.data@.subrange(offset as int, offset + 4) =~= frame(e).subrange(0, 4));
        }
        get_le32(self.data.as_slice(), offset as usize) as u64 + 4
    }

    /// The first key.
    pub fn first_key(&self) -> (k: &String)
        requires
            self.wf(),
        ensures
            k@ == self.entries()[0].key,
    {
        &self.first_key
    }

    /// The last key.
    pub fn last_key(&self) -> (k: &String)
        requires
            self.wf(),
        ensures
            k@ == self.entries().last().key,
    {
        &self.last_key
    }

    /// The number of the segment. A higher number means a newer segment.
    pub fn segment_number(&self) -> (n: &u64)
        ensures
            *n == self.numbered(),
    {
        &self.number
    }

    /// The size of the file in bytes.
    pub fn size(&self) -> (n: u64)
        ensures
            n == self.contents().len(),
    {
        self.data.len() as u64
    }

    /// The highest sequence number of the entries.
    pub fn highest_sequence_number(&self) -> (n: u64)
        requires
            self.wf(),
        ensures
            n == highest(self.entries()),
    {
        self.highest_sequence_no
    }

    /// The name of the file.
    pub fn filepath(&self) -> (s: String)
        ensures
            s@ == self.name(),
    {
        self.filename.clone()
    }

    /// The bytes of the file.
    pub fn bytes(&self) -> (b: &Vec<u8>)
        ensures
            b@ == self.contents(),
    {
        &self.data
    }

    /// Whether the ranges of keys of two segments have a key in common.
    pub fn overlaps(&self, other: &Segment) -> (r: bool)
        requires
            self.wf(),
            other.wf(),
        ensures
            r == (order::key_le(other.entries()[0].key, self.entries().last().key)
                && order::key_le(self.entries()[0].key, other.entries().last().key)),
    {
        proof {
            broadcast use order::group_key_order;

            order::lemma_key_lt_total(self.last_key@, other.first_key@);
            order::lemma_key_lt_total(other.last_key@, self.first_key@);
        }
        !key_less(&self.last_key, &other.first_key) && !key_less(&other.last_key, &self.first_key)
    }
}

/// The keys of an index that points at sorted entries are in order.
proof fn lemma_index_keys(es: Seq<sstable::EntryView>, idx: Seq<IndexEntryView>)
    requires
        sorted(es),
        index_points(es, idx),
    ensures
        index_sorted(idx),
{
    assert forall|i: int, j: int| 0 <= i <= j < idx.len() implies order::key_le(
        (#[trigger] idx[i]).key,
        (#[trigger] idx[j]).key,
    ) by {
        if i < j {
            let p = choose|p: int| points_at(es, idx[i], p);
            let q = choose|q: int| points_at(es, idx[j], q);
            if q <= p {
                lemma_offset_monotonic(es, q, p);
            }
            assert(order::key_lt(es[p].key, es[q].key));
        }
    }
}

/// The size at which a segment counts as full.
pub const SEGMENT_SIZE: u64 = 67108864;

/// The name of the file of a segment: its level and its number as eight
/// hexadecimal digits each.
pub open spec fn segment_filename(level: nat, number: nat) -> Seq<char> {
    hex::hex_chars(level, 8) + hex::hex_chars(number, 8) + seq!['.', 's', 's', 't']
}

/// The index entries of those of `es` whose position, counted from `phase`, is
/// a multiple of `s`, in a file in which they start at `base`.
pub open spec fn sparse(es: Seq<sstable::EntryView>, s: int, phase: int, base: nat) -> Seq<
    IndexEntryView,
>
    decreases es.len(),
{
    if es.len() == 0 {
        Seq::empty()
    } else {
        let init = es.drop_last();
        let rest = sparse(init, s, phase, base);
        if (init.len() + phase) % s == 0 {
            rest.push(
                IndexEntryView {
                    key: es.last().key,
                    offset: (base + frames(init).len()) as u64,
                },
            )
        } else {
            rest
        }
    }
}

/// The name of a file tells the level.
pub proof fn lemma_level_in(a: nat, x: nat, b: nat, y: nat)
    requires
        a < 0x1_0000_0000,
        b < 0x1_0000_0000,
        segment_filename(a, x) == segment_filename(b, y),
    ensures
        a == b,
{
    hex::lemma_hex_bounds();
    hex::lemma_hex_chars_len(a, 8);
    hex::lemma_hex_chars_len(b, 8);
    assert(segment_filename(a, x).take(8) =~= hex::hex_chars(a, 8));
    assert(segment_filename(b, y).take(8) =~= hex::hex_chars(b, 8));
    hex::lemma_hex_round_trip(a, 8);
    hex::lemma_hex_round_trip(b, 8);
}

/// The number in the name of a segment's file is the segment's number.
pub proof fn lemma_number_in(level: nat, number: nat)
    requires
        number < 0x1_0000_0000,
    ensures
        number_in(segment_filename(level, number)) == Some(number),
{
    let name = segment_filename(level, number);
    hex::lemma_hex_chars_ascii(level, 8);
    hex::lemma_hex_chars_ascii(number, 8);
    hex::lemma_hex_chars_len(level, 8);
    hex::lemma_hex_chars_len(number, 8);
    hex::lemma_hex_bounds();
    hex::lemma_hex_round_trip(number, 8);
    assert(is_ascii_chars(name));
    is_ascii_chars_encode_utf8(name);
    assert(encode_utf8(name).subrange(8, 16) =~= hex::ascii_bytes(hex::hex_chars(number, 8)));
}

/// A sparse index points at the entries.
pub proof fn lemma_sparse_points(es: Seq<sstable::EntryView>, s: int, phase: int)
    requires
        frames(es).len() <= u64::MAX,
    ensures
        index_points(es, sparse(es, s, phase, 0)),
        sparse(es, s, phase, 0).len() > 0 ==> sparse(es, s, phase, 0).last().offset
            < frames(es).len(),
    decreases es.len(),
{
    if es.len() > 0 {
        let init = es.drop_last();
        let idx = sparse(init, s, phase, 0);
        let now = sparse(es, s, phase, 0);
        lemma_frame_len(es.last());
        lemma_sparse_points(init, s, phase);
        assert(init =~= es.take(es.len() - 1));
        assert forall|i: int| 0 <= i < now.len() implies pointed(es, #[trigger] now[i]) by {
            if i < idx.len() {
                assert(pointed(init, idx[i]));
                let p = choose|p: int| points_at(init, idx[i], p);
                assert(init.take(p) =~= es.take(p));
                assert(points_at(es, now[i], p));
            } else {
                assert(points_at(es, now[i], es.len() - 1));
            }
        }
        assert forall|i: int, j: int| 0 <= i < j < now.len() implies (#[trigger] now[i]).offset < (
        #[trigger] now[j]).offset by {
            if j >= idx.len() && i < idx.len() - 1 {
                assert(idx[i].offset < idx.last().offset);
            }
        }
    }
}

/// What is written is read back: a segment file with an index of every so many
/// entries is opened as its entries.
pub proof fn lemma_written_opens(es: Seq<sstable::EntryView>, s: int, phase: int)
    requires
        es.len() > 0,
        sorted(es),
        all_encodable(es),
        frames(es).len() <= u64::MAX,
    ensures
        open_image(image(es, sparse(es, s, phase, 0))) == Some(es),
{
    lemma_sparse_points(es, s, phase);
    lemma_image_opens(es, sparse(es, s, phase, 0));
}

/// The keys of a sparse index take no more room than the entries.
pub proof fn lemma_sparse_len(es: Seq<sstable::EntryView>, s: int, phase: int, base: nat)
    ensures
        index_len(sparse(es, s, phase, base)) <= frames(es).len(),
    decreases es.len(),
{
    if es.len() > 0 {
        let init = es.drop_last();
        lemma_sparse_len(init, s, phase, base);
        lemma_frame_len(es.last());
        let idx = sparse(init, s, phase, base);
        let now = sparse(es, s, phase, base);
        if (init.len() + phase) % s == 0 {
            assert(now.drop_last() =~= idx);
        }
    }
}

impl Segment {
    /// The name of the file of a segment.
    pub fn determine_segment_filename(level_number: &u64, segment_number: &u64) -> (s: String)
        requires
            *level_number < 0x1_0000_0000,
            *segment_number < 0x1_0000_0000,
        ensures
            s@ == segment_filename(*level_number as nat, *segment_number as nat),
    {
        let ghost name = segment_filename(*level_number as nat, *segment_number as nat);
        let mut buf: Vec<u8> = Vec::new();
        hex::put_hex(&mut buf, *level_number, 8);
        hex::put_hex(&mut buf, *segment_number, 8);
        buf.push(46);
        buf.push(115);
        buf.push(115);
        buf.push(116);
        proof {
            hex::lemma_hex_chars_ascii(*level_number as nat, 8);
            hex::lemma_hex_chars_ascii(*segment_number as nat, 8);
            hex::lemma_hex_chars_len(*level_number as nat, 8);
            hex::lemma_hex_chars_len(*segment_number as nat, 8);
            assert(buf@ =~= hex::ascii_bytes(name));
            assert(is_ascii_chars(name));
        }
        hex::ascii_string(&buf, Ghost(name))
    }
}

/// Puts a segment file together entry by entry. It is used to flush the
/// in-memory table and to merge segments.
pub struct SegmentWriter {
    buf: Vec<u8>,
    filename: String,
    curr_size: u64,
    index_sparsity_factor: u32,
    index: SegmentIndex,
    target_size: u64,
    entries_written: u64,
    entries: Ghost<Seq<sstable::EntryView>>,
}

impl SegmentWriter {
    /// The entries written so far.
    pub closed spec fn entries(&self) -> Seq<sstable::EntryView> {
        self.entries@
    }

    /// One of this many entries is in the index.
    pub closed spec fn sparsity(&self) -> u32 {
        self.index_sparsity_factor
    }

    /// The bytes of the file so far.
    pub closed spec fn file(&self) -> Seq<u8> {
        self.buf@
    }

    /// The name of the file.
    pub closed spec fn name(&self) -> Seq<char> {
        self.filename@
    }

    /// The size at which the file counts as full.
    pub closed spec fn target(&self) -> u64 {
        self.target_size
    }

    /// The file holds the entries and not yet the index.
    pub closed spec fn wf(&self) -> bool {
        &&& self.buf@ == frames(self.entries@)
        &&& self.curr_size == self.buf@.len()
        &&& self.index@ == sparse(self.entries@, self.index_sparsity_factor as int, 1, 0)
        &&& self.index.wf()
        &&& self.entries_written == self.entries@.len()
        &&& self.entries@.len() <= self.buf@.len()
        &&& self.index_sparsity_factor > 0
    }

    /// The entries that were written fit into memory.
    pub proof fn lemma_len(&self)
        requires
            self.wf(),
        ensures
            frames(self.entries()).len() <= usize::MAX,
    {
        assert(self.buf.len() == self.buf@.len());
    }

    /// The name and the bytes of the file of a segment of level zero that
    /// holds the entries of `table`.
    pub fn segment_file_from_memtable(
        table: &Table,
        segment_number: &u64,
        index_sparsity_factor: &u32,
    ) -> (r: (String, Vec<u8>))
        requires
            table.wf(),
            *segment_number < 0x1_0000_0000,
            *index_sparsity_factor > 0,
            frames(table.entries()).len() <= usize::MAX,
        ensures
            r.0@ == segment_filename(0, *segment_number as nat),
            r.1@ == image(
                table.entries(),
                sparse(table.entries(), *index_sparsity_factor as int, 0, 0),
            ),
    {
        let filename: String = Segment::determine_segment_filename(&0, segment_number);
        let entries: &Vec<SsTableEntry> = table.sorted_entries();
        let ghost es = table.entries();
        let s: usize = *index_sparsity_factor as usize;
        let mut buf: Vec<u8> = Vec::new();
        let mut index = SegmentIndex::new();
        let n: usize = entries.len();
        let mut i: usize = 0;
        assert(es.take(0) =~= Seq::<sstable::EntryView>::empty());
        while i < n
            invariant
                i <= n == entries@.len(),
                es == entry_views(entries@),
                s > 0,
                frames(es).len() <= usize::MAX,
                buf@ == frames(es.take(i as int)),
                index@ == sparse(es.take(i as int), s as int, 0, 0),
                index.wf(),
            decreases n - i,
        {
            let entry: &SsTableEntry = &entries[i];
            proof {
                lemma_entry_views(entries@, i as int);
                assert(es.take(i + 1).drop_last() =~= es.take(i as int));
                lemma_block(es, i + 1, n as int);
                lemma_offset_step(es, i as int);
                lemma_sparse_len(es.take(i as int), s as int, 0, 0);
            }
            let offset: usize = buf.len();
            if i % s == 0 {
                index.add_index(entry.key.clone(), offset as u64);
            }
            let bytes: Vec<u8> = entry.to_bytes();
            proof {
                sstable::lemma_entry_bytes_len(entry@);
                lemma_frame_len(entry@);
            }
            put_le(&mut buf, bytes.len() as u64, 4);
            put_bytes(&mut buf, bytes.as_slice());
            assert(buf@ =~= frames(es.take(i as int)) + frame(entry@));
            i += 1;
        }
        assert(es.take(n as int) =~= es);
        let offset: usize = buf.len();
        let index_part: Vec<u8> = index.to_bytes();
        put_bytes(&mut buf, index_part.as_slice());
        let footer = SegmentFooter { index_offset: offset as u64 };
        let footer_part: Vec<u8> = footer.to_bytes();
        put_bytes(&mut buf, footer_part.as_slice());
        (filename, buf)
    }

    /// A writer for a new segment.
    pub fn create_new_segment(
        level_number: &u64,
        segment_number: &u64,
        index_sparsity_factor: u32,
    ) -> (w: Self)
        requires
            *level_number < 0x1_0000_0000,
            *segment_number < 0x1_0000_0000,
            index_sparsity_factor > 0,
        ensures
            w.wf(),
            w.entries() == Seq::<sstable::EntryView>::empty(),
            w.name() == segment_filename(*level_number as nat, *segment_number as nat),
            w.sparsity() == index_sparsity_factor,
            w.target() == SEGMENT_SIZE,
    {
        let filename: String = Segment::determine_segment_filename(level_number, segment_number);
        SegmentWriter {
            buf: Vec::new(),
            filename,
            curr_size: 0,
            index_sparsity_factor,
            index: SegmentIndex::new(),
            target_size: SEGMENT_SIZE,
            entries_written: 0,
            entries: Ghost(Seq::empty()),
        }
    }

    /// The name of the file.
    pub fn filepath(&self) -> (s: &String)
        ensures
            s@ == self.name(),
    {
        &self.filename
    }

    /// Whether the file with its index and footer is as large as it should be.
    pub fn reached_target_size(&self) -> (r: bool)
        requires
            self.wf(),
        ensures
            r == (frames(self.entries()).len() + index_len(
                sparse(self.entries(), self.sparsity() as int, 1, 0),
            ) + 12 >= self.target()),
    {
        self.curr_size as u128 + self.index.len() as u128 + 12 >= self.target_size as u128
    }

    /// Writes the index and the footer, which completes the file.
    pub fn write_index_and_footer(&mut self)
        requires
            old(self).wf(),
        ensures
            final(self).file() == image(
                old(self).entries(),
                sparse(old(self).entries(), old(self).sparsity() as int, 1, 0),
            ),
            final(self).name() == old(self).name(),
            final(self).entries() == old(self).entries(),
    {
        let index_part: Vec<u8> = self.index.to_bytes();
        let footer = SegmentFooter { index_offset: self.curr_size };
        let footer_part: Vec<u8> = footer.to_bytes();
        put_bytes(&mut self.buf, index_part.as_slice());
        put_bytes(&mut self.buf, footer_part.as_slice());
    }

    /// Writes an entry.
    pub fn write_entry(&mut self, entry: &SsTableEntry)
        requires
            old(self).wf(),
            frame_len(entry@) <= usize::MAX,
        ensures
            final(self).wf(),
            final(self).entries() == old(self).entries().push(entry@),
            final(self).name() == old(self).name(),
            final(self).sparsity() == old(self).sparsity(),
            final(self).target() == old(self).target(),
    {
        let ghost es = self.entries@;
        let ghost now = es.push(entry@);
        proof {
            assert(now.drop_last() =~= es);
            lemma_frame_len(entry@);
            sstable::lemma_entry_bytes_len(entry@);
            lemma_sparse_len(es, self.index_sparsity_factor as int, 1, 0);
        }
        let bytes: Vec<u8> = entry.to_bytes();
        put_le(&mut self.buf, bytes.len() as u64, 4);
        put_bytes(&mut self.buf, bytes.as_slice());
        assert(self.buf@ =~= frames(es) + frame(entry@));
        let len: usize = self.buf.len();
        self.entries_written = self.entries_written + 1;
        if self.entries_written % (self.index_sparsity_factor as u64) == 0 {
            self.index.add_index(entry.key.clone(), self.curr_size);
        }
        self.curr_size = len as u64;
        self.entries = Ghost(now);
    }

    /// The name and the bytes of the file.
    pub fn into_file(self) -> (r: (String, Vec<u8>))
        ensures
            r.0@ == self.name(),
            r.1@ == self.file(),
    {
        (self.filename, self.buf)
    }
}

/// The entries that fit are the first ones, they take no more than the room
/// there is, and the next one does not fit any more.
pub proof fn lemma_fitting(es: Seq<sstable::EntryView>, m: int)
    requires
        0 <= m,
    ensures
        fitting(es, m).len() <= es.len(),
        fitting(es, m) == es.take(fitting(es, m).len() as int),
        frames(fitting(es, m)).len() <= m,
        fitting(es, m).len() < es.len() ==> frame_len(es[fitting(es, m).len() as int]) > m - frames(
            fitting(es, m),
        ).len(),
    decreases es.len(),
{
    let f = fitting(es, m);
    if es.len() > 0 && frame_len(es[0]) <= m {
        let rest = es.drop_first();
        let g = fitting(rest, m - frame_len(es[0]));
        lemma_fitting(rest, m - frame_len(es[0]));
        lemma_frames_concat(seq![es[0]], g);
        lemma_frames_one(es[0]);
        lemma_frame_len(es[0]);
        assert(f =~= es.take(f.len() as int)) by {
            assert(g =~= rest.take(g.len() as int));
        }
        if f.len() < es.len() {
            assert(rest[g.len() as int] == es[f.len() as int]);
        }
    } else {
        assert(f =~= es.take(0));
    }
}

/// With enough room every entry fits.
pub proof fn lemma_fitting_all(es: Seq<sstable::EntryView>, m: int)
    requires
        frames(es).len() <= m,
    ensures
        fitting(es, m) == es,
    decreases es.len(),
{
    if es.len() > 0 {
        lemma_frames_first(es);
        lemma_frame_len(es[0]);
        lemma_fitting_all(es.drop_first(), m - frame_len(es[0]));
        assert(es =~= seq![es[0]] + es.drop_first());
    } else {
        assert(es =~= fitting(es, m));
    }
}

/// What is read next is a run of entries from the start of `es`. Where none is
/// held, it is empty only at the end of them.
pub proof fn lemma_fetched(es: Seq<sstable::EntryView>, m: int, none_held: bool)
    ensures
        fetched(es, m, none_held).len() <= es.len(),
        fetched(es, m, none_held) == es.take(fetched(es, m, none_held).len() as int),
        none_held && es.len() > 0 ==> fetched(es, m, none_held).len() > 0,
        frames(fetched(es, m, none_held)).len() <= m || m < 0 && fetched(es, m, none_held).len()
            == 0 || none_held && fetched(es, m, none_held).len() == 1,
{
    if m >= 0 {
        lemma_fitting(es, m);
    } else {
        assert(fitting(es, m) =~= es.take(0));
    }
}

/// With room for the bytes of the first entry, that one is read.
proof fn lemma_fitting_one(es: Seq<sstable::EntryView>)
    requires
        es.len() > 0,
    ensures
        fitting(es, frame_len(es[0]) as int) == es.take(1),
{
    let rest = es.drop_first();
    assert(fitting(rest, 0) =~= Seq::<sstable::EntryView>::empty());
    assert(fitting(es, frame_len(es[0]) as int) =~= es.take(1));
}

/// Reads a segment from its start, a limited number of bytes at a time, but
/// never less than an entry.
pub struct SegmentReadBuf {
    segment: Arc<Segment>,
    buf: VecDeque<SsTableEntry>,
    curr_offset: u64,
    size: u64,
    max_size: u64,
    next: Ghost<int>,
}

impl SegmentReadBuf {
    /// The entries of the segment.
    pub closed spec fn source(&self) -> Seq<sstable::EntryView> {
        self.segment.entries()
    }

    /// The entries that were read and not yet taken out.
    pub closed spec fn pending(&self) -> Seq<sstable::EntryView> {
        entry_views(self.buf@)
    }

    /// The number of entries that were read.
    pub closed spec fn read(&self) -> int {
        self.next@
    }

    /// The most bytes that are held at a time, unless a single entry takes more.
    pub closed spec fn room(&self) -> u64 {
        self.max_size
    }

    /// The entries that are held are the last that were read.
    pub closed spec fn wf(&self) -> bool {
        let es = self.segment.entries();
        let n = self.buf@.len();
        &&& self.segment.wf()
        &&& 0 <= n <= self.next@ <= es.len()
        &&& entry_views(self.buf@) == es.subrange(self.next@ - n, self.next@)
        &&& self.curr_offset == offset_of(es, self.next@)
        &&& self.size == offset_of(es, self.next@) - offset_of(es, self.next@ - n)
        &&& self.size <= self.max_size || n == 1
    }

    /// What holds of the entries that are held.
    pub proof fn lemma_pending(&self)
        requires
            self.wf(),
        ensures
            0 <= self.read() - self.pending().len() <= self.read() <= self.source().len(),
            self.pending() == self.source().subrange(
                self.read() - self.pending().len(),
                self.read(),
            ),
            sorted(self.source()),
            all_encodable(self.source()),
            frames(self.source()).len() <= usize::MAX,
    {
        self.segment.lemma_entries();
    }

    /// The entries that are held take no more than the room there is, unless it
    /// is a single one.
    pub proof fn lemma_held(&self)
        requires
            self.wf(),
        ensures
            frames(self.pending()).len() <= self.room() || self.pending().len() == 1,
    {
        lemma_block(self.source(), self.next@ - self.buf@.len(), self.next@);
    }

    /// A buffer on a segment, before anything was read.
    pub fn new(segment: Arc<Segment>, read_buf_len: u64) -> (r: Self)
        requires
            segment.wf(),
        ensures
            r.wf(),
            r.source() == segment.entries(),
            r.pending() == Seq::<sstable::EntryView>::empty(),
            r.read() == 0,
            r.room() == read_buf_len,
    {
        let r = SegmentReadBuf {
            segment,
            buf: VecDeque::new(),
            curr_offset: 0,
            size: 0,
            max_size: read_buf_len,
            next: Ghost(0),
        };
        proof {
            lemma_block(r.segment.entries(), 0, 0);
            assert(r.segment.entries().subrange(0, 0) =~= entry_views(r.buf@));
            assert(r.pending() =~= Seq::<sstable::EntryView>::empty());
        }
        r
    }

    /// Reads the next entries, as many as there is room for. Where none is
    /// held, the next one is read even if it takes more.
    #[verifier::rlimit(50)]
    pub fn fill(&mut self)
        requires
            old(self).wf(),
        ensures
            final(self).wf(),
            final(self).source() == old(self).source(),
            final(self).room() == old(self).room(),
            ({
                let rest = old(self).source().skip(old(self).read());
                let added = fetched(
                    rest,
                    old(self).room() - frames(old(self).pending()).len(),
                    old(self).pending().len() == 0,
                );
                &&& final(self).pending() == old(self).pending() + added
                &&& final(self).read() == old(self).read() + added.len()
            }),
    {
        let ghost es = self.segment.entries();
        let ghost start = self.next@;
        let ghost n = self.buf@.len() as int;
        let ghost held = entry_views(self.buf@);
        let ghost rest = es.skip(start);
        let mut max_bytes: u64 = if self.size < self.max_size {
            self.max_size - self.size
        } else {
            0
        };
        let ghost free = self.max_size - self.size;
        let ghost added = fetched(rest, free, n == 0);
        proof {
            self.segment.lemma_entries();
            lemma_block(es, start - n, start);
            lemma_block(es, start, es.len() as int);
            lemma_offset_monotonic(es, start, es.len() as int);
            lemma_fetched(rest, free, n == 0);
        }
        if self.buf.len() == 0 && (self.curr_offset as usize) < self.segment.data_block_end {
            let next: u64 = self.segment.frame_len_at(self.curr_offset, Ghost(start));
            if next > max_bytes {
                max_bytes = next;
                proof {
                    lemma_fitting_one(rest);
                }
            }
        }
        proof {
            assert(added == fitting(rest, max_bytes as int)) by {
                if free < 0 {
                    assert(fitting(rest, free) =~= fitting(rest, max_bytes as int));
                }
            }
            assert(rest =~= es.subrange(start, es.len() as int));
            assert(all_encodable(rest)) by {
                assert forall|i: int| 0 <= i < rest.len() implies sstable::encodable(
                    #[trigger] rest[i],
                ) by {
                    assert(rest[i] == es[start + i]);
                }
            }
            let total = frames(rest).len() as int;
            let m = if total < max_bytes {
                total
            } else {
                max_bytes as int
            };
            assert(frames(es).subrange(self.curr_offset as int, self.curr_offset + m)
                =~= frames(rest).take(m));
            lemma_whole_frames(rest, m);
            if total < max_bytes {
                lemma_fitting_all(rest, m);
                lemma_fitting_all(rest, max_bytes as int);
            }
            lemma_fitting(rest, max_bytes as int);
        }
        let mut new_entries: VecDeque<SsTableEntry> = self.segment.read_at_most(
            &self.curr_offset,
            &max_bytes,
        );
        let ghost count = added.len() as int;
        assert(entry_views(new_entries@) == added);
        assert(added.skip(0) =~= added);
        let ghost mut taken: int = 0;
        assert(es.subrange(start - n, start) + added.take(0) =~= held);
        while new_entries.len() > 0
            invariant
                0 <= taken <= count,
                count == added.len(),
                start + count <= es.len(),
                0 <= n <= start,
                added == es.subrange(start, start + count),
                entry_views(new_entries@) == added.skip(taken),
                self.segment.entries() == es,
                self.segment.wf(),
                self.segment == old(self).segment,
                self.max_size == old(self).max_size,
                entry_views(self.buf@) == held + added.take(taken),
                held.len() == n,
                frames(es).len() <= usize::MAX,
                self.curr_offset == offset_of(es, start + taken),
                self.size == offset_of(es, start + taken) - offset_of(es, start - n),
            decreases new_entries@.len(),
        {
            proof {
                let views = entry_views(new_entries@);
                assert(views.len() == new_entries@.len());
                assert(views[0] == new_entries@[0]@);
                assert(views[0] == added[taken]);
                assert(added[taken] == es[start + taken]);
                lemma_offset_step(es, start + taken);
                lemma_offset_monotonic(es, start - n, start + taken);
                lemma_block(es, start + taken + 1, es.len() as int);
            }
            let ghost left = new_entries@;
            let popped: Option<SsTableEntry> = new_entries.pop_front();
            let entry: SsTableEntry = popped.unwrap();
            let len: u64 = entry.len() as u64 + 4;
            self.size = self.size + len;
            self.curr_offset = self.curr_offset + len;
            let ghost before = self.buf@;
            self.buf.push_back(entry);
            proof {
                assert(self.buf@ =~= before.push(entry));
                assert(entry_views(self.buf@) =~= entry_views(before).push(entry@));
                assert(held + added.take(taken + 1) =~= (held + added.take(taken)).push(
                    added[taken],
                ));
                assert(entry_views(new_entries@) =~= entry_views(left).drop_first());
                assert(added.skip(taken).drop_first() =~= added.skip(taken + 1));
                taken = taken + 1;
            }
        }
        proof {
            assert(added.skip(taken).len() == 0);
            assert(added.take(count) =~= added);
            assert(entry_views(self.buf@) =~= es.subrange(start - n, start + count));
            lemma_block(es, start, start + count);
            lemma_block(es, start - n, start);
        }
        self.next = Ghost(start + count);
    }

    /// The last entry that is held.
    pub fn back(&self) -> (r: Option<&SsTableEntry>)
        ensures
            r is Some <==> self.pending().len() > 0,
            r matches Some(e) ==> e@ == self.pending().last(),
    {
        let n: usize = self.buf.len();
        if n == 0 {
            None
        } else {
            Some(&self.buf[n - 1])
        }
    }

    /// The first entry that is held.
    pub fn front(&self) -> (r: Option<&SsTableEntry>)
        ensures
            r is Some <==> self.pending().len() > 0,
            r matches Some(e) ==> e@ == self.pending()[0],
    {
        if self.buf.len() == 0 {
            None
        } else {
            Some(&self.buf[0])
        }
    }

    /// Takes the first entry out.
    pub fn pop_front(&mut self) -> (r: Option<SsTableEntry>)
        requires
            old(self).wf(),
        ensures
            final(self).wf(),
            final(self).source() == old(self).source(),
            final(self).read() == old(self).read(),
            final(self).room() == old(self).room(),
            r is Some <==> old(self).pending().len() > 0,
            r matches Some(e) ==> e@ == old(self).pending()[0] && final(self).pending() == old(
                self,
            ).pending().drop_first(),
            r is None ==> final(self).pending() == old(self).pending(),
    {
        let ghost es = self.segment.entries();
        let ghost first = self.next@ - self.buf@.len();
        if self.buf.len() > 0 {
            proof {
                self.segment.lemma_entries();
                assert(entry_views(self.buf@)[0] == self.buf@[0]@);
                assert(es.subrange(first, self.next@)[0] == es[first]);
                lemma_offset_step(es, first);
                lemma_offset_monotonic(es, first + 1, self.next@);
                lemma_block(es, first + 1, es.len() as int);
            }
            let len: u64 = self.buf[0].len() as u64 + 4;
            self.size = self.size - len;
        }
        let ghost before = entry_views(self.buf@);
        let r: Option<SsTableEntry> = self.buf.pop_front();
        proof {
            if r is Some {
                assert(entry_views(self.buf@) =~= before.drop_first());
                assert(before.drop_first() =~= es.subrange(first + 1, self.next@));
            }
        }
        r
    }

    /// Whether no entry is held.
    pub fn is_empty(&self) -> (r: bool)
        ensures
            r == (self.pending().len() == 0),
    {
        self.buf.len() == 0
    }
}

/// How many of the entries can be written before a file of `size` bytes with
/// an index of `index_size` bytes would outgrow `target`. Of the entries,
/// counted from `counter`, one of `s` is in the index.
pub open spec fn slice_count(
    es: Seq<sstable::EntryView>,
    counter: int,
    size: int,
    index_size: int,
    s: int,
    target: int,
) -> nat
    decreases es.len(),
{
    if es.len() == 0 {
        0
    } else {
        let now = size + frame_len(es[0]);
        let index_now = if counter % s == 0 {
            index_size + 2 * encode_utf8(es[0].key).len()
        } else {
            index_size
        };
        if now + index_now + 16 > target {
            0
        } else {
            1 + slice_count(es.drop_first(), counter + 1, now, index_now, s, target)
        }
    }
}

/// Entries are added behind others: the index goes on where it was.
proof fn lemma_sparse_step(es: Seq<sstable::EntryView>, k: int, s: int, base: nat)
    requires
        0 <= k < es.len(),
    ensures
        sparse(es.take(k + 1), s, 0, base) == (if k % s == 0 {
            sparse(es.take(k), s, 0, base).push(
                IndexEntryView {
                    key: es[k].key,
                    offset: (base + frames(es.take(k)).len()) as u64,
                },
            )
        } else {
            sparse(es.take(k), s, 0, base)
        }),
{
    assert(es.take(k + 1).drop_last() =~= es.take(k));
}

impl Segment {
    /// Writes entries from the front of `slice` behind the file, as long as the
    /// file with its index and footer stays within the target size. Where an
    /// entry would not fit any more, the file is completed with its index and
    /// footer.
    pub fn write_slice(
        file: &mut Vec<u8>,
        index: &mut SegmentIndex,
        slice: &mut VecDeque<SsTableEntry>,
        target_size: &u64,
        index_sparsity_factor: u32,
    )
        requires
            old(index).wf(),
            index_sparsity_factor > 0,
            old(file)@.len() + frames(entry_views(old(slice)@)).len() <= usize::MAX,
            index_len(old(index)@) + frames(entry_views(old(slice)@)).len() <= usize::MAX,
        ensures
            final(index).wf(),
            ({
                let es = entry_views(old(slice)@);
                let base = old(file)@.len();
                let s = index_sparsity_factor as int;
                let k = slice_count(
                    es,
                    0,
                    base as int,
                    index_size(old(index)@) as int,
                    s,
                    *target_size as int,
                ) as int;
                let written = frames(es.take(k));
                &&& k <= es.len()
                &&& entry_views(final(slice)@) == es.skip(k)
                &&& final(index)@ == old(index)@ + sparse(es.take(k), s, 0, base)
                &&& k == es.len() ==> final(file)@ == old(file)@ + written
                &&& k < es.len() ==> final(file)@ == old(file)@ + written + index_bytes(
                    final(index)@,
                ) + footer_bytes((base + written.len()) as u64)
            }),
    {
        let ghost es = entry_views(slice@);
        let ghost file0 = file@;
        let ghost idx0 = index@;
        let ghost base = file@.len();
        let ghost s = index_sparsity_factor as int;
        let ghost target = *target_size as int;
        proof {
            lemma_index_size_len(idx0);
            assert(es.take(0) =~= Seq::<sstable::EntryView>::empty());
            assert(es.skip(0) =~= es);
            assert(idx0 + sparse(es.take(0), s, 0, base) =~= idx0);
            assert(file0 + frames(es.take(0)) =~= file0);
        }
        let mut index_size_now: u128 = index.size() as u128;
        let ghost whole = slice_count(es, 0, base as int, index_size_now as int, s, target) as int;
        let ghost mut k: int = 0;
        let mut counter: usize = 0;
        let mut full: bool = false;
        while !full && slice.len() > 0
            invariant
                0 <= k <= es.len(),
                counter == k,
                entry_views(slice@) == es.skip(k),
                file@ == file0 + frames(es.take(k)),
                file0.len() == base,
                base + frames(es).len() <= usize::MAX,
                index_len(idx0) + frames(es).len() <= usize::MAX,
                es.take(k).len() <= frames(es.take(k)).len(),
                index_size_now <= index_size(idx0) + 2 * frames(es.take(k)).len(),
                index_size(idx0) <= usize::MAX,
                index@ == idx0 + sparse(es.take(k), s, 0, base),
                index.wf(),
                s == index_sparsity_factor,
                s > 0,
                target == *target_size,
                !full ==> whole == k + slice_count(
                    es.skip(k),
                    k,
                    file@.len() as int,
                    index_size_now as int,
                    s,
                    target,
                ),
                full ==> whole == k && k < es.len(),
            decreases es.len() - k, (if full { 0int } else { 1 }),
        {
            let entry: &SsTableEntry = &slice[0];
            proof {
                let views = entry_views(slice@);
                assert(views[0] == slice@[0]@);
                assert(es.skip(k)[0] == es[k]);
                assert(es.skip(k).drop_first() =~= es.skip(k + 1));
                lemma_block(es, k + 1, es.len() as int);
                lemma_offset_step(es, k);
                lemma_frame_len(es[k]);
                lemma_sparse_step(es, k, s, base);
                lemma_sparse_len(es.take(k), s, 0, base);
                lemma_index_len_concat(idx0, sparse(es.take(k), s, 0, base));
            }
            let now: u128 = file.len() as u128 + entry.len() as u128 + 4;
            let indexed: bool = counter % (index_sparsity_factor as usize) == 0;
            let index_now: u128 = if indexed {
                index_size_now + 2 * (byte_len(&entry.key) as u128)
            } else {
                index_size_now
            };
            if now + index_now + 16 > *target_size as u128 {
                full = true;
            } else {
                if indexed {
                    index.add_index(entry.key.clone(), file.len() as u64);
                }
                let bytes: Vec<u8> = entry.to_bytes();
                proof {
                    sstable::lemma_entry_bytes_len(entry@);
                    assert(index@ =~= idx0 + sparse(es.take(k + 1), s, 0, base));
                    assert(es.take(k + 1).drop_last() =~= es.take(k));
                }
                put_le(file, bytes.len() as u64, 4);
                put_bytes(file, bytes.as_slice());
                assert(file@ =~= file0 + frames(es.take(k + 1)));
                index_size_now = index_now;
                counter += 1;
                let ghost held = slice@;
                let _ = slice.pop_front();
                proof {
                    assert(entry_views(slice@) =~= entry_views(held).drop_first());
                    k = k + 1;
                }
            }
        }
        assert(es.take(es.len() as int) =~= es);
        if full {
            let offset: u64 = file.len() as u64;
            let index_part: Vec<u8> = index.to_bytes();
            let footer_part: Vec<u8> = (SegmentFooter { index_offset: offset }).to_bytes();
            put_bytes(file, index_part.as_slice());
            put_bytes(file, footer_part.as_slice());
        }
    }
}

proof fn lemma_index_size_len(idx: Seq<IndexEntryView>)
    ensures
        index_size(idx) <= index_len(idx),
    decreases idx.len(),
{
    if idx.len() > 0 {
        lemma_index_size_len(idx.drop_last());
    }
}

proof fn lemma_index_len_concat(a: Seq<IndexEntryView>, b: Seq<IndexEntryView>)
    ensures
        index_len(a + b) == index_len(a) + index_len(b),
    decreases b.len(),
{
    if b.len() > 0 {
        assert((a + b).drop_last() =~= a + b.drop_last());
        lemma_index_len_concat(a, b.drop_last());
    } else {
        assert(a + b =~= a);
    }
}

/// The highest sequence number of entries is that of one of them, and none has a
/// higher one. Where there is no entry, it is zero.
pub proof fn lemma_highest(es: Seq<sstable::EntryView>)
    ensures
        forall|i: int| 0 <= i < es.len() ==> (#[trigger] es[i]).sequence_number <= highest(es),
        es.len() > 0 ==> exists|i: int|
            0 <= i < es.len() && (#[trigger] es[i]).sequence_number == highest(es),
        es.len() == 0 ==> highest(es) == 0,
    decreases es.len(),
{
    if es.len() > 0 {
        let init = es.drop_last();
        let n = es.len() - 1;
        lemma_highest(init);
        assert forall|i: int| 0 <= i < es.len() implies (#[trigger] es[i]).sequence_number
            <= highest(es) by {
            if i < n {
                assert(init[i] == es[i]);
            }
        }
        if highest(es) == es[n].sequence_number {
            assert(es[n].sequence_number == highest(es));
        } else {
            let i = choose|i: int|
                0 <= i < init.len() && (#[trigger] init[i]).sequence_number == highest(init);
            assert(es[i].sequence_number == highest(es));
        }
    }
}

/// The index of a file leads to every so many of its entries, and to no others:
/// it has an entry for a position exactly where the position, counted from
/// `phase`, is a multiple of `s`, and that gives the key and the place of it.
pub proof fn lemma_index_is_sparse(es: Seq<sstable::EntryView>, s: int, phase: int, p: int)
    requires
        0 <= p < es.len(),
        frames(es).len() <= u64::MAX,
    ensures
        (p + phase) % s == 0 <==> exists|i: int|
            0 <= i < sparse(es, s, phase, 0).len() && (#[trigger] sparse(
                es,
                s,
                phase,
                0,
            )[i]).offset == offset_of(es, p) && sparse(es, s, phase, 0)[i].key == es[p].key,
        forall|i: int|
            0 <= i < sparse(es, s, phase, 0).len() ==> pointed(
                es,
                #[trigger] sparse(es, s, phase, 0)[i],
            ),
    decreases es.len(),
{
    let idx = sparse(es, s, phase, 0);
    let init = es.drop_last();
    let rest = sparse(init, s, phase, 0);
    let n = es.len() - 1;
    lemma_sparse_points(es, s, phase);
    lemma_block(es, n, es.len() as int);
    assert(es.take(n) =~= init);
    assert(frames(init).len() == offset_of(es, n));
    if p < n {
        lemma_offset_monotonic(es, p, n);
        assert(init.take(p) =~= es.take(p));
        lemma_index_is_sparse(init, s, phase, p);
        assert(init[p] == es[p]);
        if (p + phase) % s == 0 {
            let i = choose|i: int|
                0 <= i < rest.len() && (#[trigger] rest[i]).offset == offset_of(init, p)
                    && rest[i].key == init[p].key;
            assert(idx[i] == rest[i]);
            assert(idx[i].offset == offset_of(es, p) && idx[i].key == es[p].key);
        } else if exists|i: int|
            0 <= i < idx.len() && (#[trigger] idx[i]).offset == offset_of(es, p) && idx[i].key
                == es[p].key {
            let i = choose|i: int|
                0 <= i < idx.len() && (#[trigger] idx[i]).offset == offset_of(es, p) && idx[i].key
                    == es[p].key;
            if i < rest.len() {
                assert(idx[i] == rest[i]);
                assert(rest[i].offset == offset_of(init, p));
            } else {
                assert(idx[i].offset == offset_of(es, n));
            }
            assert(false);
        }
    } else {
        if (p + phase) % s == 0 {
            let i = idx.len() - 1;
            assert(idx[i].offset == offset_of(es, p) && idx[i].key == es[p].key);
        } else if exists|i: int|
            0 <= i < idx.len() && (#[trigger] idx[i]).offset == offset_of(es, p) && idx[i].key
                == es[p].key {
            let i = choose|i: int|
                0 <= i < idx.len() && (#[trigger] idx[i]).offset == offset_of(es, p) && idx[i].key
                    == es[p].key;
            lemma_sparse_points(init, s, phase);
            assert(idx[i] == rest[i]);
            assert(pointed(init, rest[i]));
            let q = choose|q: int| points_at(init, rest[i], q);
            assert(init.take(q) =~= es.take(q));
            lemma_offset_monotonic(es, q, n);
            assert(false);
        }
    }
}

/// What the index says of a key is true. Where it gives a place, that is the
/// place of an entry with the key. Where it gives a range, the key is not in the
/// index, the range begins at the last key before it, or at the beginning, and it
/// ends at the first key behind it, or at the end.
pub proof fn lemma_index_search(idx: Seq<IndexEntryView>, key: Seq<char>)
    requires
        index_sorted(idx),
    ensures
        match index_search(idx, key) {
            IndexSearchResult::Match(offset) => exists|i: int|
                0 <= i < idx.len() && (#[trigger] idx[i]).key == key && idx[i].offset == offset,
            IndexSearchResult::Range(from, to) => {
                &&& forall|i: int| 0 <= i < idx.len() ==> (#[trigger] idx[i]).key != key
                &&& idx.len() > 0 && order::key_lt(idx[0].key, key) ==> exists|i: int|
                    {
                        &&& 0 <= i < idx.len()
                        &&& (#[trigger] idx[i]).offset == from
                        &&& order::key_lt(idx[i].key, key)
                        &&& i + 1 < idx.len() ==> order::key_lt(key, idx[i + 1].key) && to
                            == Some(idx[i + 1].offset)
                        &&& i + 1 == idx.len() ==> to is None
                    }
                &&& idx.len() > 0 && order::key_lt(key, idx[0].key) ==> from == 0 && to == Some(
                    idx[0].offset,
                )
                &&& idx.len() == 0 ==> from == 0 && to is None
            },
        },
{
    broadcast use order::group_key_order;

    lemma_index_position(idx, key);
    let p = index_position(idx, key);
    if p >= 0 {
        assert(order::key_le(idx[p].key, key));
        if idx[p].key != key {
            assert forall|i: int| 0 <= i < idx.len() implies (#[trigger] idx[i]).key != key by {
                if i <= p {
                    assert(order::key_le(idx[i].key, idx[p].key));
                }
            }
            assert(idx[p].offset == index_search(idx, key)->Range_0);
            if p + 1 < idx.len() {
                assert(!order::key_le(idx[p + 1].key, key));
            }
        }
    } else {
        assert forall|i: int| 0 <= i < idx.len() implies order::key_lt(
            key,
            (#[trigger] idx[i]).key,
        ) by {
            assert(!order::key_le(idx[i].key, key));
        }
    }
}

/// As much is read at a time as there is room for. What is read are the first
/// entries that are left. They fit, or it is a single one that alone takes more
/// than there is room for, while nothing is held. The next one would not fit.
pub proof fn lemma_as_much_as_fits(es: Seq<sstable::EntryView>, m: int, none_held: bool)
    requires
        0 <= m,
    ensures
        ({
            let r = fetched(es, m, none_held);
            let n = r.len() as int;
            &&& n <= es.len()
            &&& r == es.take(n)
            &&& frames(r).len() <= m || none_held && n == 1
            &&& n < es.len() ==> frames(r).len() + frames(seq![es[n]]).len() > m
            &&& none_held && es.len() > 0 ==> n > 0
        }),
{
    let r = fetched(es, m, none_held);
    let n = r.len() as int;
    lemma_fitting(es, m);
    lemma_fetched(es, m, none_held);
    if n < es.len() {
        let one = seq![es[n]];
        assert(one.drop_last() =~= Seq::<sstable::EntryView>::empty());
        assert(frames(one.drop_last()) =~= Seq::<u8>::empty());
        assert(frames(one) =~= frame(es[n]));
        lemma_frame_len(es[n]);
        if none_held && es.len() > 0 && frame_len(es[0]) > m {
            let first = es.take(1);
            assert(first.drop_last() =~= Seq::<sstable::EntryView>::empty());
            assert(frames(first.drop_last()) =~= Seq::<u8>::empty());
            assert(frames(first) =~= frame(es[0]));
            lemma_frame_len(es[0]);
        }
    }
}

/// A file that does not end with the mark of a segment is not opened, and neither
/// is one whose footer leads behind it.
pub proof fn lemma_unmarked_file_refused(data: Seq<u8>)
    ensures
        ({
            let n = data.len() as int;
            &&& n < 12 ==> open_image(data) is None
            &&& n >= 12 && !(data[n - 4] == 0x72 && data[n - 3] == 0x6B && data[n - 2] == 0x76
                && data[n - 1] == 0x73) ==> open_image(data) is None
            &&& n >= 12 && codec::le_value(data.subrange(n - 12, n - 4)) > n - 12 ==> open_image(
                data,
            ) is None
        }),
{
    let n = data.len() as int;
    if n >= 12 {
        let m = data.subrange(n - 4, n);
        assert(m[0] == data[n - 4] && m[1] == data[n - 3] && m[2] == data[n - 2] && m[3] == data[n
            - 1]);
    }
}

/// What is opened is in order: a file that opens has an entry, and its keys go up.
pub proof fn lemma_opened_file_is_sorted(data: Seq<u8>)
    ensures
        open_image(data) matches Some(es) ==> {
            &&& es.len() > 0
            &&& forall|i: int, j: int|
                0 <= i < j < es.len() ==> order::key_lt(
                    (#[trigger] es[i]).key,
                    (#[trigger] es[j]).key,
                )
            &&& frames(es).is_prefix_of(data)
        },
{
    let n = data.len() as int;
    if open_image(data) is Some {
        let end = codec::le_value(data.subrange(n - 12, n - 4)) as int;
        lemma_frames_exact(data.subrange(0, end));
        assert(frames(open_image(data).unwrap()) =~= data.subrange(0, end));
    }
}

/// The sizes of an index are those of its keys, with twelve bytes more for each or
/// with eight.
pub proof fn lemma_index_sizes(idx: Seq<IndexEntryView>)
    ensures
        index_len(idx) == idx.map_values(
            |x: IndexEntryView| encode_utf8(x.key).len() as int + 12,
        ).fold_left(0, |sum: int, n: int| sum + n),
        index_size(idx) == idx.map_values(
            |x: IndexEntryView| encode_utf8(x.key).len() as int + 8,
        ).fold_left(0, |sum: int, n: int| sum + n),
    decreases idx.len(),
{
    if idx.len() > 0 {
        let init = idx.drop_last();
        lemma_index_sizes(init);
        let f = |x: IndexEntryView| encode_utf8(x.key).len() as int + 12;
        let g = |x: IndexEntryView| encode_utf8(x.key).len() as int + 8;
        assert(init.map_values(f) =~= idx.map_values(f).drop_last());
        assert(init.map_values(g) =~= idx.map_values(g).drop_last());
    }
}

/// The bytes that are reckoned for the index when the first entries of a slice are
/// written: twice the key of every entry that is in the index.
pub open spec fn reckoned(es: Seq<sstable::EntryView>, counter: int, s: int, n: int) -> int
    decreases n,
{
    if n <= 0 {
        0
    } else {
        reckoned(es, counter, s, n - 1) + if (counter + n - 1) % s == 0 {
            2 * encode_utf8(es[n - 1].key).len() as int
        } else {
            0
        }
    }
}

/// What is reckoned without the first entry.
proof fn lemma_reckoned(es: Seq<sstable::EntryView>, counter: int, s: int, n: int)
    requires
        0 < n <= es.len(),
    ensures
        reckoned(es, counter, s, n) == reckoned(es.drop_first(), counter + 1, s, n - 1) + if counter
            % s == 0 {
            2 * encode_utf8(es[0].key).len() as int
        } else {
            0
        },
    decreases n,
{
    if n > 1 {
        lemma_reckoned(es, counter, s, n - 1);
        assert(es.drop_first()[n - 2] == es[n - 1]);
    } else {
        reveal_with_fuel(reckoned, 2);
    }
}

/// As much of a slice is written as the file can take. With what is written, and
/// with what is reckoned for the index and the footer, the file is within the
/// target, and with the next entry it would not be.
pub proof fn lemma_slice_fills_file(
    es: Seq<sstable::EntryView>,
    counter: int,
    size: int,
    index_size: int,
    s: int,
    target: int,
)
    ensures
        ({
            let k = slice_count(es, counter, size, index_size, s, target) as int;
            &&& 0 <= k <= es.len()
            &&& k > 0 ==> size + frames(es.take(k)).len() + index_size + reckoned(es, counter, s, k)
                + 16 <= target
            &&& k < es.len() ==> size + frames(es.take(k + 1)).len() + index_size + reckoned(
                es,
                counter,
                s,
                k + 1,
            ) + 16 > target
        }),
    decreases es.len(),
{
    let k = slice_count(es, counter, size, index_size, s, target) as int;
    if es.len() > 0 {
        let rest = es.drop_first();
        let now = size + frame_len(es[0]);
        let index_now = if counter % s == 0 {
            index_size + 2 * encode_utf8(es[0].key).len()
        } else {
            index_size as int
        };
        lemma_reckoned(es, counter, s, 1);
        assert(reckoned(rest, counter + 1, s, 0) == 0);
        lemma_frame_len(es[0]);
        assert(es.take(1).drop_last() =~= Seq::<sstable::EntryView>::empty());
        assert(frames(es.take(1).drop_last()) =~= Seq::<u8>::empty());
        assert(frames(es.take(1)) =~= frame(es[0]));
        if now + index_now + 16 <= target {
            lemma_slice_fills_file(rest, counter + 1, now, index_now, s, target);
            let j = k - 1;
            assert(es.take(k) =~= es.take(1) + rest.take(j));
            lemma_frames_concat(es.take(1), rest.take(j));
            lemma_reckoned(es, counter, s, k);
            if j == 0 {
                assert(rest.take(0) =~= Seq::<sstable::EntryView>::empty());
                assert(frames(rest.take(0)) =~= Seq::<u8>::empty());
            }
            if k < es.len() {
                assert(es.take(k + 1) =~= es.take(1) + rest.take(j + 1));
                lemma_frames_concat(es.take(1), rest.take(j + 1));
                lemma_reckoned(es, counter, s, k + 1);
            }
        }
    }
}

/// The index of a segment file, which its footer leads to.
pub open spec fn index_of(data: Seq<u8>) -> Option<Seq<IndexEntryView>> {
    let n = data.len() as int;
    parse_index(data.subrange(codec::le_value(data.subrange(n - 12, n - 4)) as int, n - 12))
}

/// The index of a file leads to the entry at a position.
pub open spec fn indexed(data: Seq<u8>, es: Seq<sstable::EntryView>, p: int) -> bool {
    exists|idx: Seq<IndexEntryView>, i: int|
        #![trigger idx[i]]
        index_of(data) == Some(idx) && 0 <= i < idx.len() && idx[i].offset == offset_of(es, p)
            && idx[i].key == es[p].key
}

/// A file that was written leads to every so many of its entries: its index has
/// the key and the place of an entry exactly where the position of the entry,
/// counted from `phase`, is a multiple of `s`.
pub proof fn lemma_written_index(es: Seq<sstable::EntryView>, s: int, phase: int, p: int)
    requires
        all_encodable(es),
        frames(es).len() <= u64::MAX,
        0 <= p < es.len(),
    ensures
        indexed(image(es, sparse(es, s, phase, 0)), es, p) <==> (p + phase) % s == 0,
{
    broadcast use codec::lemma_le_bytes_len;

    let idx = sparse(es, s, phase, 0);
    let data = image(es, idx);
    let n = data.len() as int;
    let end = frames(es).len();
    lemma_index_is_sparse(es, s, phase, p);
    assert forall|i: int| 0 <= i < idx.len() implies encode_utf8((#[trigger] idx[i]).key).len()
        <= u32::MAX by {
        assert(pointed(es, idx[i]));
        let q = choose|q: int| points_at(es, idx[i], q);
        assert(sstable::encodable(es[q]));
    }
    lemma_index_round_trip(idx);
    codec::lemma_byte_bounds();
    codec::lemma_le_round_trip(end, 8);
    assert(data.subrange(n - 12, n - 4) =~= codec::le_bytes(end, 8));
    assert(data.subrange(end as int, n - 12) =~= index_bytes(idx));
    assert(index_of(data) == Some(idx));
    if (p + phase) % s == 0 {
        let i = choose|i: int|
            0 <= i < idx.len() && (#[trigger] idx[i]).offset == offset_of(es, p) && idx[i].key
                == es[p].key;
        assert(index_of(data) == Some(idx) && idx[i].offset == offset_of(es, p));
        assert(indexed(data, es, p));
    }
    if indexed(data, es, p) {
        let (x, i) = choose|x: Seq<IndexEntryView>, i: int|
            #![trigger x[i]]
            index_of(data) == Some(x) && 0 <= i < x.len() && x[i].offset == offset_of(es, p)
                && x[i].key == es[p].key;
        assert(x == idx);
        assert(idx[i].offset == offset_of(es, p) && idx[i].key == es[p].key);
    }
}

/// In a file an entry stands behind its length.
pub proof fn lemma_frame_layout(e: sstable::EntryView)
    requires
        sstable::encoded_len(e) <= u32::MAX,
    ensures
        codec::le_value(frame(e).take(4)) == sstable::entry_bytes(e).len(),
        frame(e).skip(4) == sstable::entry_bytes(e),
{
    codec::lemma_le_bytes_len(sstable::encoded_len(e), 4);
    codec::lemma_byte_bounds();
    codec::lemma_le_round_trip(sstable::encoded_len(e), 4);
    sstable::lemma_entry_bytes_len(e);
    assert(frame(e).take(4) =~= codec::le_bytes(sstable::encoded_len(e), 4));
    assert(frame(e).skip(4) =~= sstable::entry_bytes(e));
}

} // verus!
