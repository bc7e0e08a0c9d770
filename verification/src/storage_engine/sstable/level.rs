//! The levels of the sorted string table.

pub mod merge;
pub mod segment;

use crate::hex;
use crate::order::key_less;
use crate::order;
use crate::storage_engine::sstable::SsTableEntry;
use crate::storage_engine::sstable;
use merge::{highest_number_of, merge_segments, share, size_of_all};
pub use segment::Segment;
use std::sync::Arc;
use vstd::prelude::*;

verus! {

/// The order and the ranges of the segments of a partitioned level: each ends
/// before the next one starts.
pub open spec fn partitioned(segs: Seq<Arc<Segment>>) -> bool {
    forall|i: int, j: int|
        0 <= i < j < segs.len() ==> order::key_lt(
            (#[trigger] segs[i]).entries().last().key,
            (#[trigger] segs[j]).entries()[0].key,
        )
}

/// The key is in the range of the keys of the segment.
pub open spec fn covers(seg: Segment, key: Seq<char>) -> bool {
    order::key_le(seg.entries()[0].key, key) && order::key_le(key, seg.entries().last().key)
}

/// The ranges of keys of two segments have a key in common.
pub open spec fn overlapping(a: Segment, b: Segment) -> bool {
    order::key_le(b.entries()[0].key, a.entries().last().key) && order::key_le(
        a.entries()[0].key,
        b.entries().last().key,
    )
}

/// The entry of a key in the first segment whose range it is in.
pub open spec fn partitioned_lookup(segs: Seq<Arc<Segment>>, key: Seq<char>) -> Option<
    sstable::EntryView,
>
    decreases segs.len(),
{
    if segs.len() == 0 {
        None
    } else if covers(*segs[0], key) {
        segment::lookup(segs[0].entries(), key)
    } else {
        partitioned_lookup(segs.drop_first(), key)
    }
}

/// The entry of a key in the last segment that has one.
pub open spec fn overlapping_lookup(segs: Seq<Arc<Segment>>, key: Seq<char>) -> Option<
    sstable::EntryView,
>
    decreases segs.len(),
{
    if segs.len() == 0 {
        None
    } else {
        match segment::lookup(segs.last().entries(), key) {
            Some(e) => Some(e),
            None => overlapping_lookup(segs.drop_last(), key),
        }
    }
}

/// The files take more than `target` bytes. The highest target is no limit.
pub open spec fn exceeds(segs: Seq<Arc<Segment>>, target: u64) -> bool {
    merge::total_size(segs) > target && target < u64::MAX
}

/// The position of the oldest segment, that is the first one with the lowest
/// number.
pub open spec fn oldest(segs: Seq<Arc<Segment>>) -> int
    decreases segs.len(),
{
    if segs.len() <= 1 {
        0
    } else {
        let p = oldest(segs.drop_last());
        if segs.last().numbered() < segs[p].numbered() {
            segs.len() - 1
        } else {
            p
        }
    }
}

/// The oldest segment is one of the segments.
pub proof fn lemma_oldest(segs: Seq<Arc<Segment>>)
    requires
        segs.len() > 0,
    ensures
        0 <= oldest(segs) < segs.len(),
    decreases segs.len(),
{
    if segs.len() > 1 {
        lemma_oldest(segs.drop_last());
    }
}

/// From the oldest on, the segments that have to go until the size is not
/// exceeded any more.
pub open spec fn due(segs: Seq<Arc<Segment>>, target: u64) -> Seq<Arc<Segment>>
    decreases segs.len(),
{
    if segs.len() == 0 || !exceeds(segs, target) {
        Seq::empty()
    } else {
        proof {
            lemma_oldest(segs);
        }
        seq![segs[oldest(segs)]] + due(segs.remove(oldest(segs)), target)
    }
}

/// The segments that may stay.
pub open spec fn staying(segs: Seq<Arc<Segment>>, target: u64) -> Seq<Arc<Segment>>
    decreases segs.len(),
{
    if segs.len() == 0 || !exceeds(segs, target) {
        segs
    } else {
        proof {
            lemma_oldest(segs);
        }
        staying(segs.remove(oldest(segs)), target)
    }
}

/// The numbers of segments are those that eight hexadecimal digits give.
pub proof fn lemma_highest_number(segs: Seq<Arc<Segment>>)
    requires
        merge::segments_wf(segs),
    ensures
        merge::highest_number(segs) < 0x1_0000_0000,
    decreases segs.len(),
{
    if segs.len() > 0 {
        let init = segs.drop_last();
        assert forall|i: int| 0 <= i < init.len() implies (#[trigger] init[i]).wf() by {
            assert(init[i] == segs[i]);
        }
        lemma_highest_number(init);
        assert(segs.last() == segs[segs.len() - 1]);
        segs.last().lemma_entries();
        let b = vstd::utf8::encode_utf8(segs.last().name());
        hex::lemma_digits_value_bound(b.subrange(8, 16));
        hex::lemma_hex_bounds();
    }
}

/// A level of the sorted string table.
pub trait SstLevel {
    /// The segments.
    spec fn segs(&self) -> Seq<Arc<Segment>>;

    /// The size that the level should not exceed.
    spec fn target(&self) -> u64;

    /// The segments are well formed and lie as the level demands.
    spec fn wf(&self) -> bool;

    /// The entry that the level has of a key.
    spec fn find(&self, key: Seq<char>) -> Option<sstable::EntryView>;

    /// The segments that are to be merged into the next level.
    spec fn outgoing(&self) -> Seq<Arc<Segment>>;

    /// The entry that the level has of a key.
    fn get(&self, key: &String) -> (r: Option<SsTableEntry>)
        requires
            self.wf(),
        ensures
            segment::entry_view(r) == self.find(key@),
    ;

    /// The segments that are to be merged into the next level.
    fn segments_to_merge(&self) -> (r: Vec<Arc<Segment>>)
        ensures
            r@ == self.outgoing(),
    ;

    /// Whether the level is larger than it should be.
    fn exceeds_target_size(&self) -> (r: bool)
        ensures
            r == exceeds(self.segs(), self.target()),
    ;

    /// The highest number of a segment, zero where there is none.
    fn highest_segment_number(&self) -> (n: u64)
        ensures
            n == merge::highest_number(self.segs()),
    ;
}

/// The segments once more.
fn share_all(segs: &Vec<Arc<Segment>>) -> (r: Vec<Arc<Segment>>)
    ensures
        r@ == segs@,
{
    let n: usize = segs.len();
    let mut r: Vec<Arc<Segment>> = Vec::new();
    let mut i: usize = 0;
    while i < n
        invariant
            i <= n == segs@.len(),
            r@ == segs@.take(i as int),
        decreases n - i,
    {
        r.push(share(&segs[i]));
        assert(segs@.take(i + 1) =~= segs@.take(i as int).push(segs@[i as int]));
        i += 1;
    }
    assert(segs@.take(n as int) =~= segs@);
    r
}

/// Whether the files take more than `target` bytes.
fn exceeds_size(segs: &Vec<Arc<Segment>>, target: u64) -> (r: bool)
    ensures
        r == exceeds(segs@, target),
{
    target < u64::MAX && size_of_all(segs) > target as u128
}

/// The highest sequence number of the segments, zero where there is none.
pub open spec fn highest_sequence(segs: Seq<Arc<Segment>>) -> u64
    decreases segs.len(),
{
    if segs.len() == 0 {
        0
    } else {
        let rest = highest_sequence(segs.drop_last());
        let last = segment::highest(segs.last().entries());
        if last > rest {
            last
        } else {
            rest
        }
    }
}

fn highest_sequence_of(segs: &Vec<Arc<Segment>>) -> (n: u64)
    requires
        merge::segments_wf(segs@),
    ensures
        n == highest_sequence(segs@),
{
    let len: usize = segs.len();
    let mut n: u64 = 0;
    let mut i: usize = 0;
    assert(segs@.take(0) =~= Seq::<Arc<Segment>>::empty());
    while i < len
        invariant
            i <= len == segs@.len(),
            merge::segments_wf(segs@),
            n == highest_sequence(segs@.take(i as int)),
        decreases len - i,
    {
        assert(segs@.take(i + 1).drop_last() =~= segs@.take(i as int));
        if segs[i].highest_sequence_number() > n {
            n = segs[i].highest_sequence_number();
        }
        i += 1;
    }
    assert(segs@.take(len as int) =~= segs@);
    n
}

/// No segment has a higher number.
pub open spec fn within(segs: Seq<Arc<Segment>>, n: u64) -> bool {
    forall|i: int| 0 <= i < segs.len() ==> (#[trigger] segs[i]).numbered() <= n
}

/// Each segment has the name that a level makes of its number.
pub open spec fn named_for(segs: Seq<Arc<Segment>>, level: u64) -> bool {
    forall|i: int|
        0 <= i < segs.len() ==> (#[trigger] segs[i]).name() == segment::segment_filename(
            level as nat,
            segs[i].numbered() as nat,
        )
}

/// The level of the flushed in-memory tables. Its segments may overlap. The
/// newest is the last. The level knows the highest number that it ever gave to
/// a segment.
pub struct OverlappingLevel {
    segments: Vec<Arc<Segment>>,
    target_size: u64,
    last_number: u64,
}

impl OverlappingLevel {
    /// The highest number that a segment of the level ever had.
    pub closed spec fn issued(&self) -> u64 {
        self.last_number
    }
}

impl SstLevel for OverlappingLevel {
    closed spec fn segs(&self) -> Seq<Arc<Segment>> {
        self.segments@
    }

    closed spec fn target(&self) -> u64 {
        self.target_size
    }

    open spec fn wf(&self) -> bool {
        &&& merge::segments_wf(self.segs())
        &&& within(self.segs(), self.issued())
        &&& self.issued() < 0x1_0000_0000
    }

    open spec fn find(&self, key: Seq<char>) -> Option<sstable::EntryView> {
        overlapping_lookup(self.segs(), key)
    }

    open spec fn outgoing(&self) -> Seq<Arc<Segment>> {
        self.segs()
    }

    /// Looks in the newest segment first and goes back until the key is found.
    fn get(&self, key: &String) -> (r: Option<SsTableEntry>) {
        let mut i: usize = self.segments.len();
        assert(self.segs().take(i as int) =~= self.segs());
        while i > 0
            invariant
                i <= self.segments@.len(),
                merge::segments_wf(self.segments@),
                overlapping_lookup(self.segments@, key@) == overlapping_lookup(
                    self.segments@.take(i as int),
                    key@,
                ),
            decreases i,
        {
            i -= 1;
            assert(self.segments@.take(i + 1).drop_last() =~= self.segments@.take(i as int));
            let r: Option<SsTableEntry> = self.segments[i].get(key);
            if r.is_some() {
                return r;
            }
        }
        None
    }

    fn segments_to_merge(&self) -> (r: Vec<Arc<Segment>>) {
        share_all(&self.segments)
    }

    fn exceeds_target_size(&self) -> (r: bool) {
        exceeds_size(&self.segments, self.target_size)
    }

    fn highest_segment_number(&self) -> (n: u64) {
        highest_number_of(&self.segments)
    }
}

/// A level whose segments do not overlap. They are kept in the order of their
/// keys. The level knows the highest number that it ever gave to a segment.
pub struct PartitionedLevel {
    segments: Vec<Arc<Segment>>,
    target_size: u64,
    index_sparsity_factor: u32,
    level_number: u64,
    last_number: u64,
}

/// The position of the oldest of the segments.
fn oldest_of(segs: &Vec<Arc<Segment>>) -> (p: usize)
    requires
        segs@.len() > 0,
    ensures
        p == oldest(segs@),
        p < segs@.len(),
{
    let n: usize = segs.len();
    let mut p: usize = 0;
    let mut i: usize = 1;
    while i < n
        invariant
            0 < i <= n == segs@.len(),
            p < i,
            p == oldest(segs@.take(i as int)),
        decreases n - i,
    {
        assert(segs@.take(i + 1).drop_last() =~= segs@.take(i as int));
        assert(segs@.take(i + 1)[p as int] == segs@[p as int]);
        if *segs[i].segment_number() < *segs[p].segment_number() {
            p = i;
        }
        i += 1;
    }
    assert(segs@.take(n as int) =~= segs@);
    p
}

impl SstLevel for PartitionedLevel {
    closed spec fn segs(&self) -> Seq<Arc<Segment>> {
        self.segments@
    }

    closed spec fn target(&self) -> u64 {
        self.target_size
    }

    open spec fn wf(&self) -> bool {
        &&& merge::segments_wf(self.segs())
        &&& partitioned(self.segs())
        &&& self.sparsity() > 0
        &&& self.number() < 0x1_0000_0000
        &&& within(self.segs(), self.issued())
        &&& named_for(self.segs(), self.number())
        &&& self.issued() < 0x1_0000_0000
    }

    open spec fn find(&self, key: Seq<char>) -> Option<sstable::EntryView> {
        partitioned_lookup(self.segs(), key)
    }

    open spec fn outgoing(&self) -> Seq<Arc<Segment>> {
        due(self.segs(), self.target())
    }

    fn get(&self, key: &String) -> (r: Option<SsTableEntry>) {
        proof {
            lemma_containing(self.segments@, key@);
        }
        match self.find_containing_segment(key) {
            Some(segment) => segment.get(key),
            None => None,
        }
    }

    fn segments_to_merge(&self) -> (r: Vec<Arc<Segment>>) {
        let (outgoing, _) = self.divide();
        outgoing
    }

    fn exceeds_target_size(&self) -> (r: bool) {
        exceeds_size(&self.segments, self.target_size)
    }

    fn highest_segment_number(&self) -> (n: u64) {
        highest_number_of(&self.segments)
    }
}

/// The position of the first segment whose range a key is in.
pub open spec fn containing(segs: Seq<Arc<Segment>>, key: Seq<char>) -> Option<int>
    decreases segs.len(),
{
    if segs.len() == 0 {
        None
    } else {
        match containing(segs.drop_last(), key) {
            Some(i) => Some(i),
            None => if covers(*segs.last(), key) {
                Some(segs.len() - 1)
            } else {
                None
            },
        }
    }
}

/// The first segment whose range a key is in decides the lookup.
proof fn lemma_containing(segs: Seq<Arc<Segment>>, key: Seq<char>)
    ensures
        match containing(segs, key) {
            Some(i) => 0 <= i < segs.len() && covers(*segs[i], key) && partitioned_lookup(segs, key)
                == segment::lookup(segs[i].entries(), key),
            None => partitioned_lookup(segs, key) is None,
        },
    decreases segs.len(),
{
    if segs.len() > 0 {
        let init = segs.drop_last();
        lemma_containing(init, key);
        lemma_lookup_prefix(segs, key);
    }
}

/// A segment behind the others decides a lookup where no other covers the key.
proof fn lemma_lookup_prefix(segs: Seq<Arc<Segment>>, key: Seq<char>)
    requires
        segs.len() > 0,
    ensures
        containing(segs.drop_last(), key) is Some ==> partitioned_lookup(segs, key)
            == partitioned_lookup(segs.drop_last(), key),
        containing(segs.drop_last(), key) is None ==> partitioned_lookup(segs, key) == (if covers(
            *segs.last(),
            key,
        ) {
            segment::lookup(segs.last().entries(), key)
        } else {
            None
        }),
    decreases segs.len(),
{
    let init = segs.drop_last();
    if init.len() == 0 {
        assert(partitioned_lookup(segs.drop_first(), key) is None);
    } else {
        let rest = segs.drop_first();
        lemma_lookup_prefix(rest, key);
        assert(rest.drop_last() =~= init.drop_first());
        lemma_containing_first(init, key);
        assert(rest.last() == segs.last());
        assert(init[0] == segs[0]);
    }
}

/// Whether any segment covers a key, seen from the front.
proof fn lemma_containing_first(segs: Seq<Arc<Segment>>, key: Seq<char>)
    requires
        segs.len() > 0,
    ensures
        containing(segs, key) is Some <==> covers(*segs[0], key) || containing(
            segs.drop_first(),
            key,
        ) is Some,
    decreases segs.len(),
{
    let init = segs.drop_last();
    if init.len() == 0 {
        assert(containing(init, key) is None);
        assert(containing(segs.drop_first(), key) is None);
    } else {
        lemma_containing_first(init, key);
        assert(init.drop_first() =~= segs.drop_first().drop_last());
        assert(segs.drop_first().last() == segs.last());
    }
}

impl PartitionedLevel {
    /// One of this many entries is in the index of a segment.
    pub closed spec fn sparsity(&self) -> u32 {
        self.index_sparsity_factor
    }

    /// The number of the level.
    pub closed spec fn number(&self) -> u64 {
        self.level_number
    }

    /// The highest number that a segment of the level ever had.
    pub closed spec fn issued(&self) -> u64 {
        self.last_number
    }

    /// The first segment whose range the key is in.
    pub fn find_containing_segment(&self, key: &String) -> (r: Option<Arc<Segment>>)
        requires
            self.wf(),
        ensures
            match containing(self.segs(), key@) {
                Some(i) => r == Some(self.segs()[i]),
                None => r is None,
            },
    {
        let n: usize = self.segments.len();
        let mut i: usize = 0;
        assert(self.segments@.take(0) =~= Seq::<Arc<Segment>>::empty());
        while i < n
            invariant
                i <= n == self.segments@.len(),
                merge::segments_wf(self.segments@),
                containing(self.segments@.take(i as int), key@) is None,
            decreases n - i,
        {
            let segment: &Arc<Segment> = &self.segments[i];
            proof {
                broadcast use order::group_key_order;

                assert(self.segments@.take(i + 1).drop_last() =~= self.segments@.take(i as int));
                order::lemma_key_lt_total(key@, segment.entries()[0].key);
                order::lemma_key_lt_total(segment.entries().last().key, key@);
            }
            if !key_less(key, segment.first_key()) && !key_less(segment.last_key(), key) {
                proof {
                    lemma_containing_stays(self.segments@, i + 1, key@);
                }
                return Some(share(segment));
            }
            i += 1;
        }
        assert(self.segments@.take(n as int) =~= self.segments@);
        None
    }

    /// The segments that are to be merged into the next level, and those that
    /// stay.
    fn divide(&self) -> (r: (Vec<Arc<Segment>>, Vec<Arc<Segment>>))
        ensures
            r.0@ == due(self.segs(), self.target()),
            r.1@ == staying(self.segs(), self.target()),
    {
        let mut rest: Vec<Arc<Segment>> = share_all(&self.segments);
        let mut outgoing: Vec<Arc<Segment>> = Vec::new();
        let ghost all = due(self.segs(), self.target());
        assert(outgoing@ + all =~= all);
        while rest.len() > 0 && exceeds_size(&rest, self.target_size)
            invariant
                outgoing@ + due(rest@, self.target_size) == all,
                staying(rest@, self.target_size) == staying(self.segments@, self.target_size),
            decreases rest@.len(),
        {
            let ghost before = rest@;
            let p: usize = oldest_of(&rest);
            let segment: Arc<Segment> = rest.remove(p);
            let ghost so_far = outgoing@;
            outgoing.push(segment);
            assert(so_far + due(before, self.target_size) =~= outgoing@ + due(
                rest@,
                self.target_size,
            ));
        }
        assert(due(rest@, self.target_size) =~= Seq::<Arc<Segment>>::empty());
        assert(outgoing@ =~= all);
        (outgoing, rest)
    }
}

/// More segments behind the first one that covers a key change nothing.
proof fn lemma_containing_stays(segs: Seq<Arc<Segment>>, n: int, key: Seq<char>)
    requires
        0 <= n <= segs.len(),
        containing(segs.take(n), key) is Some,
    ensures
        containing(segs, key) == containing(segs.take(n), key),
    decreases segs.len(),
{
    if n < segs.len() {
        let init = segs.drop_last();
        assert(init.take(n) =~= segs.take(n));
        lemma_containing_stays(init, n, key);
    } else {
        assert(segs.take(n) =~= segs);
    }
}

/// The segment overlaps one of the others.
pub open spec fn meets_any(seg: Segment, others: Seq<Arc<Segment>>) -> bool {
    exists|i: int| 0 <= i < others.len() && overlapping(seg, *(#[trigger] others[i]))
}

/// The segments that overlap one of the incoming segments.
pub open spec fn touched(segs: Seq<Arc<Segment>>, incoming: Seq<Arc<Segment>>) -> Seq<Arc<Segment>>
    decreases segs.len(),
{
    if segs.len() == 0 {
        Seq::empty()
    } else {
        let rest = touched(segs.drop_last(), incoming);
        if meets_any(*segs.last(), incoming) {
            rest.push(segs.last())
        } else {
            rest
        }
    }
}

/// The segments that overlap none of the incoming segments.
pub open spec fn untouched(segs: Seq<Arc<Segment>>, incoming: Seq<Arc<Segment>>) -> Seq<
    Arc<Segment>,
>
    decreases segs.len(),
{
    if segs.len() == 0 {
        Seq::empty()
    } else {
        let rest = untouched(segs.drop_last(), incoming);
        if meets_any(*segs.last(), incoming) {
            rest
        } else {
            rest.push(segs.last())
        }
    }
}

/// No segment of the one list overlaps a segment of the other.
pub open spec fn apart(a: Seq<Arc<Segment>>, b: Seq<Arc<Segment>>) -> bool {
    forall|i: int, j: int|
        0 <= i < a.len() && 0 <= j < b.len() ==> !overlapping(
            *(#[trigger] a[i]),
            *(#[trigger] b[j]),
        )
}

/// Both lists have the same segments.
pub open spec fn same_segments(a: Seq<Arc<Segment>>, b: Seq<Arc<Segment>>) -> bool {
    forall|x: Arc<Segment>| #[trigger] a.contains(x) <==> b.contains(x)
}

/// The level after the incoming segments were merged into it: the segments
/// that they overlap and they themselves are replaced by the segments of the
/// merged entries.
pub open spec fn merged(
    level: PartitionedLevel,
    incoming: Seq<Arc<Segment>>,
    after: PartitionedLevel,
) -> bool {
    &&& after.wf()
    &&& after.target() == level.target()
    &&& after.sparsity() == level.sparsity()
    &&& after.number() == level.number()
    &&& exists|new: Seq<Arc<Segment>>| #[trigger] replaced(level, incoming, new, after)
}

/// The segments `new` hold the merged entries.
pub open spec fn replaced(
    level: PartitionedLevel,
    incoming: Seq<Arc<Segment>>,
    new: Seq<Arc<Segment>>,
    after: PartitionedLevel,
) -> bool {
    let stay = untouched(level.segs(), incoming);
    let all = touched(level.segs(), incoming) + incoming;
    &&& merge::split(
        new,
        stay,
        level.number() as nat,
        (level.issued() + 1) as nat,
        level.sparsity() as int,
    )
    &&& after.issued() == level.issued() + new.len()
    &&& merge::is_merge(merge::sources(all), merge::concat(new))
    &&& same_segments(after.segs(), new + stay)
}

/// What the two lists are made of.
pub proof fn lemma_touched(segs: Seq<Arc<Segment>>, incoming: Seq<Arc<Segment>>)
    ensures
        forall|x: Arc<Segment>| #[trigger]
            touched(segs, incoming).contains(x) <==> segs.contains(x) && meets_any(*x, incoming),
        forall|x: Arc<Segment>| #[trigger]
            untouched(segs, incoming).contains(x) <==> segs.contains(x) && !meets_any(*x, incoming),
        partitioned(segs) ==> partitioned(untouched(segs, incoming)),
        untouched(segs, incoming).len() + touched(segs, incoming).len() == segs.len(),
    decreases segs.len(),
{
    if segs.len() > 0 {
        let init = segs.drop_last();
        let last = segs.last();
        let t = touched(init, incoming);
        let u = untouched(init, incoming);
        lemma_touched(init, incoming);
        assert(segs =~= init.push(last));
        lemma_contains_push(init, last);
        lemma_contains_push(t, last);
        lemma_contains_push(u, last);
        if partitioned(segs) {
            assert(partitioned(init)) by {
                assert forall|i: int, j: int| 0 <= i < j < init.len() implies order::key_lt(
                    (#[trigger] init[i]).entries().last().key,
                    (#[trigger] init[j]).entries()[0].key,
                ) by {
                    assert(init[i] == segs[i] && init[j] == segs[j]);
                }
            }
            let now = untouched(segs, incoming);
            assert forall|i: int, j: int| 0 <= i < j < now.len() implies order::key_lt(
                (#[trigger] now[i]).entries().last().key,
                (#[trigger] now[j]).entries()[0].key,
            ) by {
                assert(now[i] == u[i]);
                assert(u.contains(u[i]));
                if j < u.len() {
                    assert(now[j] == u[j]);
                } else {
                    let m = choose|m: int| 0 <= m < init.len() && init[m] == u[i];
                    assert(segs[m] == init[m] && segs[segs.len() - 1] == last);
                }
            }
        }
    }
}

pub proof fn lemma_contains_push(s: Seq<Arc<Segment>>, y: Arc<Segment>)
    ensures
        forall|x: Arc<Segment>| #[trigger] s.push(y).contains(x) <==> s.contains(x) || x == y,
{
    let p = s.push(y);
    assert forall|x: Arc<Segment>| #[trigger] p.contains(x) <==> s.contains(x) || x == y by {
        if s.contains(x) {
            let i = choose|i: int| 0 <= i < s.len() && s[i] == x;
            assert(p[i] == x);
        }
        if x == y {
            assert(p[s.len() as int] == x);
        }
        if p.contains(x) {
            let i = choose|i: int| 0 <= i < p.len() && p[i] == x;
            if i < s.len() {
                assert(s[i] == x);
            }
        }
    }
}

proof fn lemma_contains_concat(a: Seq<Arc<Segment>>, b: Seq<Arc<Segment>>)
    ensures
        forall|x: Arc<Segment>| #[trigger] (a + b).contains(x) <==> a.contains(x) || b.contains(x),
{
    let p = a + b;
    assert forall|x: Arc<Segment>| #[trigger] p.contains(x) <==> a.contains(x) || b.contains(x) by {
        if a.contains(x) {
            let i = choose|i: int| 0 <= i < a.len() && a[i] == x;
            assert(p[i] == x);
        }
        if b.contains(x) {
            let i = choose|i: int| 0 <= i < b.len() && b[i] == x;
            assert(p[a.len() + i] == x);
        }
        if p.contains(x) {
            let i = choose|i: int| 0 <= i < p.len() && p[i] == x;
            if i < a.len() {
                assert(a[i] == x);
            } else {
                assert(b[i - a.len()] == x);
            }
        }
    }
}

/// The segments that stay overlap neither those that do not stay nor the
/// incoming ones.
pub proof fn lemma_stay_apart(segs: Seq<Arc<Segment>>, incoming: Seq<Arc<Segment>>)
    requires
        merge::segments_wf(segs),
        partitioned(segs),
    ensures
        apart(touched(segs, incoming) + incoming, untouched(segs, incoming)),
        merge::segments_wf(touched(segs, incoming)),
        merge::segments_wf(untouched(segs, incoming)),
        partitioned(untouched(segs, incoming)),
{
    broadcast use order::group_key_order;

    let t = touched(segs, incoming);
    let u = untouched(segs, incoming);
    let a = t + incoming;
    lemma_touched(segs, incoming);
    assert forall|i: int| 0 <= i < t.len() implies (#[trigger] t[i]).wf() by {
        assert(t.contains(t[i]));
        let m = choose|m: int| 0 <= m < segs.len() && segs[m] == t[i];
        assert(segs[m].wf());
    }
    assert forall|i: int| 0 <= i < u.len() implies (#[trigger] u[i]).wf() by {
        assert(u.contains(u[i]));
        let m = choose|m: int| 0 <= m < segs.len() && segs[m] == u[i];
        assert(segs[m].wf());
    }
    assert forall|i: int, j: int| 0 <= i < a.len() && 0 <= j < u.len() implies !overlapping(
        *(#[trigger] a[i]),
        *(#[trigger] u[j]),
    ) by {
        assert(u.contains(u[j]));
        assert(!meets_any(*u[j], incoming));
        if i < t.len() {
            assert(a[i] == t[i]);
            assert(t.contains(t[i]));
            let m = choose|m: int| 0 <= m < segs.len() && segs[m] == t[i];
            let n = choose|n: int| 0 <= n < segs.len() && segs[n] == u[j];
            assert(m != n);
            if m < n {
                assert(order::key_lt(segs[m].entries().last().key, segs[n].entries()[0].key));
            } else {
                assert(order::key_lt(segs[n].entries().last().key, segs[m].entries()[0].key));
            }
        } else {
            let k = i - t.len();
            assert(a[i] == incoming[k]);
            if overlapping(*a[i], *u[j]) {
                assert(overlapping(*u[j], *incoming[k]));
            }
        }
    }
}

/// Segments whose entries one after the other are in order do not overlap.
proof fn lemma_concat_partitioned(segs: Seq<Arc<Segment>>)
    requires
        merge::segments_wf(segs),
        segment::sorted(merge::concat(segs)),
    ensures
        partitioned(segs),
        forall|i: int, x: int|
            #![trigger segs[i].entries()[x]]
            0 <= i < segs.len() && 0 <= x < segs[i].entries().len() ==> merge::concat(
                segs,
            ).contains(segs[i].entries()[x]),
    decreases segs.len(),
{
    if segs.len() > 0 {
        let init = segs.drop_last();
        let last = segs.last();
        let c = merge::concat(init);
        let all = merge::concat(segs);
        assert forall|i: int| 0 <= i < init.len() implies (#[trigger] init[i]).wf() by {
            assert(init[i] == segs[i]);
        }
        assert forall|i: int, j: int| 0 <= i < j < c.len() implies order::key_lt(
            (#[trigger] c[i]).key,
            (#[trigger] c[j]).key,
        ) by {
            assert(c[i] == all[i] && c[j] == all[j]);
        }
        lemma_concat_partitioned(init);
        assert(last == segs[segs.len() - 1]);
        last.lemma_entries();
        assert forall|i: int, x: int|
            #![trigger segs[i].entries()[x]]
            0 <= i < segs.len() && 0 <= x < segs[i].entries().len() implies all.contains(
            segs[i].entries()[x],
        ) by {
            if i < init.len() {
                assert(init[i] == segs[i]);
                assert(c.contains(init[i].entries()[x]));
                let m = choose|m: int| 0 <= m < c.len() && c[m] == init[i].entries()[x];
                assert(all[m] == c[m]);
            } else {
                assert(all[c.len() + x] == last.entries()[x]);
            }
        }
        assert forall|i: int, j: int| 0 <= i < j < segs.len() implies order::key_lt(
            (#[trigger] segs[i]).entries().last().key,
            (#[trigger] segs[j]).entries()[0].key,
        ) by {
            assert(init[i] == segs[i]);
            if j < init.len() {
                assert(init[j] == segs[j]);
            } else {
                init[i].lemma_entries();
                let x = init[i].entries().len() - 1;
                assert(c.contains(init[i].entries()[x]));
                let m = choose|m: int| 0 <= m < c.len() && c[m] == init[i].entries()[x];
                assert(all[m] == c[m]);
                assert(all[c.len() as int] == last.entries()[0]);
            }
        }
    }
}

/// A segment overlaps none of the segments that stay, where none of them
/// starts between its entries and no entry of it is in their ranges.
proof fn lemma_new_apart(es: Seq<sstable::EntryView>, us: Seq<Arc<Segment>>, j: int, i: int)
    requires
        0 <= j < us.len(),
        us[j].wf(),
        0 <= i < es.len(),
        segment::sorted(es),
        merge::unbroken(us, es),
        forall|x: int| 0 <= x < es.len() ==> !covers(*us[j], (#[trigger] es[x]).key),
        order::key_lt(es[0].key, us[j].entries()[0].key),
    ensures
        order::key_lt(es[i].key, us[j].entries()[0].key),
    decreases i,
{
    broadcast use order::group_key_order;

    if i > 0 {
        lemma_new_apart(es, us, j, i - 1);
        us[j].lemma_entries();
        let u = us[j].entries();
        if !order::key_lt(es[i].key, u[0].key) {
            order::lemma_key_lt_total(es[i].key, u[0].key);
            order::lemma_key_lt_total(es[i].key, u.last().key);
            assert(!covers(*us[j], es[i].key));
            assert(order::key_lt(u.last().key, es[i].key));
            if u.len() > 1 {
                assert(order::key_lt(u[0].key, u[u.len() - 1].key));
            }
            assert(!merge::separated(us, es[i - 1].key, es[i].key));
        }
    }
}

/// The new segments of a merge overlap none of those that stay.
#[verifier::rlimit(40)]
proof fn lemma_merge_apart(
    new: Seq<Arc<Segment>>,
    stay: Seq<Arc<Segment>>,
    all: Seq<Arc<Segment>>,
)
    requires
        merge::segments_wf(new),
        merge::segments_wf(stay),
        merge::segments_wf(all),
        apart(all, stay),
        merge::is_merge(merge::sources(all), merge::concat(new)),
        forall|i: int| 0 <= i < new.len() ==> merge::unbroken(stay, (#[trigger] new[i]).entries()),
    ensures
        apart(new, stay),
        partitioned(new),
{
    broadcast use order::group_key_order;

    let runs = merge::sources(all);
    lemma_concat_partitioned(new);
    assert forall|i: int, j: int| 0 <= i < new.len() && 0 <= j < stay.len() implies !overlapping(
        *(#[trigger] new[i]),
        *(#[trigger] stay[j]),
    ) by {
        let es = new[i].entries();
        let u = stay[j].entries();
        new[i].lemma_entries();
        stay[j].lemma_entries();
        assert forall|x: int| 0 <= x < es.len() implies !covers(
            *stay[j],
            (#[trigger] es[x]).key,
        ) by {
            let out = merge::concat(new);
            assert(out.contains(new[i].entries()[x]));
            let a = choose|a: int| 0 <= a < out.len() && out[a] == es[x];
            assert(merge::newest(runs, out[a]));
            let (b, y) = choose|b: int, y: int|
                0 <= b < runs.len() && 0 <= y < runs[b].len() && #[trigger] runs[b][y] == out[a];
            assert(runs[b][y] == all[b].entries()[y]);
            all[b].lemma_entries();
            let ks = all[b].entries();
            assert(!overlapping(*all[b], *stay[j]));
            if y > 0 {
                assert(order::key_lt(ks[0].key, ks[y].key));
            }
            if y < ks.len() - 1 {
                assert(order::key_lt(ks[y].key, ks[ks.len() - 1].key));
            }
            assert(order::key_le(ks[0].key, es[x].key));
            assert(order::key_le(es[x].key, ks.last().key));
            if covers(*stay[j], es[x].key) {
                assert(order::key_le(ks[0].key, u.last().key));
                assert(order::key_le(u[0].key, ks.last().key));
            }
        }
        if overlapping(*new[i], *stay[j]) {
            assert(!covers(*stay[j], es[0].key));
            order::lemma_key_lt_total(es[0].key, u[0].key);
            order::lemma_key_lt_total(es[0].key, u.last().key);
            assert(order::key_lt(es[0].key, u[0].key));
            lemma_new_apart(es, stay, j, es.len() - 1);
        }
    }
}

/// Puts two lists of segments that do not overlap into one order.
fn weave(a: &Vec<Arc<Segment>>, b: &Vec<Arc<Segment>>) -> (r: Vec<Arc<Segment>>)
    requires
        merge::segments_wf(a@),
        merge::segments_wf(b@),
        partitioned(a@),
        partitioned(b@),
        apart(a@, b@),
    ensures
        merge::segments_wf(r@),
        partitioned(r@),
        same_segments(r@, a@ + b@),
{
    let n: usize = a.len();
    let m: usize = b.len();
    let mut r: Vec<Arc<Segment>> = Vec::new();
    let mut i: usize = 0;
    let mut j: usize = 0;
    assert(a@.take(0) + b@.take(0) =~= Seq::<Arc<Segment>>::empty());
    while i < n || j < m
        invariant
            i <= n == a@.len(),
            j <= m == b@.len(),
            merge::segments_wf(a@),
            merge::segments_wf(b@),
            merge::segments_wf(r@),
            partitioned(a@),
            partitioned(b@),
            partitioned(r@),
            apart(a@, b@),
            same_segments(r@, a@.take(i as int) + b@.take(j as int)),
            forall|x: int|
                0 <= x < r@.len() && i < n ==> order::key_lt(
                    (#[trigger] r@[x]).entries().last().key,
                    a@[i as int].entries()[0].key,
                ),
            forall|x: int|
                0 <= x < r@.len() && j < m ==> order::key_lt(
                    (#[trigger] r@[x]).entries().last().key,
                    b@[j as int].entries()[0].key,
                ),
        decreases n - i + m - j,
    {
        broadcast use order::group_key_order;

        let ghost before = r@;
        let ghost p = a@.take(i as int) + b@.take(j as int);
        let first: bool = if i < n && j < m {
            key_less(a[i].first_key(), b[j].first_key())
        } else {
            i < n
        };
        proof {
            if i < n && j < m {
                a@[i as int].lemma_entries();
                b@[j as int].lemma_entries();
                assert(!overlapping(*a@[i as int], *b@[j as int]));
                order::lemma_key_lt_total(
                    a@[i as int].entries()[0].key,
                    b@[j as int].entries()[0].key,
                );
                lemma_apart_order(a@[i as int], b@[j as int]);
            }
            lemma_contains_concat(a@.take(i as int), b@.take(j as int));
        }
        if first {
            r.push(share(&a[i]));
            proof {
                lemma_contains_push(before, a@[i as int]);
                lemma_contains_push(a@.take(i as int), a@[i as int]);
                assert(a@.take(i + 1) =~= a@.take(i as int).push(a@[i as int]));
                lemma_contains_concat(a@.take(i + 1), b@.take(j as int));
                lemma_span(a@[i as int]);
                assert forall|x: int| 0 <= x < r@.len() && i + 1 < n implies order::key_lt(
                    (#[trigger] r@[x]).entries().last().key,
                    a@[i + 1].entries()[0].key,
                ) by {
                    assert(order::key_lt(
                        a@[i as int].entries().last().key,
                        a@[i + 1].entries()[0].key,
                    ));
                    if x < before.len() {
                        assert(r@[x] == before[x]);
                    }
                }
            }
            i += 1;
        } else {
            r.push(share(&b[j]));
            proof {
                lemma_contains_push(before, b@[j as int]);
                lemma_contains_push(b@.take(j as int), b@[j as int]);
                assert(b@.take(j + 1) =~= b@.take(j as int).push(b@[j as int]));
                lemma_contains_concat(a@.take(i as int), b@.take(j + 1));
                lemma_span(b@[j as int]);
                assert forall|x: int| 0 <= x < r@.len() && j + 1 < m implies order::key_lt(
                    (#[trigger] r@[x]).entries().last().key,
                    b@[j + 1].entries()[0].key,
                ) by {
                    assert(order::key_lt(
                        b@[j as int].entries().last().key,
                        b@[j + 1].entries()[0].key,
                    ));
                    if x < before.len() {
                        assert(r@[x] == before[x]);
                    }
                }
            }
            j += 1;
        }
    }
    assert(a@.take(n as int) =~= a@);
    assert(b@.take(m as int) =~= b@);
    r
}

/// A segment does not end before it starts.
proof fn lemma_span(a: Arc<Segment>)
    requires
        a.wf(),
    ensures
        order::key_le(a.entries()[0].key, a.entries().last().key),
{
    a.lemma_entries();
    let x = a.entries();
    if x.len() > 1 {
        assert(order::key_lt(x[0].key, x[x.len() - 1].key));
    }
}

/// Of two segments that do not overlap, the one that starts first ends before
/// the other starts.
proof fn lemma_apart_order(a: Arc<Segment>, b: Arc<Segment>)
    requires
        a.wf(),
        b.wf(),
        !overlapping(*a, *b),
    ensures
        order::key_lt(a.entries()[0].key, b.entries()[0].key) ==> order::key_lt(
            a.entries().last().key,
            b.entries()[0].key,
        ),
        !order::key_lt(a.entries()[0].key, b.entries()[0].key) ==> order::key_lt(
            b.entries().last().key,
            a.entries()[0].key,
        ),
{
    broadcast use order::group_key_order;

    let x = a.entries();
    let y = b.entries();
    a.lemma_entries();
    b.lemma_entries();
    order::lemma_key_lt_total(x[0].key, y[0].key);
    order::lemma_key_lt_total(x.last().key, y[0].key);
    order::lemma_key_lt_total(y.last().key, x[0].key);
    if x.len() > 1 {
        assert(order::key_lt(x[0].key, x[x.len() - 1].key));
    }
    if y.len() > 1 {
        assert(order::key_lt(y[0].key, y[y.len() - 1].key));
    }
}

/// Whether a segment overlaps one of the others.
fn overlaps_any(segment: &Segment, others: &Vec<Arc<Segment>>) -> (r: bool)
    requires
        segment.wf(),
        merge::segments_wf(others@),
    ensures
        r == meets_any(*segment, others@),
{
    let n: usize = others.len();
    let mut i: usize = 0;
    while i < n
        invariant
            i <= n == others@.len(),
            segment.wf(),
            merge::segments_wf(others@),
            forall|k: int| 0 <= k < i ==> !overlapping(*segment, *(#[trigger] others@[k])),
        decreases n - i,
    {
        if segment.overlaps(&others[i]) {
            return true;
        }
        i += 1;
    }
    false
}

/// The numbers of new segments follow the highest that the level ever gave.
proof fn lemma_new_numbers(
    new: Seq<Arc<Segment>>,
    stay: Seq<Arc<Segment>>,
    level: nat,
    last: u64,
    s: int,
)
    requires
        merge::split(new, stay, level, (last + 1) as nat, s),
        last < 0x1_0000_0000,
    ensures
        last + new.len() < 0x1_0000_0000,
        forall|i: int|
            0 <= i < new.len() ==> (#[trigger] new[i]).numbered() == last + 1 + i && new[i].name()
                == segment::segment_filename(level, new[i].numbered() as nat),
{
    assert forall|i: int| 0 <= i < new.len() implies (#[trigger] new[i]).numbered() == last + 1 + i
        && new[i].name() == segment::segment_filename(level, new[i].numbered() as nat) by {
        assert(merge::written(*new[i], level, (last + 1 + i) as nat, s));
    }
    if new.len() > 0 {
        let x = new[new.len() - 1];
        assert(merge::written(*x, level, (last + new.len()) as nat, s));
        let one = seq![x];
        lemma_highest_number(one);
        assert(one.last() == x);
        assert(one.drop_last() =~= Seq::<Arc<Segment>>::empty());
        reveal_with_fuel(merge::highest_number, 2);
        assert(merge::highest_number(one) >= x.numbered());
    }
}

/// Segments that are new or were there have no higher number than the last new
/// one, and the level made their names.
proof fn lemma_within(
    all: Seq<Arc<Segment>>,
    new: Seq<Arc<Segment>>,
    stay: Seq<Arc<Segment>>,
    segs: Seq<Arc<Segment>>,
    level: u64,
    last: u64,
)
    requires
        same_segments(all, new + stay),
        within(segs, last),
        named_for(segs, level),
        last + new.len() <= u64::MAX,
        forall|i: int|
            0 <= i < new.len() ==> (#[trigger] new[i]).numbered() == last + 1 + i && new[i].name()
                == segment::segment_filename(level as nat, new[i].numbered() as nat),
        forall|x: Arc<Segment>| #[trigger] stay.contains(x) ==> segs.contains(x),
    ensures
        within(all, (last + new.len()) as u64),
        named_for(all, level),
{
    assert forall|i: int| 0 <= i < all.len() implies (#[trigger] all[i]).numbered() <= (last
        + new.len()) as u64 && all[i].name() == segment::segment_filename(
        level as nat,
        all[i].numbered() as nat,
    ) by {
        let x = all[i];
        assert(all.contains(x));
        assert((new + stay).contains(x));
        let k = choose|k: int| 0 <= k < (new + stay).len() && (new + stay)[k] == x;
        if k < new.len() {
            assert(new[k] == x);
        } else {
            assert(stay[k - new.len()] == x);
            assert(stay.contains(x));
            let m = choose|m: int| 0 <= m < segs.len() && segs[m] == x;
            assert(segs[m].numbered() <= last);
        }
    }
}

impl PartitionedLevel {
    /// Merges entries of segments into new segments of this level, around the
    /// segments that stay.
    pub fn merge_and_write(
        &self,
        segments: &Vec<Arc<Segment>>,
        stay: &Vec<Arc<Segment>>,
    ) -> (r: Option<Vec<Arc<Segment>>>)
        requires
            self.wf(),
            merge::segments_wf(segments@),
            merge::segments_wf(stay@),
        ensures
            r is Some <==> segments@.len() == 0 || merge::numbers_left(
                self.issued() as nat,
                merge::total_size(segments@),
                stay@.len(),
            ),
            r matches Some(new) ==> {
                &&& merge::split(
                    new@,
                    stay@,
                    self.number() as nat,
                    (self.issued() + 1) as nat,
                    self.sparsity() as int,
                )
                &&& merge::is_merge(merge::sources(segments@), merge::concat(new@))
            },
    {
        merge_segments(segments, stay, self.last_number, self.level_number, self.index_sparsity_factor)
    }

    /// Merges the incoming segments into the level. Gives the new level and
    /// the segments of this level that it does not need any more, or nothing
    /// where the numbers for new segments do not suffice.
    pub fn merge(&self, incoming: &Vec<Arc<Segment>>) -> (r: Option<
        (PartitionedLevel, Vec<Arc<Segment>>),
    >)
        requires
            self.wf(),
            merge::segments_wf(incoming@),
        ensures
            r is Some <==> incoming@.len() == 0 || merge::numbers_left(
                self.issued() as nat,
                merge::total_size(touched(self.segs(), incoming@) + incoming@),
                untouched(self.segs(), incoming@).len(),
            ),
            r matches Some((level, old_segments)) ==> {
                &&& merged(*self, incoming@, level)
                &&& old_segments@ == touched(self.segs(), incoming@)
            },
    {
        let n: usize = self.segments.len();
        let mut segments: Vec<Arc<Segment>> = Vec::new();
        let mut old_segments: Vec<Arc<Segment>> = Vec::new();
        let mut stay: Vec<Arc<Segment>> = Vec::new();
        let mut i: usize = 0;
        assert(self.segments@.take(0) =~= Seq::<Arc<Segment>>::empty());
        while i < n
            invariant
                i <= n == self.segments@.len(),
                merge::segments_wf(self.segments@),
                merge::segments_wf(incoming@),
                segments@ == touched(self.segments@.take(i as int), incoming@),
                old_segments@ == segments@,
                stay@ == untouched(self.segments@.take(i as int), incoming@),
            decreases n - i,
        {
            assert(self.segments@.take(i + 1).drop_last() =~= self.segments@.take(i as int));
            if overlaps_any(&self.segments[i], incoming) {
                segments.push(share(&self.segments[i]));
                old_segments.push(share(&self.segments[i]));
            } else {
                stay.push(share(&self.segments[i]));
            }
            i += 1;
        }
        assert(self.segments@.take(n as int) =~= self.segments@);
        let ghost hit = segments@;
        let m: usize = incoming.len();
        let mut j: usize = 0;
        assert(hit + incoming@.take(0) =~= hit);
        while j < m
            invariant
                j <= m == incoming@.len(),
                segments@ == hit + incoming@.take(j as int),
            decreases m - j,
        {
            segments.push(share(&incoming[j]));
            assert(incoming@.take(j + 1) =~= incoming@.take(j as int).push(incoming@[j as int]));
            assert(segments@ =~= hit + incoming@.take(j + 1));
            j += 1;
        }
        assert(incoming@.take(m as int) =~= incoming@);
        let ghost all = hit + incoming@;
        proof {
            lemma_stay_apart(self.segments@, incoming@);
            assert forall|x: int| 0 <= x < all.len() implies (#[trigger] all[x]).wf() by {
                if x < hit.len() {
                    assert(all[x] == hit[x]);
                } else {
                    assert(all[x] == incoming@[x - hit.len()]);
                }
            }
            if incoming@.len() == 0 {
                if hit.len() > 0 {
                    lemma_touched(self.segments@, incoming@);
                    assert(hit.contains(hit[0]));
                    assert(meets_any(*hit[0], incoming@));
                }
            }
        }
        match self.merge_and_write(&segments, &stay) {
            Some(new) => {
                proof {
                    assert forall|x: int| 0 <= x < new@.len() implies (#[trigger] new@[x]).wf() by {
                        assert(merge::written(
                            *new@[x],
                            self.level_number as nat,
                            (self.last_number + 1 + x) as nat,
                            self.index_sparsity_factor as int,
                        ));
                    }
                    lemma_merge_apart(new@, stay@, all);
                    lemma_new_numbers(
                        new@,
                        stay@,
                        self.level_number as nat,
                        self.last_number,
                        self.index_sparsity_factor as int,
                    );
                }
                let level = PartitionedLevel {
                    segments: weave(&new, &stay),
                    target_size: self.target_size,
                    index_sparsity_factor: self.index_sparsity_factor,
                    level_number: self.level_number,
                    last_number: self.last_number + new.len() as u64,
                };
                proof {
                    lemma_touched(self.segments@, incoming@);
                    lemma_within(
                        level.segs(),
                        new@,
                        stay@,
                        self.segments@,
                        self.level_number,
                        self.last_number,
                    );
                }
                assert(replaced(*self, incoming@, new@, level));
                Some((level, old_segments))
            },
            None => None,
        }
    }
}

/// A level that is shared between readers and the compaction.
pub struct SsTableLevel<T: SstLevel> {
    inner: T,
}

impl<T: SstLevel> SsTableLevel<T> {
    /// The level.
    pub closed spec fn inner(&self) -> T {
        self.inner
    }

    /// The entry that the level has of a key.
    pub fn get(&self, key: &String) -> (r: Option<SsTableEntry>)
        requires
            self.inner().wf(),
        ensures
            segment::entry_view(r) == self.inner().find(key@),
    {
        self.inner.get(key)
    }

    /// The level of a kind.
    pub fn from(level_type: T) -> (r: Self)
        ensures
            r.inner() == level_type,
    {
        SsTableLevel { inner: level_type }
    }

    /// The segments that are to be merged into the next level.
    pub fn segments_to_merge(&self) -> (r: Vec<Arc<Segment>>)
        ensures
            r@ == self.inner().outgoing(),
    {
        self.inner.segments_to_merge()
    }

    /// Whether the level is larger than it should be.
    pub fn exceeds_target_size(&self) -> (r: bool)
        ensures
            r == exceeds(self.inner().segs(), self.inner().target()),
    {
        self.inner.exceeds_target_size()
    }

    /// The highest number of a segment, zero where there is none.
    pub fn highest_segment_number(&self) -> (n: u64)
        ensures
            n == merge::highest_number(self.inner().segs()),
    {
        self.inner.highest_segment_number()
    }
}

/// A level without segments.
pub open spec fn empty_level(level: PartitionedLevel, target: u64, number: u64) -> bool {
    &&& level.segs() == Seq::<Arc<Segment>>::empty()
    &&& level.target() == target
    &&& level.number() == number
    &&& level.sparsity() == 1
    &&& level.issued() == 0
}

/// What is left of a level when the segments that exceed its size are gone.
pub open spec fn rest_of(level: PartitionedLevel, rest: PartitionedLevel) -> bool {
    &&& rest.segs() == staying(level.segs(), level.target())
    &&& rest.target() == level.target()
    &&& rest.number() == level.number()
    &&& rest.sparsity() == level.sparsity()
    &&& rest.issued() == level.issued()
}

impl SsTableLevel<PartitionedLevel> {
    /// A level without segments.
    pub fn new(target_size: u64, level_number: u64) -> (r: Self)
        ensures
            empty_level(r.inner(), target_size, level_number),
            level_number < 0x1_0000_0000 ==> r.inner().wf(),
    {
        SsTableLevel {
            inner: PartitionedLevel {
                segments: Vec::new(),
                target_size,
                index_sparsity_factor: 1,
                level_number,
                last_number: 0,
            },
        }
    }

    /// The highest sequence number of the level, zero where it has no segment.
    pub fn highest_sequence_no(&self) -> (n: u64)
        requires
            self.inner().wf(),
        ensures
            n == highest_sequence(self.inner().segs()),
    {
        highest_sequence_of(&self.inner.segments)
    }

    /// Merges segments into the level. Gives the new level and the segments of
    /// this level that it does not need any more, or nothing where the numbers
    /// for new segments do not suffice.
    pub fn merge(&self, segments: &Vec<Arc<Segment>>) -> (r: Option<
        (Arc<SsTableLevel<PartitionedLevel>>, Vec<Arc<Segment>>),
    >)
        requires
            self.inner().wf(),
            merge::segments_wf(segments@),
        ensures
            r is Some <==> segments@.len() == 0 || merge::numbers_left(
                self.inner().issued() as nat,
                merge::total_size(touched(self.inner().segs(), segments@) + segments@),
                untouched(self.inner().segs(), segments@).len(),
            ),
            r matches Some((level, old_segments)) ==> {
                &&& merged(self.inner(), segments@, level.inner())
                &&& old_segments@ == touched(self.inner().segs(), segments@)
            },
    {
        match self.inner.merge(segments) {
            Some((level, old_segments)) => Some(
                (Arc::new(SsTableLevel { inner: level }), old_segments),
            ),
            None => None,
        }
    }

    /// The level without the segments that are to be merged into the next one.
    pub fn rest(&self) -> (r: Self)
        ensures
            rest_of(self.inner(), r.inner()),
    {
        let (_, rest) = self.inner.divide();
        SsTableLevel {
            inner: PartitionedLevel {
                segments: rest,
                target_size: self.inner.target_size,
                index_sparsity_factor: self.inner.index_sparsity_factor,
                level_number: self.inner.level_number,
                last_number: self.inner.last_number,
            },
        }
    }

    /// The number of the level.
    pub fn level_number(&self) -> (n: u64)
        ensures
            n == self.inner().number(),
    {
        self.inner.level_number
    }

    /// The size that the level should not exceed.
    pub fn target_size(&self) -> (n: u64)
        ensures
            n == self.inner().target(),
    {
        self.inner.target_size
    }

    /// The segments, in the order of their keys.
    pub fn segments(&self) -> (r: &Vec<Arc<Segment>>)
        ensures
            r@ == self.inner().segs(),
    {
        &self.inner.segments
    }
}

/// The higher of two numbers.
pub open spec fn later_number(a: u64, b: u64) -> u64 {
    if b > a {
        b
    } else {
        a
    }
}

impl SsTableLevel<OverlappingLevel> {
    /// A level without segments.
    pub fn new(target_size: u64) -> (r: Self)
        ensures
            r.inner().segs() == Seq::<Arc<Segment>>::empty(),
            r.inner().target() == target_size,
            r.inner().issued() == 0,
    {
        SsTableLevel {
            inner: OverlappingLevel { segments: Vec::new(), target_size, last_number: 0 },
        }
    }

    /// The level without its segments.
    pub fn emptied(&self) -> (r: Self)
        ensures
            r.inner().segs() == Seq::<Arc<Segment>>::empty(),
            r.inner().target() == self.inner().target(),
            r.inner().issued() == self.inner().issued(),
    {
        SsTableLevel {
            inner: OverlappingLevel {
                segments: Vec::new(),
                target_size: self.inner.target_size,
                last_number: self.inner.last_number,
            },
        }
    }

    /// Adds a segment as the newest one.
    pub fn add_segment(&mut self, segment: Segment)
        ensures
            final(self).inner().segs() == old(self).inner().segs().push(Arc::new(segment)),
            final(self).inner().target() == old(self).inner().target(),
            final(self).inner().issued() == later_number(
                old(self).inner().issued(),
                segment.numbered(),
            ),
    {
        if *segment.segment_number() > self.inner.last_number {
            self.inner.last_number = *segment.segment_number();
        }
        self.inner.segments.push(Arc::new(segment));
    }

    /// The highest number that a segment of the level ever had.
    pub fn last_number(&self) -> (n: u64)
        ensures
            n == self.inner().issued(),
    {
        self.inner.last_number
    }

    /// The highest sequence number of the level, zero where it has no segment.
    pub fn highest_sequence_no(&self) -> (n: u64)
        requires
            self.inner().wf(),
        ensures
            n == highest_sequence(self.inner().segs()),
    {
        highest_sequence_of(&self.inner.segments)
    }

    /// The size that the level should not exceed.
    pub fn target_size(&self) -> (n: u64)
        ensures
            n == self.inner().target(),
    {
        self.inner.target_size
    }

    /// The segments, the newest last.
    pub fn segments(&self) -> (r: &Vec<Arc<Segment>>)
        ensures
            r@ == self.inner().segs(),
    {
        &self.inner.segments
    }
}

impl Clone for SsTableLevel<OverlappingLevel> {
    fn clone(&self) -> (r: Self)
        ensures
            r.inner().segs() == self.inner().segs(),
            r.inner().target() == self.inner().target(),
            r.inner().issued() == self.inner().issued(),
    {
        SsTableLevel {
            inner: OverlappingLevel {
                segments: share_all(&self.inner.segments),
                target_size: self.inner.target_size,
                last_number: self.inner.last_number,
            },
        }
    }
}

/// The levels behind their shared pointers.
pub open spec fn levels_of(v: Seq<Arc<SsTableLevel<PartitionedLevel>>>) -> Seq<PartitionedLevel> {
    v.map_values(|l: Arc<SsTableLevel<PartitionedLevel>>| l.inner())
}

/// Every level is well formed.
pub open spec fn levels_wf(levels: Seq<PartitionedLevel>) -> bool {
    forall|i: int| 0 <= i < levels.len() ==> (#[trigger] levels[i]).wf()
}

/// The levels once more.
pub(crate) fn share_levels(levels: &Vec<Arc<SsTableLevel<PartitionedLevel>>>) -> (r: Vec<
    Arc<SsTableLevel<PartitionedLevel>>,
>)
    ensures
        r@ == levels@,
{
    let n: usize = levels.len();
    let mut r: Vec<Arc<SsTableLevel<PartitionedLevel>>> = Vec::new();
    let mut i: usize = 0;
    while i < n
        invariant
            i <= n == levels@.len(),
            r@ == levels@.take(i as int),
        decreases n - i,
    {
        r.push(share(&levels[i]));
        assert(levels@.take(i + 1) =~= levels@.take(i as int).push(levels@[i as int]));
        i += 1;
    }
    assert(levels@.take(n as int) =~= levels@);
    r
}

/// All levels of the table: the level of the flushed tables, and those that it
/// is compacted into, the next one first.
pub struct LevelContainer {
    level_zero: Arc<SsTableLevel<OverlappingLevel>>,
    partitioned_levels: Vec<Arc<SsTableLevel<PartitionedLevel>>>,
}

impl LevelContainer {
    /// The level of the flushed tables.
    pub closed spec fn zero(&self) -> OverlappingLevel {
        self.level_zero.inner()
    }

    /// The levels that it is compacted into.
    pub closed spec fn levels(&self) -> Seq<PartitionedLevel> {
        levels_of(self.partitioned_levels@)
    }

    /// Every level is well formed.
    pub open spec fn wf(&self) -> bool {
        self.zero().wf() && levels_wf(self.levels())
    }

    /// Levels without segments.
    pub fn new(level_zero_target_size: u64) -> (r: Self)
        ensures
            r.wf(),
            r.zero().segs() == Seq::<Arc<Segment>>::empty(),
            r.zero().target() == level_zero_target_size,
            r.zero().issued() == 0,
            r.levels() == Seq::<PartitionedLevel>::empty(),
    {
        let r = LevelContainer {
            level_zero: Arc::new(SsTableLevel::<OverlappingLevel>::new(level_zero_target_size)),
            partitioned_levels: Vec::new(),
        };
        assert(r.levels() =~= Seq::<PartitionedLevel>::empty());
        r
    }

    /// The level of the flushed tables.
    pub fn level_zero(&self) -> (r: Arc<SsTableLevel<OverlappingLevel>>)
        ensures
            r.inner() == self.zero(),
    {
        share(&self.level_zero)
    }

    /// The levels that it is compacted into.
    pub fn partitioned_levels(&self) -> (r: Vec<Arc<SsTableLevel<PartitionedLevel>>>)
        ensures
            levels_of(r@) == self.levels(),
    {
        share_levels(&self.partitioned_levels)
    }

    /// Replaces the levels that the flushed tables are compacted into.
    pub fn swap_partitioned_levels(
        &mut self,
        new_partitioned_levels: Vec<Arc<SsTableLevel<PartitionedLevel>>>,
    )
        ensures
            final(self).zero() == old(self).zero(),
            final(self).levels() == levels_of(new_partitioned_levels@),
    {
        self.partitioned_levels = new_partitioned_levels;
    }

    /// Replaces the levels that the flushed tables are compacted into, and
    /// empties the level of the flushed tables.
    pub fn swap_all_levels(
        &mut self,
        new_partitioned_levels: Vec<Arc<SsTableLevel<PartitionedLevel>>>,
    )
        ensures
            final(self).zero().segs() == Seq::<Arc<Segment>>::empty(),
            final(self).zero().target() == old(self).zero().target(),
            final(self).zero().issued() == old(self).zero().issued(),
            final(self).levels() == levels_of(new_partitioned_levels@),
    {
        self.level_zero = Arc::new(self.level_zero.emptied());
        self.partitioned_levels = new_partitioned_levels;
    }

    /// Adds the file of a flushed table to level zero. Gives whether the file
    /// holds a segment; where it does not, nothing is added.
    pub fn add_to_level_zero(&mut self, filename: String, data: Vec<u8>) -> (r: bool)
        requires
            old(self).wf(),
        ensures
            final(self).wf(),
            r == (segment::open_image(data@) is Some && segment::number_in(filename@) is Some),
            final(self).levels() == old(self).levels(),
            final(self).zero().target() == old(self).zero().target(),
            r ==> exists|seg: Segment|
                {
                    &&& final(self).zero().segs() == old(self).zero().segs().push(Arc::new(seg))
                    &&& #[trigger] seg.wf()
                    &&& seg.contents() == data@
                    &&& seg.name() == filename@
                    &&& final(self).zero().issued() == later_number(
                        old(self).zero().issued(),
                        seg.numbered(),
                    )
                },
            !r ==> final(self).zero() == old(self).zero(),
    {
        match Segment::from_file(filename, data) {
            Some(segment) => {
                let mut new_level_zero: SsTableLevel<OverlappingLevel> = clone_level(
                    &self.level_zero,
                );
                let ghost before = self.level_zero.inner().segs();
                new_level_zero.add_segment(segment);
                proof {
                    let now = new_level_zero.inner().segs();
                    let n = new_level_zero.inner().issued();
                    assert forall|i: int| 0 <= i < now.len() implies (#[trigger] now[i]).wf()
                        && now[i].numbered() <= n by {
                        if i < before.len() {
                            assert(now[i] == before[i]);
                            assert(before[i].numbered() <= self.level_zero.inner().issued());
                        }
                    }
                    lemma_highest_number(now);
                    assert(now.last().numbered() <= merge::highest_number(now));
                }
                self.level_zero = Arc::new(new_level_zero);
                true
            },
            None => false,
        }
    }

    /// Whether level zero is larger than it should be.
    pub fn do_compact(&self) -> (r: bool)
        ensures
            r == exceeds(self.zero().segs(), self.zero().target()),
    {
        self.level_zero.exceeds_target_size()
    }
}

fn clone_level(level: &Arc<SsTableLevel<OverlappingLevel>>) -> (r: SsTableLevel<OverlappingLevel>)
    ensures
        r.inner().segs() == level.inner().segs(),
        r.inner().target() == level.inner().target(),
        r.inner().issued() == level.inner().issued(),
{
    let inner: &SsTableLevel<OverlappingLevel> = &**level;
    inner.clone()
}

/// The bytes that the files of segments take together.
pub open spec fn file_bytes(segs: Seq<Arc<Segment>>) -> int {
    segs.map_values(|s: Arc<Segment>| s.contents().len() as int).fold_left(
        0,
        |sum: int, n: int| sum + n,
    )
}

/// The size of a level is that of its files together. It is too large where they
/// take more bytes than its target; the highest target is no limit.
pub proof fn lemma_size_of_files(segs: Seq<Arc<Segment>>, target: u64)
    ensures
        merge::total_size(segs) == file_bytes(segs),
        target < u64::MAX ==> (exceeds(segs, target) <==> file_bytes(segs) > target),
        !exceeds(segs, u64::MAX),
    decreases segs.len(),
{
    let lens = segs.map_values(|s: Arc<Segment>| s.contents().len() as int);
    if segs.len() > 0 {
        let init = segs.drop_last();
        lemma_size_of_files(init, target);
        assert(init.map_values(|s: Arc<Segment>| s.contents().len() as int) =~= lens.drop_last());
    }
}

/// No segment has a lower number than the oldest.
proof fn lemma_oldest_number(segs: Seq<Arc<Segment>>)
    requires
        segs.len() > 0,
    ensures
        forall|i: int|
            0 <= i < segs.len() ==> segs[oldest(segs)].numbered() <= (#[trigger] segs[i]).numbered(),
    decreases segs.len(),
{
    lemma_oldest(segs);
    if segs.len() > 1 {
        let init = segs.drop_last();
        lemma_oldest(init);
        lemma_oldest_number(init);
        assert forall|i: int| 0 <= i < segs.len() implies segs[oldest(segs)].numbered() <= (
        #[trigger] segs[i]).numbered() by {
            if i < init.len() {
                assert(init[i] == segs[i]);
            }
            assert(init[oldest(init)] == segs[oldest(init)]);
        }
    }
}

/// What goes and what stays, by their numbers and sizes.
pub proof fn lemma_due(segs: Seq<Arc<Segment>>, target: u64)
    ensures
        (due(segs, target) + staying(segs, target)).to_multiset() == segs.to_multiset(),
        forall|i: int, j: int|
            0 <= i < due(segs, target).len() && 0 <= j < staying(segs, target).len() ==> (
            #[trigger] due(segs, target)[i]).numbered() <= (#[trigger] staying(
                segs,
                target,
            )[j]).numbered(),
        forall|i: int, j: int|
            0 <= i < j < due(segs, target).len() ==> (#[trigger] due(segs, target)[i]).numbered()
                <= (#[trigger] due(segs, target)[j]).numbered(),
        !exceeds(staying(segs, target), target),
        due(segs, target).len() > 0 ==> merge::total_size(staying(segs, target)) + due(
            segs,
            target,
        ).last().contents().len() > target,
        forall|x: Arc<Segment>| #[trigger]
            segs.contains(x) <==> due(segs, target).contains(x) || staying(
                segs,
                target,
            ).contains(x),
    decreases segs.len(),
{
    broadcast use vstd::seq_lib::group_to_multiset_ensures;

    let d = due(segs, target);
    let s = staying(segs, target);
    if segs.len() == 0 || !exceeds(segs, target) {
        assert(d + s =~= segs);
        if segs.len() == 0 {
            assert(merge::total_size(segs) == 0);
        }
    } else {
        lemma_oldest(segs);
        lemma_oldest_number(segs);
        let p = oldest(segs);
        let rest = segs.remove(p);
        lemma_due(rest, target);
        let dr = due(rest, target);
        assert(d == seq![segs[p]] + dr);
        assert(s == staying(rest, target));
        assert(d + s =~= seq![segs[p]] + (dr + s));
        assert((seq![segs[p]] + (dr + s)).to_multiset() =~= (dr + s).to_multiset().insert(segs[p]))
            by {
            assert((seq![segs[p]] + (dr + s)).remove(0) =~= dr + s);
            assert((seq![segs[p]] + (dr + s))[0] == segs[p]);
        }
        assert(segs.to_multiset() =~= rest.to_multiset().insert(segs[p])) by {
            assert(segs.contains(segs[p]));
        }
        assert forall|x: Arc<Segment>| #[trigger] segs.contains(x) <==> d.contains(x) || s.contains(
            x,
        ) by {
            assert(segs.contains(x) <==> x == segs[p] || rest.contains(x)) by {
                if rest.contains(x) {
                    let i = choose|i: int| 0 <= i < rest.len() && rest[i] == x;
                    assert(segs[if i < p { i } else { i + 1 }] == x);
                }
                if segs.contains(x) && x != segs[p] {
                    let i = choose|i: int| 0 <= i < segs.len() && segs[i] == x;
                    assert(rest[if i < p { i } else { i - 1 }] == x);
                }
            }
            assert(d.contains(x) <==> x == segs[p] || dr.contains(x)) by {
                if dr.contains(x) {
                    let i = choose|i: int| 0 <= i < dr.len() && dr[i] == x;
                    assert(d[i + 1] == x);
                }
                assert(d[0] == segs[p]);
            }
        }
        assert forall|i: int| 0 <= i < d.len() implies segs.contains(#[trigger] d[i]) by {
            assert(d.contains(d[i]));
        }
        assert forall|j: int| 0 <= j < s.len() implies segs.contains(#[trigger] s[j]) by {
            assert(s.contains(s[j]));
        }
        assert forall|i: int, j: int| 0 <= i < d.len() && 0 <= j < s.len() implies (
        #[trigger] d[i]).numbered() <= (#[trigger] s[j]).numbered() by {
            if i > 0 {
                assert(d[i] == dr[i - 1]);
            } else {
                assert(segs.contains(s[j]));
            }
        }
        assert forall|i: int, j: int| 0 <= i < j < d.len() implies (#[trigger] d[i]).numbered() <= (
        #[trigger] d[j]).numbered() by {
            assert(d[j] == dr[j - 1]);
            if i > 0 {
                assert(d[i] == dr[i - 1]);
            } else {
                assert(segs.contains(d[j]));
            }
        }
        lemma_total_remove(segs, p);
        if dr.len() == 0 {
            assert(d =~= seq![segs[p]]);
            assert(rest.len() == 0 || !exceeds(rest, target));
        } else {
            assert(d.last() == dr.last());
        }
    }
}

/// Without one of the segments the files take so many bytes less.
proof fn lemma_total_remove(segs: Seq<Arc<Segment>>, p: int)
    requires
        0 <= p < segs.len(),
    ensures
        merge::total_size(segs) == merge::total_size(segs.remove(p)) + segs[p].contents().len(),
    decreases segs.len(),
{
    if p < segs.len() - 1 {
        lemma_total_remove(segs.drop_last(), p);
        assert(segs.drop_last().remove(p) =~= segs.remove(p).drop_last());
        assert(segs.remove(p).last() == segs.last());
    } else {
        assert(segs.remove(p) =~= segs.drop_last());
    }
}

/// The oldest segments of a level go first, and no more of them than have to.
/// What goes and what stays make up the level. Whatever goes has no higher number
/// than whatever stays, and the oldest is the first to go. What stays takes no
/// more bytes than the target, and with the last that goes it would take more.
pub proof fn lemma_oldest_go_first(level: PartitionedLevel, rest: PartitionedLevel)
    requires
        rest_of(level, rest),
    ensures
        (level.outgoing() + rest.segs()).to_multiset() == level.segs().to_multiset(),
        forall|i: int, j: int|
            0 <= i < level.outgoing().len() && 0 <= j < rest.segs().len() ==> (
            #[trigger] level.outgoing()[i]).numbered() <= (#[trigger] rest.segs()[j]).numbered(),
        forall|i: int, j: int|
            0 <= i < j < level.outgoing().len() ==> (#[trigger] level.outgoing()[i]).numbered() <= (
            #[trigger] level.outgoing()[j]).numbered(),
        level.target() < u64::MAX ==> file_bytes(rest.segs()) <= level.target(),
        level.outgoing().len() > 0 ==> file_bytes(rest.segs())
            + level.outgoing().last().contents().len() > level.target(),
        level.target() == u64::MAX ==> rest.segs() == level.segs(),
        rest.target() == level.target(),
        rest.number() == level.number(),
{
    lemma_due(level.segs(), level.target());
    lemma_size_of_files(rest.segs(), level.target());
}

/// Level zero gives all of its segments to the next level.
pub proof fn lemma_level_zero_goes_whole(level: OverlappingLevel)
    ensures
        level.outgoing() == level.segs(),
{
}

/// The highest number of segments is that of one of them, and none has a higher
/// one. Where there is no segment, it is zero.
pub proof fn lemma_highest_number_is_held(segs: Seq<Arc<Segment>>)
    ensures
        forall|i: int|
            0 <= i < segs.len() ==> (#[trigger] segs[i]).numbered() <= merge::highest_number(segs),
        segs.len() > 0 ==> exists|i: int|
            0 <= i < segs.len() && (#[trigger] segs[i]).numbered() == merge::highest_number(segs),
        segs.len() == 0 ==> merge::highest_number(segs) == 0,
    decreases segs.len(),
{
    if segs.len() > 0 {
        let init = segs.drop_last();
        lemma_highest_number_is_held(init);
        assert forall|i: int| 0 <= i < segs.len() implies (#[trigger] segs[i]).numbered()
            <= merge::highest_number(segs) by {
            if i < init.len() {
                assert(init[i] == segs[i]);
            }
        }
        if merge::highest_number(segs) == segs.last().numbered() {
            assert(segs[segs.len() - 1].numbered() == merge::highest_number(segs));
        } else {
            let i = choose|i: int|
                0 <= i < init.len() && (#[trigger] init[i]).numbered() == merge::highest_number(
                    init,
                );
            assert(segs[i].numbered() == merge::highest_number(segs));
        }
    }
}

/// The newest segment that has a key answers for level zero: a lookup gives its
/// entry, and nothing where no segment has one.
pub proof fn lemma_newest_segment_answers(segs: Seq<Arc<Segment>>, i: int, key: Seq<char>)
    requires
        0 <= i < segs.len(),
        forall|j: int|
            i < j < segs.len() ==> !segment::has_key((#[trigger] segs[j]).entries(), key),
    ensures
        segment::has_key(segs[i].entries(), key) ==> {
            &&& overlapping_lookup(segs, key) matches Some(e)
            &&& segs[i].entries().contains(e)
            &&& e.key == key
        },
        (forall|j: int|
            0 <= j < segs.len() ==> !segment::has_key((#[trigger] segs[j]).entries(), key))
            ==> overlapping_lookup(segs, key) is None,
    decreases segs.len(),
{
    let n = segs.len() - 1;
    let init = segs.drop_last();
    if i < n {
        assert(!segment::has_key(segs[n].entries(), key));
        assert forall|j: int| i < j < init.len() implies !segment::has_key(
            (#[trigger] init[j]).entries(),
            key,
        ) by {
            assert(init[j] == segs[j]);
        }
        lemma_newest_segment_answers(init, i, key);
        if forall|j: int|
            0 <= j < segs.len() ==> !segment::has_key((#[trigger] segs[j]).entries(), key) {
            assert forall|j: int| 0 <= j < init.len() implies !segment::has_key(
                (#[trigger] init[j]).entries(),
                key,
            ) by {
                assert(init[j] == segs[j]);
            }
        }
        assert(init[i] == segs[i]);
    } else {
        if forall|j: int|
            0 <= j < segs.len() ==> !segment::has_key((#[trigger] segs[j]).entries(), key) {
            assert(!segment::has_key(segs[n].entries(), key));
            if init.len() > 0 {
                assert forall|j: int| 0 <= j < init.len() implies !segment::has_key(
                    (#[trigger] init[j]).entries(),
                    key,
                ) by {
                    assert(init[j] == segs[j]);
                }
                lemma_newest_segment_answers(init, init.len() - 1, key);
            }
        }
    }
}

/// One of two segments ends before the other begins.
pub open spec fn aside(a: Segment, b: Segment) -> bool {
    order::key_lt(a.entries().last().key, b.entries()[0].key) || order::key_lt(
        b.entries().last().key,
        a.entries()[0].key,
    )
}

/// A merge replaces the segments of a level whose keys the incoming ones reach
/// into, and those alone: a segment that lies aside of all of them stays in the
/// level as it is, and any other is given up.
pub proof fn lemma_merge_replaces_what_it_meets(
    before: PartitionedLevel,
    incoming: Seq<Arc<Segment>>,
    after: PartitionedLevel,
    x: Arc<Segment>,
)
    requires
        before.segs().contains(x),
        merged(before, incoming, after),
    ensures
        (forall|i: int| 0 <= i < incoming.len() ==> aside(*x, *(#[trigger] incoming[i])))
            ==> after.segs().contains(x) && !touched(before.segs(), incoming).contains(x),
        (exists|i: int| 0 <= i < incoming.len() && !aside(*x, *(#[trigger] incoming[i])))
            ==> touched(before.segs(), incoming).contains(x),
{
    broadcast use order::group_key_order;

    let new = choose|new: Seq<Arc<Segment>>| #[trigger] replaced(before, incoming, new, after);
    let stay = untouched(before.segs(), incoming);
    lemma_touched(before.segs(), incoming);
    assert forall|i: int| 0 <= i < incoming.len() implies overlapping(
        *x,
        *(#[trigger] incoming[i]),
    ) == !aside(*x, *incoming[i]) by {}
    if forall|i: int| 0 <= i < incoming.len() ==> aside(*x, *(#[trigger] incoming[i])) {
        assert(!meets_any(*x, incoming));
        lemma_contains_concat(new, stay);
        assert((new + stay).contains(x));
    }
    if exists|i: int| 0 <= i < incoming.len() && !aside(*x, *(#[trigger] incoming[i])) {
        let i = choose|i: int| 0 <= i < incoming.len() && !aside(*x, *(#[trigger] incoming[i]));
        assert(overlapping(*x, *incoming[i]));
    }
}

/// A merge succeeds where there are numbers for the new segments, and it does not
/// depend on what they hold.
pub proof fn lemma_numbers_for_merge(highest: nat, segs: Seq<Arc<Segment>>, stay: nat)
    ensures
        merge::numbers_left(highest, merge::total_size(segs), stay) <==> highest + 1 + file_bytes(
            segs,
        ) / 33554426 + stay < 0x1_0000_0000,
{
    lemma_size_of_files(segs, 0);
}

/// The segment that a key is looked up in is one whose keys it lies between, and
/// there is none before it. Where no segment is found, the key lies between those
/// of none.
pub proof fn lemma_segment_of_key(segs: Seq<Arc<Segment>>, key: Seq<char>)
    ensures
        match containing(segs, key) {
            Some(i) => {
                &&& 0 <= i < segs.len()
                &&& order::key_le(segs[i].entries()[0].key, key)
                &&& order::key_le(key, segs[i].entries().last().key)
                &&& forall|j: int|
                    0 <= j < i ==> order::key_lt(key, (#[trigger] segs[j]).entries()[0].key)
                        || order::key_lt(segs[j].entries().last().key, key)
            },
            None => forall|j: int|
                0 <= j < segs.len() ==> order::key_lt(key, (#[trigger] segs[j]).entries()[0].key)
                    || order::key_lt(segs[j].entries().last().key, key),
        },
    decreases segs.len(),
{
    broadcast use order::group_key_order;

    if segs.len() > 0 {
        let init = segs.drop_last();
        lemma_segment_of_key(init, key);
        assert forall|j: int| 0 <= j < init.len() implies init[j] == #[trigger] segs[j] by {}
    }
}

/// The highest sequence number of segments is that of one of their entries, and
/// none has a higher one. Where there is no segment, it is zero.
pub proof fn lemma_highest_sequence(segs: Seq<Arc<Segment>>)
    requires
        merge::segments_wf(segs),
    ensures
        forall|i: int, x: int|
            0 <= i < segs.len() && 0 <= x < segs[i].entries().len() ==> (
            #[trigger] segs[i].entries()[x]).sequence_number <= highest_sequence(segs),
        segs.len() > 0 ==> exists|i: int, x: int|
            0 <= i < segs.len() && 0 <= x < segs[i].entries().len() && (
            #[trigger] segs[i].entries()[x]).sequence_number == highest_sequence(segs),
        segs.len() == 0 ==> highest_sequence(segs) == 0,
    decreases segs.len(),
{
    if segs.len() > 0 {
        let init = segs.drop_last();
        let n = segs.len() - 1;
        assert forall|i: int| 0 <= i < init.len() implies (#[trigger] init[i]).wf() by {
            assert(init[i] == segs[i]);
        }
        lemma_highest_sequence(init);
        assert(segs[n].wf());
        segs[n].lemma_entries();
        segment::lemma_highest(segs[n].entries());
        assert forall|i: int, x: int|
            0 <= i < segs.len() && 0 <= x < segs[i].entries().len() implies (
        #[trigger] segs[i].entries()[x]).sequence_number <= highest_sequence(segs) by {
            if i < n {
                assert(init[i].entries()[x] == segs[i].entries()[x]);
            }
        }
        if highest_sequence(segs) == segment::highest(segs[n].entries()) {
            let x = choose|x: int|
                0 <= x < segs[n].entries().len() && (
                #[trigger] segs[n].entries()[x]).sequence_number == segment::highest(
                    segs[n].entries(),
                );
            assert(segs[n].entries()[x].sequence_number == highest_sequence(segs));
        } else {
            let (i, x) = choose|i: int, x: int|
                0 <= i < init.len() && 0 <= x < init[i].entries().len() && (
                #[trigger] init[i].entries()[x]).sequence_number == highest_sequence(init);
            assert(segs[i].entries()[x].sequence_number == highest_sequence(segs));
        }
    }
}

/// A level that is begun has no segment and has given no number yet, every entry
/// of its segments will be in their index, and it has the target and the number
/// that it is begun with.
pub proof fn lemma_level_is_begun(level: PartitionedLevel, target: u64, number: u64)
    requires
        empty_level(level, target, number),
    ensures
        level.segs().len() == 0,
        level.issued() == 0,
        level.sparsity() == 1,
        level.target() == target,
        level.number() == number,
        level.outgoing().len() == 0,
        forall|key: Seq<char>| #[trigger] level.find(key) is None,
{
}

/// Of two numbers the higher one is kept.
pub proof fn lemma_higher_number_kept(a: u64, b: u64)
    ensures
        later_number(a, b) >= a,
        later_number(a, b) >= b,
        later_number(a, b) == a || later_number(a, b) == b,
{
}

} // verus!
