//! Compaction: merging levels that have grown too large into the next ones.

use crate::order;
use crate::storage_engine::sstable;
use crate::storage_engine::sstable::level::merge::share;
use crate::storage_engine::sstable::level::merge;
use crate::storage_engine::sstable::level::{
    share_levels, LevelContainer, PartitionedLevel, Segment, SsTableLevel, SstLevel,
};
use crate::storage_engine::sstable::level;
use crate::storage_engine::sstable::recency;
use crate::storage_engine::sstable::references::{count_references, References};
use crate::storage_engine::sstable::references;
use std::sync::Arc;
use vstd::prelude::*;

verus! {

/// The size that the next level should not exceed: about ten times that of the
/// level before it.
pub open spec fn grown(target: u64) -> u64 {
    if target == 0 {
        10
    } else if target * 10 > u64::MAX {
        u64::MAX
    } else {
        (target * 10) as u64
    }
}

/// The size that the next level should not exceed.
fn grow(target: u64) -> (r: u64)
    ensures
        r == grown(target),
{
    if target == 0 {
        10
    } else if target > 1844674407370955161 {
        u64::MAX
    } else {
        target * 10
    }
}

/// The level that segments are merged into: the first of the levels, or a new
/// one where there is none.
pub open spec fn next_level(
    levels: Seq<PartitionedLevel>,
    target: u64,
    number: u64,
    next: PartitionedLevel,
) -> bool {
    if levels.len() > 0 {
        next == levels[0]
    } else {
        level::empty_level(next, target, number)
    }
}

/// The levels behind the first one.
pub open spec fn behind(levels: Seq<PartitionedLevel>) -> Seq<PartitionedLevel> {
    if levels.len() > 0 {
        levels.drop_first()
    } else {
        levels
    }
}

/// The segments that a merge of `incoming` into a level replaces.
pub open spec fn used(next: PartitionedLevel, incoming: Seq<Arc<Segment>>) -> Seq<Arc<Segment>> {
    level::touched(next.segs(), incoming) + incoming
}

/// The incoming segments are merged into the level `next`, which becomes
/// `grows`.
pub open spec fn merges(
    incoming: Seq<Arc<Segment>>,
    levels: Seq<PartitionedLevel>,
    target: u64,
    number: u64,
    next: PartitionedLevel,
    grows: PartitionedLevel,
) -> bool {
    next_level(levels, target, number, next) && level::merged(next, incoming, grows)
}

/// The levels `after` result from merging `incoming` into the first of the
/// levels. Where that makes it too large, its oldest segments are merged into
/// the level behind it, and so on. The segments `gone` were replaced. Where
/// the levels end, a new one is begun, with the given size and number.
pub open spec fn settles(
    incoming: Seq<Arc<Segment>>,
    levels: Seq<PartitionedLevel>,
    target: u64,
    number: u64,
    after: Seq<PartitionedLevel>,
    gone: Seq<Arc<Segment>>,
) -> bool
    decreases after.len(),
{
    after.len() > 0 && exists|next: PartitionedLevel, grows: PartitionedLevel|
        {
            let n = used(next, incoming).len() as int;
            &&& #[trigger] merges(incoming, levels, target, number, next, grows)
            &&& n <= gone.len()
            &&& gone.take(n) == used(next, incoming)
            &&& if level::exceeds(grows.segs(), grows.target()) {
                &&& level::rest_of(grows, after[0])
                &&& settles(
                    level::due(grows.segs(), grows.target()),
                    behind(levels),
                    grown(grows.target()),
                    (grows.number() + 1) as u64,
                    after.drop_first(),
                    gone.skip(n),
                )
            } else {
                &&& after[0] == grows
                &&& after.drop_first() == behind(levels)
                &&& n == gone.len()
            }
        }
}

/// There is no number for a new level, or none for the segments of a merge,
/// here or up to `n` levels further.
pub open spec fn out_of_numbers(
    n: nat,
    incoming: Seq<Arc<Segment>>,
    levels: Seq<PartitionedLevel>,
    target: u64,
    number: u64,
) -> bool
    decreases n,
{
    ||| levels.len() == 0 && number >= 0x1_0000_0000
    ||| incoming.len() > 0 && exists|next: PartitionedLevel|
        {
            &&& #[trigger] next_level(levels, target, number, next)
            &&& !merge::numbers_left(
                next.issued() as nat,
                merge::total_size(used(next, incoming)),
                level::untouched(next.segs(), incoming).len(),
            )
        }
    ||| n > 0 && exists|next: PartitionedLevel, grows: PartitionedLevel|
        {
            &&& #[trigger] merges(incoming, levels, target, number, next, grows)
            &&& level::exceeds(grows.segs(), grows.target())
            &&& out_of_numbers(
                (n - 1) as nat,
                level::due(grows.segs(), grows.target()),
                behind(levels),
                grown(grows.target()),
                (grows.number() + 1) as u64,
            )
        }
}

/// The segments of a list without one of them.
proof fn lemma_held_remove(segs: Seq<Arc<Segment>>, i: int, e: sstable::EntryView)
    requires
        0 <= i < segs.len(),
    ensures
        recency::held(segs, e) <==> recency::held(seq![segs[i]], e) || recency::held(
            segs.remove(i),
            e,
        ),
{
    let a = segs.subrange(0, i);
    let b = segs.subrange(i + 1, segs.len() as int);
    assert(segs =~= a + (seq![segs[i]] + b));
    assert(segs.remove(i) =~= a + b);
    recency::lemma_held_concat(a, seq![segs[i]] + b, e);
    recency::lemma_held_concat(seq![segs[i]], b, e);
    recency::lemma_held_concat(a, b, e);
}

/// The segments that have to go and those that stay make up the level.
pub proof fn lemma_divided(segs: Seq<Arc<Segment>>, target: u64)
    requires
        merge::segments_wf(segs),
        level::partitioned(segs),
    ensures
        merge::segments_wf(level::due(segs, target)),
        merge::segments_wf(level::staying(segs, target)),
        level::partitioned(level::staying(segs, target)),
        forall|e: sstable::EntryView| #[trigger]
            recency::held(segs, e) <==> recency::held(level::due(segs, target), e)
                || recency::held(level::staying(segs, target), e),
        !level::exceeds(level::staying(segs, target), target),
        forall|n: u64|
            level::within(segs, n) ==> #[trigger] level::within(level::staying(segs, target), n),
        forall|l: u64|
            level::named_for(segs, l) ==> #[trigger] level::named_for(
                level::staying(segs, target),
                l,
            ),
    decreases segs.len(),
{
    let d = level::due(segs, target);
    let s = level::staying(segs, target);
    if segs.len() > 0 && level::exceeds(segs, target) {
        level::lemma_oldest(segs);
        let p = level::oldest(segs);
        let rest = segs.remove(p);
        assert forall|i: int| 0 <= i < rest.len() implies (#[trigger] rest[i]).wf() by {
            assert(rest[i] == segs[if i < p { i } else { i + 1 }]);
        }
        assert forall|i: int, j: int| 0 <= i < j < rest.len() implies order::key_lt(
            (#[trigger] rest[i]).entries().last().key,
            (#[trigger] rest[j]).entries()[0].key,
        ) by {
            assert(rest[i] == segs[if i < p { i } else { i + 1 }]);
            assert(rest[j] == segs[if j < p { j } else { j + 1 }]);
        }
        lemma_divided(rest, target);
        let dr = level::due(rest, target);
        assert forall|n: u64| level::within(segs, n) implies #[trigger] level::within(s, n) by {
            assert forall|i: int| 0 <= i < rest.len() implies (#[trigger] rest[i]).numbered() <= n by {
                assert(rest[i] == segs[if i < p { i } else { i + 1 }]);
            }
            assert(level::within(rest, n));
        }
        assert forall|l: u64| level::named_for(segs, l) implies #[trigger] level::named_for(
            s,
            l,
        ) by {
            assert forall|i: int| 0 <= i < rest.len() implies (#[trigger] rest[i]).name()
                == level::segment::segment_filename(l as nat, rest[i].numbered() as nat) by {
                assert(rest[i] == segs[if i < p { i } else { i + 1 }]);
            }
            assert(level::named_for(rest, l));
        }
        assert(d == seq![segs[p]] + dr);
        assert forall|i: int| 0 <= i < d.len() implies (#[trigger] d[i]).wf() by {
            if i > 0 {
                assert(d[i] == dr[i - 1]);
            }
        }
        assert forall|e: sstable::EntryView| #[trigger] recency::held(segs, e) <==> recency::held(
            d,
            e,
        ) || recency::held(s, e) by {
            lemma_held_remove(segs, p, e);
            recency::lemma_held_concat(seq![segs[p]], dr, e);
            assert(recency::held(rest, e) <==> recency::held(dr, e) || recency::held(s, e));
        }
    } else {
        assert(forall|e: sstable::EntryView| !#[trigger] recency::held(d, e));
        if segs.len() == 0 {
            assert(merge::total_size(segs) == 0);
        }
    }
}

/// Later segments beside a partitioned level tell entries apart.
proof fn lemma_distinct(next: Seq<Arc<Segment>>, incoming: Seq<Arc<Segment>>)
    requires
        merge::segments_wf(next),
        level::partitioned(next),
        recency::distinct(incoming),
        recency::recent(incoming, next),
    ensures
        recency::distinct(next + incoming),
{
    let both = next + incoming;
    assert forall|e: sstable::EntryView, f: sstable::EntryView|
        #[trigger] recency::held(both, e) && #[trigger] recency::held(both, f) && e.key == f.key
            && e.sequence_number == f.sequence_number implies e == f by {
        recency::lemma_held_concat(next, incoming, e);
        recency::lemma_held_concat(next, incoming, f);
        recency::lemma_partitioned_lookup(next, e.key);
        if recency::held(incoming, e) && recency::held(next, f) {
            assert(recency::later(e, f));
        }
        if recency::held(next, e) && recency::held(incoming, f) {
            assert(recency::later(f, e));
        }
    }
}

/// Compaction loses and invents nothing: the levels afterwards have the latest
/// entry of every key, they have nothing that was not there before, and each
/// level is later than those behind it.
pub proof fn lemma_settles(
    incoming: Seq<Arc<Segment>>,
    levels: Seq<PartitionedLevel>,
    target: u64,
    number: u64,
    after: Seq<PartitionedLevel>,
    gone: Seq<Arc<Segment>>,
)
    requires
        merge::segments_wf(incoming),
        level::levels_wf(levels),
        recency::ordered_levels(levels),
        recency::recent_to_all(incoming, levels),
        recency::distinct(incoming),
        settles(incoming, levels, target, number, after, gone),
    ensures
        level::levels_wf(after),
        recency::ordered_levels(after),
        forall|e: sstable::EntryView| #[trigger]
            recency::held_in(after, e) ==> recency::present(incoming, levels, e),
        forall|e: sstable::EntryView| #[trigger]
            recency::latest(incoming, levels, e) ==> recency::held_in(after, e),
    decreases after.len(),
{
    let (next, grows) = choose|next: PartitionedLevel, grows: PartitionedLevel|
        {
            let n = used(next, incoming).len() as int;
            &&& #[trigger] merges(incoming, levels, target, number, next, grows)
            &&& n <= gone.len()
            &&& gone.take(n) == used(next, incoming)
            &&& if level::exceeds(grows.segs(), grows.target()) {
                &&& level::rest_of(grows, after[0])
                &&& settles(
                    level::due(grows.segs(), grows.target()),
                    behind(levels),
                    grown(grows.target()),
                    (grows.number() + 1) as u64,
                    after.drop_first(),
                    gone.skip(n),
                )
            } else {
                &&& after[0] == grows
                &&& after.drop_first() == behind(levels)
                &&& n == gone.len()
            }
        };
    let n = used(next, incoming).len() as int;
    let both = next.segs() + incoming;
    let tail = behind(levels);
    assert(next.wf()) by {
        if levels.len() > 0 {
            assert(levels[0].wf());
        }
    }
    assert(recency::recent(incoming, next.segs())) by {
        if levels.len() > 0 {
            assert(recency::recent(incoming, levels[0].segs()));
        } else {
            assert(forall|e: sstable::EntryView| !#[trigger] recency::held(next.segs(), e));
        }
    }
    lemma_distinct(next.segs(), incoming);
    // What the levels had before, and what the merge has made of it.
    assert forall|e: sstable::EntryView| #[trigger] recency::held(grows.segs(), e) <==>
        recency::latest_of(both, e) by {
        recency::lemma_merge_entries(next, incoming, grows, e);
    }
    assert forall|e: sstable::EntryView| #[trigger] recency::present(incoming, levels, e) <==>
        recency::held(both, e) || recency::held_in(tail, e) by {
        recency::lemma_held_concat(next.segs(), incoming, e);
        if levels.len() > 0 {
            recency::lemma_held_in_first(levels, e);
        }
    }
    assert forall|i: int| 0 <= i < tail.len() implies (#[trigger] tail[i]).wf() by {
        assert(tail[i] == levels[i + 1]);
    }
    assert forall|i: int, j: int| 0 <= i < j < tail.len() implies recency::recent(
        (#[trigger] tail[i]).segs(),
        (#[trigger] tail[j]).segs(),
    ) by {
        assert(tail[i] == levels[i + 1] && tail[j] == levels[j + 1]);
    }
    assert forall|j: int| 0 <= j < tail.len() implies recency::recent(
        grows.segs(),
        (#[trigger] tail[j]).segs(),
    ) by {
        assert(tail[j] == levels[j + 1]);
        assert forall|e: sstable::EntryView, f: sstable::EntryView|
            #[trigger] recency::held(grows.segs(), e) && #[trigger] recency::held(
                tail[j].segs(),
                f,
            ) implies recency::later(e, f) by {
            assert(recency::latest_of(both, e));
            recency::lemma_held_concat(next.segs(), incoming, e);
            if recency::held(incoming, e) {
                assert(recency::recent(incoming, levels[j + 1].segs()));
            } else {
                assert(recency::recent(levels[0].segs(), levels[j + 1].segs()));
            }
        }
    }
    // The latest entry of a key is in the level that was merged into, or
    // behind it.
    assert forall|e: sstable::EntryView| #[trigger] recency::latest(incoming, levels, e) implies
        recency::held(grows.segs(), e) || recency::held_in(tail, e) by {
        assert(recency::present(incoming, levels, e));
        if recency::held(both, e) {
            assert forall|f: sstable::EntryView| #[trigger] recency::held(both, f) implies
                recency::later(e, f) by {
                assert(recency::present(incoming, levels, f));
            }
            assert(recency::latest_of(both, e));
        }
    }
    if level::exceeds(grows.segs(), grows.target()) {
        let down = level::due(grows.segs(), grows.target());
        let stay = level::staying(grows.segs(), grows.target());
        let rest = after.drop_first();
        lemma_divided(grows.segs(), grows.target());
        assert(recency::distinct(down)) by {
            assert forall|e: sstable::EntryView, f: sstable::EntryView|
                #[trigger] recency::held(down, e) && #[trigger] recency::held(down, f) && e.key
                    == f.key && e.sequence_number == f.sequence_number implies e == f by {
                recency::lemma_partitioned_lookup(grows.segs(), e.key);
                assert(recency::held(grows.segs(), e) && recency::held(grows.segs(), f));
            }
        }
        assert forall|j: int| 0 <= j < tail.len() implies recency::recent(
            down,
            (#[trigger] tail[j]).segs(),
        ) by {
            assert(recency::recent(grows.segs(), tail[j].segs()));
            assert forall|e: sstable::EntryView, f: sstable::EntryView|
                #[trigger] recency::held(down, e) && #[trigger] recency::held(
                    tail[j].segs(),
                    f,
                ) implies recency::later(e, f) by {
                assert(recency::held(grows.segs(), e));
            }
        }
        lemma_settles(
            down,
            tail,
            grown(grows.target()),
            (grows.number() + 1) as u64,
            rest,
            gone.skip(n),
        );
        assert forall|i: int| 0 <= i < after.len() implies (#[trigger] after[i]).wf() by {
            if i > 0 {
                assert(after[i] == rest[i - 1]);
            }
        }
        assert forall|i: int, j: int| 0 <= i < j < after.len() implies recency::recent(
            (#[trigger] after[i]).segs(),
            (#[trigger] after[j]).segs(),
        ) by {
            assert(after[j] == rest[j - 1]);
            if i > 0 {
                assert(after[i] == rest[i - 1]);
            } else {
                assert forall|e: sstable::EntryView, f: sstable::EntryView|
                    #[trigger] recency::held(after[0].segs(), e) && #[trigger] recency::held(
                        after[j].segs(),
                        f,
                    ) implies recency::later(e, f) by {
                    assert(recency::held(grows.segs(), e));
                    assert(recency::held_in(rest, f));
                    assert(recency::present(down, tail, f));
                    if recency::held(down, f) {
                        assert(recency::held(grows.segs(), f));
                        recency::lemma_partitioned_lookup(grows.segs(), e.key);
                    } else {
                        let k = choose|k: int|
                            0 <= k < tail.len() && recency::held((#[trigger] tail[k]).segs(), f);
                        assert(recency::recent(grows.segs(), tail[k].segs()));
                    }
                }
            }
        }
        assert forall|e: sstable::EntryView| #[trigger] recency::held_in(after, e) implies
            recency::present(incoming, levels, e) by {
            recency::lemma_held_in_first(after, e);
            if recency::held(after[0].segs(), e) {
                assert(recency::held(grows.segs(), e));
            } else {
                assert(recency::present(down, tail, e));
                if recency::held(down, e) {
                    assert(recency::held(grows.segs(), e));
                }
            }
        }
        assert forall|e: sstable::EntryView| #[trigger] recency::latest(
            incoming,
            levels,
            e,
        ) implies recency::held_in(after, e) by {
            recency::lemma_held_in_first(after, e);
            if !recency::held(stay, e) {
                assert(recency::present(down, tail, e));
                assert forall|f: sstable::EntryView| #[trigger] recency::present(
                    down,
                    tail,
                    f,
                ) implies recency::later(e, f) by {
                    if recency::held(down, f) {
                        assert(recency::held(grows.segs(), f));
                        assert(recency::held(both, f));
                    }
                    assert(recency::present(incoming, levels, f));
                }
                assert(recency::latest(down, tail, e));
            }
        }
    } else {
        assert forall|i: int| 0 <= i < after.len() implies (#[trigger] after[i]).wf() by {
            if i > 0 {
                assert(after[i] == after.drop_first()[i - 1]);
            }
        }
        assert forall|i: int, j: int| 0 <= i < j < after.len() implies recency::recent(
            (#[trigger] after[i]).segs(),
            (#[trigger] after[j]).segs(),
        ) by {
            assert(after[j] == tail[j - 1]) by {
                assert(after[j] == after.drop_first()[j - 1]);
            }
            if i > 0 {
                assert(after[i] == tail[i - 1]) by {
                    assert(after[i] == after.drop_first()[i - 1]);
                }
            }
        }
        assert forall|e: sstable::EntryView| #[trigger] recency::held_in(after, e) implies
            recency::present(incoming, levels, e) by {
            recency::lemma_held_in_first(after, e);
        }
        assert forall|e: sstable::EntryView| #[trigger] recency::latest(
            incoming,
            levels,
            e,
        ) implies recency::held_in(after, e) by {
            recency::lemma_held_in_first(after, e);
        }
    }
}

/// All segments are well formed, and what comes first in a lookup is later.
pub open spec fn in_order(zero: Seq<Arc<Segment>>, levels: Seq<PartitionedLevel>) -> bool {
    &&& merge::segments_wf(zero)
    &&& level::levels_wf(levels)
    &&& recency::ordered_segments(zero)
    &&& recency::ordered_levels(levels)
    &&& recency::recent_to_all(zero, levels)
}

/// Segments and levels that have the latest entries of others, and nothing
/// that the others do not have, give the same lookups.
proof fn lemma_same_lookups(
    zero: Seq<Arc<Segment>>,
    levels: Seq<PartitionedLevel>,
    zero2: Seq<Arc<Segment>>,
    levels2: Seq<PartitionedLevel>,
    key: Seq<char>,
)
    requires
        in_order(zero, levels),
        in_order(zero2, levels2),
        forall|e: sstable::EntryView| #[trigger]
            recency::present(zero2, levels2, e) ==> recency::present(zero, levels, e),
        forall|e: sstable::EntryView| #[trigger]
            recency::latest(zero, levels, e) ==> recency::present(zero2, levels2, e),
    ensures
        recency::table_lookup(zero2, levels2, key) == recency::table_lookup(zero, levels, key),
{
    recency::lemma_table_lookup(zero, levels, key);
    recency::lemma_table_lookup(zero2, levels2, key);
    if let Some(e) = recency::table_lookup(zero, levels, key) {
        assert(recency::present(zero2, levels2, e));
        assert(recency::latest(zero2, levels2, e));
        recency::lemma_latest_found(zero2, levels2, e);
    } else if let Some(e) = recency::table_lookup(zero2, levels2, key) {
        assert(recency::present(zero2, levels2, e));
    }
}

/// Compacting level zero changes no lookup: the levels give of every key what
/// level zero and the levels before gave.
pub proof fn lemma_compaction_keeps_lookups(
    zero: Seq<Arc<Segment>>,
    levels: Seq<PartitionedLevel>,
    target: u64,
    number: u64,
    after: Seq<PartitionedLevel>,
    gone: Seq<Arc<Segment>>,
    key: Seq<char>,
)
    requires
        in_order(zero, levels),
        settles(zero, levels, target, number, after, gone),
    ensures
        in_order(Seq::empty(), after),
        recency::table_lookup(Seq::empty(), after, key) == recency::table_lookup(
            zero,
            levels,
            key,
        ),
{
    let none = Seq::<Arc<Segment>>::empty();
    lemma_ordered_distinct(zero);
    lemma_settles(zero, levels, target, number, after, gone);
    assert(forall|e: sstable::EntryView| !#[trigger] recency::held(none, e));
    assert(in_order(none, after));
    assert forall|e: sstable::EntryView| #[trigger] recency::present(none, after, e) implies
        recency::present(zero, levels, e) by {
        assert(recency::held_in(after, e));
    }
    assert forall|e: sstable::EntryView| #[trigger] recency::latest(zero, levels, e) implies
        recency::present(none, after, e) by {
        assert(recency::held_in(after, e));
    }
    lemma_same_lookups(zero, levels, none, after, key);
}

/// After level zero was compacted the levels have nothing that was not there
/// before.
pub proof fn lemma_compaction_invents_nothing(
    zero: Seq<Arc<Segment>>,
    levels: Seq<PartitionedLevel>,
    target: u64,
    number: u64,
    after: Seq<PartitionedLevel>,
    gone: Seq<Arc<Segment>>,
    e: sstable::EntryView,
)
    requires
        in_order(zero, levels),
        settles(zero, levels, target, number, after, gone),
        recency::present(Seq::empty(), after, e),
    ensures
        recency::present(zero, levels, e),
{
    let none = Seq::<Arc<Segment>>::empty();
    lemma_ordered_distinct(zero);
    lemma_settles(zero, levels, target, number, after, gone);
    assert(!recency::held(none, e));
    assert(recency::held_in(after, e));
}

/// The number of levels before the first that is too large.
pub open spec fn first_exceeding(levels: Seq<PartitionedLevel>) -> nat
    decreases levels.len(),
{
    if levels.len() == 0 || level::exceeds(levels[0].segs(), levels[0].target()) {
        0
    } else {
        1 + first_exceeding(levels.drop_first())
    }
}

/// The levels after the first that is too large was compacted. The segments
/// `gone` were replaced.
pub open spec fn relieved(
    levels: Seq<PartitionedLevel>,
    after: Seq<PartitionedLevel>,
    gone: Seq<Arc<Segment>>,
) -> bool {
    let p = first_exceeding(levels) as int;
    if p >= levels.len() {
        after == levels && gone.len() == 0
    } else {
        &&& p < after.len()
        &&& after.take(p) == levels.take(p)
        &&& level::rest_of(levels[p], after[p])
        &&& settles(
            level::due(levels[p].segs(), levels[p].target()),
            levels.skip(p + 1),
            grown(levels[p].target()),
            (levels[p].number() + 1) as u64,
            after.skip(p + 1),
            gone,
        )
    }
}

/// What levels have, those before a position have or those from it on have.
proof fn lemma_held_in_parts(levels: Seq<PartitionedLevel>, p: int, e: sstable::EntryView)
    requires
        0 <= p <= levels.len(),
    ensures
        recency::held_in(levels, e) <==> recency::held_in(levels.take(p), e) || recency::held_in(
            levels.skip(p),
            e,
        ),
{
    let a = levels.take(p);
    let b = levels.skip(p);
    if recency::held_in(levels, e) {
        let i = choose|i: int|
            0 <= i < levels.len() && recency::held((#[trigger] levels[i]).segs(), e);
        if i < p {
            assert(a[i] == levels[i]);
        } else {
            assert(b[i - p] == levels[i]);
        }
    }
    if recency::held_in(a, e) {
        let i = choose|i: int| 0 <= i < a.len() && recency::held((#[trigger] a[i]).segs(), e);
        assert(levels[i] == a[i]);
    }
    if recency::held_in(b, e) {
        let i = choose|i: int| 0 <= i < b.len() && recency::held((#[trigger] b[i]).segs(), e);
        assert(levels[p + i] == b[i]);
    }
}

/// Compacting a level that is too large changes no lookup.
pub proof fn lemma_relieving_keeps_lookups(
    zero: Seq<Arc<Segment>>,
    levels: Seq<PartitionedLevel>,
    after: Seq<PartitionedLevel>,
    gone: Seq<Arc<Segment>>,
    key: Seq<char>,
)
    requires
        in_order(zero, levels),
        relieved(levels, after, gone),
    ensures
        in_order(zero, after),
        recency::table_lookup(zero, after, key) == recency::table_lookup(zero, levels, key),
        forall|e: sstable::EntryView| #[trigger]
            recency::present(zero, after, e) ==> recency::present(zero, levels, e),
{
    let p = first_exceeding(levels) as int;
    if p < levels.len() {
        let l = levels[p];
        let down = level::due(l.segs(), l.target());
        let stay = level::staying(l.segs(), l.target());
        let tail = levels.skip(p + 1);
        let rest = after.skip(p + 1);
        let top = levels.take(p);
        assert(l.wf());
        lemma_divided(l.segs(), l.target());
        assert forall|i: int| 0 <= i < tail.len() implies (#[trigger] tail[i]).wf() by {
            assert(tail[i] == levels[p + 1 + i]);
        }
        assert forall|i: int, j: int| 0 <= i < j < tail.len() implies recency::recent(
            (#[trigger] tail[i]).segs(),
            (#[trigger] tail[j]).segs(),
        ) by {
            assert(tail[i] == levels[p + 1 + i] && tail[j] == levels[p + 1 + j]);
        }
        assert forall|j: int| 0 <= j < tail.len() implies recency::recent(
            down,
            (#[trigger] tail[j]).segs(),
        ) by {
            assert(tail[j] == levels[p + 1 + j]);
            assert(recency::recent(levels[p].segs(), levels[p + 1 + j].segs()));
            assert forall|e: sstable::EntryView, f: sstable::EntryView|
                #[trigger] recency::held(down, e) && #[trigger] recency::held(
                    tail[j].segs(),
                    f,
                ) implies recency::later(e, f) by {
                assert(recency::held(l.segs(), e));
            }
        }
        assert forall|e: sstable::EntryView, f: sstable::EntryView|
            #[trigger] recency::held(down, e) && #[trigger] recency::held(down, f) && e.key == f.key
                && e.sequence_number == f.sequence_number implies e == f by {
            recency::lemma_partitioned_lookup(l.segs(), e.key);
            assert(recency::held(l.segs(), e) && recency::held(l.segs(), f));
        }
        lemma_settles(down, tail, grown(l.target()), (l.number() + 1) as u64, rest, gone);
        assert forall|i: int| 0 <= i < p implies #[trigger] after[i] == levels[i] by {
            assert(after.take(p)[i] == levels.take(p)[i]);
        }
        // What the levels behind have comes from this level or those behind it.
        assert forall|i: int, f: sstable::EntryView|
            p < i < after.len() && #[trigger] recency::held(
                (#[trigger] after[i]).segs(),
                f,
            ) implies recency::held(l.segs(), f) || recency::held_in(tail, f) by {
            assert(rest[i - p - 1] == after[i]);
            assert(recency::held_in(rest, f));
            assert(recency::present(down, tail, f));
        }
        assert forall|i: int| 0 <= i < after.len() implies (#[trigger] after[i]).wf() by {
            if i > p {
                assert(after[i] == rest[i - p - 1]);
            }
        }
        assert forall|i: int, j: int| 0 <= i < j < after.len() implies recency::recent(
            (#[trigger] after[i]).segs(),
            (#[trigger] after[j]).segs(),
        ) by {
            if i > p {
                assert(after[i] == rest[i - p - 1] && after[j] == rest[j - p - 1]);
            } else if j >= p {
                assert forall|e: sstable::EntryView, f: sstable::EntryView|
                    #[trigger] recency::held(after[i].segs(), e) && #[trigger] recency::held(
                        after[j].segs(),
                        f,
                    ) implies recency::later(e, f) by {
                    assert(recency::held(l.segs(), f) || recency::held_in(tail, f));
                    if i == p {
                        assert(recency::held(l.segs(), e));
                        recency::lemma_partitioned_lookup(l.segs(), e.key);
                    } else {
                        assert(recency::recent(levels[i].segs(), levels[p].segs()));
                    }
                    if !recency::held(l.segs(), f) {
                        let k = choose|k: int|
                            0 <= k < tail.len() && recency::held((#[trigger] tail[k]).segs(), f);
                        assert(tail[k] == levels[p + 1 + k]);
                        assert(recency::recent(levels[i].segs(), levels[p + 1 + k].segs()));
                    }
                }
            }
        }
        assert forall|j: int| 0 <= j < after.len() implies recency::recent(
            zero,
            (#[trigger] after[j]).segs(),
        ) by {
            if j >= p {
                assert forall|e: sstable::EntryView, f: sstable::EntryView|
                    #[trigger] recency::held(zero, e) && #[trigger] recency::held(
                        after[j].segs(),
                        f,
                    ) implies recency::later(e, f) by {
                    assert(recency::recent(zero, levels[p].segs()));
                    if !recency::held(l.segs(), f) {
                        let k = choose|k: int|
                            0 <= k < tail.len() && recency::held((#[trigger] tail[k]).segs(), f);
                        assert(tail[k] == levels[p + 1 + k]);
                        assert(recency::recent(zero, levels[p + 1 + k].segs()));
                    }
                }
            }
        }
        // Both have what the levels before have, and what the level and those
        // behind it make of their entries.
        assert forall|e: sstable::EntryView| #[trigger] recency::held_in(levels, e) <==>
            recency::held_in(top, e) || recency::held(l.segs(), e) || recency::held_in(tail, e) by {
            lemma_held_in_parts(levels, p, e);
            let b = levels.skip(p);
            recency::lemma_held_in_first(b, e);
            assert(b.drop_first() =~= tail);
        }
        assert forall|e: sstable::EntryView| #[trigger] recency::held_in(after, e) <==>
            recency::held_in(top, e) || recency::held(stay, e) || recency::held_in(rest, e) by {
            lemma_held_in_parts(after, p, e);
            let b = after.skip(p);
            recency::lemma_held_in_first(b, e);
            assert(b.drop_first() =~= rest);
        }
        assert forall|e: sstable::EntryView| #[trigger] recency::present(zero, after, e) implies
            recency::present(zero, levels, e) by {
            if !recency::held(zero, e) {
                assert(recency::held_in(after, e));
                if recency::held_in(rest, e) {
                    assert(recency::present(down, tail, e));
                }
                assert(recency::held_in(levels, e) <==> recency::held_in(top, e) || recency::held(
                    l.segs(),
                    e,
                ) || recency::held_in(tail, e));
            }
        }
        assert forall|e: sstable::EntryView| #[trigger] recency::latest(zero, levels, e) implies
            recency::present(zero, after, e) by {
            if !recency::held(zero, e) {
                assert(recency::present(zero, levels, e));
                assert(recency::held_in(levels, e));
                if !recency::held_in(top, e) && !recency::held(stay, e) {
                    assert(recency::present(down, tail, e));
                    assert forall|f: sstable::EntryView| #[trigger] recency::present(
                        down,
                        tail,
                        f,
                    ) implies recency::later(e, f) by {
                        assert(recency::held_in(levels, f)) by {
                            if recency::held(down, f) {
                                assert(recency::held(l.segs(), f));
                            }
                            assert(recency::held_in(levels, f) <==> recency::held_in(top, f)
                                || recency::held(l.segs(), f) || recency::held_in(tail, f));
                        }
                        assert(recency::present(zero, levels, f));
                    }
                    assert(recency::latest(down, tail, e));
                    assert(recency::held_in(rest, e));
                }
                assert(recency::held_in(after, e) <==> recency::held_in(top, e) || recency::held(
                    stay,
                    e,
                ) || recency::held_in(rest, e));
            }
        }
        lemma_same_lookups(zero, levels, zero, after, key);
    }
}

/// Segments of which each is later than those before tell entries apart.
proof fn lemma_ordered_distinct(segs: Seq<Arc<Segment>>)
    requires
        merge::segments_wf(segs),
        recency::ordered_segments(segs),
    ensures
        recency::distinct(segs),
{
    assert forall|e: sstable::EntryView, f: sstable::EntryView|
        #[trigger] recency::held(segs, e) && #[trigger] recency::held(segs, f) && e.key == f.key
            && e.sequence_number == f.sequence_number implies e == f by {
        recency::lemma_held_one(segs, e);
        recency::lemma_held_one(segs, f);
        let i = choose|i: int| 0 <= i < segs.len() && recency::held(seq![#[trigger] segs[i]], e);
        let j = choose|j: int| 0 <= j < segs.len() && recency::held(seq![#[trigger] segs[j]], f);
        if i < j {
            assert(recency::recent(seq![segs[j]], seq![segs[i]]));
        } else if j < i {
            assert(recency::recent(seq![segs[i]], seq![segs[j]]));
        } else {
            recency::lemma_segment_lookup(segs[i], e.key);
        }
    }
}

/// What a list grows by in two steps.
proof fn lemma_behind<A>(a: Seq<A>, b: Seq<A>, c: Seq<A>)
    requires
        a.len() <= b.len() <= c.len(),
        b.take(a.len() as int) == a,
        c.take(b.len() as int) == b,
    ensures
        c.take(a.len() as int) == a,
        forall|i: int| 0 <= i < b.len() ==> c[i] == b[i],
        c.skip(a.len() as int).take(b.len() - a.len()) == b.skip(a.len() as int),
        c.skip(a.len() as int).skip(b.len() - a.len()) == c.skip(b.len() as int),
{
    assert forall|i: int| 0 <= i < b.len() implies c[i] == b[i] by {
        assert(c.take(b.len() as int)[i] == c[i]);
    }
    assert(c.take(a.len() as int) =~= b.take(a.len() as int));
    assert(c.skip(a.len() as int).take(b.len() - a.len()) =~= b.skip(a.len() as int));
    assert(c.skip(a.len() as int).skip(b.len() - a.len()) =~= c.skip(b.len() as int));
}

/// The merge has made the level too large, and its oldest segments have gone
/// on.
proof fn lemma_settles_deeper(
    incoming: Seq<Arc<Segment>>,
    levels: Seq<PartitionedLevel>,
    target: u64,
    number: u64,
    next: PartitionedLevel,
    grows: PartitionedLevel,
    out0: Seq<Arc<SsTableLevel<PartitionedLevel>>>,
    out1: Seq<Arc<SsTableLevel<PartitionedLevel>>>,
    out2: Seq<Arc<SsTableLevel<PartitionedLevel>>>,
    gone0: Seq<Arc<Segment>>,
    gone1: Seq<Arc<Segment>>,
    gone2: Seq<Arc<Segment>>,
)
    requires
        merges(incoming, levels, target, number, next, grows),
        level::exceeds(grows.segs(), grows.target()),
        out0.len() + 1 == out1.len() <= out2.len(),
        out1.take(out0.len() as int) == out0,
        out2.take(out1.len() as int) == out1,
        level::rest_of(grows, out1[out0.len() as int].inner()),
        out1[out0.len() as int].inner().wf(),
        gone1 == gone0 + used(next, incoming),
        gone1.len() <= gone2.len(),
        gone2.take(gone1.len() as int) == gone1,
        level::levels_wf(level::levels_of(out2).skip(out1.len() as int)),
        settles(
            level::due(grows.segs(), grows.target()),
            behind(levels),
            grown(grows.target()),
            (grows.number() + 1) as u64,
            level::levels_of(out2).skip(out1.len() as int),
            gone2.skip(gone1.len() as int),
        ),
    ensures
        out2.take(out0.len() as int) == out0,
        gone2.take(gone0.len() as int) == gone0,
        level::levels_wf(level::levels_of(out2).skip(out0.len() as int)),
        settles(
            incoming,
            levels,
            target,
            number,
            level::levels_of(out2).skip(out0.len() as int),
            gone2.skip(gone0.len() as int),
        ),
{
    let u = used(next, incoming);
    let after = level::levels_of(out2).skip(out0.len() as int);
    let tail = level::levels_of(out2).skip(out1.len() as int);
    assert(gone1.take(gone0.len() as int) =~= gone0);
    assert(gone1.skip(gone0.len() as int) =~= u);
    lemma_behind(out0, out1, out2);
    lemma_behind(gone0, gone1, gone2);
    assert(after.drop_first() =~= tail);
    assert(after[0] == out2[out0.len() as int].inner());
    assert forall|x: int| 0 <= x < after.len() implies (#[trigger] after[x]).wf() by {
        if x > 0 {
            assert(after[x] == tail[x - 1]);
        }
    }
}

/// The merge has not made the level too large, and the levels behind it stay.
proof fn lemma_settles_here(
    incoming: Seq<Arc<Segment>>,
    levels: Seq<PartitionedLevel>,
    target: u64,
    number: u64,
    next: PartitionedLevel,
    grows: PartitionedLevel,
    out0: Seq<Arc<SsTableLevel<PartitionedLevel>>>,
    out2: Seq<Arc<SsTableLevel<PartitionedLevel>>>,
    tail: Seq<Arc<SsTableLevel<PartitionedLevel>>>,
    first: Arc<SsTableLevel<PartitionedLevel>>,
    gone0: Seq<Arc<Segment>>,
    gone2: Seq<Arc<Segment>>,
)
    requires
        merges(incoming, levels, target, number, next, grows),
        !level::exceeds(grows.segs(), grows.target()),
        first.inner() == grows,
        out2 == out0 + seq![first] + tail,
        level::levels_of(tail) == behind(levels),
        level::levels_wf(behind(levels)),
        gone2 == gone0 + used(next, incoming),
    ensures
        out2.take(out0.len() as int) == out0,
        gone2.take(gone0.len() as int) == gone0,
        level::levels_wf(level::levels_of(out2).skip(out0.len() as int)),
        settles(
            incoming,
            levels,
            target,
            number,
            level::levels_of(out2).skip(out0.len() as int),
            gone2.skip(gone0.len() as int),
        ),
{
    let u = used(next, incoming);
    let after = level::levels_of(out2).skip(out0.len() as int);
    let lost = gone2.skip(gone0.len() as int);
    assert(out2.take(out0.len() as int) =~= out0);
    assert(gone2.take(gone0.len() as int) =~= gone0);
    assert(lost =~= u);
    assert(lost.take(u.len() as int) =~= u);
    assert(after[0] == grows);
    assert(after.drop_first() =~= level::levels_of(tail));
    assert forall|x: int| 0 <= x < after.len() implies (#[trigger] after[x]).wf() by {
        if x > 0 {
            assert(after[x] == after.drop_first()[x - 1]);
        }
    }
}

/// Merges the incoming segments into the levels from position `i` on, and puts
/// the new levels behind `out` and the segments that were replaced behind
/// `gone`.
#[verifier::rlimit(50)]
fn settle(
    incoming: Vec<Arc<Segment>>,
    levels: &Vec<Arc<SsTableLevel<PartitionedLevel>>>,
    i: usize,
    target: u64,
    number: u64,
    out: &mut Vec<Arc<SsTableLevel<PartitionedLevel>>>,
    gone: &mut Vec<Arc<Segment>>,
) -> (r: bool)
    requires
        i <= levels@.len(),
        merge::segments_wf(incoming@),
        level::levels_wf(level::levels_of(levels@)),
    ensures
        old(out)@.len() <= final(out)@.len(),
        final(out)@.take(old(out)@.len() as int) == old(out)@,
        old(gone)@.len() <= final(gone)@.len(),
        final(gone)@.take(old(gone)@.len() as int) == old(gone)@,
        r ==> settles(
            incoming@,
            level::levels_of(levels@).skip(i as int),
            target,
            number,
            level::levels_of(final(out)@).skip(old(out)@.len() as int),
            final(gone)@.skip(old(gone)@.len() as int),
        ),
        r ==> level::levels_wf(level::levels_of(final(out)@).skip(old(out)@.len() as int)),
        !r ==> exists|n: nat| #[trigger]
            out_of_numbers(
                n,
                incoming@,
                level::levels_of(levels@).skip(i as int),
                target,
                number,
            ),
    decreases levels@.len() - i, u64::MAX - target,
{
    let ghost all = level::levels_of(levels@);
    let ghost here = all.skip(i as int);
    let ghost out0 = out@;
    let ghost gone0 = gone@;
    let ghost inc = incoming@;
    let next: Arc<SsTableLevel<PartitionedLevel>> = if i < levels.len() {
        assert(here[0] == all[i as int]);
        share(&levels[i])
    } else {
        if number >= 0x1_0000_0000 {
            assert(out@.take(out0.len() as int) =~= out0);
            assert(gone@.take(gone0.len() as int) =~= gone0);
            assert(out_of_numbers(0, inc, here, target, number));
            return false;
        }
        Arc::new(SsTableLevel::<PartitionedLevel>::new(target, number))
    };
    assert(next_level(here, target, number, next.inner()));
    let (grows, old_segments) = match next.merge(&incoming) {
        Some(r) => r,
        None => {
            assert(out@.take(out0.len() as int) =~= out0);
            assert(gone@.take(gone0.len() as int) =~= gone0);
            assert(out_of_numbers(0, inc, here, target, number));
            return false;
        },
    };
    let mut old_segments: Vec<Arc<Segment>> = old_segments;
    let mut incoming: Vec<Arc<Segment>> = incoming;
    gone.append(&mut old_segments);
    gone.append(&mut incoming);
    let ghost u = used(next.inner(), inc);
    let ghost n = u.len() as int;
    let ghost g = grows.inner();
    assert(gone@ =~= gone0 + u);
    assert(merges(inc, here, target, number, next.inner(), g));
    let k: usize = if i < levels.len() {
        i + 1
    } else {
        i
    };
    assert(behind(here) =~= all.skip(k as int));
    if grows.exceeds_target_size() {
        let down: Vec<Arc<Segment>> = grows.segments_to_merge();
        let rest: Arc<SsTableLevel<PartitionedLevel>> = Arc::new(grows.rest());
        proof {
            lemma_divided(g.segs(), g.target());
        }
        out.push(rest);
        let ghost out1 = out@;
        let ghost gone1 = gone@;
        assert(out1.take(out0.len() as int) =~= out0);
        assert(gone1.take(gone0.len() as int) =~= gone0);
        let ok: bool = settle(
            down,
            levels,
            k,
            grow(grows.target_size()),
            grows.level_number() + 1,
            out,
            gone,
        );
        proof {
            if ok {
                lemma_settles_deeper(
                    inc, here, target, number, next.inner(), g,
                    out0, out1, out@,
                    gone0, gone1, gone@,
                );
            } else {
                let m = choose|m: nat| #[trigger]
                    out_of_numbers(
                        m,
                        level::due(g.segs(), g.target()),
                        all.skip(k as int),
                        grown(g.target()),
                        (g.number() + 1) as u64,
                    );
                assert(out_of_numbers(m + 1, inc, here, target, number));
                lemma_behind(out0, out1, out@);
                lemma_behind(gone0, gone1, gone@);
            }
        }
        ok
    } else {
        out.push(grows);
        let ghost out1 = out@;
        let count: usize = levels.len();
        let mut x: usize = k;
        assert(all.skip(k as int).take(0) =~= Seq::<PartitionedLevel>::empty());
        assert(out@ =~= out1 + levels@.subrange(k as int, k as int));
        while x < count
            invariant
                k <= x <= count == levels@.len(),
                out@ == out1 + levels@.subrange(k as int, x as int),
            decreases count - x,
        {
            out.push(share(&levels[x]));
            assert(levels@.subrange(k as int, x + 1) =~= levels@.subrange(
                k as int,
                x as int,
            ).push(levels@[x as int]));
            x += 1;
        }
        proof {
            let tail = levels@.skip(k as int);
            assert(out@ =~= out0 + seq![out1[out0.len() as int]] + tail);
            assert(level::levels_of(tail) =~= behind(here));
            assert forall|y: int| 0 <= y < behind(here).len() implies (#[trigger] behind(
                here,
            )[y]).wf() by {
                assert(behind(here)[y] == all[k + y]);
            }
            lemma_settles_here(
                inc, here, target, number, next.inner(), g,
                out0, out@, tail, out1[out0.len() as int],
                gone0, gone@,
            );
        }
        true
    }
}

/// The background task that compacts the levels. It keeps the segments that
/// were replaced until nobody reads them any more, and the numbers of references
/// to them that it read last.
pub struct CompactionBt {
    segments_to_delete: Vec<Arc<Segment>>,
    counts: Vec<References>,
}

/// Of the segments those that are still referenced, by the counts of their
/// references. One reference is the task's own.
pub open spec fn still_referenced(segs: Seq<Arc<Segment>>, counts: Seq<usize>) -> Seq<Arc<Segment>>
    decreases segs.len(),
{
    if segs.len() == 0 {
        Seq::empty()
    } else {
        let rest = still_referenced(segs.drop_last(), counts);
        if counts[segs.len() - 1] == 1 {
            rest
        } else {
            rest.push(segs.last())
        }
    }
}

/// The names of the files of the others.
pub open spec fn unreferenced(segs: Seq<Arc<Segment>>, counts: Seq<usize>) -> Seq<Seq<char>>
    decreases segs.len(),
{
    if segs.len() == 0 {
        Seq::empty()
    } else {
        let rest = unreferenced(segs.drop_last(), counts);
        if counts[segs.len() - 1] == 1 {
            rest.push(segs.last().name())
        } else {
            rest
        }
    }
}

/// The models of names.
pub open spec fn names(v: Seq<String>) -> Seq<Seq<char>> {
    v.map_values(|s: String| s@)
}

impl CompactionBt {
    /// The segments that were replaced and whose files are still there.
    pub closed spec fn to_delete(&self) -> Seq<Arc<Segment>> {
        self.segments_to_delete@
    }

    /// The numbers of references that were read last.
    pub closed spec fn counted(&self) -> Seq<References> {
        self.counts@
    }

    /// A task that has replaced nothing yet.
    pub fn new() -> (r: Self)
        ensures
            r.to_delete() == Seq::<Arc<Segment>>::empty(),
            r.counted() == Seq::<References>::empty(),
    {
        CompactionBt { segments_to_delete: Vec::new(), counts: Vec::new() }
    }

    /// Merges level zero into the levels behind it. Gives the new levels, or
    /// nothing where the numbers for new segments do not suffice. The segments
    /// that were replaced are kept for deletion.
    pub fn compact_from_level_zero(&mut self, container: &LevelContainer) -> (r: Option<
        Vec<Arc<SsTableLevel<PartitionedLevel>>>,
    >)
        requires
            container.wf(),
        ensures
            final(self).counted() == old(self).counted(),
            r matches Some(new) ==> {
                let n = old(self).to_delete().len() as int;
                &&& level::levels_wf(level::levels_of(new@))
                &&& n <= final(self).to_delete().len()
                &&& final(self).to_delete().take(n) == old(self).to_delete()
                &&& settles(
                    container.zero().segs(),
                    container.levels(),
                    grown(container.zero().target()),
                    1,
                    level::levels_of(new@),
                    final(self).to_delete().skip(n),
                )
            },
            r is None ==> final(self).to_delete() == old(self).to_delete(),
            r is None ==> exists|n: nat| #[trigger]
                out_of_numbers(
                    n,
                    container.zero().segs(),
                    container.levels(),
                    grown(container.zero().target()),
                    1,
                ),
    {
        let level_zero = container.level_zero();
        let levels = container.partitioned_levels();
        let incoming: Vec<Arc<Segment>> = level_zero.segments_to_merge();
        let target: u64 = grow(level_zero.target_size());
        let mut out: Vec<Arc<SsTableLevel<PartitionedLevel>>> = Vec::new();
        let mut gone: Vec<Arc<Segment>> = Vec::new();
        let ghost was = self.segments_to_delete@;
        assert(level::levels_of(levels@).skip(0) =~= level::levels_of(levels@));
        if settle(incoming, &levels, 0, target, 1, &mut out, &mut gone) {
            proof {
                assert(level::levels_of(out@).skip(0) =~= level::levels_of(out@));
                assert(gone@.skip(0) =~= gone@);
                assert((was + gone@).take(was.len() as int) =~= was);
                assert((was + gone@).skip(was.len() as int) =~= gone@);
            }
            self.segments_to_delete.append(&mut gone);
            Some(out)
        } else {
            None
        }
    }

    /// Merges the oldest segments of the first of the levels into the levels
    /// behind it. Gives the new levels, or nothing where the numbers for new
    /// segments do not suffice. The segments that were replaced are kept for
    /// deletion.
    pub fn compact_from_partitioned_level(
        &mut self,
        levels: Vec<Arc<SsTableLevel<PartitionedLevel>>>,
    ) -> (r: Option<Vec<Arc<SsTableLevel<PartitionedLevel>>>>)
        requires
            level::levels_wf(level::levels_of(levels@)),
        ensures
            final(self).counted() == old(self).counted(),
            levels@.len() == 0 ==> (r matches Some(new) && new@ == levels@),
            levels@.len() == 0 ==> final(self).to_delete() == old(self).to_delete(),
            r matches Some(new) ==> {
                let n = old(self).to_delete().len() as int;
                let ls = level::levels_of(levels@);
                &&& level::levels_wf(level::levels_of(new@))
                &&& n <= final(self).to_delete().len()
                &&& final(self).to_delete().take(n) == old(self).to_delete()
                &&& ls.len() > 0 ==> {
                    &&& new@.len() > 0
                    &&& level::rest_of(ls[0], level::levels_of(new@)[0])
                    &&& settles(
                        level::due(ls[0].segs(), ls[0].target()),
                        ls.drop_first(),
                        grown(ls[0].target()),
                        (ls[0].number() + 1) as u64,
                        level::levels_of(new@).drop_first(),
                        final(self).to_delete().skip(n),
                    )
                }
            },
            r is None ==> final(self).to_delete() == old(self).to_delete(),
            r is None ==> {
                let ls = level::levels_of(levels@);
                exists|n: nat| #[trigger]
                    out_of_numbers(
                        n,
                        level::due(ls[0].segs(), ls[0].target()),
                        ls.drop_first(),
                        grown(ls[0].target()),
                        (ls[0].number() + 1) as u64,
                    )
            },
    {
        let ghost was = self.segments_to_delete@;
        let ghost ls = level::levels_of(levels@);
        assert(was.take(was.len() as int) =~= was);
        if levels.len() == 0 {
            return Some(levels);
        }
        assert(ls[0] == levels@[0].inner());
        proof {
            assert(ls[0].wf());
            lemma_divided(ls[0].segs(), ls[0].target());
        }
        let incoming: Vec<Arc<Segment>> = levels[0].segments_to_merge();
        let target: u64 = grow(levels[0].target_size());
        let number: u64 = levels[0].level_number() + 1;
        let mut out: Vec<Arc<SsTableLevel<PartitionedLevel>>> = Vec::new();
        out.push(Arc::new(levels[0].rest()));
        let ghost first = out@;
        let mut gone: Vec<Arc<Segment>> = Vec::new();
        assert(ls.skip(1) =~= ls.drop_first());
        if settle(incoming, &levels, 1, target, number, &mut out, &mut gone) {
            proof {
                let new = level::levels_of(out@);
                assert(out@[0] == first[0]) by {
                    assert(out@.take(1) == first);
                }
                assert(new.skip(1) =~= new.drop_first());
                assert(gone@.skip(0) =~= gone@);
                assert((was + gone@).take(was.len() as int) =~= was);
                assert((was + gone@).skip(was.len() as int) =~= gone@);
                assert forall|x: int| 0 <= x < new.len() implies (#[trigger] new[x]).wf() by {
                    if x > 0 {
                        assert(new[x] == new.skip(1)[x - 1]);
                    }
                }
            }
            self.segments_to_delete.append(&mut gone);
            Some(out)
        } else {
            None
        }
    }

    /// The levels before the first that is too large, and the levels from it
    /// on.
    pub fn find_partitioned_levels_to_compact(container: &LevelContainer) -> (r: (
        Vec<Arc<SsTableLevel<PartitionedLevel>>>,
        Vec<Arc<SsTableLevel<PartitionedLevel>>>,
    ))
        ensures
            level::levels_of(r.0@) + level::levels_of(r.1@) == container.levels(),
            forall|i: int|
                0 <= i < r.0@.len() ==> !level::exceeds(
                    (#[trigger] level::levels_of(r.0@)[i]).segs(),
                    level::levels_of(r.0@)[i].target(),
                ),
            r.1@.len() > 0 ==> level::exceeds(
                level::levels_of(r.1@)[0].segs(),
                level::levels_of(r.1@)[0].target(),
            ),
    {
        let levels = container.partitioned_levels();
        let ghost ls = level::levels_of(levels@);
        let n: usize = levels.len();
        let mut before: Vec<Arc<SsTableLevel<PartitionedLevel>>> = Vec::new();
        let mut i: usize = 0;
        while i < n && !levels[i].exceeds_target_size()
            invariant
                i <= n == levels@.len(),
                ls == level::levels_of(levels@),
                before@ == levels@.take(i as int),
                forall|k: int|
                    0 <= k < i ==> !level::exceeds((#[trigger] ls[k]).segs(), ls[k].target()),
            decreases n - i,
        {
            assert(ls[i as int] == levels@[i as int].inner());
            before.push(share(&levels[i]));
            assert(levels@.take(i + 1) =~= levels@.take(i as int).push(levels@[i as int]));
            i += 1;
        }
        let ghost p = i as int;
        let mut after: Vec<Arc<SsTableLevel<PartitionedLevel>>> = Vec::new();
        assert(after@ =~= levels@.subrange(p, p));
        let first: usize = i;
        while i < n
            invariant
                first <= i <= n == levels@.len(),
                p == first,
                after@ == levels@.subrange(p, i as int),
            decreases n - i,
        {
            after.push(share(&levels[i]));
            assert(levels@.subrange(p, i + 1) =~= levels@.subrange(p, i as int).push(
                levels@[i as int],
            ));
            i += 1;
        }
        proof {
            let a = level::levels_of(before@);
            let b = level::levels_of(after@);
            assert(a + b =~= ls);
            assert forall|k: int| 0 <= k < before@.len() implies !level::exceeds(
                (#[trigger] a[k]).segs(),
                a[k].target(),
            ) by {
                assert(a[k] == ls[k]);
            }
            if b.len() > 0 {
                assert(b[0] == levels@[p].inner());
            }
        }
        (before, after)
    }

    /// Forgets the segments that nobody else references, by the counts of
    /// references to each, and gives the names of their files.
    pub fn take_unreferenced(&mut self, counts: &Vec<usize>) -> (files: Vec<String>)
        requires
            counts@.len() == old(self).to_delete().len(),
        ensures
            final(self).counted() == old(self).counted(),
            final(self).to_delete() == still_referenced(old(self).to_delete(), counts@),
            names(files@) == unreferenced(old(self).to_delete(), counts@),
    {
        let ghost all = self.segments_to_delete@;
        let mut kept: Vec<Arc<Segment>> = Vec::new();
        let mut files: Vec<String> = Vec::new();
        let n: usize = self.segments_to_delete.len();
        let mut i: usize = 0;
        assert(all.take(0) =~= Seq::<Arc<Segment>>::empty());
        assert(names(files@) =~= Seq::<Seq<char>>::empty());
        while i < n
            invariant
                i <= n == all.len(),
                n == counts@.len(),
                self.segments_to_delete@ == all,
                self.counts == old(self).counts,
                kept@ == still_referenced(all.take(i as int), counts@),
                names(files@) == unreferenced(all.take(i as int), counts@),
            decreases n - i,
        {
            assert(all.take(i + 1).drop_last() =~= all.take(i as int));
            if counts[i] == 1 {
                let ghost before = files@;
                let file: String = self.segments_to_delete[i].filepath();
                files.push(file);
                assert(names(files@) =~= names(before).push(file@));
            } else {
                kept.push(share(&self.segments_to_delete[i]));
            }
            i += 1;
        }
        assert(all.take(n as int) =~= all);
        self.segments_to_delete = kept;
        files
    }

    /// Forgets the segments that nobody reads any more, and gives the names of
    /// their files, which are to be removed. The references can only become
    /// fewer, since the levels do not have these segments any more.
    pub fn remove_segment_files(&mut self) -> (files: Vec<String>)
        ensures
            cleaned(
                old(self).to_delete(),
                final(self).to_delete(),
                final(self).counted(),
                names(files@),
            ),
    {
        let n: usize = self.segments_to_delete.len();
        let mut counts: Vec<References> = Vec::new();
        let mut plain: Vec<usize> = Vec::new();
        let mut i: usize = 0;
        while i < n
            invariant
                i <= n == self.segments_to_delete@.len(),
                counts@.len() == i,
                plain@.len() == i,
                forall|k: int|
                    0 <= k < i ==> (#[trigger] counts@[k]).of() == self.segments_to_delete@[k],
                forall|k: int| 0 <= k < i ==> #[trigger] plain@[k] == counts@[k].count(),
                *self == *old(self),
            decreases n - i,
        {
            let count: References = count_references(&self.segments_to_delete[i]);
            plain.push(count.number());
            counts.push(count);
            i += 1;
        }
        assert(plain@ =~= references::numbers(counts@));
        self.counts = counts;
        self.take_unreferenced(&plain)
    }
}

/// The segments that wait for their files to be removed, after those that nobody
/// reads any more have been taken out by the numbers of references that were
/// read for each, and the names of the files of these.
pub open spec fn cleaned(
    before: Seq<Arc<Segment>>,
    after: Seq<Arc<Segment>>,
    counts: Seq<References>,
    files: Seq<Seq<char>>,
) -> bool {
    &&& references::read_for(counts, before)
    &&& after == still_referenced(before, references::numbers(counts))
    &&& files == unreferenced(before, references::numbers(counts))
}

/// One of the segments has the name.
pub open spec fn named(segs: Seq<Arc<Segment>>, name: Seq<char>) -> bool {
    exists|i: int| 0 <= i < segs.len() && (#[trigger] segs[i]).name() == name
}

/// A segment of one of the levels has the name.
pub open spec fn live(
    zero: Seq<Arc<Segment>>,
    levels: Seq<PartitionedLevel>,
    name: Seq<char>,
) -> bool {
    named(zero, name) || named_in(levels, name)
}

/// The names that no segment of the levels has.
pub open spec fn free_names(
    all: Seq<Seq<char>>,
    zero: Seq<Arc<Segment>>,
    levels: Seq<PartitionedLevel>,
) -> Seq<Seq<char>>
    decreases all.len(),
{
    if all.len() == 0 {
        Seq::empty()
    } else {
        let rest = free_names(all.drop_last(), zero, levels);
        if live(zero, levels, all.last()) {
            rest
        } else {
            rest.push(all.last())
        }
    }
}

/// No segment of the levels has one of these names.
proof fn lemma_free_names(
    all: Seq<Seq<char>>,
    zero: Seq<Arc<Segment>>,
    levels: Seq<PartitionedLevel>,
)
    ensures
        forall|i: int|
            0 <= i < free_names(all, zero, levels).len() ==> !live(
                zero,
                levels,
                #[trigger] free_names(all, zero, levels)[i],
            ),
    decreases all.len(),
{
    if all.len() > 0 {
        let rest = free_names(all.drop_last(), zero, levels);
        let free = free_names(all, zero, levels);
        lemma_free_names(all.drop_last(), zero, levels);
        assert forall|i: int| 0 <= i < free.len() implies !live(zero, levels, #[trigger] free[i]) by {
            if i < rest.len() {
                assert(free[i] == rest[i]);
            }
        }
    }
}

/// The segments that wait for their files to be removed, after those that nobody
/// reads any more have been taken out, and the names of the files that are to be
/// removed. A name that a segment of the levels has by now is not among them.
pub open spec fn swept(
    before: Seq<Arc<Segment>>,
    after: Seq<Arc<Segment>>,
    counts: Seq<References>,
    zero: Seq<Arc<Segment>>,
    levels: Seq<PartitionedLevel>,
    files: Seq<Seq<char>>,
) -> bool {
    let all = unreferenced(before, references::numbers(counts));
    cleaned(before, after, counts, all) && files == free_names(all, zero, levels)
}

/// Whether one of the segments has the name.
fn is_named(segs: &Vec<Arc<Segment>>, name: &String) -> (r: bool)
    ensures
        r == named(segs@, name@),
{
    let n: usize = segs.len();
    let mut i: usize = 0;
    while i < n
        invariant
            i <= n == segs@.len(),
            forall|k: int| 0 <= k < i ==> (#[trigger] segs@[k]).name() != name@,
        decreases n - i,
    {
        let other: String = segs[i].filepath();
        if order::key_equal(&other, name) {
            return true;
        }
        i += 1;
    }
    false
}

/// Whether a segment of one of the levels has the name.
fn is_live(container: &LevelContainer, name: &String) -> (r: bool)
    ensures
        r == live(container.zero().segs(), container.levels(), name@),
{
    let level_zero = container.level_zero();
    if is_named(level_zero.segments(), name) {
        return true;
    }
    is_named_in(&container.partitioned_levels(), name)
}

/// The names that no segment of the levels has.
fn keep_free(all: Vec<String>, container: &LevelContainer) -> (files: Vec<String>)
    ensures
        names(files@) == free_names(
            names(all@),
            container.zero().segs(),
            container.levels(),
        ),
{
    let ghost ns = names(all@);
    let n: usize = all.len();
    let mut files: Vec<String> = Vec::new();
    let mut i: usize = 0;
    assert(ns.take(0) =~= Seq::<Seq<char>>::empty());
    assert(names(files@) =~= Seq::<Seq<char>>::empty());
    while i < n
        invariant
            i <= n == all@.len(),
            ns == names(all@),
            names(files@) == free_names(
                ns.take(i as int),
                container.zero().segs(),
                container.levels(),
            ),
        decreases n - i,
    {
        assert(ns.take(i + 1).drop_last() =~= ns.take(i as int));
        assert(ns.take(i + 1).last() == all@[i as int]@);
        if !is_live(container, &all[i]) {
            let ghost before = files@;
            let file: String = all[i].clone();
            files.push(file);
            assert(names(files@) =~= names(before).push(file@));
        }
        i += 1;
    }
    assert(ns.take(n as int) =~= ns);
    files
}

/// What the compaction works on: the segments of level zero, the levels behind
/// it, the segments that were replaced and wait for their files to be removed,
/// and the numbers of references that were read last.
#[verifier::ext_equal]
pub struct TurnView {
    pub zero: Seq<Arc<Segment>>,
    pub levels: Seq<PartitionedLevel>,
    pub waiting: Seq<Arc<Segment>>,
    pub counts: Seq<References>,
}

/// One turn of the compaction, with the names of the files that are to be
/// removed. Where level zero is to be compacted, it is merged into the levels
/// behind it. Else the first of those that is too large is compacted. A turn
/// fails, and the levels stay as they are, only where the numbers for new
/// segments do not suffice. No file of a segment of the levels is removed.
pub open spec fn turned(
    before: TurnView,
    target: u64,
    do_compact: bool,
    after: TurnView,
    files: Seq<Seq<char>>,
    goes_on: bool,
) -> bool {
    let ls = before.levels;
    let p = first_exceeding(ls) as int;
    &&& forall|i: int| 0 <= i < files.len() ==> !live(after.zero, after.levels, #[trigger] files[i])
    &&& if do_compact && goes_on {
        &&& after.zero == Seq::<Arc<Segment>>::empty()
        &&& exists|gone: Seq<Arc<Segment>>| #[trigger]
            settles(before.zero, ls, grown(target), 1, after.levels, gone) && swept(
                before.waiting + gone,
                after.waiting,
                after.counts,
                after.zero,
                after.levels,
                files,
            )
    } else if do_compact {
        &&& after == before
        &&& files == Seq::<Seq<char>>::empty()
        &&& exists|n: nat| #[trigger] out_of_numbers(n, before.zero, ls, grown(target), 1)
    } else if goes_on {
        &&& after.zero == before.zero
        &&& exists|gone: Seq<Arc<Segment>>, kept: Seq<Arc<Segment>>|
            #![trigger relieved(ls, after.levels, gone), swept(before.waiting, kept, after.counts, after.zero, after.levels, files)]
            relieved(ls, after.levels, gone) && swept(
                before.waiting,
                kept,
                after.counts,
                after.zero,
                after.levels,
                files,
            ) && after.waiting == kept + gone
    } else {
        &&& after.zero == before.zero
        &&& after.levels == ls
        &&& swept(before.waiting, after.waiting, after.counts, after.zero, after.levels, files)
        &&& p < ls.len()
        &&& exists|n: nat| #[trigger]
            out_of_numbers(
                n,
                level::due(ls[p].segs(), ls[p].target()),
                ls.skip(p + 1),
                grown(ls[p].target()),
                (ls[p].number() + 1) as u64,
            )
    }
}

impl CompactionBt {
    /// One turn of the task. Where level zero is to be compacted, it is merged
    /// into the levels behind it. Else the first of those that is too large is
    /// compacted. Gives the names of the files that are to be removed and
    /// whether the task goes on; it does not where the numbers for new
    /// segments do not suffice, and then the levels stay as they are.
    pub fn run(&mut self, container: &mut LevelContainer, do_compact: bool) -> (r: (
        Vec<String>,
        bool,
    ))
        requires
            old(container).wf(),
        ensures
            final(container).wf(),
            final(container).zero().target() == old(container).zero().target(),
            final(container).zero().issued() == old(container).zero().issued(),
            turned(
                (TurnView {
                    zero: old(container).zero().segs(),
                    levels: old(container).levels(),
                    waiting: old(self).to_delete(),
                    counts: old(self).counted(),
                }),
                old(container).zero().target(),
                do_compact,
                (TurnView {
                    zero: final(container).zero().segs(),
                    levels: final(container).levels(),
                    waiting: final(self).to_delete(),
                    counts: final(self).counted(),
                }),
                names(r.0@),
                r.1,
            ),
    {
        let ghost ls = container.levels();
        let ghost was = self.to_delete();
        let ghost target = container.zero().target();
        let ghost before_turn = TurnView {
            zero: container.zero().segs(),
            levels: ls,
            waiting: was,
            counts: self.counted(),
        };
        let mut files: Vec<String> = Vec::new();
        if do_compact {
            match self.compact_from_level_zero(container) {
                Some(new_levels) => {
                    let ghost gone = self.to_delete().skip(was.len() as int);
                    assert(self.to_delete() =~= was + gone);
                    container.swap_all_levels(new_levels);
                    let all: Vec<String> = self.remove_segment_files();
                    let ghost ns = names(all@);
                    files = keep_free(all, container);
                    let ghost after_turn = TurnView {
                        zero: container.zero().segs(),
                        levels: container.levels(),
                        waiting: self.to_delete(),
                        counts: self.counted(),
                    };
                    assert(settles(
                        before_turn.zero,
                        before_turn.levels,
                        grown(target),
                        1,
                        after_turn.levels,
                        gone,
                    ));
                    proof {
                        lemma_free_names(ns, after_turn.zero, after_turn.levels);
                        assert(cleaned(
                            before_turn.waiting + gone,
                            after_turn.waiting,
                            after_turn.counts,
                            ns,
                        ));
                        assert(swept(
                            before_turn.waiting + gone,
                            after_turn.waiting,
                            after_turn.counts,
                            after_turn.zero,
                            after_turn.levels,
                            names(files@),
                        ));
                    }
                    assert(turned(before_turn, target, true, after_turn, names(files@), true));
                    (files, true)
                },
                None => {
                    assert(names(files@) =~= Seq::<Seq<char>>::empty());
                    proof {
                        let m = choose|m: nat| #[trigger]
                            out_of_numbers(m, container.zero().segs(), ls, grown(target), 1);
                        assert(out_of_numbers(
                            m,
                            before_turn.zero,
                            before_turn.levels,
                            grown(target),
                            1,
                        ));
                    }
                    assert(turned(before_turn, target, true, before_turn, names(files@), false));
                    (files, false)
                },
            }
        } else {
            let all: Vec<String> = self.remove_segment_files();
            let ghost ns = names(all@);
            let ghost kept = self.to_delete();
            let (before, levels_to_compact) = Self::find_partitioned_levels_to_compact(container);
            let ghost a = level::levels_of(before@);
            let ghost b = level::levels_of(levels_to_compact@);
            let ghost p = before@.len() as int;
            proof {
                lemma_first_exceeding(a, b);
                assert(b =~= ls.skip(p));
                assert forall|x: int| 0 <= x < b.len() implies (#[trigger] b[x]).wf() by {
                    assert(b[x] == ls[p + x]);
                }
                assert(b.len() > 0 ==> b.drop_first() =~= ls.skip(p + 1));
            }
            let mut new_levels: Vec<Arc<SsTableLevel<PartitionedLevel>>> = before;
            let ghost n = self.to_delete().len() as int;
            match self.compact_from_partitioned_level(levels_to_compact) {
                Some(mut compacted) => {
                    let ghost c = level::levels_of(compacted@);
                    new_levels.append(&mut compacted);
                    proof {
                        let after = level::levels_of(new_levels@);
                        assert(after =~= a + c);
                        assert(after.take(p) =~= ls.take(p));
                        assert forall|x: int| 0 <= x < after.len() implies (
                        #[trigger] after[x]).wf() by {
                            if x < p {
                                assert(after[x] == ls[x]);
                            } else {
                                assert(after[x] == c[x - p]);
                            }
                        }
                        let gone = self.to_delete().skip(n);
                        assert(self.to_delete() =~= kept + gone);
                        if b.len() > 0 {
                            assert(after.skip(p + 1) =~= c.drop_first());
                            assert(after[p] == c[0]);
                        } else {
                            assert(after =~= ls);
                        }
                        assert(relieved(ls, after, gone));
                    }
                    let ghost gone = self.to_delete().skip(n);
                    container.swap_partitioned_levels(new_levels);
                    let ghost after_turn = TurnView {
                        zero: container.zero().segs(),
                        levels: container.levels(),
                        waiting: self.to_delete(),
                        counts: self.counted(),
                    };
                    assert(relieved(before_turn.levels, after_turn.levels, gone));
                    files = keep_free(all, container);
                    proof {
                        lemma_free_names(ns, after_turn.zero, after_turn.levels);
                        assert(cleaned(before_turn.waiting, kept, after_turn.counts, ns));
                        assert(swept(
                            before_turn.waiting,
                            kept,
                            after_turn.counts,
                            after_turn.zero,
                            after_turn.levels,
                            names(files@),
                        ));
                    }
                    assert(turned(before_turn, target, false, after_turn, names(files@), true));
                    (files, true)
                },
                None => {
                    files = keep_free(all, container);
                    proof {
                        lemma_free_names(ns, before_turn.zero, before_turn.levels);
                        assert(cleaned(was, self.to_delete(), self.counted(), ns));
                        assert(swept(
                            before_turn.waiting,
                            self.to_delete(),
                            self.counted(),
                            before_turn.zero,
                            before_turn.levels,
                            names(files@),
                        ));
                        assert(b.len() > 0);
                        assert(b[0] == ls[p]);
                        assert(p == first_exceeding(ls));
                        let m = choose|m: nat| #[trigger]
                            out_of_numbers(
                                m,
                                level::due(b[0].segs(), b[0].target()),
                                b.drop_first(),
                                grown(b[0].target()),
                                (b[0].number() + 1) as u64,
                            );
                        assert(out_of_numbers(
                            m,
                            level::due(ls[p].segs(), ls[p].target()),
                            ls.skip(p + 1),
                            grown(ls[p].target()),
                            (ls[p].number() + 1) as u64,
                        ));
                    }
                    (files, false)
                },
            }
        }
    }
}

/// The first level that is too large stands behind those that are not.
proof fn lemma_first_exceeding(a: Seq<PartitionedLevel>, b: Seq<PartitionedLevel>)
    requires
        forall|i: int|
            0 <= i < a.len() ==> !level::exceeds((#[trigger] a[i]).segs(), a[i].target()),
        b.len() > 0 ==> level::exceeds(b[0].segs(), b[0].target()),
    ensures
        first_exceeding(a + b) == a.len(),
    decreases a.len(),
{
    if a.len() > 0 {
        let rest = a.drop_first();
        assert forall|i: int| 0 <= i < rest.len() implies !level::exceeds(
            (#[trigger] rest[i]).segs(),
            rest[i].target(),
        ) by {
            assert(rest[i] == a[i + 1]);
        }
        lemma_first_exceeding(rest, b);
        assert((a + b).drop_first() =~= rest + b);
        assert((a + b)[0] == a[0]);
    } else {
        assert(a + b =~= b);
    }
}

/// A segment that the level made: its number lies between two numbers, and its
/// name is made of it.
pub open spec fn made_between(x: Segment, level: u64, from: u64, to: u64) -> bool {
    &&& x.wf()
    &&& from < x.numbered() <= to
    &&& x.name() == level::segment::segment_filename(level as nat, x.numbered() as nat)
}

/// The level goes on: each segment is one that it had, or one with a number that
/// the level had not given before.
pub open spec fn goes_on_from(before: PartitionedLevel, after: PartitionedLevel) -> bool {
    &&& after.number() == before.number()
    &&& before.issued() <= after.issued()
    &&& forall|x: Arc<Segment>| #[trigger]
        after.segs().contains(x) ==> before.segs().contains(x) || made_between(
            *x,
            before.number(),
            before.issued(),
            after.issued(),
        )
}

/// A merge numbers its segments behind all that the level had.
proof fn lemma_merge_goes_on(
    before: PartitionedLevel,
    incoming: Seq<Arc<Segment>>,
    after: PartitionedLevel,
)
    requires
        level::merged(before, incoming, after),
    ensures
        goes_on_from(before, after),
{
    let new = choose|new: Seq<Arc<Segment>>| #[trigger]
        level::replaced(before, incoming, new, after);
    let stay = level::untouched(before.segs(), incoming);
    level::lemma_touched(before.segs(), incoming);
    assert forall|x: Arc<Segment>| #[trigger] after.segs().contains(x) implies
        before.segs().contains(x) || made_between(
        *x,
        before.number(),
        before.issued(),
        after.issued(),
    ) by {
        assert((new + stay).contains(x));
        let k = choose|k: int| 0 <= k < (new + stay).len() && (new + stay)[k] == x;
        if k < new.len() {
            assert(new[k] == x);
            assert(merge::written(
                *new[k],
                before.number() as nat,
                (before.issued() + 1 + k) as nat,
                before.sparsity() as int,
            ));
        } else {
            assert(stay[k - new.len()] == x);
            assert(stay.contains(x));
        }
    }
}

/// The segments that stay were there.
proof fn lemma_staying(segs: Seq<Arc<Segment>>, target: u64, x: Arc<Segment>)
    requires
        level::staying(segs, target).contains(x),
    ensures
        segs.contains(x),
    decreases segs.len(),
{
    if segs.len() > 0 && level::exceeds(segs, target) {
        level::lemma_oldest(segs);
        let p = level::oldest(segs);
        let rest = segs.remove(p);
        lemma_staying(rest, target, x);
        let i = choose|i: int| 0 <= i < rest.len() && rest[i] == x;
        assert(segs[if i < p { i } else { i + 1 }] == x);
    }
}

/// What is left of a level goes on from it.
proof fn lemma_rest_goes_on(
    before: PartitionedLevel,
    grows: PartitionedLevel,
    rest: PartitionedLevel,
)
    requires
        goes_on_from(before, grows),
        level::rest_of(grows, rest),
    ensures
        goes_on_from(before, rest),
{
    assert forall|x: Arc<Segment>| #[trigger] rest.segs().contains(x) implies
        before.segs().contains(x) || made_between(
        *x,
        before.number(),
        before.issued(),
        rest.issued(),
    ) by {
        lemma_staying(grows.segs(), grows.target(), x);
        assert(grows.segs().contains(x));
    }
}

/// A level goes on from itself.
proof fn lemma_same_goes_on(l: PartitionedLevel)
    ensures
        goes_on_from(l, l),
{
}

/// Every level goes on where incoming segments are merged.
proof fn lemma_settles_goes_on(
    incoming: Seq<Arc<Segment>>,
    levels: Seq<PartitionedLevel>,
    target: u64,
    number: u64,
    after: Seq<PartitionedLevel>,
    gone: Seq<Arc<Segment>>,
)
    requires
        settles(incoming, levels, target, number, after, gone),
    ensures
        levels.len() <= after.len(),
        forall|j: int| 0 <= j < levels.len() ==> goes_on_from(#[trigger] levels[j], after[j]),
    decreases after.len(),
{
    let (next, grows) = choose|next: PartitionedLevel, grows: PartitionedLevel|
        {
            let n = used(next, incoming).len() as int;
            &&& #[trigger] merges(incoming, levels, target, number, next, grows)
            &&& n <= gone.len()
            &&& gone.take(n) == used(next, incoming)
            &&& if level::exceeds(grows.segs(), grows.target()) {
                &&& level::rest_of(grows, after[0])
                &&& settles(
                    level::due(grows.segs(), grows.target()),
                    behind(levels),
                    grown(grows.target()),
                    (grows.number() + 1) as u64,
                    after.drop_first(),
                    gone.skip(n),
                )
            } else {
                &&& after[0] == grows
                &&& after.drop_first() == behind(levels)
                &&& n == gone.len()
            }
        };
    let n = used(next, incoming).len() as int;
    let tail = behind(levels);
    let rest = after.drop_first();
    lemma_merge_goes_on(next, incoming, grows);
    if level::exceeds(grows.segs(), grows.target()) {
        lemma_rest_goes_on(next, grows, after[0]);
        lemma_settles_goes_on(
            level::due(grows.segs(), grows.target()),
            tail,
            grown(grows.target()),
            (grows.number() + 1) as u64,
            rest,
            gone.skip(n),
        );
    }
    assert forall|j: int| 0 <= j < levels.len() implies goes_on_from(
        #[trigger] levels[j],
        after[j],
    ) by {
        if j > 0 {
            assert(tail[j - 1] == levels[j]);
            assert(rest[j - 1] == after[j]);
            lemma_same_goes_on(levels[j]);
        }
    }
}

/// Every level goes on where the first that is too large is compacted.
proof fn lemma_relieved_goes_on(
    levels: Seq<PartitionedLevel>,
    after: Seq<PartitionedLevel>,
    gone: Seq<Arc<Segment>>,
)
    requires
        relieved(levels, after, gone),
    ensures
        levels.len() <= after.len(),
        forall|j: int| 0 <= j < levels.len() ==> goes_on_from(#[trigger] levels[j], after[j]),
{
    let p = first_exceeding(levels) as int;
    if p < levels.len() {
        let tail = levels.skip(p + 1);
        let rest = after.skip(p + 1);
        lemma_same_goes_on(levels[p]);
        lemma_rest_goes_on(levels[p], levels[p], after[p]);
        lemma_settles_goes_on(
            level::due(levels[p].segs(), levels[p].target()),
            tail,
            grown(levels[p].target()),
            (levels[p].number() + 1) as u64,
            rest,
            gone,
        );
        assert forall|j: int| 0 <= j < levels.len() implies goes_on_from(
            #[trigger] levels[j],
            after[j],
        ) by {
            if j < p {
                assert(levels.take(p)[j] == after.take(p)[j]);
                lemma_same_goes_on(levels[j]);
            } else if j > p {
                assert(tail[j - p - 1] == levels[j]);
                assert(rest[j - p - 1] == after[j]);
            }
        }
    } else {
        assert forall|j: int| 0 <= j < levels.len() implies goes_on_from(
            #[trigger] levels[j],
            after[j],
        ) by {
            lemma_same_goes_on(levels[j]);
        }
    }
}

/// A level never gives a name again: a segment that a turn adds to it has a
/// higher number than every segment that the level ever had, and so it has
/// another name than any of them.
pub proof fn lemma_names_are_not_given_again(
    before: TurnView,
    target: u64,
    do_compact: bool,
    after: TurnView,
    files: Seq<Seq<char>>,
    goes_on: bool,
    j: int,
    x: Arc<Segment>,
    n: nat,
)
    requires
        level::levels_wf(before.levels),
        turned(before, target, do_compact, after, files, goes_on),
        0 <= j < before.levels.len(),
        after.levels[j].segs().contains(x),
        !before.levels[j].segs().contains(x),
        n <= before.levels[j].issued(),
    ensures
        before.levels[j].issued() < x.numbered() <= after.levels[j].issued(),
        x.name() == level::segment::segment_filename(
            before.levels[j].number() as nat,
            x.numbered() as nat,
        ),
        x.name() != level::segment::segment_filename(before.levels[j].number() as nat, n),
{
    let ls = before.levels;
    assert(ls[j].wf());
    if do_compact && goes_on {
        let gone = choose|gone: Seq<Arc<Segment>>| #[trigger]
            settles(before.zero, ls, grown(target), 1, after.levels, gone) && swept(
                before.waiting + gone,
                after.waiting,
                after.counts,
                after.zero,
                after.levels,
                files,
            );
        lemma_settles_goes_on(before.zero, ls, grown(target), 1, after.levels, gone);
    } else if !do_compact && goes_on {
        let (gone, kept) = choose|gone: Seq<Arc<Segment>>, kept: Seq<Arc<Segment>>|
            #![trigger relieved(ls, after.levels, gone), swept(before.waiting, kept, after.counts, after.zero, after.levels, files)]
            relieved(ls, after.levels, gone) && swept(
                before.waiting,
                kept,
                after.counts,
                after.zero,
                after.levels,
                files,
            ) && after.waiting == kept + gone;
        lemma_relieved_goes_on(ls, after.levels, gone);
    } else {
        lemma_same_goes_on(ls[j]);
    }
    assert(goes_on_from(ls[j], after.levels[j]));
    let number = ls[j].number() as nat;
    level::segment::lemma_number_in(number, n);
    x.lemma_entries();
}

/// The levels are numbered one after the other.
pub open spec fn in_line(levels: Seq<PartitionedLevel>, first: int) -> bool {
    forall|j: int| 0 <= j < levels.len() ==> (#[trigger] levels[j]).number() == first + j
}

/// Merging incoming segments leaves the levels numbered one after the other.
proof fn lemma_settles_in_line(
    incoming: Seq<Arc<Segment>>,
    levels: Seq<PartitionedLevel>,
    target: u64,
    number: u64,
    after: Seq<PartitionedLevel>,
    gone: Seq<Arc<Segment>>,
)
    requires
        settles(incoming, levels, target, number, after, gone),
        in_line(levels, number as int),
    ensures
        in_line(after, number as int),
    decreases after.len(),
{
    let (next, grows) = choose|next: PartitionedLevel, grows: PartitionedLevel|
        {
            let n = used(next, incoming).len() as int;
            &&& #[trigger] merges(incoming, levels, target, number, next, grows)
            &&& n <= gone.len()
            &&& gone.take(n) == used(next, incoming)
            &&& if level::exceeds(grows.segs(), grows.target()) {
                &&& level::rest_of(grows, after[0])
                &&& settles(
                    level::due(grows.segs(), grows.target()),
                    behind(levels),
                    grown(grows.target()),
                    (grows.number() + 1) as u64,
                    after.drop_first(),
                    gone.skip(n),
                )
            } else {
                &&& after[0] == grows
                &&& after.drop_first() == behind(levels)
                &&& n == gone.len()
            }
        };
    let n = used(next, incoming).len() as int;
    let tail = behind(levels);
    let rest = after.drop_first();
    assert(grows.number() == number && grows.wf());
    assert(in_line(tail, number + 1)) by {
        assert forall|j: int| 0 <= j < tail.len() implies (#[trigger] tail[j]).number() == number
            + 1 + j by {
            assert(tail[j] == levels[j + 1]);
        }
    }
    if level::exceeds(grows.segs(), grows.target()) {
        lemma_settles_in_line(
            level::due(grows.segs(), grows.target()),
            tail,
            grown(grows.target()),
            (grows.number() + 1) as u64,
            rest,
            gone.skip(n),
        );
    }
    assert forall|j: int| 0 <= j < after.len() implies (#[trigger] after[j]).number() == number
        + j by {
        if j > 0 {
            assert(after[j] == rest[j - 1]);
        }
    }
}

/// A turn leaves the levels numbered one after the other, from one on.
pub proof fn lemma_turn_in_line(
    before: TurnView,
    target: u64,
    do_compact: bool,
    after: TurnView,
    files: Seq<Seq<char>>,
    goes_on: bool,
)
    requires
        level::levels_wf(before.levels),
        in_line(before.levels, 1),
        turned(before, target, do_compact, after, files, goes_on),
    ensures
        in_line(after.levels, 1),
{
    let ls = before.levels;
    let now = after.levels;
    if do_compact && goes_on {
        let gone = choose|gone: Seq<Arc<Segment>>| #[trigger]
            settles(before.zero, ls, grown(target), 1, now, gone) && swept(
                before.waiting + gone,
                after.waiting,
                after.counts,
                after.zero,
                now,
                files,
            );
        lemma_settles_in_line(before.zero, ls, grown(target), 1, now, gone);
    } else if !do_compact && goes_on {
        let (gone, kept) = choose|gone: Seq<Arc<Segment>>, kept: Seq<Arc<Segment>>|
            #![trigger relieved(ls, now, gone), swept(before.waiting, kept, after.counts, after.zero, now, files)]
            relieved(ls, now, gone) && swept(before.waiting, kept, after.counts, after.zero, now, files)
                && after.waiting == kept + gone;
        let p = first_exceeding(ls) as int;
        if p < ls.len() {
            let tail = ls.skip(p + 1);
            let rest = now.skip(p + 1);
            assert(ls[p].wf());
            assert forall|j: int| 0 <= j < tail.len() implies (#[trigger] tail[j]).number() == p + 2
                + j by {
                assert(tail[j] == ls[p + 1 + j]);
            }
            lemma_settles_in_line(
                level::due(ls[p].segs(), ls[p].target()),
                tail,
                grown(ls[p].target()),
                (ls[p].number() + 1) as u64,
                rest,
                gone,
            );
            assert forall|j: int| 0 <= j < now.len() implies (#[trigger] now[j]).number() == 1
                + j by {
                if j < p {
                    assert(now.take(p)[j] == ls.take(p)[j]);
                } else if j > p {
                    assert(rest[j - p - 1] == now[j]);
                }
            }
        }
    }
}

/// A segment of one of the levels has the name.
pub open spec fn named_in(levels: Seq<PartitionedLevel>, name: Seq<char>) -> bool {
    exists|j: int| 0 <= j < levels.len() && named((#[trigger] levels[j]).segs(), name)
}

/// One of the levels has the segment.
pub open spec fn has_segment(levels: Seq<PartitionedLevel>, x: Arc<Segment>) -> bool {
    exists|j: int| 0 <= j < levels.len() && (#[trigger] levels[j]).segs().contains(x)
}

/// Of the segments those whose names no segment of the levels has.
pub open spec fn lacking(segs: Seq<Arc<Segment>>, levels: Seq<PartitionedLevel>) -> Seq<
    Arc<Segment>,
>
    decreases segs.len(),
{
    if segs.len() == 0 {
        Seq::empty()
    } else {
        let rest = lacking(segs.drop_last(), levels);
        if named_in(levels, segs.last().name()) {
            rest
        } else {
            rest.push(segs.last())
        }
    }
}

/// The segments of levels whose names no segment of the levels before has.
pub open spec fn added(before: Seq<PartitionedLevel>, after: Seq<PartitionedLevel>) -> Seq<
    Arc<Segment>,
>
    decreases after.len(),
{
    if after.len() == 0 {
        Seq::empty()
    } else {
        added(before, after.drop_last()) + lacking(after.last().segs(), before)
    }
}

/// Whether a segment of one of the levels has the name.
fn is_named_in(levels: &Vec<Arc<SsTableLevel<PartitionedLevel>>>, name: &String) -> (r: bool)
    ensures
        r == named_in(level::levels_of(levels@), name@),
{
    let ghost ls = level::levels_of(levels@);
    let n: usize = levels.len();
    let mut j: usize = 0;
    while j < n
        invariant
            j <= n == levels@.len(),
            ls == level::levels_of(levels@),
            forall|k: int| 0 <= k < j ==> !named((#[trigger] ls[k]).segs(), name@),
        decreases n - j,
    {
        assert(ls[j as int] == levels@[j as int].inner());
        if is_named(levels[j].segments(), name) {
            assert(named(ls[j as int].segs(), name@));
            return true;
        }
        j += 1;
    }
    false
}

/// The segments that levels have and the levels before did not have, whose files
/// are to be written after a turn of the compaction.
pub fn added_segments(
    before: &Vec<Arc<SsTableLevel<PartitionedLevel>>>,
    after: &Vec<Arc<SsTableLevel<PartitionedLevel>>>,
) -> (r: Vec<Arc<Segment>>)
    ensures
        r@ == added(level::levels_of(before@), level::levels_of(after@)),
{
    let ghost was = level::levels_of(before@);
    let ghost now = level::levels_of(after@);
    let n: usize = after.len();
    let mut r: Vec<Arc<Segment>> = Vec::new();
    let mut j: usize = 0;
    assert(now.take(0) =~= Seq::<PartitionedLevel>::empty());
    while j < n
        invariant
            j <= n == after@.len(),
            was == level::levels_of(before@),
            now == level::levels_of(after@),
            r@ == added(was, now.take(j as int)),
        decreases n - j,
    {
        let ghost so_far = r@;
        let segments: &Vec<Arc<Segment>> = after[j].segments();
        let count: usize = segments.len();
        let mut i: usize = 0;
        assert(segments@.take(0) =~= Seq::<Arc<Segment>>::empty());
        assert(so_far + lacking(segments@.take(0), was) =~= so_far);
        while i < count
            invariant
                i <= count == segments@.len(),
                was == level::levels_of(before@),
                r@ == so_far + lacking(segments@.take(i as int), was),
            decreases count - i,
        {
            assert(segments@.take(i + 1).drop_last() =~= segments@.take(i as int));
            let name: String = segments[i].filepath();
            if !is_named_in(before, &name) {
                r.push(share(&segments[i]));
                assert(r@ =~= so_far + lacking(segments@.take(i + 1), was));
            }
            i += 1;
        }
        assert(segments@.take(count as int) =~= segments@);
        assert(now.take(j + 1).drop_last() =~= now.take(j as int));
        assert(now.take(j + 1).last() == after@[j as int].inner());
        j += 1;
    }
    assert(now.take(n as int) =~= now);
    r
}

/// Which segments are picked out by their names.
proof fn lemma_lacking(segs: Seq<Arc<Segment>>, levels: Seq<PartitionedLevel>, x: Arc<Segment>)
    ensures
        lacking(segs, levels).contains(x) <==> segs.contains(x) && !named_in(levels, x.name()),
    decreases segs.len(),
{
    if segs.len() > 0 {
        let init = segs.drop_last();
        let rest = lacking(init, levels);
        let last = segs.last();
        lemma_lacking(init, levels, x);
        assert(segs =~= init.push(last));
        level::lemma_contains_push(init, last);
        level::lemma_contains_push(rest, last);
    }
}

/// Which segments of the levels are picked out by their names.
proof fn lemma_added(
    before: Seq<PartitionedLevel>,
    after: Seq<PartitionedLevel>,
    x: Arc<Segment>,
)
    ensures
        added(before, after).contains(x) <==> has_segment(after, x) && !named_in(before, x.name()),
    decreases after.len(),
{
    if after.len() > 0 {
        let init = after.drop_last();
        let a = added(before, init);
        let b = lacking(after.last().segs(), before);
        lemma_added(before, init, x);
        lemma_lacking(after.last().segs(), before, x);
        assert(added(before, after) == a + b);
        if (a + b).contains(x) {
            let k = choose|k: int| 0 <= k < (a + b).len() && (a + b)[k] == x;
            if k < a.len() {
                assert(a[k] == x);
                assert(a.contains(x));
            } else {
                assert(b[k - a.len()] == x);
                assert(b.contains(x));
            }
        }
        if a.contains(x) {
            let k = choose|k: int| 0 <= k < a.len() && a[k] == x;
            assert((a + b)[k] == x);
        }
        if b.contains(x) {
            let k = choose|k: int| 0 <= k < b.len() && b[k] == x;
            assert((a + b)[a.len() + k] == x);
        }
        if has_segment(after, x) {
            let j = choose|j: int| 0 <= j < after.len() && (#[trigger] after[j]).segs().contains(x);
            if j < init.len() {
                assert(init[j].segs().contains(x));
            } else {
                assert(after.last().segs().contains(x));
            }
        }
        if has_segment(init, x) {
            let j = choose|j: int| 0 <= j < init.len() && (#[trigger] init[j]).segs().contains(x);
            assert(after[j].segs().contains(x));
        }
        if after.last().segs().contains(x) {
            assert(after[after.len() - 1].segs().contains(x));
        }
    }
}

/// After a turn of the compaction the names tell exactly which segments are new:
/// those that are picked out by their names are those that the levels have and
/// did not have before.
pub proof fn lemma_added_segments_are_new(
    before: TurnView,
    target: u64,
    do_compact: bool,
    after: TurnView,
    files: Seq<Seq<char>>,
    goes_on: bool,
    x: Arc<Segment>,
)
    requires
        level::levels_wf(before.levels),
        level::levels_wf(after.levels),
        in_line(before.levels, 1),
        turned(before, target, do_compact, after, files, goes_on),
    ensures
        added(before.levels, after.levels).contains(x) <==> has_segment(after.levels, x)
            && !has_segment(before.levels, x),
{
    let ls = before.levels;
    let now = after.levels;
    lemma_added(ls, now, x);
    if has_segment(ls, x) {
        let k = choose|k: int| 0 <= k < ls.len() && (#[trigger] ls[k]).segs().contains(x);
        let i = choose|i: int| 0 <= i < ls[k].segs().len() && ls[k].segs()[i] == x;
        assert(ls[k].segs()[i].name() == x.name());
        assert(named(ls[k].segs(), x.name()));
    }
    if has_segment(now, x) && !has_segment(ls, x) && named_in(ls, x.name()) {
        let j = choose|j: int| 0 <= j < now.len() && (#[trigger] now[j]).segs().contains(x);
        let k = choose|k: int| 0 <= k < ls.len() && named((#[trigger] ls[k]).segs(), x.name());
        let i = choose|i: int| 0 <= i < ls[k].segs().len() && (#[trigger] ls[k].segs()[i]).name()
            == x.name();
        let y = ls[k].segs()[i];
        let h = choose|h: int| 0 <= h < now[j].segs().len() && now[j].segs()[h] == x;
        lemma_turn_in_line(before, target, do_compact, after, files, goes_on);
        assert(ls[k].wf() && now[j].wf());
        assert(now[j].segs()[h].name() == level::segment::segment_filename(
            now[j].number() as nat,
            x.numbered() as nat,
        ));
        assert(y.name() == level::segment::segment_filename(
            ls[k].number() as nat,
            y.numbered() as nat,
        ));
        level::segment::lemma_level_in(
            now[j].number() as nat,
            x.numbered() as nat,
            ls[k].number() as nat,
            y.numbered() as nat,
        );
        assert(j == k);
        assert(!ls[j].segs().contains(x));
        assert(y.numbered() <= ls[j].issued());
        lemma_names_are_not_given_again(
            before,
            target,
            do_compact,
            after,
            files,
            goes_on,
            j,
            x,
            y.numbered() as nat,
        );
    }
}

} // verus!
