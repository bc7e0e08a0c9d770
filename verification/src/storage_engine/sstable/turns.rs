//! What a turn of the compaction does to the levels and to the files.

use crate::storage_engine::sstable;
use crate::storage_engine::sstable::compaction;
use crate::storage_engine::sstable::compaction::{
    behind, grown, has_segment, in_line, out_of_numbers, relieved, settles, swept, turned, used,
    TurnView,
};
use crate::storage_engine::sstable::level;
use crate::storage_engine::sstable::level::segment::Segment;
use crate::storage_engine::sstable::level::{merge, PartitionedLevel, SstLevel};
use crate::storage_engine::sstable::recency;
use crate::storage_engine::sstable::references::References;
use std::sync::Arc;
use vstd::prelude::*;

verus! {

/// The files of a level take no more bytes than its target. The highest target is
/// no limit.
pub open spec fn fits(l: PartitionedLevel) -> bool {
    l.target() == u64::MAX || level::file_bytes(l.segs()) <= l.target()
}

/// A level that is not too large fits.
proof fn lemma_fits(l: PartitionedLevel)
    ensures
        fits(l) <==> !level::exceeds(l.segs(), l.target()),
{
    level::lemma_size_of_files(l.segs(), l.target());
}

/// The level that segments are merged into, before and after.
proof fn settle_parts(
    incoming: Seq<Arc<Segment>>,
    levels: Seq<PartitionedLevel>,
    target: u64,
    number: u64,
    after: Seq<PartitionedLevel>,
    gone: Seq<Arc<Segment>>,
) -> (r: (PartitionedLevel, PartitionedLevel))
    requires
        settles(incoming, levels, target, number, after, gone),
    ensures
        after.len() > 0,
        ({
            let (next, grows) = r;
            let n = used(next, incoming).len() as int;
            &&& compaction::merges(incoming, levels, target, number, next, grows)
            &&& n <= gone.len()
            &&& gone.take(n) == used(next, incoming)
            &&& if level::exceeds(grows.segs(), grows.target()) {
                &&& level::rest_of(grows, after[0])
                &&& settles(
                    level::due(grows.segs(), grows.target()),
                    behind(levels),
                    grown(grows.target()),
                    (grows.number() + 1) as u64,
                    after.drop_first(),
                    gone.skip(n),
                )
            } else {
                &&& after[0] == grows
                &&& after.drop_first() == behind(levels)
                &&& n == gone.len()
            }
        }),
{
    choose|next: PartitionedLevel, grows: PartitionedLevel|
        {
            let n = used(next, incoming).len() as int;
            &&& #[trigger] compaction::merges(incoming, levels, target, number, next, grows)
            &&& n <= gone.len()
            &&& gone.take(n) == used(next, incoming)
            &&& if level::exceeds(grows.segs(), grows.target()) {
                &&& level::rest_of(grows, after[0])
                &&& settles(
                    level::due(grows.segs(), grows.target()),
                    behind(levels),
                    grown(grows.target()),
                    (grows.number() + 1) as u64,
                    after.drop_first(),
                    gone.skip(n),
                )
            } else {
                &&& after[0] == grows
                &&& after.drop_first() == behind(levels)
                &&& n == gone.len()
            }
        }
}

/// Every level that a merge has changed fits, and so does the first.
proof fn lemma_settled_fit(
    incoming: Seq<Arc<Segment>>,
    levels: Seq<PartitionedLevel>,
    target: u64,
    number: u64,
    after: Seq<PartitionedLevel>,
    gone: Seq<Arc<Segment>>,
)
    requires
        settles(incoming, levels, target, number, after, gone),
    ensures
        after.len() > 0,
        fits(after[0]),
        forall|j: int|
            0 <= j < after.len() ==> fits(#[trigger] after[j]) || j < levels.len() && after[j]
                == levels[j],
    decreases after.len(),
{
    let (next, grows) = settle_parts(incoming, levels, target, number, after, gone);
    let n = used(next, incoming).len() as int;
    let tail = behind(levels);
    let rest = after.drop_first();
    lemma_fits(grows);
    if level::exceeds(grows.segs(), grows.target()) {
        level::lemma_oldest_go_first(grows, after[0]);
        assert(grows.target() < u64::MAX);
        lemma_settled_fit(
            level::due(grows.segs(), grows.target()),
            tail,
            grown(grows.target()),
            (grows.number() + 1) as u64,
            rest,
            gone.skip(n),
        );
    }
    assert forall|j: int| 0 <= j < after.len() implies fits(#[trigger] after[j]) || j
        < levels.len() && after[j] == levels[j] by {
        if j > 0 {
            let k = j - 1;
            assert(after[j] == rest[k]);
            if k < tail.len() {
                assert(tail[k] == levels[j]);
            }
            if level::exceeds(grows.segs(), grows.target()) {
                assert(fits(rest[k]) || k < tail.len() && rest[k] == tail[k]);
            } else {
                assert(rest == tail);
            }
        }
    }
}

/// The number of levels that fit before the first that does not.
proof fn lemma_first_unfit(levels: Seq<PartitionedLevel>, j: int)
    requires
        0 <= j <= levels.len(),
        forall|i: int| 0 <= i < j ==> fits(#[trigger] levels[i]),
        j < levels.len() ==> !fits(levels[j]),
    ensures
        compaction::first_exceeding(levels) == j,
    decreases j,
{
    if levels.len() > 0 {
        lemma_fits(levels[0]);
    }
    if j > 0 {
        assert(fits(levels[0]));
        let rest = levels.drop_first();
        assert forall|i: int| 0 <= i < j - 1 implies fits(#[trigger] rest[i]) by {
            assert(rest[i] == levels[i + 1]);
        }
        if j < levels.len() {
            assert(rest[j - 1] == levels[j]);
        }
        lemma_first_unfit(rest, j - 1);
    }
}

/// A turn compacts what is to be compacted. Where that is level zero, all of its
/// segments leave it, and the level behind it fits. Else the first level that does
/// not fit does so afterwards: its oldest segments have left it, and the levels
/// before it are as they were. Where all levels fit, they stay as they are. Every
/// level that a turn has changed fits, however far the segments had to go. A turn
/// that fails changes no level.
pub proof fn lemma_turn_compacts(
    before: TurnView,
    target: u64,
    do_compact: bool,
    after: TurnView,
    files: Seq<Seq<char>>,
    goes_on: bool,
    j: int,
)
    requires
        turned(before, target, do_compact, after, files, goes_on),
        0 <= j <= before.levels.len(),
        forall|i: int| 0 <= i < j ==> fits(#[trigger] before.levels[i]),
        j < before.levels.len() ==> !fits(before.levels[j]),
    ensures
        !goes_on ==> after.zero == before.zero && after.levels == before.levels,
        do_compact && goes_on ==> {
            &&& after.zero.len() == 0
            &&& after.levels.len() > 0
            &&& fits(after.levels[0])
        },
        !do_compact ==> after.zero == before.zero,
        !do_compact && goes_on && j < before.levels.len() ==> {
            let was = before.levels[j];
            let now = after.levels[j];
            &&& j + 1 < after.levels.len()
            &&& after.levels.take(j) == before.levels.take(j)
            &&& fits(now)
            &&& fits(after.levels[j + 1])
            &&& now.target() == was.target()
            &&& was.outgoing().len() > 0
            &&& (was.outgoing() + now.segs()).to_multiset() == was.segs().to_multiset()
            &&& forall|i: int, k: int|
                0 <= i < was.outgoing().len() && 0 <= k < now.segs().len() ==> (
                #[trigger] was.outgoing()[i]).numbered() <= (#[trigger] now.segs()[k]).numbered()
        },
        !do_compact && goes_on && j == before.levels.len() ==> after.levels == before.levels,
        forall|k: int|
            0 <= k < after.levels.len() ==> fits(#[trigger] after.levels[k]) || k
                < before.levels.len() && after.levels[k] == before.levels[k],
{
    let ls = before.levels;
    let now = after.levels;
    if do_compact && goes_on {
        let gone = choose|gone: Seq<Arc<Segment>>| #[trigger]
            settles(before.zero, ls, grown(target), 1, now, gone) && swept(
                before.waiting + gone,
                after.waiting,
                after.counts,
                after.zero,
                now,
                files,
            );
        lemma_settled_fit(before.zero, ls, grown(target), 1, now, gone);
    } else if !do_compact && goes_on {
        let (gone, kept) = choose|gone: Seq<Arc<Segment>>, kept: Seq<Arc<Segment>>|
            #![trigger relieved(ls, now, gone), swept(before.waiting, kept, after.counts, after.zero, now, files)]
            relieved(ls, now, gone) && swept(
                before.waiting,
                kept,
                after.counts,
                after.zero,
                now,
                files,
            ) && after.waiting == kept + gone;
        lemma_first_unfit(ls, j);
        if j < ls.len() {
            let tail = ls.skip(j + 1);
            let rest = now.skip(j + 1);
            level::lemma_oldest_go_first(ls[j], now[j]);
            lemma_fits(ls[j]);
            lemma_settled_fit(
                level::due(ls[j].segs(), ls[j].target()),
                tail,
                grown(ls[j].target()),
                (ls[j].number() + 1) as u64,
                rest,
                gone,
            );
            assert(rest[0] == now[j + 1]);
            assert(ls[j].outgoing().len() > 0) by {
                if ls[j].segs().len() == 0 {
                    assert(merge::total_size(ls[j].segs()) == 0);
                }
            }
            assert forall|k: int| 0 <= k < now.len() implies fits(#[trigger] now[k]) || k
                < ls.len() && now[k] == ls[k] by {
                if k < j {
                    assert(now.take(j)[k] == ls.take(j)[k]);
                } else if k > j {
                    assert(rest[k - j - 1] == now[k]);
                    if k < ls.len() {
                        assert(tail[k - j - 1] == ls[k]);
                    }
                }
            }
        }
    }
}

/// The target of a level is ten times that of the one before it, as far as it can
/// be held.
pub open spec fn tenfold(before: u64, target: u64) -> bool {
    before > 0 ==> target == if before * 10 <= u64::MAX {
        before * 10
    } else {
        u64::MAX as int
    }
}

/// The target of each level is ten times that of the one before it, and that of
/// the first is ten times a given one.
pub open spec fn targets_grow(levels: Seq<PartitionedLevel>, before: u64) -> bool {
    &&& levels.len() > 0 ==> tenfold(before, levels[0].target())
    &&& forall|j: int, k: int|
        0 <= j && j + 1 == k && k < levels.len() ==> tenfold(
            (#[trigger] levels[j]).target(),
            (#[trigger] levels[k]).target(),
        )
}

/// Merging leaves the targets growing.
proof fn lemma_settled_targets(
    incoming: Seq<Arc<Segment>>,
    levels: Seq<PartitionedLevel>,
    before: u64,
    number: u64,
    after: Seq<PartitionedLevel>,
    gone: Seq<Arc<Segment>>,
)
    requires
        settles(incoming, levels, grown(before), number, after, gone),
        targets_grow(levels, before),
    ensures
        targets_grow(after, before),
    decreases after.len(),
{
    let (next, grows) = settle_parts(incoming, levels, grown(before), number, after, gone);
    let n = used(next, incoming).len() as int;
    let tail = behind(levels);
    let rest = after.drop_first();
    assert(grows.target() == next.target());
    assert(after[0].target() == next.target());
    assert(tenfold(before, next.target()));
    assert(targets_grow(tail, next.target())) by {
        if tail.len() > 0 {
            assert(tail[0] == levels[1]);
            assert(next == levels[0]);
        }
        assert forall|j: int, k: int| 0 <= j && j + 1 == k && k < tail.len() implies tenfold(
            (#[trigger] tail[j]).target(),
            (#[trigger] tail[k]).target(),
        ) by {
            assert(tail[j] == levels[j + 1]);
            assert(tail[k] == levels[k + 1]);
        }
    }
    if level::exceeds(grows.segs(), grows.target()) {
        lemma_settled_targets(
            level::due(grows.segs(), grows.target()),
            tail,
            grows.target(),
            (grows.number() + 1) as u64,
            rest,
            gone.skip(n),
        );
    }
    assert(targets_grow(rest, next.target()));
    assert forall|j: int, k: int| 0 <= j && j + 1 == k && k < after.len() implies tenfold(
        (#[trigger] after[j]).target(),
        (#[trigger] after[k]).target(),
    ) by {
        assert(after[k] == rest[k - 1]);
        if j > 0 {
            assert(after[j] == rest[j - 1]);
        }
    }
}

/// Each level may be ten times as large as the one before it: a turn leaves it so,
/// whichever levels it begins.
pub proof fn lemma_levels_grow_tenfold(
    before: TurnView,
    target: u64,
    do_compact: bool,
    after: TurnView,
    files: Seq<Seq<char>>,
    goes_on: bool,
)
    requires
        targets_grow(before.levels, target),
        turned(before, target, do_compact, after, files, goes_on),
    ensures
        targets_grow(after.levels, target),
{
    let ls = before.levels;
    let now = after.levels;
    if do_compact && goes_on {
        let gone = choose|gone: Seq<Arc<Segment>>| #[trigger]
            settles(before.zero, ls, grown(target), 1, now, gone) && swept(
                before.waiting + gone,
                after.waiting,
                after.counts,
                after.zero,
                now,
                files,
            );
        lemma_settled_targets(before.zero, ls, target, 1, now, gone);
    } else if !do_compact && goes_on {
        let (gone, kept) = choose|gone: Seq<Arc<Segment>>, kept: Seq<Arc<Segment>>|
            #![trigger relieved(ls, now, gone), swept(before.waiting, kept, after.counts, after.zero, now, files)]
            relieved(ls, now, gone) && swept(
                before.waiting,
                kept,
                after.counts,
                after.zero,
                now,
                files,
            ) && after.waiting == kept + gone;
        let p = compaction::first_exceeding(ls) as int;
        if p < ls.len() {
            let tail = ls.skip(p + 1);
            let rest = now.skip(p + 1);
            assert(targets_grow(tail, ls[p].target())) by {
                if tail.len() > 0 {
                    assert(tail[0] == ls[p + 1]);
                }
                assert forall|j: int, k: int|
                    0 <= j && j + 1 == k && k < tail.len() implies tenfold(
                    (#[trigger] tail[j]).target(),
                    (#[trigger] tail[k]).target(),
                ) by {
                    assert(tail[j] == ls[p + 1 + j]);
                    assert(tail[k] == ls[p + 1 + k]);
                }
            }
            lemma_settled_targets(
                level::due(ls[p].segs(), ls[p].target()),
                tail,
                ls[p].target(),
                (ls[p].number() + 1) as u64,
                rest,
                gone,
            );
            assert forall|j: int| 0 <= j <= p implies (#[trigger] now[j]).target()
                == ls[j].target() by {
                if j < p {
                    assert(now.take(p)[j] == ls.take(p)[j]);
                }
            }
            assert(now[0].target() == ls[0].target());
            assert forall|j: int, k: int|
                0 <= j && j + 1 == k && k < now.len() implies tenfold(
                (#[trigger] now[j]).target(),
                (#[trigger] now[k]).target(),
            ) by {
                if k <= p {
                    assert(tenfold(ls[j].target(), ls[k].target()));
                } else {
                    assert(now[k] == rest[k - p - 1]);
                    if j > p {
                        assert(now[j] == rest[j - p - 1]);
                    }
                }
            }
        }
    }
}

/// A list of segments has what one of two lists has that make it up.
proof fn lemma_concat_contains(a: Seq<Arc<Segment>>, b: Seq<Arc<Segment>>, x: Arc<Segment>)
    ensures
        (a + b).contains(x) <==> a.contains(x) || b.contains(x),
{
    if a.contains(x) {
        let i = choose|i: int| 0 <= i < a.len() && a[i] == x;
        assert((a + b)[i] == x);
    }
    if b.contains(x) {
        let i = choose|i: int| 0 <= i < b.len() && b[i] == x;
        assert((a + b)[a.len() + i] == x);
    }
    if (a + b).contains(x) {
        let i = choose|i: int| 0 <= i < (a + b).len() && (a + b)[i] == x;
        if i < a.len() {
            assert(a[i] == x);
        } else {
            assert(b[i - a.len()] == x);
        }
    }
}

/// A segment that a merge takes out of the levels is among those that were
/// replaced.
proof fn lemma_settled_gone(
    incoming: Seq<Arc<Segment>>,
    levels: Seq<PartitionedLevel>,
    target: u64,
    number: u64,
    after: Seq<PartitionedLevel>,
    gone: Seq<Arc<Segment>>,
    x: Arc<Segment>,
)
    requires
        settles(incoming, levels, target, number, after, gone),
        incoming.contains(x) || has_segment(levels, x),
        !has_segment(after, x),
    ensures
        gone.contains(x),
    decreases after.len(),
{
    let (next, grows) = settle_parts(incoming, levels, target, number, after, gone);
    let n = used(next, incoming).len() as int;
    let tail = behind(levels);
    let rest = after.drop_first();
    let new = choose|new: Seq<Arc<Segment>>| #[trigger] level::replaced(next, incoming, new, grows);
    let stay = level::untouched(next.segs(), incoming);
    lemma_concat_contains(level::touched(next.segs(), incoming), incoming, x);
    level::lemma_touched(next.segs(), incoming);
    lemma_concat_contains(new, stay, x);
    assert(gone =~= gone.take(n) + gone.skip(n));
    lemma_concat_contains(gone.take(n), gone.skip(n), x);
    if !used(next, incoming).contains(x) {
        assert(!incoming.contains(x));
        let j = choose|j: int| 0 <= j < levels.len() && (#[trigger] levels[j]).segs().contains(x);
        if has_segment(rest, x) {
            let k = choose|k: int| 0 <= k < rest.len() && (#[trigger] rest[k]).segs().contains(x);
            assert(after[k + 1] == rest[k]);
            assert(has_segment(after, x));
        }
        let d = level::due(grows.segs(), grows.target());
        if j == 0 {
            assert(next.segs().contains(x));
            assert(stay.contains(x));
            assert((new + stay).contains(x));
            assert(grows.segs().contains(x));
            assert(!after[0].segs().contains(x));
            if level::exceeds(grows.segs(), grows.target()) {
                level::lemma_due(grows.segs(), grows.target());
                assert(d.contains(x));
            }
        } else {
            assert(tail[j - 1] == levels[j]);
            assert(has_segment(tail, x));
        }
        if level::exceeds(grows.segs(), grows.target()) {
            lemma_settled_gone(
                d,
                tail,
                grown(grows.target()),
                (grows.number() + 1) as u64,
                rest,
                gone.skip(n),
                x,
            );
        }
    }
}

/// The files of which segments are removed, and which segments wait on.
proof fn lemma_swept(
    before: Seq<Arc<Segment>>,
    after: Seq<Arc<Segment>>,
    counts: Seq<References>,
    zero: Seq<Arc<Segment>>,
    levels: Seq<PartitionedLevel>,
    files: Seq<Seq<char>>,
)
    requires
        swept(before, after, counts, zero, levels, files),
    ensures
        counts.len() == before.len(),
        forall|i: int| 0 <= i < before.len() ==> (#[trigger] counts[i]).of() == before[i],
        forall|x: Arc<Segment>| #[trigger]
            after.contains(x) <==> exists|i: int|
                0 <= i < before.len() && before[i] == x && (#[trigger] counts[i]).count() != 1,
        forall|name: Seq<char>| #[trigger]
            files.contains(name) <==> !compaction::live(zero, levels, name) && exists|i: int|
                0 <= i < before.len() && before[i].name() == name && (
                #[trigger] counts[i]).count() == 1,
{
    let ns = sstable::references::numbers(counts);
    let all = compaction::unreferenced(before, ns);
    assert forall|i: int| 0 <= i < before.len() implies (#[trigger] counts[i]).of()
        == before[i] by {}
    assert forall|x: Arc<Segment>| #[trigger]
        after.contains(x) <==> exists|i: int|
            0 <= i < before.len() && before[i] == x && (#[trigger] counts[i]).count() != 1 by {
        lemma_kept(before, counts, before.len() as int, x);
        assert(before.take(before.len() as int) =~= before);
    }
    assert forall|name: Seq<char>| #[trigger]
        files.contains(name) <==> !compaction::live(zero, levels, name) && exists|i: int|
            0 <= i < before.len() && before[i].name() == name && (
            #[trigger] counts[i]).count() == 1 by {
        lemma_dropped(before, counts, before.len() as int, name);
        assert(before.take(before.len() as int) =~= before);
        lemma_free(all, zero, levels, name);
    }
}

/// Of the first segments those wait on to which there are other references.
proof fn lemma_kept(segs: Seq<Arc<Segment>>, counts: Seq<References>, n: int, x: Arc<Segment>)
    requires
        0 <= n <= segs.len(),
        counts.len() == segs.len(),
    ensures
        compaction::still_referenced(
            segs.take(n),
            sstable::references::numbers(counts),
        ).contains(x) <==> exists|i: int|
            0 <= i < n && segs[i] == x && (#[trigger] counts[i]).count() != 1,
    decreases n,
{
    let ns = sstable::references::numbers(counts);
    let all = compaction::still_referenced(segs.take(n), ns);
    if n > 0 {
        let rest = compaction::still_referenced(segs.take(n - 1), ns);
        lemma_kept(segs, counts, n - 1, x);
        assert(segs.take(n).drop_last() =~= segs.take(n - 1));
        assert(ns[n - 1] == counts[n - 1].count());
        if counts[n - 1].count() != 1 {
            level::lemma_contains_push(rest, segs[n - 1]);
            assert(all == rest.push(segs[n - 1]));
        } else {
            assert(all == rest);
        }
        if exists|i: int| 0 <= i < n && segs[i] == x && (#[trigger] counts[i]).count() != 1 {
            let i = choose|i: int|
                0 <= i < n && segs[i] == x && (#[trigger] counts[i]).count() != 1;
            if i < n - 1 {
                assert(rest.contains(x));
            }
        }
    }
}

/// Of the first segments the names of those are given to which there is no other
/// reference.
proof fn lemma_dropped(
    segs: Seq<Arc<Segment>>,
    counts: Seq<References>,
    n: int,
    name: Seq<char>,
)
    requires
        0 <= n <= segs.len(),
        counts.len() == segs.len(),
    ensures
        compaction::unreferenced(
            segs.take(n),
            sstable::references::numbers(counts),
        ).contains(name) <==> exists|i: int|
            0 <= i < n && segs[i].name() == name && (#[trigger] counts[i]).count() == 1,
    decreases n,
{
    let ns = sstable::references::numbers(counts);
    let all = compaction::unreferenced(segs.take(n), ns);
    if n > 0 {
        let rest = compaction::unreferenced(segs.take(n - 1), ns);
        lemma_dropped(segs, counts, n - 1, name);
        assert(segs.take(n).drop_last() =~= segs.take(n - 1));
        assert(ns[n - 1] == counts[n - 1].count());
        if counts[n - 1].count() == 1 {
            assert(all == rest.push(segs[n - 1].name()));
            lemma_name_pushed(rest, segs[n - 1].name(), name);
        } else {
            assert(all == rest);
        }
        if exists|i: int| 0 <= i < n && segs[i].name() == name && (
        #[trigger] counts[i]).count() == 1 {
            let i = choose|i: int|
                0 <= i < n && segs[i].name() == name && (#[trigger] counts[i]).count() == 1;
            if i < n - 1 {
                assert(rest.contains(name));
            }
        }
    }
}

/// A list with one more name has that name and the others.
proof fn lemma_name_pushed(names: Seq<Seq<char>>, last: Seq<char>, name: Seq<char>)
    ensures
        names.push(last).contains(name) <==> names.contains(name) || name == last,
{
    if names.contains(name) {
        let i = choose|i: int| 0 <= i < names.len() && names[i] == name;
        assert(names.push(last)[i] == name);
    }
    assert(names.push(last)[names.len() as int] == last);
    if names.push(last).contains(name) && name != last {
        let i = choose|i: int| 0 <= i < names.push(last).len() && names.push(last)[i] == name;
        assert(names[i] == name);
    }
}

/// The names that no segment of the levels has are kept.
proof fn lemma_free(
    all: Seq<Seq<char>>,
    zero: Seq<Arc<Segment>>,
    levels: Seq<PartitionedLevel>,
    name: Seq<char>,
)
    ensures
        compaction::free_names(all, zero, levels).contains(name) <==> all.contains(name)
            && !compaction::live(zero, levels, name),
    decreases all.len(),
{
    if all.len() > 0 {
        let init = all.drop_last();
        lemma_free(init, zero, levels, name);
        assert(all =~= init.push(all.last()));
        lemma_name_pushed(init, all.last(), name);
        lemma_name_pushed(compaction::free_names(init, zero, levels), all.last(), name);
    }
}

/// No segment of the levels has the name.
pub open spec fn unused(view: TurnView, name: Seq<char>) -> bool {
    &&& forall|i: int| 0 <= i < view.zero.len() ==> (#[trigger] view.zero[i]).name() != name
    &&& forall|j: int, i: int|
        0 <= j < view.levels.len() && 0 <= i < view.levels[j].segs().len() ==> (
        #[trigger] view.levels[j].segs()[i]).name() != name
}

/// A name that no segment of the levels has is not live.
proof fn lemma_unused(view: TurnView, name: Seq<char>)
    ensures
        unused(view, name) <==> !compaction::live(view.zero, view.levels, name),
{
    if unused(view, name) {
        if compaction::named_in(view.levels, name) {
            let j = choose|j: int|
                0 <= j < view.levels.len() && compaction::named(
                    (#[trigger] view.levels[j]).segs(),
                    name,
                );
            let i = choose|i: int|
                0 <= i < view.levels[j].segs().len() && (
                #[trigger] view.levels[j].segs()[i]).name() == name;
            assert(view.levels[j].segs()[i].name() != name);
        }
    } else if !compaction::live(view.zero, view.levels, name) {
        assert forall|i: int| 0 <= i < view.zero.len() implies (#[trigger] view.zero[i]).name()
            != name by {
            assert(!compaction::named(view.zero, name));
        }
        assert forall|j: int, i: int|
            0 <= j < view.levels.len() && 0 <= i < view.levels[j].segs().len() implies (
        #[trigger] view.levels[j].segs()[i]).name() != name by {
            assert(!compaction::named(view.levels[j].segs(), name));
        }
    }
}

/// A segment that waited waits on, or its file is removed, unless a segment of the
/// levels has its name.
proof fn lemma_waits(
    before: Seq<Arc<Segment>>,
    after: Seq<Arc<Segment>>,
    counts: Seq<References>,
    view: TurnView,
    files: Seq<Seq<char>>,
    i: int,
)
    requires
        swept(before, after, counts, view.zero, view.levels, files),
        0 <= i < before.len(),
    ensures
        after.contains(before[i]) || files.contains(before[i].name()) || !unused(
            view,
            before[i].name(),
        ),
{
    lemma_swept(before, after, counts, view.zero, view.levels, files);
    lemma_unused(view, before[i].name());
    if counts[i].count() == 1 {
        assert(unused(view, before[i].name()) ==> files.contains(before[i].name()));
    } else {
        assert(after.contains(before[i]));
    }
}

/// A segment that a turn replaces is not forgotten: it waits, or its file is
/// removed, unless a segment of the levels has its name by now. One that waited
/// waits on, or its file is removed likewise. The file of a segment of the levels
/// is never removed.
pub proof fn lemma_replaced_segments_wait(
    before: TurnView,
    target: u64,
    do_compact: bool,
    after: TurnView,
    files: Seq<Seq<char>>,
    goes_on: bool,
    x: Arc<Segment>,
    name: Seq<char>,
)
    requires
        turned(before, target, do_compact, after, files, goes_on),
    ensures
        files.contains(name) ==> unused(after, name),
        before.waiting.contains(x) || (before.zero.contains(x) || has_segment(before.levels, x))
            && !after.zero.contains(x) && !has_segment(after.levels, x)
            ==> after.waiting.contains(x) || files.contains(x.name()) || !unused(after, x.name()),
{
    let ls = before.levels;
    let now = after.levels;
    lemma_unused(after, name);
    lemma_unused(after, x.name());
    if files.contains(name) {
        let i = choose|i: int| 0 <= i < files.len() && files[i] == name;
        assert(!compaction::live(after.zero, now, files[i]));
    }
    if do_compact && goes_on {
        let gone = choose|gone: Seq<Arc<Segment>>| #[trigger]
            settles(before.zero, ls, grown(target), 1, now, gone) && swept(
                before.waiting + gone,
                after.waiting,
                after.counts,
                after.zero,
                now,
                files,
            );
        let all = before.waiting + gone;
        lemma_swept(all, after.waiting, after.counts, after.zero, now, files);
        lemma_concat_contains(before.waiting, gone, x);
        if (before.zero.contains(x) || has_segment(ls, x)) && !has_segment(now, x) {
            lemma_settled_gone(before.zero, ls, grown(target), 1, now, gone, x);
        }
        if all.contains(x) {
            let i = choose|i: int| 0 <= i < all.len() && all[i] == x;
            lemma_waits(all, after.waiting, after.counts, after, files, i);
        }
    } else if !do_compact && goes_on {
        let (gone, kept) = choose|gone: Seq<Arc<Segment>>, kept: Seq<Arc<Segment>>|
            #![trigger relieved(ls, now, gone), swept(before.waiting, kept, after.counts, after.zero, now, files)]
            relieved(ls, now, gone) && swept(
                before.waiting,
                kept,
                after.counts,
                after.zero,
                now,
                files,
            ) && after.waiting == kept + gone;
        lemma_swept(before.waiting, kept, after.counts, after.zero, now, files);
        lemma_concat_contains(kept, gone, x);
        if before.waiting.contains(x) {
            let i = choose|i: int| 0 <= i < before.waiting.len() && before.waiting[i] == x;
            lemma_waits(before.waiting, kept, after.counts, after, files, i);
        } else if has_segment(ls, x) && !has_segment(now, x) {
            let p = compaction::first_exceeding(ls) as int;
            assert(p < ls.len()) by {
                if p >= ls.len() {
                    assert(now == ls);
                }
            }
            let d = level::due(ls[p].segs(), ls[p].target());
            let tail = ls.skip(p + 1);
            let rest = now.skip(p + 1);
            let j = choose|j: int| 0 <= j < ls.len() && (#[trigger] ls[j]).segs().contains(x);
            if j < p {
                assert(now.take(p)[j] == ls.take(p)[j]);
                assert(now[j].segs().contains(x));
                assert(has_segment(now, x));
            } else if j == p {
                level::lemma_due(ls[p].segs(), ls[p].target());
                assert(!now[p].segs().contains(x));
                assert(d.contains(x));
            } else {
                assert(tail[j - p - 1] == ls[j]);
                assert(has_segment(tail, x));
            }
            if has_segment(rest, x) {
                let k = choose|k: int|
                    0 <= k < rest.len() && (#[trigger] rest[k]).segs().contains(x);
                assert(now[k + p + 1] == rest[k]);
                assert(has_segment(now, x));
            }
            lemma_settled_gone(
                d,
                tail,
                grown(ls[p].target()),
                (ls[p].number() + 1) as u64,
                rest,
                gone,
                x,
            );
        }
    } else if !goes_on && !do_compact {
        lemma_swept(before.waiting, after.waiting, after.counts, after.zero, now, files);
        if before.waiting.contains(x) {
            let i = choose|i: int| 0 <= i < before.waiting.len() && before.waiting[i] == x;
            lemma_waits(before.waiting, after.waiting, after.counts, after, files, i);
        }
    }
}

/// A file is removed when nobody reads it any more, and not before. What waits is
/// taken out exactly by the numbers of references that were read for it: a segment
/// to which there is a reference besides that of the compaction waits on, and the
/// file of any other is removed, unless a segment of the levels has its name.
pub proof fn lemma_unread_files_are_removed(
    before: Seq<Arc<Segment>>,
    after: Seq<Arc<Segment>>,
    counts: Seq<References>,
    view: TurnView,
    files: Seq<Seq<char>>,
    x: Arc<Segment>,
    name: Seq<char>,
)
    requires
        swept(before, after, counts, view.zero, view.levels, files),
    ensures
        counts.len() == before.len(),
        forall|i: int| 0 <= i < before.len() ==> (#[trigger] counts[i]).of() == before[i],
        after.contains(x) <==> exists|i: int|
            0 <= i < before.len() && before[i] == x && (#[trigger] counts[i]).count() != 1,
        files.contains(name) <==> unused(view, name) && exists|i: int|
            0 <= i < before.len() && before[i].name() == name && (
            #[trigger] counts[i]).count() == 1,
{
    lemma_unused(view, name);
    lemma_swept(before, after, counts, view.zero, view.levels, files);
}

/// There are numbers for the new segments where segments are merged into a level:
/// what is merged is divided by half the size of a segment, and each segment that
/// stays may divide it once more.
pub open spec fn enough_numbers(next: PartitionedLevel, incoming: Seq<Arc<Segment>>) -> bool {
    next.issued() + 1 + level::file_bytes(level::touched(next.segs(), incoming) + incoming)
        / 33554426 + level::untouched(next.segs(), incoming).len() < 0x1_0000_0000
}

/// A level that is one of the levels, or a new one.
pub open spec fn one_of(levels: Seq<PartitionedLevel>, next: PartitionedLevel) -> bool {
    levels.contains(next) || next.issued() == 0 && next.segs().len() == 0
}

/// All entries of some segments are there already.
pub open spec fn made_of(
    segs: Seq<Arc<Segment>>,
    incoming: Seq<Arc<Segment>>,
    levels: Seq<PartitionedLevel>,
) -> bool {
    forall|e: sstable::EntryView| #[trigger]
        recency::held(segs, e) ==> recency::present(incoming, levels, e)
}

/// No two of the segments reach into each other.
pub open spec fn all_aside(segs: Seq<Arc<Segment>>) -> bool {
    forall|i: int, j: int|
        0 <= i < segs.len() && 0 <= j < segs.len() && i != j ==> level::aside(
            *(#[trigger] segs[i]),
            *(#[trigger] segs[j]),
        )
}

/// There are numbers for what is merged into whichever level: for the incoming
/// segments, and for segments that hold some of what is there and do not reach
/// into each other.
pub open spec fn numbers_suffice(
    incoming: Seq<Arc<Segment>>,
    levels: Seq<PartitionedLevel>,
) -> bool {
    forall|next: PartitionedLevel, segs: Seq<Arc<Segment>>|
        one_of(levels, next) && merge::segments_wf(segs) && made_of(segs, incoming, levels) && (segs
            == incoming || all_aside(segs)) ==> #[trigger] enough_numbers(next, segs)
}

/// What leaves a partitioned level does not reach into each other.
proof fn lemma_due_aside(segs: Seq<Arc<Segment>>, target: u64)
    requires
        all_aside(segs),
    ensures
        all_aside(level::due(segs, target)),
    decreases segs.len(),
{
    let d = level::due(segs, target);
    if segs.len() > 0 && level::exceeds(segs, target) {
        level::lemma_oldest(segs);
        let p = level::oldest(segs);
        let rest = segs.remove(p);
        assert forall|i: int, j: int|
            0 <= i < rest.len() && 0 <= j < rest.len() && i != j implies level::aside(
            *(#[trigger] rest[i]),
            *(#[trigger] rest[j]),
        ) by {
            assert(rest[i] == segs[if i < p { i } else { i + 1 }]);
            assert(rest[j] == segs[if j < p { j } else { j + 1 }]);
        }
        lemma_due_aside(rest, target);
        level::lemma_due(rest, target);
        let dr = level::due(rest, target);
        assert(d == seq![segs[p]] + dr);
        assert forall|k: int| 0 <= k < dr.len() implies level::aside(*segs[p], *(#[trigger] dr[k]))
            && level::aside(*dr[k], *segs[p]) by {
            assert(dr.contains(dr[k]));
            assert(rest.contains(dr[k]));
            let i = choose|i: int| 0 <= i < rest.len() && rest[i] == dr[k];
            let x = if i < p {
                i
            } else {
                i + 1
            };
            assert(segs[x] == dr[k]);
        }
        assert forall|i: int, j: int|
            0 <= i < d.len() && 0 <= j < d.len() && i != j implies level::aside(
            *(#[trigger] d[i]),
            *(#[trigger] d[j]),
        ) by {
            if i > 0 {
                assert(d[i] == dr[i - 1]);
            }
            if j > 0 {
                assert(d[j] == dr[j - 1]);
            }
        }
    }
}

/// The segments of a partitioned level do not reach into each other.
proof fn lemma_partitioned_aside(segs: Seq<Arc<Segment>>)
    requires
        level::partitioned(segs),
    ensures
        all_aside(segs),
{
    assert forall|i: int, j: int|
        0 <= i < segs.len() && 0 <= j < segs.len() && i != j implies level::aside(
        *(#[trigger] segs[i]),
        *(#[trigger] segs[j]),
    ) by {
        if i < j {
            assert(crate::order::key_lt(segs[i].entries().last().key, segs[j].entries()[0].key));
        } else {
            assert(crate::order::key_lt(segs[j].entries().last().key, segs[i].entries()[0].key));
        }
    }
}

/// How many levels can be begun before the target is no limit any more.
spec fn levels_left(target: u64) -> nat
    decreases u64::MAX - target,
{
    if target == u64::MAX {
        0
    } else {
        1 + levels_left(grown(target))
    }
}

/// Ten to a power.
spec fn power(n: nat) -> nat
    decreases n,
{
    if n == 0 {
        1
    } else {
        10 * power((n - 1) as nat)
    }
}

/// There are no more than some twenty levels before the target is no limit any
/// more.
proof fn lemma_levels_left(target: u64, n: nat)
    requires
        target >= power(n),
        n <= 20,
    ensures
        levels_left(target) <= 21 - n,
    decreases 20 - n,
{
    reveal_with_fuel(power, 21);
    assert(power(20) == 100_000_000_000_000_000_000);
    if n < 20 && target < u64::MAX {
        assert(power((n + 1) as nat) == 10 * power(n));
        if target * 10 > u64::MAX {
            assert(levels_left(grown(target)) == 0);
        } else {
            lemma_levels_left(grown(target), (n + 1) as nat);
        }
    }
}

/// There are no more than some twenty levels after any target.
proof fn lemma_few_levels(target: u64)
    ensures
        levels_left(target) <= 22,
{
    if target == 0 {
        lemma_levels_left(10, 0);
    } else {
        lemma_levels_left(target, 0);
    }
}

/// What a level has after a merge was there before.
proof fn lemma_merge_is_made_of(
    next: PartitionedLevel,
    incoming: Seq<Arc<Segment>>,
    grows: PartitionedLevel,
    e: sstable::EntryView,
)
    requires
        level::merged(next, incoming, grows),
        recency::held(grows.segs(), e),
    ensures
        recency::held(next.segs(), e) || recency::held(incoming, e),
{
    let new = choose|new: Seq<Arc<Segment>>| #[trigger] level::replaced(next, incoming, new, grows);
    let stay = level::untouched(next.segs(), incoming);
    let touched = level::touched(next.segs(), incoming);
    let all = touched + incoming;
    level::lemma_touched(next.segs(), incoming);
    recency::lemma_held_same(grows.segs(), new + stay, e);
    recency::lemma_held_concat(new, stay, e);
    if recency::held(stay, e) {
        let (i, x) = choose|i: int, x: int|
            #![trigger stay[i].entries()[x]]
            0 <= i < stay.len() && 0 <= x < stay[i].entries().len() && stay[i].entries()[x] == e;
        assert(stay.contains(stay[i]));
        let k = choose|k: int| 0 <= k < next.segs().len() && next.segs()[k] == stay[i];
        assert(next.segs()[k].entries()[x] == e);
    } else {
        let (i, x) = choose|i: int, x: int|
            #![trigger new[i].entries()[x]]
            0 <= i < new.len() && 0 <= x < new[i].entries().len() && new[i].entries()[x] == e;
        let out = merge::concat(new);
        lemma_concat_has(new, i, x);
        let y = choose|y: int| 0 <= y < out.len() && out[y] == e;
        assert(merge::newest(merge::sources(all), out[y]));
        let runs = merge::sources(all);
        let (j, z) = choose|j: int, z: int|
            0 <= j < runs.len() && 0 <= z < runs[j].len() && #[trigger] runs[j][z] == e;
        assert(runs[j] == all[j].entries());
        assert(all[j].entries()[z] == e);
        recency::lemma_held_concat(touched, incoming, e);
        assert(recency::held(all, e));
        if recency::held(touched, e) {
            let (a, b) = choose|a: int, b: int|
                #![trigger touched[a].entries()[b]]
                0 <= a < touched.len() && 0 <= b < touched[a].entries().len()
                    && touched[a].entries()[b] == e;
            assert(touched.contains(touched[a]));
            let k = choose|k: int| 0 <= k < next.segs().len() && next.segs()[k] == touched[a];
            assert(next.segs()[k].entries()[b] == e);
        }
    }
}

/// The entries of segments one after the other have those of each.
proof fn lemma_concat_has(segs: Seq<Arc<Segment>>, i: int, x: int)
    requires
        0 <= i < segs.len(),
        0 <= x < segs[i].entries().len(),
    ensures
        merge::concat(segs).contains(segs[i].entries()[x]),
    decreases segs.len(),
{
    let init = merge::concat(segs.drop_last());
    let all = merge::concat(segs);
    if i < segs.len() - 1 {
        lemma_concat_has(segs.drop_last(), i, x);
        let k = choose|k: int| 0 <= k < init.len() && init[k] == segs[i].entries()[x];
        assert(all[k] == segs[i].entries()[x]);
    } else {
        assert(all[init.len() + x] == segs[i].entries()[x]);
    }
}

/// A merge does not fail where there are numbers for it.
proof fn lemma_settle_succeeds(
    n: nat,
    incoming: Seq<Arc<Segment>>,
    levels: Seq<PartitionedLevel>,
    target: u64,
    number: u64,
)
    requires
        merge::segments_wf(incoming),
        level::levels_wf(levels),
        in_line(levels, number as int),
        number + levels.len() + 22 < 0x1_0000_0000 || levels.len() == 0 && number + levels_left(
            target,
        ) < 0x1_0000_0000,
        numbers_suffice(incoming, levels),
    ensures
        !out_of_numbers(n, incoming, levels, target, number),
    decreases n,
{
    lemma_few_levels(target);
    assert forall|next: PartitionedLevel| #[trigger]
        compaction::next_level(levels, target, number, next) implies merge::numbers_left(
        next.issued() as nat,
        merge::total_size(used(next, incoming)),
        level::untouched(next.segs(), incoming).len(),
    ) by {
        if levels.len() > 0 {
            assert(levels[0] == next);
        }
        assert(one_of(levels, next));
        assert(made_of(incoming, incoming, levels));
        assert(enough_numbers(next, incoming));
        level::lemma_size_of_files(used(next, incoming), 0);
    }
    if n > 0 {
        assert forall|next: PartitionedLevel, grows: PartitionedLevel|
            #[trigger] compaction::merges(incoming, levels, target, number, next, grows)
                && level::exceeds(grows.segs(), grows.target()) implies !out_of_numbers(
            (n - 1) as nat,
            level::due(grows.segs(), grows.target()),
            behind(levels),
            grown(grows.target()),
            (grows.number() + 1) as u64,
        ) by {
            let tail = behind(levels);
            let d = level::due(grows.segs(), grows.target());
            assert(grows.wf());
            compaction::lemma_divided(grows.segs(), grows.target());
            lemma_partitioned_aside(grows.segs());
            lemma_due_aside(grows.segs(), grows.target());
            if levels.len() > 0 {
                assert(levels[0] == next);
                assert(levels[0].number() == number);
            }
            assert(grows.number() == number);
            assert forall|i: int| 0 <= i < tail.len() implies (#[trigger] tail[i]).wf() && tail[i]
                == levels[i + 1] by {
                assert(tail[i] == levels[i + 1]);
                assert(levels[i + 1].wf());
            }
            assert forall|j: int| 0 <= j < tail.len() implies (#[trigger] tail[j]).number()
                == number + 1 + j by {
                assert(tail[j] == levels[j + 1]);
            }
            assert(numbers_suffice(d, tail)) by {
                assert forall|other: PartitionedLevel, segs: Seq<Arc<Segment>>|
                    one_of(tail, other) && merge::segments_wf(segs) && made_of(segs, d, tail) && (
                    segs == d || all_aside(segs)) implies #[trigger] enough_numbers(other, segs) by {
                    if tail.contains(other) {
                        let i = choose|i: int| 0 <= i < tail.len() && tail[i] == other;
                        assert(levels[i + 1] == other);
                    }
                    assert(one_of(levels, other));
                    assert forall|e: sstable::EntryView| #[trigger]
                        recency::held(segs, e) implies recency::present(incoming, levels, e) by {
                        assert(recency::present(d, tail, e));
                        if recency::held(d, e) {
                            assert(recency::held(grows.segs(), e));
                            lemma_merge_is_made_of(next, incoming, grows, e);
                            if recency::held(next.segs(), e) && levels.len() > 0 {
                                assert(recency::held(levels[0].segs(), e));
                            }
                        } else {
                            let i = choose|i: int|
                                0 <= i < tail.len() && recency::held(
                                    (#[trigger] tail[i]).segs(),
                                    e,
                                );
                            assert(recency::held(levels[i + 1].segs(), e));
                        }
                    }
                    assert(made_of(segs, incoming, levels));
                }
            }
            lemma_few_levels(grown(grows.target()));
            lemma_settle_succeeds(
                (n - 1) as nat,
                d,
                tail,
                grown(grows.target()),
                (grows.number() + 1) as u64,
            );
        }
    }
}

/// A turn goes on wherever there are numbers for the new segments. It does not
/// depend on how many segments or entries there are, or on what they hold.
pub proof fn lemma_turn_goes_on(
    before: TurnView,
    target: u64,
    do_compact: bool,
    after: TurnView,
    files: Seq<Seq<char>>,
    goes_on: bool,
)
    requires
        merge::segments_wf(before.zero),
        level::levels_wf(before.levels),
        in_line(before.levels, 1),
        before.levels.len() + 23 < 0x1_0000_0000,
        numbers_suffice(before.zero, before.levels),
        turned(before, target, do_compact, after, files, goes_on),
    ensures
        goes_on,
{
    let ls = before.levels;
    if !goes_on && do_compact {
        let n = choose|n: nat| #[trigger] out_of_numbers(n, before.zero, ls, grown(target), 1);
        lemma_settle_succeeds(n, before.zero, ls, grown(target), 1);
    } else if !goes_on {
        let p = compaction::first_exceeding(ls) as int;
        let d = level::due(ls[p].segs(), ls[p].target());
        let tail = ls.skip(p + 1);
        let n = choose|n: nat| #[trigger]
            out_of_numbers(
                n,
                d,
                tail,
                grown(ls[p].target()),
                (ls[p].number() + 1) as u64,
            );
        assert(ls[p].wf());
        compaction::lemma_divided(ls[p].segs(), ls[p].target());
        lemma_partitioned_aside(ls[p].segs());
        lemma_due_aside(ls[p].segs(), ls[p].target());
        assert forall|i: int| 0 <= i < tail.len() implies (#[trigger] tail[i]).wf()
            && tail[i].number() == p + 2 + i by {
            assert(tail[i] == ls[p + 1 + i]);
            assert(ls[p + 1 + i].wf());
        }
        assert(numbers_suffice(d, tail)) by {
            assert forall|other: PartitionedLevel, segs: Seq<Arc<Segment>>|
                one_of(tail, other) && merge::segments_wf(segs) && made_of(segs, d, tail) && (segs
                    == d || all_aside(segs)) implies #[trigger] enough_numbers(other, segs) by {
                if tail.contains(other) {
                    let i = choose|i: int| 0 <= i < tail.len() && tail[i] == other;
                    assert(ls[p + 1 + i] == other);
                }
                assert(one_of(ls, other));
                assert forall|e: sstable::EntryView| #[trigger]
                    recency::held(segs, e) implies recency::present(before.zero, ls, e) by {
                    assert(recency::present(d, tail, e));
                    if recency::held(d, e) {
                        assert(recency::held(ls[p].segs(), e));
                    } else {
                        let i = choose|i: int|
                            0 <= i < tail.len() && recency::held((#[trigger] tail[i]).segs(), e);
                        assert(recency::held(ls[p + 1 + i].segs(), e));
                    }
                }
                assert(made_of(segs, before.zero, ls));
            }
        }
        lemma_settle_succeeds(
            n,
            d,
            tail,
            grown(ls[p].target()),
            (ls[p].number() + 1) as u64,
        );
    }
}

} // verus!
