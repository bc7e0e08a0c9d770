//! Which entry of a key is the latest one, over all levels.

use crate::order;
use crate::storage_engine::sstable;
use crate::storage_engine::sstable::level::{PartitionedLevel, SstLevel};
use crate::storage_engine::sstable::level::merge;
use crate::storage_engine::sstable::level::segment;
use crate::storage_engine::sstable::level::segment::Segment;
use crate::storage_engine::sstable::level;
use std::sync::Arc;
use vstd::prelude::*;

verus! {

/// One of the segments has the entry.
pub open spec fn held(segs: Seq<Arc<Segment>>, e: sstable::EntryView) -> bool {
    exists|i: int, x: int|
        #![trigger segs[i].entries()[x]]
        0 <= i < segs.len() && 0 <= x < segs[i].entries().len() && segs[i].entries()[x] == e
}

/// One of the levels has the entry.
pub open spec fn held_in(levels: Seq<PartitionedLevel>, e: sstable::EntryView) -> bool {
    exists|i: int| 0 <= i < levels.len() && held((#[trigger] levels[i]).segs(), e)
}

/// Of two entries of a key the first is the later one, or they are the same.
pub open spec fn later(e: sstable::EntryView, f: sstable::EntryView) -> bool {
    e.key == f.key ==> e == f || e.sequence_number > f.sequence_number
}

/// Whatever the first segments have of a key is later than what the second
/// ones have of it.
pub open spec fn recent(newer: Seq<Arc<Segment>>, older: Seq<Arc<Segment>>) -> bool {
    forall|e: sstable::EntryView, f: sstable::EntryView|
        #[trigger] held(newer, e) && #[trigger] held(older, f) ==> later(e, f)
}

/// The sequence number of an entry tells it apart from the others of its key.
pub open spec fn distinct(segs: Seq<Arc<Segment>>) -> bool {
    forall|e: sstable::EntryView, f: sstable::EntryView|
        #[trigger] held(segs, e) && #[trigger] held(segs, f) && e.key == f.key
            && e.sequence_number == f.sequence_number ==> e == f
}

/// Each segment is later than those before it.
pub open spec fn ordered_segments(segs: Seq<Arc<Segment>>) -> bool {
    forall|i: int, j: int|
        0 <= i < j < segs.len() ==> recent(seq![#[trigger] segs[j]], seq![#[trigger] segs[i]])
}

/// Each level is later than those behind it.
pub open spec fn ordered_levels(levels: Seq<PartitionedLevel>) -> bool {
    forall|i: int, j: int|
        0 <= i < j < levels.len() ==> recent(
            (#[trigger] levels[i]).segs(),
            (#[trigger] levels[j]).segs(),
        )
}

/// The segments are later than all levels.
pub open spec fn recent_to_all(segs: Seq<Arc<Segment>>, levels: Seq<PartitionedLevel>) -> bool {
    forall|j: int| 0 <= j < levels.len() ==> recent(segs, (#[trigger] levels[j]).segs())
}

/// Segments or levels have the entry.
pub open spec fn present(
    segs: Seq<Arc<Segment>>,
    levels: Seq<PartitionedLevel>,
    e: sstable::EntryView,
) -> bool {
    held(segs, e) || held_in(levels, e)
}

/// The entry is the latest that segments and levels have of its key.
pub open spec fn latest(
    segs: Seq<Arc<Segment>>,
    levels: Seq<PartitionedLevel>,
    e: sstable::EntryView,
) -> bool {
    &&& present(segs, levels, e)
    &&& forall|f: sstable::EntryView| #[trigger] present(segs, levels, f) ==> later(e, f)
}

/// The entry of a key in the first level that has one.
pub open spec fn levels_lookup(levels: Seq<PartitionedLevel>, key: Seq<char>) -> Option<
    sstable::EntryView,
>
    decreases levels.len(),
{
    if levels.len() == 0 {
        None
    } else {
        match levels[0].find(key) {
            Some(e) => Some(e),
            None => levels_lookup(levels.drop_first(), key),
        }
    }
}

/// The entry of a key: that of level zero, else that of the first level that
/// has one.
pub open spec fn table_lookup(
    zero: Seq<Arc<Segment>>,
    levels: Seq<PartitionedLevel>,
    key: Seq<char>,
) -> Option<sstable::EntryView> {
    match level::overlapping_lookup(zero, key) {
        Some(e) => Some(e),
        None => levels_lookup(levels, key),
    }
}

/// A lookup in a segment finds its entry of the key.
pub proof fn lemma_segment_lookup(seg: Arc<Segment>, key: Seq<char>)
    requires
        seg.wf(),
    ensures
        match segment::lookup(seg.entries(), key) {
            Some(e) => e.key == key && held(seq![seg], e),
            None => forall|e: sstable::EntryView| #[trigger] held(seq![seg], e) ==> e.key != key,
        },
        forall|e: sstable::EntryView| #[trigger]
            held(seq![seg], e) ==> segment::lookup(seg.entries(), e.key) == Some(e) && level::covers(
                *seg,
                e.key,
            ),
{
    seg.lemma_entries();
    let es = seg.entries();
    let one = seq![seg];
    if segment::has_key(es, key) {
        let i = choose|i: int| 0 <= i < es.len() && (#[trigger] es[i]).key == key;
        segment::lemma_lookup(es, i);
        assert(one[0].entries()[i] == es[i]);
    }
    assert forall|e: sstable::EntryView| #[trigger] held(one, e) implies segment::lookup(es, e.key)
        == Some(e) && level::covers(*seg, e.key) && segment::has_key(es, e.key) by {
        let (i, x) = choose|i: int, x: int|
            #![trigger one[i].entries()[x]]
            0 <= i < one.len() && 0 <= x < one[i].entries().len() && one[i].entries()[x] == e;
        assert(es[x] == e);
        segment::lemma_lookup(es, x);
        if x > 0 {
            assert(order::key_lt(es[0].key, es[x].key));
        }
        if x < es.len() - 1 {
            assert(order::key_lt(es[x].key, es[es.len() - 1].key));
        }
    }
}

/// Segments have what one of them has.
pub proof fn lemma_held_one(segs: Seq<Arc<Segment>>, e: sstable::EntryView)
    ensures
        held(segs, e) <==> exists|i: int| 0 <= i < segs.len() && held(seq![#[trigger] segs[i]], e),
{
    if held(segs, e) {
        let (i, x) = choose|i: int, x: int|
            #![trigger segs[i].entries()[x]]
            0 <= i < segs.len() && 0 <= x < segs[i].entries().len() && segs[i].entries()[x] == e;
        assert(seq![segs[i]][0].entries()[x] == e);
        assert(held(seq![segs[i]], e));
    }
    if exists|i: int| 0 <= i < segs.len() && held(seq![#[trigger] segs[i]], e) {
        let i = choose|i: int| 0 <= i < segs.len() && held(seq![#[trigger] segs[i]], e);
        let one = seq![segs[i]];
        let (k, x) = choose|k: int, x: int|
            #![trigger one[k].entries()[x]]
            0 <= k < one.len() && 0 <= x < one[k].entries().len() && one[k].entries()[x] == e;
        assert(segs[i].entries()[x] == e);
    }
}

/// A partitioned level finds an entry of a key exactly where one of its
/// segments has it, and there is no other of that key.
pub proof fn lemma_partitioned_lookup(segs: Seq<Arc<Segment>>, key: Seq<char>)
    requires
        merge::segments_wf(segs),
        level::partitioned(segs),
    ensures
        match level::partitioned_lookup(segs, key) {
            Some(e) => e.key == key && held(segs, e),
            None => forall|e: sstable::EntryView| #[trigger] held(segs, e) ==> e.key != key,
        },
        forall|e: sstable::EntryView| #[trigger]
            held(segs, e) && e.key == key ==> level::partitioned_lookup(segs, key) == Some(e),
    decreases segs.len(),
{
    broadcast use order::group_key_order;

    if segs.len() > 0 {
        let rest = segs.drop_first();
        assert forall|i: int| 0 <= i < rest.len() implies (#[trigger] rest[i]).wf() by {
            assert(rest[i] == segs[i + 1]);
        }
        assert forall|i: int, j: int| 0 <= i < j < rest.len() implies order::key_lt(
            (#[trigger] rest[i]).entries().last().key,
            (#[trigger] rest[j]).entries()[0].key,
        ) by {
            assert(rest[i] == segs[i + 1] && rest[j] == segs[j + 1]);
        }
        lemma_partitioned_lookup(rest, key);
        lemma_segment_lookup(segs[0], key);
        assert forall|e: sstable::EntryView| #[trigger] held(segs, e) implies {
            ||| held(seq![segs[0]], e)
            ||| held(rest, e) && order::key_lt(segs[0].entries().last().key, e.key)
        } by {
            lemma_held_one(segs, e);
            let i = choose|i: int| 0 <= i < segs.len() && held(seq![#[trigger] segs[i]], e);
            if i > 0 {
                assert(rest[i - 1] == segs[i]);
                lemma_held_one(rest, e);
                lemma_segment_lookup(segs[i], key);
                assert(level::covers(*segs[i], e.key));
                assert(order::key_lt(segs[0].entries().last().key, segs[i].entries()[0].key));
            }
        }
        if let Some(e) = level::partitioned_lookup(segs, key) {
            if held(seq![segs[0]], e) {
                lemma_held_one(segs, e);
            } else {
                assert(held(rest, e));
                lemma_held_one(rest, e);
                let i = choose|i: int| 0 <= i < rest.len() && held(seq![#[trigger] rest[i]], e);
                assert(segs[i + 1] == rest[i]);
                lemma_held_one(segs, e);
            }
        }
    }
}

/// A lookup in level zero finds the latest entry of the key.
pub proof fn lemma_overlapping_lookup(segs: Seq<Arc<Segment>>, key: Seq<char>)
    requires
        merge::segments_wf(segs),
        ordered_segments(segs),
    ensures
        match level::overlapping_lookup(segs, key) {
            Some(e) => {
                &&& e.key == key
                &&& held(segs, e)
                &&& forall|f: sstable::EntryView| #[trigger] held(segs, f) ==> later(e, f)
            },
            None => forall|e: sstable::EntryView| #[trigger] held(segs, e) ==> e.key != key,
        },
    decreases segs.len(),
{
    if segs.len() > 0 {
        let init = segs.drop_last();
        let n = segs.len() - 1;
        assert forall|i: int| 0 <= i < init.len() implies (#[trigger] init[i]).wf() by {
            assert(init[i] == segs[i]);
        }
        assert forall|i: int, j: int| 0 <= i < j < init.len() implies recent(
            seq![#[trigger] init[j]],
            seq![#[trigger] init[i]],
        ) by {
            assert(init[i] == segs[i] && init[j] == segs[j]);
        }
        lemma_overlapping_lookup(init, key);
        lemma_segment_lookup(segs[n], key);
        assert(segs.last() == segs[n]);
        assert forall|f: sstable::EntryView| #[trigger] held(segs, f) implies held(seq![segs[n]], f)
            || held(init, f) by {
            lemma_held_one(segs, f);
            let i = choose|i: int| 0 <= i < segs.len() && held(seq![#[trigger] segs[i]], f);
            if i < n {
                assert(init[i] == segs[i]);
                lemma_held_one(init, f);
            }
        }
        match segment::lookup(segs[n].entries(), key) {
            Some(e) => {
                lemma_held_one(segs, e);
                assert forall|f: sstable::EntryView| #[trigger] held(segs, f) implies later(
                    e,
                    f,
                ) by {
                    if held(seq![segs[n]], f) {
                        lemma_segment_lookup(segs[n], f.key);
                    } else {
                        lemma_held_one(init, f);
                        let i = choose|i: int|
                            0 <= i < init.len() && held(seq![#[trigger] init[i]], f);
                        assert(init[i] == segs[i]);
                        assert(recent(seq![segs[n]], seq![segs[i]]));
                    }
                }
            },
            None => {
                if let Some(e) = level::overlapping_lookup(init, key) {
                    lemma_held_one(init, e);
                    let i = choose|i: int| 0 <= i < init.len() && held(seq![#[trigger] init[i]], e);
                    assert(init[i] == segs[i]);
                    lemma_held_one(segs, e);
                }
            },
        }
    }
}

/// A lookup through ordered levels finds the latest entry of the key.
pub proof fn lemma_levels_lookup(levels: Seq<PartitionedLevel>, key: Seq<char>)
    requires
        level::levels_wf(levels),
        ordered_levels(levels),
    ensures
        match levels_lookup(levels, key) {
            Some(e) => {
                &&& e.key == key
                &&& held_in(levels, e)
                &&& forall|f: sstable::EntryView| #[trigger] held_in(levels, f) ==> later(e, f)
            },
            None => forall|e: sstable::EntryView| #[trigger] held_in(levels, e) ==> e.key != key,
        },
    decreases levels.len(),
{
    if levels.len() > 0 {
        let rest = levels.drop_first();
        let first = levels[0].segs();
        assert(levels[0].wf());
        assert forall|i: int| 0 <= i < rest.len() implies (#[trigger] rest[i]).wf() by {
            assert(rest[i] == levels[i + 1]);
        }
        assert forall|i: int, j: int| 0 <= i < j < rest.len() implies recent(
            (#[trigger] rest[i]).segs(),
            (#[trigger] rest[j]).segs(),
        ) by {
            assert(rest[i] == levels[i + 1] && rest[j] == levels[j + 1]);
        }
        lemma_levels_lookup(rest, key);
        lemma_partitioned_lookup(first, key);
        assert forall|f: sstable::EntryView| #[trigger] held_in(levels, f) implies held(first, f)
            || held_in(rest, f) by {
            lemma_held_in_first(levels, f);
        }
        match levels[0].find(key) {
            Some(e) => {
                assert forall|f: sstable::EntryView| #[trigger] held_in(levels, f) implies later(
                    e,
                    f,
                ) by {
                    if !held(first, f) {
                        let i = choose|i: int|
                            0 <= i < rest.len() && held((#[trigger] rest[i]).segs(), f);
                        assert(rest[i] == levels[i + 1]);
                        assert(recent(levels[0].segs(), levels[i + 1].segs()));
                    }
                }
            },
            None => {
                if let Some(e) = levels_lookup(rest, key) {
                    lemma_held_in_first(levels, e);
                }
            },
        }
    }
}

/// What levels have, the first of them has or the others have.
pub proof fn lemma_held_in_first(levels: Seq<PartitionedLevel>, e: sstable::EntryView)
    requires
        levels.len() > 0,
    ensures
        held_in(levels, e) <==> held(levels[0].segs(), e) || held_in(levels.drop_first(), e),
{
    let rest = levels.drop_first();
    if held_in(levels, e) {
        let i = choose|i: int| 0 <= i < levels.len() && held((#[trigger] levels[i]).segs(), e);
        if i > 0 {
            assert(rest[i - 1] == levels[i]);
        }
    }
    if held_in(rest, e) {
        let i = choose|i: int| 0 <= i < rest.len() && held((#[trigger] rest[i]).segs(), e);
        assert(levels[i + 1] == rest[i]);
    }
}

/// Reading a key that is in several places gives its latest entry: a lookup
/// finds an entry of the key exactly where there is one, and no entry of the
/// key has a higher sequence number.
pub proof fn lemma_table_lookup(
    zero: Seq<Arc<Segment>>,
    levels: Seq<PartitionedLevel>,
    key: Seq<char>,
)
    requires
        merge::segments_wf(zero),
        level::levels_wf(levels),
        ordered_segments(zero),
        ordered_levels(levels),
        recent_to_all(zero, levels),
    ensures
        match table_lookup(zero, levels, key) {
            Some(e) => e.key == key && latest(zero, levels, e),
            None => forall|e: sstable::EntryView| #[trigger]
                present(zero, levels, e) ==> e.key != key,
        },
{
    lemma_overlapping_lookup(zero, key);
    lemma_levels_lookup(levels, key);
    if let Some(e) = level::overlapping_lookup(zero, key) {
        assert forall|f: sstable::EntryView| #[trigger] present(zero, levels, f) implies later(
            e,
            f,
        ) by {
            if !held(zero, f) {
                let i = choose|i: int| 0 <= i < levels.len() && held((#[trigger] levels[i]).segs(), f);
                assert(recent(zero, levels[i].segs()));
            }
        }
    }
}

/// The latest entry of a key is the one that a lookup finds.
pub proof fn lemma_latest_found(
    zero: Seq<Arc<Segment>>,
    levels: Seq<PartitionedLevel>,
    e: sstable::EntryView,
)
    requires
        merge::segments_wf(zero),
        level::levels_wf(levels),
        ordered_segments(zero),
        ordered_levels(levels),
        recent_to_all(zero, levels),
        latest(zero, levels, e),
    ensures
        table_lookup(zero, levels, e.key) == Some(e),
{
    lemma_table_lookup(zero, levels, e.key);
    let f = table_lookup(zero, levels, e.key).unwrap();
    assert(present(zero, levels, e));
    assert(present(zero, levels, f));
    assert(later(e, f) && later(f, e));
}

/// Lists of segments have what one of the lists has.
pub proof fn lemma_held_concat(a: Seq<Arc<Segment>>, b: Seq<Arc<Segment>>, e: sstable::EntryView)
    ensures
        held(a + b, e) <==> held(a, e) || held(b, e),
{
    let c = a + b;
    if held(c, e) {
        let (i, x) = choose|i: int, x: int|
            #![trigger c[i].entries()[x]]
            0 <= i < c.len() && 0 <= x < c[i].entries().len() && c[i].entries()[x] == e;
        if i < a.len() {
            assert(a[i].entries()[x] == e);
        } else {
            assert(b[i - a.len()].entries()[x] == e);
        }
    }
    if held(a, e) {
        let (i, x) = choose|i: int, x: int|
            #![trigger a[i].entries()[x]]
            0 <= i < a.len() && 0 <= x < a[i].entries().len() && a[i].entries()[x] == e;
        assert(c[i].entries()[x] == e);
    }
    if held(b, e) {
        let (i, x) = choose|i: int, x: int|
            #![trigger b[i].entries()[x]]
            0 <= i < b.len() && 0 <= x < b[i].entries().len() && b[i].entries()[x] == e;
        assert(c[a.len() + i].entries()[x] == e);
    }
}

/// The same segments have the same entries.
pub proof fn lemma_held_same(a: Seq<Arc<Segment>>, b: Seq<Arc<Segment>>, e: sstable::EntryView)
    requires
        level::same_segments(a, b),
        held(a, e),
    ensures
        held(b, e),
{
    let (i, x) = choose|i: int, x: int|
        #![trigger a[i].entries()[x]]
        0 <= i < a.len() && 0 <= x < a[i].entries().len() && a[i].entries()[x] == e;
    assert(a.contains(a[i]));
    let k = choose|k: int| 0 <= k < b.len() && b[k] == a[i];
    assert(b[k].entries()[x] == e);
}

/// Entries one after the other are those of the segments.
proof fn lemma_concat_held(segs: Seq<Arc<Segment>>, e: sstable::EntryView)
    ensures
        merge::concat(segs).contains(e) <==> held(segs, e),
    decreases segs.len(),
{
    if segs.len() > 0 {
        let init = segs.drop_last();
        let last = segs.last();
        lemma_concat_held(init, e);
        assert(segs =~= init + seq![last]);
        lemma_held_concat(init, seq![last], e);
        let c = merge::concat(init);
        let all = merge::concat(segs);
        if all.contains(e) {
            let k = choose|k: int| 0 <= k < all.len() && all[k] == e;
            if k < c.len() {
                assert(c[k] == e);
            } else {
                assert(seq![last][0].entries()[k - c.len()] == e);
            }
        }
        if c.contains(e) {
            let k = choose|k: int| 0 <= k < c.len() && c[k] == e;
            assert(all[k] == e);
        }
        let one = seq![last];
        if held(one, e) {
            let (i, x) = choose|i: int, x: int|
                #![trigger one[i].entries()[x]]
                0 <= i < one.len() && 0 <= x < one[i].entries().len() && one[i].entries()[x] == e;
            assert(all[c.len() + x] == e);
        }
    }
}

/// The entry is the latest that the segments have of its key.
pub open spec fn latest_of(segs: Seq<Arc<Segment>>, e: sstable::EntryView) -> bool {
    held(segs, e) && forall|f: sstable::EntryView| #[trigger] held(segs, f) ==> later(e, f)
}

/// What a level has, it has in the segments that the incoming ones overlap or
/// in those that stay.
proof fn lemma_held_divided(
    segs: Seq<Arc<Segment>>,
    incoming: Seq<Arc<Segment>>,
    e: sstable::EntryView,
)
    ensures
        held(segs, e) <==> held(level::touched(segs, incoming), e) || held(
            level::untouched(segs, incoming),
            e,
        ),
{
    let t = level::touched(segs, incoming);
    let u = level::untouched(segs, incoming);
    level::lemma_touched(segs, incoming);
    if held(segs, e) {
        let (i, x) = choose|i: int, x: int|
            #![trigger segs[i].entries()[x]]
            0 <= i < segs.len() && 0 <= x < segs[i].entries().len() && segs[i].entries()[x] == e;
        assert(segs.contains(segs[i]));
        assert(t.contains(segs[i]) || u.contains(segs[i]));
        if t.contains(segs[i]) {
            let k = choose|k: int| 0 <= k < t.len() && t[k] == segs[i];
            assert(t[k].entries()[x] == e);
        } else {
            let k = choose|k: int| 0 <= k < u.len() && u[k] == segs[i];
            assert(u[k].entries()[x] == e);
        }
    }
    if held(t, e) {
        let (i, x) = choose|i: int, x: int|
            #![trigger t[i].entries()[x]]
            0 <= i < t.len() && 0 <= x < t[i].entries().len() && t[i].entries()[x] == e;
        assert(t.contains(t[i]));
        let k = choose|k: int| 0 <= k < segs.len() && segs[k] == t[i];
        assert(segs[k].entries()[x] == e);
    }
    if held(u, e) {
        let (i, x) = choose|i: int, x: int|
            #![trigger u[i].entries()[x]]
            0 <= i < u.len() && 0 <= x < u[i].entries().len() && u[i].entries()[x] == e;
        assert(u.contains(u[i]));
        let k = choose|k: int| 0 <= k < segs.len() && segs[k] == u[i];
        assert(segs[k].entries()[x] == e);
    }
}

/// Segments that do not overlap have no key in common.
proof fn lemma_apart_keys(
    a: Seq<Arc<Segment>>,
    b: Seq<Arc<Segment>>,
    e: sstable::EntryView,
    f: sstable::EntryView,
)
    requires
        merge::segments_wf(a),
        merge::segments_wf(b),
        level::apart(a, b),
        held(a, e),
        held(b, f),
    ensures
        e.key != f.key,
{
    broadcast use order::group_key_order;

    lemma_held_one(a, e);
    lemma_held_one(b, f);
    let i = choose|i: int| 0 <= i < a.len() && held(seq![#[trigger] a[i]], e);
    let j = choose|j: int| 0 <= j < b.len() && held(seq![#[trigger] b[j]], f);
    lemma_segment_lookup(a[i], e.key);
    lemma_segment_lookup(b[j], f.key);
    assert(level::covers(*a[i], e.key));
    assert(level::covers(*b[j], f.key));
    assert(!level::overlapping(*a[i], *b[j]));
}

/// The runs of a merge have the entries of the segments.
proof fn lemma_occurs(segs: Seq<Arc<Segment>>, e: sstable::EntryView)
    ensures
        merge::occurs(merge::sources(segs), e) <==> held(segs, e),
{
    let runs = merge::sources(segs);
    if merge::occurs(runs, e) {
        let (j, i) = choose|j: int, i: int|
            0 <= j < runs.len() && 0 <= i < runs[j].len() && #[trigger] runs[j][i] == e;
        assert(segs[j].entries()[i] == e);
    }
    if held(segs, e) {
        let (i, x) = choose|i: int, x: int|
            #![trigger segs[i].entries()[x]]
            0 <= i < segs.len() && 0 <= x < segs[i].entries().len() && segs[i].entries()[x] == e;
        assert(runs[i][x] == e);
    }
}

/// Merging loses and invents nothing: after a merge a level has of every key
/// the latest entry that it or the incoming segments had, and no other.
pub proof fn lemma_merge_entries(
    before: PartitionedLevel,
    incoming: Seq<Arc<Segment>>,
    after: PartitionedLevel,
    e: sstable::EntryView,
)
    requires
        before.wf(),
        merge::segments_wf(incoming),
        level::merged(before, incoming, after),
        distinct(before.segs() + incoming),
    ensures
        held(after.segs(), e) <==> latest_of(before.segs() + incoming, e),
{
    let segs = before.segs();
    let both = segs + incoming;
    let t = level::touched(segs, incoming);
    let stay = level::untouched(segs, incoming);
    let all = t + incoming;
    let runs = merge::sources(all);
    let new = choose|new: Seq<Arc<Segment>>| #[trigger]
        level::replaced(before, incoming, new, after);
    let out = merge::concat(new);
    level::lemma_stay_apart(segs, incoming);
    assert forall|x: int| 0 <= x < all.len() implies (#[trigger] all[x]).wf() by {
        if x < t.len() {
            assert(all[x] == t[x]);
        } else {
            assert(all[x] == incoming[x - t.len()]);
        }
    }
    assert forall|f: sstable::EntryView| #[trigger] held(both, f) <==> held(all, f) || held(
        stay,
        f,
    ) by {
        lemma_held_concat(segs, incoming, f);
        lemma_held_concat(t, incoming, f);
        lemma_held_divided(segs, incoming, f);
    }
    lemma_held_concat(new, stay, e);
    lemma_concat_held(new, e);
    if held(after.segs(), e) {
        lemma_held_same(after.segs(), new + stay, e);
        if held(stay, e) {
            assert forall|f: sstable::EntryView| #[trigger] held(both, f) implies later(e, f) by {
                if f.key == e.key {
                    if held(all, f) {
                        lemma_apart_keys(all, stay, f, e);
                    } else {
                        lemma_partitioned_lookup(stay, e.key);
                    }
                }
            }
        } else {
            let k = choose|k: int| 0 <= k < out.len() && out[k] == e;
            assert(merge::newest(runs, out[k]));
            lemma_occurs(all, e);
            assert forall|f: sstable::EntryView| #[trigger] held(both, f) implies later(e, f) by {
                if f.key == e.key {
                    if held(stay, f) {
                        lemma_apart_keys(all, stay, e, f);
                    } else {
                        let (i, x) = choose|i: int, x: int|
                            #![trigger all[i].entries()[x]]
                            0 <= i < all.len() && 0 <= x < all[i].entries().len()
                                && all[i].entries()[x] == f;
                        assert(runs[i][x] == f);
                        assert(held(both, e));
                    }
                }
            }
        }
    }
    if latest_of(both, e) {
        if held(all, e) {
            let (i, x) = choose|i: int, x: int|
                #![trigger all[i].entries()[x]]
                0 <= i < all.len() && 0 <= x < all[i].entries().len() && all[i].entries()[x] == e;
            assert(runs[i][x] == e);
            assert(segment::has_key(out, runs[i][x].key));
            let k = choose|k: int| 0 <= k < out.len() && (#[trigger] out[k]).key == e.key;
            assert(merge::newest(runs, out[k]));
            lemma_occurs(all, out[k]);
            assert(held(both, out[k]));
            assert(later(e, out[k]));
            assert(out[k] == e);
            assert(out.contains(e));
        }
        assert(level::same_segments(new + stay, after.segs()));
        lemma_held_same(new + stay, after.segs(), e);
    }
}

} // verus!
