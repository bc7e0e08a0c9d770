//! How much there has to be for the numbers of segments to run out.

use crate::codec;
use crate::order;
use crate::storage_engine::sstable;
use crate::storage_engine::sstable::level;
use crate::storage_engine::sstable::level::segment;
use crate::storage_engine::sstable::level::segment::Segment;
use crate::storage_engine::sstable::level::{merge, PartitionedLevel, SstLevel};
use crate::storage_engine::sstable::recency;
use crate::storage_engine::sstable::turns;
use std::sync::Arc;
use vstd::prelude::*;
use vstd::utf8::*;

verus! {

/// The bytes that the entries of segments take in their files.
pub open spec fn entry_bytes(segs: Seq<Arc<Segment>>) -> nat
    decreases segs.len(),
{
    if segs.len() == 0 {
        0
    } else {
        entry_bytes(segs.drop_last()) + segment::frames(segs.last().entries()).len()
    }
}

/// All segments: the incoming ones and those of the levels.
pub open spec fn everything(
    incoming: Seq<Arc<Segment>>,
    levels: Seq<PartitionedLevel>,
) -> Seq<Arc<Segment>>
    decreases levels.len(),
{
    if levels.len() == 0 {
        incoming
    } else {
        everything(incoming, levels.drop_last()) + levels.last().segs()
    }
}

/// Lists of segments take the bytes of the one and of the other.
proof fn lemma_entry_bytes_concat(a: Seq<Arc<Segment>>, b: Seq<Arc<Segment>>)
    ensures
        entry_bytes(a + b) == entry_bytes(a) + entry_bytes(b),
    decreases b.len(),
{
    if b.len() == 0 {
        assert(a + b =~= a);
    } else {
        lemma_entry_bytes_concat(a, b.drop_last());
        assert((a + b).drop_last() =~= a + b.drop_last());
    }
}

/// The incoming segments and each level are among all segments.
proof fn lemma_everything(
    incoming: Seq<Arc<Segment>>,
    levels: Seq<PartitionedLevel>,
    e: sstable::EntryView,
)
    ensures
        entry_bytes(incoming) <= entry_bytes(everything(incoming, levels)),
        forall|j: int|
            0 <= j < levels.len() ==> entry_bytes((#[trigger] levels[j]).segs()) <= entry_bytes(
                everything(incoming, levels),
            ),
        recency::present(incoming, levels, e) ==> recency::held(everything(incoming, levels), e),
    decreases levels.len(),
{
    if levels.len() > 0 {
        let init = levels.drop_last();
        let n = levels.len() - 1;
        lemma_everything(incoming, init, e);
        lemma_entry_bytes_concat(everything(incoming, init), levels.last().segs());
        recency::lemma_held_concat(everything(incoming, init), levels.last().segs(), e);
        assert forall|j: int| 0 <= j < levels.len() implies entry_bytes(
            (#[trigger] levels[j]).segs(),
        ) <= entry_bytes(everything(incoming, levels)) by {
            if j < n {
                assert(init[j] == levels[j]);
            }
        }
        if recency::held_in(levels, e) {
            let j = choose|j: int|
                0 <= j < levels.len() && recency::held((#[trigger] levels[j]).segs(), e);
            if j < n {
                assert(recency::held(init[j].segs(), e));
                assert(recency::held_in(init, e));
            }
        }
    }
}

/// The bytes of an index.
spec fn room(idx: Seq<segment::IndexEntryView>) -> nat
    decreases idx.len(),
{
    if idx.len() == 0 {
        0
    } else {
        16 + encode_utf8(idx[0].key).len() + room(idx.drop_first())
    }
}

/// An index that is read takes all of the bytes that it is read from.
proof fn lemma_index_takes(b: Seq<u8>)
    ensures
        segment::parse_index(b) matches Some(idx) ==> room(idx) == b.len(),
    decreases b.len(),
{
    if b.len() > 0 && segment::parse_index(b) is Some {
        let idx = segment::parse_index(b).unwrap();
        let k = codec::le_value(b.subrange(0, 8)) as int;
        let rest = segment::parse_index(b.subrange(16 + k, b.len() as int)).unwrap();
        lemma_index_takes(b.subrange(16 + k, b.len() as int));
        decode_utf8_encode_utf8(b.subrange(8, 8 + k));
        assert(idx.drop_first() =~= rest);
    }
}

/// An index that points at entries takes no more bytes than they do.
proof fn lemma_index_fits(
    es: Seq<sstable::EntryView>,
    idx: Seq<segment::IndexEntryView>,
    m: int,
)
    requires
        0 <= m <= es.len(),
        segment::index_points(es, idx),
        idx.len() > 0 ==> idx[0].offset >= segment::offset_of(es, m),
    ensures
        room(idx) + segment::offset_of(es, m) <= segment::frames(es).len(),
    decreases idx.len(),
{
    segment::lemma_block(es, m, es.len() as int);
    if idx.len() > 0 {
        let rest = idx.drop_first();
        assert(segment::pointed(es, idx[0]));
        let p = choose|p: int| segment::points_at(es, idx[0], p);
        segment::lemma_offset_step(es, p);
        assert forall|i: int| 0 <= i < rest.len() implies segment::pointed(
            es,
            #[trigger] rest[i],
        ) by {
            assert(rest[i] == idx[i + 1]);
        }
        assert forall|i: int, j: int| 0 <= i < j < rest.len() implies (#[trigger] rest[i]).offset
            < (#[trigger] rest[j]).offset by {
            assert(rest[i] == idx[i + 1] && rest[j] == idx[j + 1]);
        }
        if rest.len() > 0 {
            assert(rest[0] == idx[1]);
            assert(segment::pointed(es, rest[0]));
            let q = choose|q: int| segment::points_at(es, rest[0], q);
            if q <= p {
                segment::lemma_offset_monotonic(es, q, p);
            }
            segment::lemma_offset_monotonic(es, p + 1, q);
        }
        lemma_index_fits(es, rest, p + 1);
    }
}

/// A file is no more than three times as large as its entries.
proof fn lemma_file_bound(seg: Arc<Segment>)
    requires
        seg.wf(),
    ensures
        seg.contents().len() <= 3 * segment::frames(seg.entries()).len(),
{
    seg.lemma_entries();
    let data = seg.contents();
    let es = seg.entries();
    let n = data.len() as int;
    let end = codec::le_value(data.subrange(n - 12, n - 4)) as int;
    let idx = segment::parse_index(data.subrange(end, n - 12)).unwrap();
    segment::lemma_frames_exact(data.subrange(0, end));
    assert(segment::frames(es).len() == end);
    lemma_index_takes(data.subrange(end, n - 12));
    segment::lemma_block(es, 0, es.len() as int);
    lemma_index_fits(es, idx, 0);
    segment::lemma_offset_step(es, 0);
    segment::lemma_offset_monotonic(es, 1, es.len() as int);
    assert(segment::frame_len(es[0]) >= 24);
}

/// Files are no more than three times as large as their entries.
proof fn lemma_files_bound(segs: Seq<Arc<Segment>>)
    requires
        merge::segments_wf(segs),
    ensures
        merge::total_size(segs) <= 3 * entry_bytes(segs),
    decreases segs.len(),
{
    if segs.len() > 0 {
        let init = segs.drop_last();
        assert forall|i: int| 0 <= i < init.len() implies (#[trigger] init[i]).wf() by {
            assert(init[i] == segs[i]);
        }
        lemma_files_bound(init);
        assert(segs[segs.len() - 1].wf());
        lemma_file_bound(segs.last());
    }
}

/// Of the segments of a level those that are replaced take no more than all, and
/// no more stay than there are.
proof fn lemma_touched_bytes(segs: Seq<Arc<Segment>>, incoming: Seq<Arc<Segment>>)
    ensures
        entry_bytes(level::touched(segs, incoming)) <= entry_bytes(segs),
        level::untouched(segs, incoming).len() <= segs.len(),
    decreases segs.len(),
{
    if segs.len() > 0 {
        let init = segs.drop_last();
        lemma_touched_bytes(init, incoming);
        let t = level::touched(init, incoming);
        assert(t.push(segs.last()).drop_last() =~= t);
    }
}

/// The bytes of runs of entries.
spec fn run_bytes(runs: Seq<Seq<sstable::EntryView>>) -> nat
    decreases runs.len(),
{
    if runs.len() == 0 {
        0
    } else {
        run_bytes(runs.drop_last()) + segment::frames(runs.last()).len()
    }
}

/// Without one of its entries a run takes so many bytes less.
proof fn lemma_run_remove(run: Seq<sstable::EntryView>, x: int)
    requires
        0 <= x < run.len(),
    ensures
        segment::frames(run).len() == segment::frames(run.remove(x)).len() + segment::frame_len(
            run[x],
        ),
{
    let a = run.take(x);
    let b = run.skip(x + 1);
    let one = seq![run[x]];
    assert(one.drop_last() =~= Seq::<sstable::EntryView>::empty());
    assert(segment::frames(one.drop_last()) =~= Seq::<u8>::empty());
    assert(segment::frames(one) =~= segment::frame(run[x]));
    segment::lemma_frame_len(run[x]);
    assert(run =~= (a + one) + b);
    assert(run.remove(x) =~= a + b);
    segment::lemma_frames_concat(a + one, b);
    segment::lemma_frames_concat(a, one);
    segment::lemma_frames_concat(a, b);
}

/// Without an entry of one of them the runs take so many bytes less.
proof fn lemma_runs_remove(runs: Seq<Seq<sstable::EntryView>>, j: int, x: int)
    requires
        0 <= j < runs.len(),
        0 <= x < runs[j].len(),
    ensures
        run_bytes(runs) == run_bytes(runs.update(j, runs[j].remove(x))) + segment::frame_len(
            runs[j][x],
        ),
    decreases runs.len(),
{
    let now = runs.update(j, runs[j].remove(x));
    if j == runs.len() - 1 {
        assert(now.drop_last() =~= runs.drop_last());
        lemma_run_remove(runs[j], x);
    } else {
        lemma_runs_remove(runs.drop_last(), j, x);
        assert(now.drop_last() =~= runs.drop_last().update(j, runs[j].remove(x)));
        assert(now.last() == runs.last());
    }
}

/// No two of the entries have the same key.
spec fn keys_differ(es: Seq<sstable::EntryView>) -> bool {
    forall|i: int, j: int|
        0 <= i < j < es.len() ==> (#[trigger] es[i]).key != (#[trigger] es[j]).key
}

/// Entries with different keys that are all in some runs take no more bytes than
/// those.
proof fn lemma_picked_bytes(
    runs: Seq<Seq<sstable::EntryView>>,
    out: Seq<sstable::EntryView>,
)
    requires
        keys_differ(out),
        forall|i: int| 0 <= i < out.len() ==> merge::occurs(runs, #[trigger] out[i]),
    ensures
        segment::frames(out).len() <= run_bytes(runs),
    decreases out.len(),
{
    if out.len() > 0 {
        let init = out.drop_last();
        let n = out.len() - 1;
        let e = out[n];
        assert(merge::occurs(runs, e));
        let (j, x) = choose|j: int, x: int|
            0 <= j < runs.len() && 0 <= x < runs[j].len() && #[trigger] runs[j][x] == e;
        let left = runs.update(j, runs[j].remove(x));
        assert forall|i: int| 0 <= i < init.len() implies merge::occurs(
            left,
            #[trigger] init[i],
        ) by {
            let f = out[i];
            assert(init[i] == f);
            assert(f.key != e.key);
            assert(merge::occurs(runs, f));
            let (k, y) = choose|k: int, y: int|
                0 <= k < runs.len() && 0 <= y < runs[k].len() && #[trigger] runs[k][y] == f;
            if k == j {
                let z = if y < x {
                    y
                } else {
                    y - 1
                };
                assert(left[j][z] == f);
            } else {
                assert(left[k][y] == f);
            }
        }
        lemma_runs_remove(runs, j, x);
        lemma_picked_bytes(left, init);
        segment::lemma_frame_len(e);
    }
}

/// The entries of segments one after the other take the bytes of each, and each is
/// one of a segment.
proof fn lemma_concat_bytes(segs: Seq<Arc<Segment>>)
    ensures
        segment::frames(merge::concat(segs)).len() == entry_bytes(segs),
        run_bytes(merge::sources(segs)) == entry_bytes(segs),
        forall|i: int|
            0 <= i < merge::concat(segs).len() ==> recency::held(
                segs,
                #[trigger] merge::concat(segs)[i],
            ),
    decreases segs.len(),
{
    if segs.len() > 0 {
        let init = segs.drop_last();
        let last = segs.last().entries();
        lemma_concat_bytes(init);
        segment::lemma_frames_concat(merge::concat(init), last);
        assert(merge::sources(segs).drop_last() =~= merge::sources(init));
        assert(merge::sources(segs).last() == last);
        assert forall|i: int| 0 <= i < merge::concat(segs).len() implies recency::held(
            segs,
            #[trigger] merge::concat(segs)[i],
        ) by {
            let e = merge::concat(segs)[i];
            let n = merge::concat(init).len() as int;
            if i < n {
                assert(merge::concat(init)[i] == e);
                recency::lemma_held_concat(init, seq![segs.last()], e);
                assert(init + seq![segs.last()] =~= segs);
            } else {
                assert(segs[segs.len() - 1].entries()[i - n] == e);
            }
        }
    }
}

/// The entries of segments that do not reach into each other have different keys.
proof fn lemma_aside_keys_differ(segs: Seq<Arc<Segment>>)
    requires
        merge::segments_wf(segs),
        turns::all_aside(segs),
    ensures
        keys_differ(merge::concat(segs)),
    decreases segs.len(),
{
    broadcast use order::group_key_order;

    if segs.len() > 0 {
        let init = segs.drop_last();
        let n = segs.len() - 1;
        let last = segs[n];
        assert forall|i: int| 0 <= i < init.len() implies (#[trigger] init[i]).wf() by {
            assert(init[i] == segs[i]);
        }
        assert forall|i: int, j: int|
            0 <= i < init.len() && 0 <= j < init.len() && i != j implies level::aside(
            *(#[trigger] init[i]),
            *(#[trigger] init[j]),
        ) by {
            assert(init[i] == segs[i] && init[j] == segs[j]);
        }
        lemma_aside_keys_differ(init);
        lemma_concat_bytes(init);
        assert(last.wf());
        last.lemma_entries();
        let a = merge::concat(init);
        let b = last.entries();
        let all = merge::concat(segs);
        assert forall|i: int, j: int| 0 <= i < j < all.len() implies (#[trigger] all[i]).key != (
        #[trigger] all[j]).key by {
            if j < a.len() {
                assert(a[i].key != a[j].key);
            } else if i >= a.len() {
                assert(order::key_lt(b[i - a.len()].key, b[j - a.len()].key));
            } else {
                let e = a[i];
                let f = b[j - a.len()];
                assert(recency::held(init, e));
                let (k, x) = choose|k: int, x: int|
                    #![trigger init[k].entries()[x]]
                    0 <= k < init.len() && 0 <= x < init[k].entries().len()
                        && init[k].entries()[x] == e;
                assert(init[k] == segs[k]);
                assert(level::aside(*segs[k], *segs[n]));
                lemma_between(init[k], x);
                lemma_between(last, j - a.len());
            }
        }
    }
}

/// Every key of a segment lies between its first and its last.
proof fn lemma_between(seg: Arc<Segment>, x: int)
    requires
        seg.wf(),
        0 <= x < seg.entries().len(),
    ensures
        order::key_le(seg.entries()[0].key, seg.entries()[x].key),
        order::key_le(seg.entries()[x].key, seg.entries().last().key),
{
    seg.lemma_entries();
    let n = seg.entries().len() - 1;
    if x > 0 {
        assert(order::key_lt(seg.entries()[0].key, seg.entries()[x].key));
    }
    if x < n {
        assert(order::key_lt(seg.entries()[x].key, seg.entries()[n].key));
    }
}

/// Segments that do not reach into each other and hold some of what is there take
/// no more bytes than that.
proof fn lemma_made_of_bytes(
    segs: Seq<Arc<Segment>>,
    incoming: Seq<Arc<Segment>>,
    levels: Seq<PartitionedLevel>,
)
    requires
        merge::segments_wf(segs),
        turns::all_aside(segs),
        turns::made_of(segs, incoming, levels),
    ensures
        entry_bytes(segs) <= entry_bytes(everything(incoming, levels)),
{
    let all = everything(incoming, levels);
    let out = merge::concat(segs);
    let runs = merge::sources(all);
    lemma_concat_bytes(segs);
    lemma_concat_bytes(all);
    lemma_aside_keys_differ(segs);
    assert forall|i: int| 0 <= i < out.len() implies merge::occurs(runs, #[trigger] out[i]) by {
        let e = out[i];
        assert(recency::held(segs, e));
        assert(recency::present(incoming, levels, e));
        lemma_everything(incoming, levels, e);
        let (j, x) = choose|j: int, x: int|
            #![trigger all[j].entries()[x]]
            0 <= j < all.len() && 0 <= x < all[j].entries().len() && all[j].entries()[x] == e;
        assert(runs[j] == all[j].entries());
        assert(runs[j][x] == e);
    }
    lemma_picked_bytes(runs, out);
}

/// The numbers of segments suffice for any amount of data that is in use: for each
/// level, what it has numbered and what it has stay in it leave room for one number
/// for each few megabytes of what there is.
pub proof fn lemma_numbers_suffice(
    incoming: Seq<Arc<Segment>>,
    levels: Seq<PartitionedLevel>,
)
    requires
        merge::segments_wf(incoming),
        level::levels_wf(levels),
        forall|j: int|
            0 <= j < levels.len() ==> (#[trigger] levels[j]).issued() + levels[j].segs().len() + 1
                + 6 * entry_bytes(everything(incoming, levels)) / 33554426 < 0x1_0000_0000,
        1 + 6 * entry_bytes(everything(incoming, levels)) / 33554426 < 0x1_0000_0000,
    ensures
        turns::numbers_suffice(incoming, levels),
{
    let total = entry_bytes(everything(incoming, levels));
    assert forall|next: PartitionedLevel, segs: Seq<Arc<Segment>>|
        turns::one_of(levels, next) && merge::segments_wf(segs) && turns::made_of(
            segs,
            incoming,
            levels,
        ) && (segs == incoming || turns::all_aside(segs)) implies #[trigger] turns::enough_numbers(
        next,
        segs,
    ) by {
        let e = arbitrary::<sstable::EntryView>();
        lemma_everything(incoming, levels, e);
        if segs != incoming {
            lemma_made_of_bytes(segs, incoming, levels);
        }
        let touched = level::touched(next.segs(), segs);
        let all = touched + segs;
        level::lemma_touched(next.segs(), segs);
        lemma_touched_bytes(next.segs(), segs);
        lemma_entry_bytes_concat(touched, segs);
        if levels.contains(next) {
            let j = choose|j: int| 0 <= j < levels.len() && levels[j] == next;
            assert(levels[j].wf());
            assert(entry_bytes(levels[j].segs()) <= total);
            assert(levels[j].issued() + levels[j].segs().len() + 1 + 6 * total / 33554426
                < 0x1_0000_0000);
        } else {
            assert(touched.len() == 0);
            assert(entry_bytes(touched) == 0);
        }
        assert forall|i: int| 0 <= i < all.len() implies (#[trigger] all[i]).wf() by {
            if i < touched.len() {
                assert(all[i] == touched[i]);
                assert(touched.contains(touched[i]));
                let k = choose|k: int| 0 <= k < next.segs().len() && next.segs()[k] == touched[i];
                assert(next.segs()[k].wf());
            } else {
                assert(all[i] == segs[i - touched.len()]);
            }
        }
        lemma_files_bound(all);
        level::lemma_size_of_files(all, 0);
        assert(level::file_bytes(all) <= 6 * total);
        assert(level::file_bytes(all) / 33554426 <= 6 * total / 33554426) by (nonlinear_arith)
            requires
                level::file_bytes(all) <= 6 * total,
        ;
    }
}

} // verus!
