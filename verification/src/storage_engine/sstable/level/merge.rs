//! Merging the entries of segments into new segments.

use crate::order::{key_equal, key_less};
use crate::order;
use crate::storage_engine::sstable::SsTableEntry;
use crate::storage_engine::sstable;
use crate::storage_engine::sstable::level::segment::{Segment, SegmentReadBuf, SegmentWriter};
use crate::storage_engine::sstable::level::segment;
use std::collections::VecDeque;
use std::sync::Arc;
use vstd::prelude::*;

verus! {

/// The entries that each buffer holds.
pub open spec fn pendings(bufs: Seq<SegmentReadBuf>) -> Seq<Seq<sstable::EntryView>> {
    bufs.map_values(|b: SegmentReadBuf| b.pending())
}

/// The smallest of the last keys of the runs of entries, where one of them has
/// an entry. Up to it no run can be missing an entry that was not read yet.
pub open spec fn limit(ps: Seq<Seq<sstable::EntryView>>) -> Option<Seq<char>>
    decreases ps.len(),
{
    if ps.len() == 0 {
        None
    } else {
        let rest = limit(ps.drop_last());
        if ps.last().len() == 0 {
            rest
        } else {
            let key = ps.last().last().key;
            match rest {
                Some(k) => if order::key_lt(key, k) {
                    Some(key)
                } else {
                    rest
                },
                None => Some(key),
            }
        }
    }
}

/// The number of entries at the start of `es` whose keys do not come after
/// `k`.
pub open spec fn upto(es: Seq<sstable::EntryView>, k: Seq<char>) -> nat
    decreases es.len(),
{
    if es.len() == 0 || !order::key_le(es[0].key, k) {
        0
    } else {
        1 + upto(es.drop_first(), k)
    }
}

/// The entries of each run whose keys do not come after `k`.
pub open spec fn heads(ps: Seq<Seq<sstable::EntryView>>, k: Seq<char>) -> Seq<
    Seq<sstable::EntryView>,
> {
    Seq::new(ps.len(), |j: int| ps[j].take(upto(ps[j], k) as int))
}

/// The entry `e` is in one of the runs, and no entry of its key in any run has
/// a higher sequence number.
pub open spec fn newest(runs: Seq<Seq<sstable::EntryView>>, e: sstable::EntryView) -> bool {
    &&& occurs(runs, e)
    &&& forall|j: int, i: int|
        0 <= j < runs.len() && 0 <= i < runs[j].len() && (#[trigger] runs[j][i]).key == e.key
            ==> runs[j][i].sequence_number <= e.sequence_number
}

/// The entry `e` is in one of the runs.
pub open spec fn occurs(runs: Seq<Seq<sstable::EntryView>>, e: sstable::EntryView) -> bool {
    exists|j: int, i: int| 0 <= j < runs.len() && 0 <= i < runs[j].len() && #[trigger] runs[j][i] == e
}

/// The entries `out` are a merge of the runs: every key of a run occurs in
/// them, once and in order, with an entry of the highest sequence number.
pub open spec fn is_merge(
    runs: Seq<Seq<sstable::EntryView>>,
    out: Seq<sstable::EntryView>,
) -> bool {
    &&& segment::sorted(out)
    &&& forall|i: int| 0 <= i < out.len() ==> newest(runs, #[trigger] out[i])
    &&& forall|j: int, i: int|
        0 <= j < runs.len() && 0 <= i < runs[j].len() ==> segment::has_key(
            out,
            (#[trigger] runs[j][i]).key,
        )
}

/// The bytes of a buffer's segment that were not taken out yet.
pub open spec fn buf_left(b: SegmentReadBuf) -> int {
    segment::frames(b.source()).len() - segment::offset_of(
        b.source(),
        b.read() - b.pending().len(),
    )
}

/// The bytes of all segments that were not taken out yet.
pub open spec fn left(bufs: Seq<SegmentReadBuf>) -> int
    decreases bufs.len(),
{
    if bufs.len() == 0 {
        0
    } else {
        left(bufs.drop_last()) + buf_left(bufs.last())
    }
}

/// Two states of a buffer on the same segment, without reading in between.
pub open spec fn same_reader(a: SegmentReadBuf, b: SegmentReadBuf) -> bool {
    a.source() == b.source() && a.read() == b.read() && a.room() == b.room()
}

/// Every buffer is well formed.
pub open spec fn all_wf(bufs: Seq<SegmentReadBuf>) -> bool {
    forall|j: int| 0 <= j < bufs.len() ==> (#[trigger] bufs[j]).wf()
}

/// What the runs are merged up to: the smallest of their last keys, where one of
/// them has an entry.
pub proof fn lemma_limit(ps: Seq<Seq<sstable::EntryView>>)
    ensures
        limit(ps) is None ==> forall|j: int| 0 <= j < ps.len() ==> (#[trigger] ps[j]).len() == 0,
        limit(ps) matches Some(k) ==> {
            &&& forall|j: int|
                0 <= j < ps.len() && (#[trigger] ps[j]).len() > 0 ==> order::key_le(
                    k,
                    ps[j].last().key,
                )
            &&& exists|j: int|
                0 <= j < ps.len() && (#[trigger] ps[j]).len() > 0 && ps[j].last().key == k
        },
    decreases ps.len(),
{
    broadcast use order::group_key_order;

    if ps.len() > 0 {
        let init = ps.drop_last();
        lemma_limit(init);
        if let Some(k) = limit(ps) {
            if ps.last().len() > 0 && ps.last().last().key == k {
                assert(ps[ps.len() - 1].last().key == k);
            } else {
                let j = choose|j: int|
                    0 <= j < init.len() && (#[trigger] init[j]).len() > 0 && init[j].last().key
                        == k;
                assert(ps[j] == init[j]);
            }
            assert forall|j: int| 0 <= j < ps.len() && (#[trigger] ps[j]).len() > 0 implies
                order::key_le(k, ps[j].last().key) by {
                if j < init.len() {
                    assert(init[j] == ps[j]);
                }
                if ps.last().len() > 0 && limit(init) is Some {
                    order::lemma_key_lt_total(ps.last().last().key, limit(init).unwrap());
                }
            }
        } else {
            assert forall|j: int| 0 <= j < ps.len() implies (#[trigger] ps[j]).len() == 0 by {
                if j < init.len() {
                    assert(init[j] == ps[j]);
                }
            }
        }
    }
}

/// In sorted entries the keys up to `k` are those of the first entries.
pub proof fn lemma_upto(es: Seq<sstable::EntryView>, k: Seq<char>)
    requires
        segment::sorted(es),
    ensures
        upto(es, k) <= es.len(),
        forall|i: int| 0 <= i < upto(es, k) ==> order::key_le((#[trigger] es[i]).key, k),
        forall|i: int| upto(es, k) <= i < es.len() ==> order::key_lt(k, (#[trigger] es[i]).key),
    decreases es.len(),
{
    broadcast use order::group_key_order;

    if es.len() > 0 {
        if order::key_le(es[0].key, k) {
            let rest = es.drop_first();
            assert(segment::sorted(rest)) by {
                assert forall|i: int, j: int| 0 <= i < j < rest.len() implies order::key_lt(
                    (#[trigger] rest[i]).key,
                    (#[trigger] rest[j]).key,
                ) by {
                    assert(rest[i] == es[i + 1] && rest[j] == es[j + 1]);
                }
            }
            lemma_upto(rest, k);
            assert forall|i: int| 0 <= i < upto(es, k) implies order::key_le(
                (#[trigger] es[i]).key,
                k,
            ) by {
                if i > 0 {
                    assert(es[i] == rest[i - 1]);
                }
            }
            assert forall|i: int| upto(es, k) <= i < es.len() implies order::key_lt(
                k,
                (#[trigger] es[i]).key,
            ) by {
                assert(es[i] == rest[i - 1]);
            }
        } else {
            order::lemma_key_lt_total(k, es[0].key);
            assert forall|i: int| 0 <= i < es.len() implies order::key_lt(
                k,
                (#[trigger] es[i]).key,
            ) by {
                if i > 0 {
                    assert(order::key_lt(es[0].key, es[i].key));
                }
            }
        }
    }
}

/// The number of the first entries up to a key, seen from outside.
proof fn lemma_upto_is(es: Seq<sstable::EntryView>, k: Seq<char>, c: int)
    requires
        segment::sorted(es),
        0 <= c <= es.len(),
        c > 0 ==> order::key_le(es[c - 1].key, k),
        c < es.len() ==> order::key_lt(k, es[c].key),
    ensures
        upto(es, k) == c,
{
    broadcast use order::group_key_order;

    lemma_upto(es, k);
    let u = upto(es, k) as int;
    if u < c {
        assert(order::key_lt(k, es[c - 1].key));
    } else if c < u {
        assert(order::key_le(es[c].key, k));
    }
}

/// What a buffer holds is in order.
proof fn lemma_pending_sorted(b: SegmentReadBuf)
    requires
        b.wf(),
    ensures
        segment::sorted(b.pending()),
{
    b.lemma_pending();
    let es = b.source();
    let p = b.pending();
    let first = b.read() - p.len();
    assert forall|i: int, j: int| 0 <= i < j < p.len() implies order::key_lt(
        (#[trigger] p[i]).key,
        (#[trigger] p[j]).key,
    ) by {
        assert(p[i] == es[first + i] && p[j] == es[first + j]);
    }
}

/// Taking out of one buffer, and no less out of the others.
proof fn lemma_left_shrinks(now: Seq<SegmentReadBuf>, before: Seq<SegmentReadBuf>, b: int, d: int)
    requires
        now.len() == before.len(),
        forall|j: int| 0 <= j < now.len() ==> buf_left(#[trigger] now[j]) <= buf_left(before[j]),
        0 <= b < now.len() ==> buf_left(now[b]) + d <= buf_left(before[b]),
    ensures
        left(now) <= left(before),
        0 <= b < now.len() ==> left(now) + d <= left(before),
    decreases now.len(),
{
    if now.len() > 0 {
        let m = now.drop_last();
        let n = before.drop_last();
        assert forall|j: int| 0 <= j < m.len() implies buf_left(#[trigger] m[j]) <= buf_left(
            n[j],
        ) by {
            assert(m[j] == now[j] && n[j] == before[j]);
        }
        if 0 <= b < m.len() {
            assert(m[b] == now[b] && n[b] == before[b]);
        }
        assert(now.last() == now[now.len() - 1]);
        lemma_left_shrinks(m, n, b, d);
    }
}

/// Taking the first entry out of a buffer.
proof fn lemma_pop_left(now: SegmentReadBuf, before: SegmentReadBuf)
    requires
        before.wf(),
        now.wf(),
        same_reader(now, before),
        before.pending().len() > 0,
        now.pending() == before.pending().drop_first(),
    ensures
        buf_left(now) + segment::frame_len(before.pending()[0]) == buf_left(before),
{
    before.lemma_pending();
    let first = before.read() - before.pending().len();
    assert(before.pending()[0] == before.source()[first]);
    segment::lemma_offset_step(before.source(), first);
}

/// The first key among the buffers that does not come after `limit`, and of
/// the buffers that start with it one with the highest sequence number.
fn min_front(bufs: &Vec<SegmentReadBuf>, limit: &String) -> (r: Option<usize>)
    requires
        all_wf(bufs@),
    ensures
        r is None ==> forall|j: int|
            0 <= j < bufs@.len() && (#[trigger] bufs@[j]).pending().len() > 0 ==> order::key_lt(
                limit@,
                bufs@[j].pending()[0].key,
            ),
        r matches Some(b) ==> {
            &&& b < bufs@.len()
            &&& bufs@[b as int].pending().len() > 0
            &&& order::key_le(bufs@[b as int].pending()[0].key, limit@)
            &&& forall|j: int|
                0 <= j < bufs@.len() && (#[trigger] bufs@[j]).pending().len() > 0 ==> {
                    let best = bufs@[b as int].pending()[0];
                    let e = bufs@[j].pending()[0];
                    &&& order::key_le(best.key, e.key)
                    &&& e.key == best.key ==> e.sequence_number <= best.sequence_number
                }
        },
{
    let n: usize = bufs.len();
    let mut best: Option<usize> = None;
    let mut j: usize = 0;
    while j < n
        invariant
            j <= n == bufs@.len(),
            all_wf(bufs@),
            best is None ==> forall|i: int|
                0 <= i < j && (#[trigger] bufs@[i]).pending().len() > 0 ==> order::key_lt(
                    limit@,
                    bufs@[i].pending()[0].key,
                ),
            best matches Some(b) ==> {
                &&& b < j
                &&& bufs@[b as int].pending().len() > 0
                &&& order::key_le(bufs@[b as int].pending()[0].key, limit@)
                &&& forall|i: int|
                    0 <= i < j && (#[trigger] bufs@[i]).pending().len() > 0 ==> {
                        let x = bufs@[b as int].pending()[0];
                        let e = bufs@[i].pending()[0];
                        &&& order::key_le(x.key, e.key)
                        &&& e.key == x.key ==> e.sequence_number <= x.sequence_number
                    }
            },
        decreases n - j,
    {
        broadcast use order::group_key_order;

        let front: Option<&SsTableEntry> = bufs[j].front();
        if let Some(e) = front {
            let replace: bool = match best {
                Some(b) => match bufs[b].front() {
                    Some(x) => {
                        proof {
                            order::lemma_key_lt_total(e.key@, x.key@);
                        }
                        key_less(&e.key, &x.key) || (key_equal(&e.key, &x.key) && e.sequence_number
                            > x.sequence_number)
                    },
                    None => false,
                },
                None => {
                    proof {
                        order::lemma_key_lt_total(limit@, e.key@);
                    }
                    !key_less(limit, &e.key)
                },
            };
            if replace {
                best = Some(j);
            }
        }
        j += 1;
    }
    best
}

/// Takes the first entry out of every buffer that starts with `key`.
fn pop_equal(bufs: &mut Vec<SegmentReadBuf>, key: &String, b: usize)
    requires
        all_wf(old(bufs)@),
        b < old(bufs)@.len(),
        old(bufs)@[b as int].pending().len() > 0,
        old(bufs)@[b as int].pending()[0].key == key@,
    ensures
        final(bufs)@.len() == old(bufs)@.len(),
        all_wf(final(bufs)@),
        forall|j: int|
            0 <= j < old(bufs)@.len() ==> same_reader(
                #[trigger] final(bufs)@[j],
                old(bufs)@[j],
            ) && final(bufs)@[j].pending() == (if old(bufs)@[j].pending().len() > 0 && old(bufs)@[j].pending()[0].key == key@ {
                old(bufs)@[j].pending().drop_first()
            } else {
                old(bufs)@[j].pending()
            }),
        left(final(bufs)@) + segment::frame_len(old(bufs)@[b as int].pending()[0]) <= left(
            old(bufs)@,
        ),
{
    let n: usize = bufs.len();
    let ghost before = bufs@;
    let mut j: usize = 0;
    while j < n
        invariant
            j <= n == bufs@.len(),
            n == before.len(),
            all_wf(before),
            all_wf(bufs@),
            forall|i: int| j <= i < n ==> #[trigger] bufs@[i] == before[i],
            forall|i: int|
                0 <= i < j ==> same_reader(#[trigger] bufs@[i], before[i]) && bufs@[i].pending()
                    == (if before[i].pending().len() > 0 && before[i].pending()[0].key == key@ {
                    before[i].pending().drop_first()
                } else {
                    before[i].pending()
                }),
        decreases n - j,
    {
        let equal: bool = match bufs[j].front() {
            Some(e) => key_equal(&e.key, key),
            None => false,
        };
        if equal {
            let _ = bufs[j].pop_front();
        }
        j += 1;
    }
    proof {
        assert forall|i: int| 0 <= i < n implies buf_left(#[trigger] bufs@[i]) <= buf_left(
            before[i],
        ) by {
            if before[i].pending().len() > 0 && before[i].pending()[0].key == key@ {
                lemma_pop_left(bufs@[i], before[i]);
            }
        }
        lemma_pop_left(bufs@[b as int], before[b as int]);
        lemma_left_shrinks(
            bufs@,
            before,
            b as int,
            segment::frame_len(before[b as int].pending()[0]) as int,
        );
    }
}

/// The entries that were taken out of the runs so far.
spec fn taken(ps: Seq<Seq<sstable::EntryView>>, c: Seq<int>) -> Seq<Seq<sstable::EntryView>> {
    Seq::new(ps.len(), |j: int| ps[j].take(c[j]))
}

/// The state of a merge of sorted runs: `c` of their first entries went into
/// `out`, and what is left comes after it.
spec fn merging(
    ps: Seq<Seq<sstable::EntryView>>,
    c: Seq<int>,
    out: Seq<sstable::EntryView>,
) -> bool {
    &&& c.len() == ps.len()
    &&& forall|j: int| 0 <= j < ps.len() ==> segment::sorted(#[trigger] ps[j])
    &&& forall|j: int| 0 <= j < ps.len() ==> 0 <= #[trigger] c[j] <= ps[j].len()
    &&& is_merge(taken(ps, c), out)
    &&& forall|j: int, i: int|
        0 <= j < ps.len() && c[j] < ps[j].len() && 0 <= i < out.len() ==> order::key_lt(
            (#[trigger] out[i]).key,
            (#[trigger] ps[j])[c[j]].key,
        )
}

/// One step of a merge: of the runs that start with the smallest key, the
/// entry with the highest sequence number goes out.
proof fn lemma_merge_step(
    ps: Seq<Seq<sstable::EntryView>>,
    c: Seq<int>,
    d: Seq<int>,
    out: Seq<sstable::EntryView>,
    b: int,
)
    requires
        merging(ps, c, out),
        d.len() == ps.len(),
        0 <= b < ps.len(),
        c[b] < ps[b].len(),
        forall|j: int|
            0 <= j < ps.len() ==> #[trigger] d[j] == (if c[j] < ps[j].len() && ps[j][c[j]].key
                == ps[b][c[b]].key {
                c[j] + 1
            } else {
                c[j]
            }),
        forall|j: int|
            0 <= j < ps.len() && c[j] < (#[trigger] ps[j]).len() ==> {
                let e = ps[j][c[j]];
                let best = ps[b][c[b]];
                &&& order::key_le(best.key, e.key)
                &&& e.key == best.key ==> e.sequence_number <= best.sequence_number
            },
    ensures
        merging(ps, d, out.push(ps[b][c[b]])),
{
    broadcast use order::group_key_order;

    let best = ps[b][c[b]];
    let now = out.push(best);
    let was = taken(ps, c);
    let is = taken(ps, d);
    assert forall|j: int| 0 <= j < ps.len() implies 0 <= #[trigger] d[j] <= ps[j].len() by {
        assert(0 <= c[j] <= ps[j].len());
    }
    assert forall|i: int, k: int| 0 <= i < k < now.len() implies order::key_lt(
        (#[trigger] now[i]).key,
        (#[trigger] now[k]).key,
    ) by {
        if k == out.len() {
            assert(out[i].key == now[i].key);
        } else {
            assert(out[i] == now[i] && out[k] == now[k]);
        }
    }
    // Before the step no run had given out an entry of this key.
    assert forall|j: int, i: int| 0 <= j < is.len() && 0 <= i < is[j].len() implies {
        ||| i < c[j] && is[j][i] == was[j][i] && is[j][i].key != best.key
        ||| i == c[j] && is[j][i] == ps[j][i] && is[j][i].key == best.key
            && is[j][i].sequence_number <= best.sequence_number
    } by {
        assert(d[j] == c[j] || d[j] == c[j] + 1);
        assert(is[j][i] == ps[j][i]);
        if i < c[j] {
            assert(was[j][i] == ps[j][i]);
            assert(segment::has_key(out, was[j][i].key));
            let m = choose|m: int| 0 <= m < out.len() && (#[trigger] out[m]).key == was[j][i].key;
            assert(order::key_lt(out[m].key, ps[b][c[b]].key));
        } else {
            assert(ps[j].len() > c[j]);
        }
    }
    assert forall|i: int| 0 <= i < now.len() implies newest(is, #[trigger] now[i]) by {
        if i < out.len() {
            assert(now[i] == out[i]);
            assert(newest(was, out[i]));
            let (j, m) = choose|j: int, m: int|
                0 <= j < was.len() && 0 <= m < was[j].len() && #[trigger] was[j][m] == out[i];
            assert(0 <= m < d[j]) by {
                assert(d[j] == c[j] || d[j] == c[j] + 1);
            }
            assert(is[j][m] == was[j][m]);
            assert(order::key_lt(out[i].key, ps[b][c[b]].key));
        } else {
            assert(now[i] == best);
            assert(d[b] == c[b] + 1);
            assert(is[b][c[b]] == best);
        }
    }
    assert forall|j: int, i: int| 0 <= j < is.len() && 0 <= i < is[j].len() implies segment::has_key(
        now,
        (#[trigger] is[j][i]).key,
    ) by {
        if i < c[j] {
            assert(is[j][i] == was[j][i]);
            assert(segment::has_key(out, was[j][i].key));
            let m = choose|m: int| 0 <= m < out.len() && (#[trigger] out[m]).key == was[j][i].key;
            assert(now[m].key == is[j][i].key);
        } else {
            assert(now[out.len() as int].key == is[j][i].key);
        }
    }
    assert forall|j: int, i: int|
        0 <= j < ps.len() && d[j] < ps[j].len() && 0 <= i < now.len() implies order::key_lt(
        (#[trigger] now[i]).key,
        (#[trigger] ps[j])[d[j]].key,
    ) by {
        assert(c[j] < ps[j].len());
        if i < out.len() {
            assert(now[i] == out[i]);
            assert(order::key_lt(out[i].key, ps[j][c[j]].key));
            if d[j] != c[j] {
                assert(order::key_lt(ps[j][c[j]].key, ps[j][d[j]].key));
            }
        } else if d[j] != c[j] {
            assert(order::key_lt(ps[j][c[j]].key, ps[j][d[j]].key));
        }
    }
}

/// Merges what the buffers hold, as far as no buffer can be missing an entry:
/// up to the smallest of their last keys. Of the entries of one key only one
/// with the highest sequence number is kept. What comes after stays in the
/// buffers. A buffer that holds nothing takes no part.
pub fn merge_sort(read_bufs: &mut Vec<SegmentReadBuf>) -> (out: VecDeque<SsTableEntry>)
    requires
        all_wf(old(read_bufs)@),
    ensures
        final(read_bufs)@.len() == old(read_bufs)@.len(),
        all_wf(final(read_bufs)@),
        forall|j: int|
            0 <= j < old(read_bufs)@.len() ==> same_reader(
                #[trigger] final(read_bufs)@[j],
                old(read_bufs)@[j],
            ),
        match limit(pendings(old(read_bufs)@)) {
            Some(k) => {
                &&& out@.len() > 0
                &&& is_merge(heads(pendings(old(read_bufs)@), k), segment::entry_views(out@))
                &&& forall|j: int|
                    0 <= j < old(read_bufs)@.len() ==> (#[trigger] final(read_bufs)@[j]).pending() == old(read_bufs)@[j].pending().skip(
                        upto(old(read_bufs)@[j].pending(), k) as int,
                    )
            },
            None => out@.len() == 0 && final(read_bufs)@ == old(read_bufs)@,
        },
        segment::frames(segment::entry_views(out@)).len() + left(final(read_bufs)@) <= left(
            old(read_bufs)@,
        ),
{
    let ghost before = read_bufs@;
    let ghost ps = pendings(before);
    let mut out: VecDeque<SsTableEntry> = VecDeque::new();
    let n: usize = read_bufs.len();
    let mut smallest_final_key: Option<String> = None;
    let mut j: usize = 0;
    assert(ps.take(0) =~= Seq::<Seq<sstable::EntryView>>::empty());
    while j < n
        invariant
            j <= n == read_bufs@.len(),
            read_bufs@ == before,
            ps == pendings(before),
            match smallest_final_key {
                Some(k) => limit(ps.take(j as int)) == Some(k@),
                None => limit(ps.take(j as int)) is None,
            },
        decreases n - j,
    {
        proof {
            assert(ps.take(j + 1).drop_last() =~= ps.take(j as int));
            assert(ps.take(j + 1).last() == before[j as int].pending());
        }
        if let Some(e) = read_bufs[j].back() {
            let replace: bool = match &smallest_final_key {
                Some(k) => key_less(&e.key, k),
                None => true,
            };
            if replace {
                smallest_final_key = Some(e.key.clone());
            }
        }
        j += 1;
    }
    assert(ps.take(n as int) =~= ps);
    let ghost none_out = segment::entry_views(out@);
    assert(none_out =~= Seq::<sstable::EntryView>::empty());
    let key: String = match smallest_final_key {
        Some(k) => k,
        None => {
            return out;
        },
    };
    let ghost k = key@;
    let ghost mut c: Seq<int> = Seq::new(n as nat, |j: int| 0int);
    proof {
        assert forall|j: int| 0 <= j < ps.len() implies segment::sorted(#[trigger] ps[j]) by {
            assert(ps[j] == before[j].pending());
            lemma_pending_sorted(before[j]);
        }
        assert forall|j: int| 0 <= j < n implies (#[trigger] before[j]).pending() == ps[j].skip(
            c[j],
        ) by {
            assert(ps[j].skip(0) =~= ps[j]);
        }
    }
    let mut more: bool = true;
    while more
        invariant
            n == read_bufs@.len() == before.len(),
            ps == pendings(before),
            ps.len() == n,
            key@ == k,
            all_wf(read_bufs@),
            merging(ps, c, segment::entry_views(out@)),
            forall|j: int|
                0 <= j < n ==> same_reader(#[trigger] read_bufs@[j], before[j])
                    && read_bufs@[j].pending() == ps[j].skip(c[j]),
            forall|j: int|
                0 <= j < n && 0 < #[trigger] c[j] ==> order::key_le(ps[j][c[j] - 1].key, k),
            segment::frames(segment::entry_views(out@)).len() + left(read_bufs@) <= left(before),
            !more ==> forall|j: int|
                0 <= j < n && c[j] < (#[trigger] ps[j]).len() ==> order::key_lt(
                    k,
                    ps[j][c[j]].key,
                ),
        decreases left(read_bufs@), (if more { 1int } else { 0 }),
    {
        let ghost now = read_bufs@;
        let ghost es = segment::entry_views(out@);
        match min_front(read_bufs, &key) {
            None => {
                more = false;
                proof {
                    assert forall|j: int| 0 <= j < n && c[j] < (#[trigger] ps[j]).len() implies
                        order::key_lt(k, ps[j][c[j]].key) by {
                        assert(now[j].pending()[0] == ps[j][c[j]]);
                    }
                }
            },
            Some(b) => {
                let entry: SsTableEntry = match read_bufs[b].front() {
                    Some(e) => e.clone(),
                    None => {
                        return out;
                    },
                };
                let ghost d = Seq::new(
                    n as nat,
                    |j: int|
                        if c[j] < ps[j].len() && ps[j][c[j]].key == entry@.key {
                            c[j] + 1
                        } else {
                            c[j]
                        },
                );
                pop_equal(read_bufs, &entry.key, b);
                out.push_back(entry);
                proof {
                    assert(now[b as int].pending()[0] == ps[b as int][c[b as int]]);
                    assert forall|j: int| 0 <= j < ps.len() && c[j] < (#[trigger] ps[j]).len() implies {
                        let e = ps[j][c[j]];
                        let best = ps[b as int][c[b as int]];
                        &&& order::key_le(best.key, e.key)
                        &&& e.key == best.key ==> e.sequence_number <= best.sequence_number
                    } by {
                        assert(now[j].pending()[0] == ps[j][c[j]]);
                    }
                    lemma_merge_step(ps, c, d, es, b as int);
                    assert(segment::entry_views(out@) =~= es.push(entry@));
                    assert(es.push(entry@).drop_last() =~= es);
                    segment::lemma_frame_len(entry@);
                    assert forall|j: int| 0 <= j < n implies same_reader(
                        #[trigger] read_bufs@[j],
                        before[j],
                    ) && read_bufs@[j].pending() == ps[j].skip(d[j]) by {
                        assert(same_reader(now[j], before[j]));
                        if c[j] < ps[j].len() {
                            assert(now[j].pending()[0] == ps[j][c[j]]);
                            assert(ps[j].skip(c[j]).drop_first() =~= ps[j].skip(c[j] + 1));
                        }
                    }
                    assert forall|j: int| 0 <= j < n && 0 < #[trigger] d[j] implies order::key_le(
                        ps[j][d[j] - 1].key,
                        k,
                    ) by {
                        assert(0 < c[j] ==> order::key_le(ps[j][c[j] - 1].key, k));
                    }
                    lemma_left_bound(read_bufs@);
                    c = d;
                }
            },
        }
    }
    proof {
        lemma_limit(ps);
        assert forall|j: int| 0 <= j < n implies #[trigger] c[j] == upto(ps[j], k) by {
            assert(segment::sorted(ps[j]));
            lemma_upto_is(ps[j], k, c[j]);
        }
        assert(taken(ps, c) =~= heads(ps, k));
        let j = choose|j: int|
            0 <= j < ps.len() && (#[trigger] ps[j]).len() > 0 && ps[j].last().key == k;
        lemma_upto(ps[j], k);
        assert(order::key_le(ps[j].last().key, k));
        if upto(ps[j], k) < ps[j].len() {
            broadcast use order::group_key_order;

            assert(order::key_lt(k, ps[j][ps[j].len() - 1].key));
        }
        let h = heads(ps, k);
        assert(h[j].len() > 0);
        assert(segment::has_key(segment::entry_views(out@), h[j][0].key));
    }
    out
}

/// The bytes that are left are not negative.
proof fn lemma_left_bound(bufs: Seq<SegmentReadBuf>)
    requires
        all_wf(bufs),
    ensures
        left(bufs) >= 0,
    decreases bufs.len(),
{
    if bufs.len() > 0 {
        let init = bufs.drop_last();
        assert forall|j: int| 0 <= j < init.len() implies (#[trigger] init[j]).wf() by {
            assert(init[j] == bufs[j]);
        }
        lemma_left_bound(init);
        let b = bufs.last();
        assert(b == bufs[bufs.len() - 1]);
        b.lemma_pending();
        segment::lemma_offset_monotonic(
            b.source(),
            b.read() - b.pending().len(),
            b.source().len() as int,
        );
        assert(b.source().take(b.source().len() as int) =~= b.source());
    }
}

/// A merge goes on with what was read of the runs: `ps` follows the entries
/// that were taken, and `o` is what goes out.
proof fn lemma_merge_round(
    rs: Seq<Seq<sstable::EntryView>>,
    c: Seq<int>,
    d: Seq<int>,
    out: Seq<sstable::EntryView>,
    ps: Seq<Seq<sstable::EntryView>>,
    k: Seq<char>,
    o: Seq<sstable::EntryView>,
)
    requires
        merging(rs, c, out),
        ps.len() == rs.len(),
        d.len() == rs.len(),
        forall|j: int|
            0 <= j < rs.len() ==> {
                &&& c[j] + (#[trigger] ps[j]).len() <= rs[j].len()
                &&& ps[j] == rs[j].subrange(c[j], c[j] + ps[j].len())
                &&& ps[j].len() == 0 ==> c[j] == rs[j].len()
            },
        limit(ps) == Some(k),
        is_merge(heads(ps, k), o),
        forall|j: int| 0 <= j < rs.len() ==> #[trigger] d[j] == c[j] + upto(ps[j], k),
    ensures
        merging(rs, d, out + o),
{
    broadcast use order::group_key_order;

    let h = heads(ps, k);
    let now = out + o;
    let was = taken(rs, c);
    let is = taken(rs, d);
    lemma_limit(ps);
    assert forall|j: int| 0 <= j < rs.len() implies {
        &&& segment::sorted(#[trigger] ps[j])
        &&& upto(ps[j], k) <= ps[j].len()
        &&& h[j].len() == upto(ps[j], k)
        &&& c[j] <= d[j] <= rs[j].len()
    } by {
        assert forall|a: int, b: int| 0 <= a < b < ps[j].len() implies order::key_lt(
            (#[trigger] ps[j][a]).key,
            (#[trigger] ps[j][b]).key,
        ) by {
            assert(ps[j][a] == rs[j][c[j] + a] && ps[j][b] == rs[j][c[j] + b]);
            assert(segment::sorted(rs[j]));
        }
        lemma_upto(ps[j], k);
        assert(d[j] == c[j] + upto(ps[j], k));
    }
    // Every entry of the heads is an entry of a run, comes after what went out
    // before and not after the limit.
    assert forall|j: int, m: int| 0 <= j < h.len() && 0 <= m < h[j].len() implies {
        &&& (#[trigger] h[j][m]) == rs[j][c[j] + m]
        &&& is[j].len() == d[j]
        &&& is[j][c[j] + m] == h[j][m]
        &&& order::key_le(h[j][m].key, k)
        &&& forall|i: int| 0 <= i < out.len() ==> order::key_lt((#[trigger] out[i]).key, h[j][m].key)
    } by {
        assert(segment::sorted(ps[j]));
        lemma_upto(ps[j], k);
        assert(h[j][m] == ps[j][m]);
        assert(ps[j][m] == rs[j][c[j] + m]);
        assert forall|i: int| 0 <= i < out.len() implies order::key_lt(
            (#[trigger] out[i]).key,
            h[j][m].key,
        ) by {
            assert(order::key_lt(out[i].key, rs[j][c[j]].key));
            if m > 0 {
                assert(segment::sorted(rs[j]));
                assert(order::key_lt(rs[j][c[j]].key, rs[j][c[j] + m].key));
            }
        }
    }
    assert forall|i: int| 0 <= i < o.len() implies {
        &&& order::key_le((#[trigger] o[i]).key, k)
        &&& forall|a: int| 0 <= a < out.len() ==> order::key_lt((#[trigger] out[a]).key, o[i].key)
    } by {
        assert(newest(h, o[i]));
        let (j, m) = choose|j: int, m: int|
            0 <= j < h.len() && 0 <= m < h[j].len() && #[trigger] h[j][m] == o[i];
        assert(h[j][m] == rs[j][c[j] + m]);
    }
    assert forall|a: int, b: int| 0 <= a < b < now.len() implies order::key_lt(
        (#[trigger] now[a]).key,
        (#[trigger] now[b]).key,
    ) by {
        if b < out.len() {
            assert(now[a] == out[a] && now[b] == out[b]);
        } else if a < out.len() {
            assert(now[a] == out[a] && now[b] == o[b - out.len()]);
        } else {
            assert(now[a] == o[a - out.len()] && now[b] == o[b - out.len()]);
        }
    }
    // What was taken by now was taken before or is of the heads.
    assert forall|j: int, i: int| 0 <= j < is.len() && 0 <= i < is[j].len() implies {
        &&& 0 <= i < d[j]
        &&& i < c[j] ==> #[trigger] is[j][i] == was[j][i] && i < was[j].len()
        &&& i >= c[j] ==> is[j][i] == h[j][i - c[j]] && i - c[j] < h[j].len()
    } by {
        assert(segment::sorted(ps[j]));
        if i >= c[j] {
            assert(h[j][i - c[j]] == rs[j][c[j] + (i - c[j])]);
        }
    }
    assert forall|i: int| 0 <= i < now.len() implies newest(is, #[trigger] now[i]) by {
        if i < out.len() {
            assert(now[i] == out[i]);
            assert(newest(was, out[i]));
            let (j, m) = choose|j: int, m: int|
                0 <= j < was.len() && 0 <= m < was[j].len() && #[trigger] was[j][m] == out[i];
            assert(segment::sorted(ps[j]));
            assert(is[j].len() == d[j]);
            assert(is[j][m] == was[j][m]);
            assert forall|j: int, m: int|
                0 <= j < is.len() && 0 <= m < is[j].len() && (#[trigger] is[j][m]).key
                    == out[i].key implies is[j][m].sequence_number <= out[i].sequence_number by {
                if m >= c[j] {
                    assert(is[j][m] == h[j][m - c[j]]);
                    assert(order::key_lt(out[i].key, h[j][m - c[j]].key));
                }
            }
        } else {
            let e = o[i - out.len()];
            assert(now[i] == e);
            assert(newest(h, e));
            let (j, m) = choose|j: int, m: int|
                0 <= j < h.len() && 0 <= m < h[j].len() && #[trigger] h[j][m] == e;
            assert(is[j][c[j] + m] == h[j][m]);
            assert(segment::sorted(ps[j]));
            assert forall|j: int, m: int|
                0 <= j < is.len() && 0 <= m < is[j].len() && (#[trigger] is[j][m]).key
                    == e.key implies is[j][m].sequence_number <= e.sequence_number by {
                if m >= c[j] {
                    assert(is[j][m] == h[j][m - c[j]]);
                } else {
                    assert(is[j][m] == was[j][m]);
                    assert(segment::has_key(out, was[j][m].key));
                    let a = choose|a: int|
                        0 <= a < out.len() && (#[trigger] out[a]).key == was[j][m].key;
                    assert(order::key_lt(out[a].key, e.key));
                }
            }
        }
    }
    assert forall|j: int, i: int| 0 <= j < is.len() && 0 <= i < is[j].len() implies segment::has_key(
        now,
        (#[trigger] is[j][i]).key,
    ) by {
        let key = is[j][i].key;
        if i < c[j] {
            assert(is[j][i] == was[j][i]);
            assert(segment::has_key(out, was[j][i].key));
            let a = choose|a: int| 0 <= a < out.len() && (#[trigger] out[a]).key == key;
            assert(now[a].key == key);
        } else {
            assert(is[j][i] == h[j][i - c[j]]);
            assert(segment::has_key(o, h[j][i - c[j]].key));
            let a = choose|a: int| 0 <= a < o.len() && (#[trigger] o[a]).key == key;
            assert(now[out.len() + a].key == key);
        }
    }
    assert forall|j: int, i: int|
        0 <= j < rs.len() && d[j] < rs[j].len() && 0 <= i < now.len() implies order::key_lt(
        (#[trigger] now[i]).key,
        (#[trigger] rs[j])[d[j]].key,
    ) by {
        assert(segment::sorted(ps[j]));
        assert(segment::sorted(rs[j]));
        let u = upto(ps[j], k) as int;
        lemma_upto(ps[j], k);
        assert(d[j] == c[j] + u);
        assert(ps[j].len() > 0);
        assert(order::key_lt(k, rs[j][d[j]].key)) by {
            if u < ps[j].len() {
                assert(ps[j][u] == rs[j][d[j]]);
            } else {
                assert(ps[j].last() == rs[j][d[j] - 1]);
                assert(order::key_lt(rs[j][d[j] - 1].key, rs[j][d[j]].key));
            }
        }
        if i < out.len() {
            assert(now[i] == out[i]);
            assert(order::key_lt(out[i].key, rs[j][c[j]].key));
            if d[j] != c[j] {
                assert(order::key_lt(rs[j][c[j]].key, rs[j][d[j]].key));
            }
        } else {
            assert(now[i] == o[i - out.len()]);
        }
    }
}

/// Another owner of the same value.
///
/// Trusted: `std::sync::Arc::clone`. The new pointer is to the value of the
/// given one.
#[verifier::external_body]
pub(crate) fn share<T>(a: &Arc<T>) -> (r: Arc<T>)
    ensures
        r == *a,
{
    Arc::clone(a)
}

/// The entries of each segment.
pub open spec fn sources(segs: Seq<Arc<Segment>>) -> Seq<Seq<sstable::EntryView>> {
    segs.map_values(|s: Arc<Segment>| s.entries())
}

/// The entries of the segments one after the other.
pub open spec fn concat(segs: Seq<Arc<Segment>>) -> Seq<sstable::EntryView>
    decreases segs.len(),
{
    if segs.len() == 0 {
        Seq::empty()
    } else {
        concat(segs.drop_last()) + segs.last().entries()
    }
}

/// Every segment is well formed.
pub open spec fn segments_wf(segs: Seq<Arc<Segment>>) -> bool {
    forall|i: int| 0 <= i < segs.len() ==> (#[trigger] segs[i]).wf()
}

/// The number of bytes of the files.
pub open spec fn total_size(segs: Seq<Arc<Segment>>) -> nat
    decreases segs.len(),
{
    if segs.len() == 0 {
        0
    } else {
        total_size(segs.drop_last()) + segs.last().contents().len()
    }
}

/// The highest number of a segment, zero where there is none.
pub open spec fn highest_number(segs: Seq<Arc<Segment>>) -> u64
    decreases segs.len(),
{
    if segs.len() == 0 {
        0
    } else {
        let rest = highest_number(segs.drop_last());
        if segs.last().numbered() > rest {
            segs.last().numbered()
        } else {
            rest
        }
    }
}

/// A file with these entries is as large as it should get.
pub open spec fn full(es: Seq<sstable::EntryView>, s: int) -> bool {
    segment::frames(es).len() + segment::index_len(segment::sparse(es, s, 1, 0)) + 12
        >= segment::SEGMENT_SIZE
}

/// One of the segments starts between the two keys.
pub open spec fn separated(us: Seq<Arc<Segment>>, a: Seq<char>, b: Seq<char>) -> bool {
    exists|i: int|
        0 <= i < us.len() && order::key_lt(a, (#[trigger] us[i]).entries()[0].key)
            && order::key_lt(us[i].entries()[0].key, b)
}

/// None of the segments `us` starts between two entries that follow each
/// other.
pub open spec fn unbroken(us: Seq<Arc<Segment>>, es: Seq<sstable::EntryView>) -> bool {
    forall|i: int, k: int|
        0 <= i && i + 1 == k && k < es.len() ==> !separated(
            us,
            (#[trigger] es[i]).key,
            (#[trigger] es[k]).key,
        )
}

/// The segment was written for a level, with an index over one of `s` entries.
pub open spec fn written(seg: Segment, level: nat, number: nat, s: int) -> bool {
    &&& seg.wf()
    &&& seg.name() == segment::segment_filename(level, number)
    &&& seg.numbered() == number
    &&& seg.contents() == segment::image(seg.entries(), segment::sparse(seg.entries(), s, 1, 0))
}

/// A run of entries was split over the segments: a new one is begun where one
/// is full or where one of the segments `us` lies between two entries, and
/// nowhere else. Their numbers go up from `first`.
pub open spec fn split(
    segs: Seq<Arc<Segment>>,
    us: Seq<Arc<Segment>>,
    level: nat,
    first: nat,
    s: int,
) -> bool {
    &&& forall|i: int|
        0 <= i < segs.len() ==> {
            &&& written(*(#[trigger] segs[i]), level, (first + i) as nat, s)
            &&& !full(segs[i].entries().drop_last(), s)
            &&& unbroken(us, segs[i].entries())
        }
    &&& forall|i: int, k: int|
        0 <= i && i + 1 == k && k < segs.len() ==> full((#[trigger] segs[i]).entries(), s)
            || separated(us, segs[i].entries().last().key, (#[trigger] segs[k]).entries()[0].key)
}

/// The number of the segments that start before a key.
spec fn passed(us: Seq<Arc<Segment>>, key: Seq<char>) -> nat
    decreases us.len(),
{
    if us.len() == 0 {
        0
    } else {
        passed(us.drop_last(), key) + (if order::key_lt(us.last().entries()[0].key, key) {
            1nat
        } else {
            0
        })
    }
}

proof fn lemma_passed(us: Seq<Arc<Segment>>, a: Seq<char>, b: Seq<char>)
    requires
        order::key_lt(a, b),
    ensures
        passed(us, a) <= passed(us, b) <= us.len(),
        separated(us, a, b) ==> passed(us, a) < passed(us, b),
    decreases us.len(),
{
    broadcast use order::group_key_order;

    if us.len() > 0 {
        let init = us.drop_last();
        lemma_passed(init, a, b);
        if separated(us, a, b) {
            let i = choose|i: int|
                0 <= i < us.len() && order::key_lt(a, (#[trigger] us[i]).entries()[0].key)
                    && order::key_lt(us[i].entries()[0].key, b);
            if i < init.len() {
                assert(init[i] == us[i]);
            }
        }
    }
}

/// Whether one of the segments starts between the two keys.
fn is_separated(us: &Vec<Arc<Segment>>, a: &String, b: &String) -> (r: bool)
    requires
        segments_wf(us@),
    ensures
        r == separated(us@, a@, b@),
{
    let n: usize = us.len();
    let mut i: usize = 0;
    while i < n
        invariant
            i <= n == us@.len(),
            segments_wf(us@),
            forall|k: int|
                0 <= k < i ==> !(order::key_lt(a@, (#[trigger] us@[k]).entries()[0].key)
                    && order::key_lt(us@[k].entries()[0].key, b@)),
        decreases n - i,
    {
        let key: &String = us[i].first_key();
        if key_less(a, key) && key_less(key, b) {
            return true;
        }
        i += 1;
    }
    false
}

/// The segments that a merge writes.
struct MergeOutput {
    segments: Vec<Arc<Segment>>,
    writer: SegmentWriter,
    number: u64,
    last_key: Option<String>,
    fulls: Ghost<int>,
    cuts: Ghost<int>,
}

impl MergeOutput {
    /// The entries that were written to finished segments and to the one that
    /// is being written.
    spec fn out(&self) -> Seq<sstable::EntryView> {
        concat(self.segments@) + self.writer.entries()
    }

    spec fn wf(&self, us: Seq<Arc<Segment>>, level: nat, first: nat, s: int) -> bool {
        let cur = self.writer.entries();
        &&& self.writer.wf()
        &&& self.writer.sparsity() == s
        &&& self.writer.target() == segment::SEGMENT_SIZE
        &&& self.writer.name() == segment::segment_filename(level, self.number as nat)
        &&& self.number == first + self.segments@.len()
        &&& self.number < 0x1_0000_0000
        &&& split(self.segments@, us, level, first, s)
        &&& segment::sorted(self.out())
        &&& segment::all_encodable(self.out())
        &&& cur.len() == 0 ==> self.segments@.len() == 0
        &&& self.last_key is Some <==> cur.len() > 0
        &&& self.last_key matches Some(k) ==> k@ == cur.last().key
        &&& cur.len() > 0 ==> {
            &&& !full(cur.drop_last(), s)
            &&& unbroken(us, cur)
            &&& self.segments@.len() > 0 ==> {
                let before = self.segments@.last().entries();
                full(before, s) || separated(us, before.last().key, cur[0].key)
            }
            &&& self.cuts@ <= passed(us, cur.last().key)
        }
        &&& self.segments@.len() == self.fulls@ + self.cuts@
        &&& self.fulls@ >= 0
        &&& self.cuts@ >= 0
        &&& 33554426 * self.fulls@ + segment::frames(cur).len() <= segment::frames(
            self.out(),
        ).len()
        &&& cur.len() == 0 ==> self.fulls@ == 0 && self.cuts@ == 0
    }
}

/// A file that is full has many bytes of entries.
proof fn lemma_full(es: Seq<sstable::EntryView>, s: int)
    ensures
        full(es, s) ==> segment::frames(es).len() >= 33554426,
        !full(es, s) ==> segment::frames(es).len() < 67108864,
{
    segment::lemma_sparse_len(es, s, 1, 0);
}

/// A piece of sorted entries is sorted.
proof fn lemma_sorted_piece(es: Seq<sstable::EntryView>, a: int, b: int)
    requires
        segment::sorted(es),
        0 <= a <= b <= es.len(),
    ensures
        segment::sorted(es.subrange(a, b)),
{
    let p = es.subrange(a, b);
    assert forall|i: int, j: int| 0 <= i < j < p.len() implies order::key_lt(
        (#[trigger] p[i]).key,
        (#[trigger] p[j]).key,
    ) by {
        assert(p[i] == es[a + i] && p[j] == es[a + j]);
    }
}

/// Completes the file that was written and opens it as a segment.
fn finish(writer: SegmentWriter, Ghost(level): Ghost<nat>, Ghost(number): Ghost<nat>) -> (r: Arc<
    Segment,
>)
    requires
        writer.wf(),
        number < 0x1_0000_0000,
        writer.name() == segment::segment_filename(level, number),
        writer.entries().len() > 0,
        segment::sorted(writer.entries()),
        segment::all_encodable(writer.entries()),
        segment::frames(writer.entries()).len() <= u64::MAX,
    ensures
        r.entries() == writer.entries(),
        written(*r, level, number, writer.sparsity() as int),
{
    let ghost es = writer.entries();
    let ghost idx = segment::sparse(es, writer.sparsity() as int, 1, 0);
    proof {
        segment::lemma_sparse_points(es, writer.sparsity() as int, 1);
        segment::lemma_image_opens(es, idx);
        segment::lemma_number_in(level, number);
    }
    let mut writer: SegmentWriter = writer;
    writer.write_index_and_footer();
    let (name, bytes) = writer.into_file();
    Arc::new(Segment::from_file(name, bytes).unwrap())
}

impl MergeOutput {
    /// Writes an entry behind the others.
    fn write(
        &mut self,
        entry: &SsTableEntry,
        us: &Vec<Arc<Segment>>,
        level_number: u64,
        index_sparsity_factor: u32,
        Ghost(first): Ghost<nat>,
        Ghost(bytes): Ghost<int>,
    )
        requires
            old(self).wf(us@, level_number as nat, first, index_sparsity_factor as int),
            segments_wf(us@),
            level_number < 0x1_0000_0000,
            index_sparsity_factor > 0,
            sstable::encodable(entry@),
            segment::frame_len(entry@) <= usize::MAX,
            forall|i: int|
                0 <= i < old(self).out().len() ==> order::key_lt(
                    (#[trigger] old(self).out()[i]).key,
                    entry@.key,
                ),
            segment::frames(old(self).out()).len() <= bytes,
            first + bytes / 33554426 + us@.len() < 0x1_0000_0000,
        ensures
            final(self).wf(us@, level_number as nat, first, index_sparsity_factor as int),
            final(self).out() == old(self).out().push(entry@),
    {
        let ghost s = index_sparsity_factor as int;
        let ghost level = level_number as nat;
        let ghost was = self.out();
        let ghost cur = self.writer.entries();
        let ghost done = concat(self.segments@);
        let ghost now = was.push(entry@);
        let ghost segs = self.segments@;
        proof {
            assert forall|i: int, j: int| 0 <= i < j < now.len() implies order::key_lt(
                (#[trigger] now[i]).key,
                (#[trigger] now[j]).key,
            ) by {
                if j < was.len() {
                    assert(now[i] == was[i] && now[j] == was[j]);
                } else {
                    assert(now[i] == was[i]);
                }
            }
            assert forall|i: int| 0 <= i < now.len() implies sstable::encodable(
                #[trigger] now[i],
            ) by {
                if i < was.len() {
                    assert(now[i] == was[i]);
                }
            }
            assert(now.drop_last() =~= was);
            segment::lemma_frame_len(entry@);
            lemma_full(cur, s);
            lemma_full(cur.drop_last(), s);
            assert(was.subrange(done.len() as int, was.len() as int) =~= cur);
            lemma_sorted_piece(was, done.len() as int, was.len() as int);
            if cur.len() > 0 {
                assert(was[was.len() - 1] == cur.last());
                lemma_passed(us@, cur.last().key, entry@.key);
            }
        }
        let start: bool = match &self.last_key {
            Some(k) => self.writer.reached_target_size() || is_separated(us, k, &entry.key),
            None => false,
        };
        if start {
            proof {
                if full(cur, s) {
                    self.fulls@ = self.fulls@ + 1;
                } else {
                    self.cuts@ = self.cuts@ + 1;
                }
                lemma_quotient(self.fulls@, bytes);
            }
            proof {
                self.writer.lemma_len();
            }
            let mut w: SegmentWriter = SegmentWriter::create_new_segment(
                &level_number,
                &(self.number + 1),
                index_sparsity_factor,
            );
            std::mem::swap(&mut self.writer, &mut w);
            let segment: Arc<Segment> = finish(w, Ghost(level), Ghost(self.number as nat));
            self.segments.push(segment);
            self.number = self.number + 1;
            proof {
                lemma_split_push(segs, segment, us@, level, first, s);
            }
        }
        let ghost part = self.writer.entries();
        self.writer.write_entry(entry);
        self.last_key = Some(entry.key.clone());
        proof {
            assert(self.out() =~= now);
            let grown = part.push(entry@);
            assert(grown.drop_last() =~= part);
            assert(segment::frames(grown).len() == segment::frames(part).len() + segment::frame_len(
                entry@,
            ));
            lemma_full(Seq::empty(), s);
            assert(!full(part, s)) by {
                if part.len() == 0 {
                    assert(part =~= Seq::<sstable::EntryView>::empty());
                }
            }
            assert forall|i: int, k: int| 0 <= i && i + 1 == k && k < grown.len() implies !separated(
                us@,
                (#[trigger] grown[i]).key,
                (#[trigger] grown[k]).key,
            ) by {
                assert(grown[i] == part[i]);
                if k < part.len() {
                    assert(grown[k] == part[k]);
                }
            }
        }
    }
}

/// One more segment with the entries that follow.
proof fn lemma_split_push(
    segs: Seq<Arc<Segment>>,
    seg: Arc<Segment>,
    us: Seq<Arc<Segment>>,
    level: nat,
    first: nat,
    s: int,
)
    requires
        split(segs, us, level, first, s),
        written(*seg, level, first + segs.len(), s),
        !full(seg.entries().drop_last(), s),
        unbroken(us, seg.entries()),
        segs.len() > 0 ==> full(segs.last().entries(), s) || separated(
            us,
            segs.last().entries().last().key,
            seg.entries()[0].key,
        ),
    ensures
        split(segs.push(seg), us, level, first, s),
        concat(segs.push(seg)) == concat(segs) + seg.entries(),
{
    let grown = segs.push(seg);
    assert(grown.drop_last() =~= segs);
    assert forall|i: int| 0 <= i < grown.len() implies {
        &&& written(*(#[trigger] grown[i]), level, (first + i) as nat, s)
        &&& !full(grown[i].entries().drop_last(), s)
        &&& unbroken(us, grown[i].entries())
    } by {
        if i < segs.len() {
            assert(grown[i] == segs[i]);
        }
    }
    assert forall|i: int, k: int| 0 <= i && i + 1 == k && k < grown.len() implies full(
        (#[trigger] grown[i]).entries(),
        s,
    ) || separated(us, grown[i].entries().last().key, (#[trigger] grown[k]).entries()[0].key) by {
        assert(grown[i] == segs[i]);
        if k < segs.len() {
            assert(grown[k] == segs[k]);
        }
    }
}

/// A product that is bounded bounds its factor.
proof fn lemma_quotient(n: int, bytes: int)
    requires
        33554426 * n <= bytes,
    ensures
        n <= bytes / 33554426,
{
}

/// The bytes that all buffers of a merge may take together.
pub const MERGE_BUF_MAX_TOTAL_SIZE: u64 = 10485760;

/// There are numbers left for the segments that a merge may write: one for
/// each time that a segment is full, one for each segment that stays between
/// them, and one more.
pub open spec fn numbers_left(highest: nat, bytes: nat, stay: nat) -> bool {
    highest + 1 + bytes / 33554426 + stay < 0x1_0000_0000
}

/// The number of entries that were taken out of each buffer.
spec fn positions(bufs: Seq<SegmentReadBuf>) -> Seq<int> {
    Seq::new(bufs.len(), |j: int| bufs[j].read() - bufs[j].pending().len())
}

/// The bytes of all files.
pub(crate) fn size_of_all(segs: &Vec<Arc<Segment>>) -> (n: u128)
    ensures
        n == total_size(segs@),
{
    let len: usize = segs.len();
    let mut n: u128 = 0;
    let mut i: usize = 0;
    assert(segs@.take(0) =~= Seq::<Arc<Segment>>::empty());
    while i < len
        invariant
            i <= len == segs@.len(),
            n == total_size(segs@.take(i as int)),
            n <= i * 0xFFFF_FFFF_FFFF_FFFF,
        decreases len - i,
    {
        assert(segs@.take(i + 1).drop_last() =~= segs@.take(i as int));
        assert(i * 0xFFFF_FFFF_FFFF_FFFF <= 0xFFFF_FFFF_FFFF_FFFF * 0xFFFF_FFFF_FFFF_FFFE);
        n = n + segs[i].size() as u128;
        i += 1;
    }
    assert(segs@.take(len as int) =~= segs@);
    n
}

/// The highest number of the segments, zero where there is none.
pub(crate) fn highest_number_of(segs: &Vec<Arc<Segment>>) -> (n: u64)
    ensures
        n == highest_number(segs@),
{
    let len: usize = segs.len();
    let mut n: u64 = 0;
    let mut i: usize = 0;
    assert(segs@.take(0) =~= Seq::<Arc<Segment>>::empty());
    while i < len
        invariant
            i <= len == segs@.len(),
            n == highest_number(segs@.take(i as int)),
        decreases len - i,
    {
        assert(segs@.take(i + 1).drop_last() =~= segs@.take(i as int));
        if *segs[i].segment_number() > n {
            n = *segs[i].segment_number();
        }
        i += 1;
    }
    assert(segs@.take(len as int) =~= segs@);
    n
}

/// Reads on with every buffer.
fn fill_all(bufs: &mut Vec<SegmentReadBuf>)
    requires
        all_wf(old(bufs)@),
    ensures
        final(bufs)@.len() == old(bufs)@.len(),
        all_wf(final(bufs)@),
        forall|j: int|
            0 <= j < old(bufs)@.len() ==> filled(#[trigger] final(bufs)@[j], old(bufs)@[j]),
        left(final(bufs)@) == left(old(bufs)@),
{
    let n: usize = bufs.len();
    let ghost before = bufs@;
    let mut j: usize = 0;
    while j < n
        invariant
            j <= n == bufs@.len(),
            n == before.len(),
            all_wf(before),
            all_wf(bufs@),
            forall|i: int| j <= i < n ==> #[trigger] bufs@[i] == before[i],
            forall|i: int| 0 <= i < j ==> filled(#[trigger] bufs@[i], before[i]),
        decreases n - j,
    {
        bufs[j].fill();
        j += 1;
    }
    proof {
        lemma_left_shrinks(bufs@, before, 0, 0);
        lemma_left_shrinks(before, bufs@, 0, 0);
    }
}

/// A buffer after it has read on.
spec fn filled(now: SegmentReadBuf, before: SegmentReadBuf) -> bool {
    let added = segment::fetched(
        before.source().skip(before.read()),
        before.room() - segment::frames(before.pending()).len(),
        before.pending().len() == 0,
    );
    &&& now.source() == before.source()
    &&& now.room() == before.room()
    &&& now.pending() == before.pending() + added
    &&& now.read() == before.read() + added.len()
}

/// After reading on, a buffer holds what follows in its segment, and holds
/// nothing only where nothing is left of it.
proof fn lemma_filled(now: SegmentReadBuf, before: SegmentReadBuf)
    requires
        before.wf(),
        now.wf(),
        filled(now, before),
    ensures
        ({
            let es = now.source();
            let c = before.read() - before.pending().len();
            &&& now.pending() == es.subrange(c, c + now.pending().len())
            &&& now.pending().len() == 0 ==> c == es.len()
        }),
{
    let es = before.source();
    let rest = es.skip(before.read());
    let c = before.read() - before.pending().len();
    before.lemma_pending();
    now.lemma_pending();
    segment::lemma_fetched(
        rest,
        before.room() - segment::frames(before.pending()).len(),
        before.pending().len() == 0,
    );
    assert(now.pending() =~= es.subrange(c, c + now.pending().len()));
}

/// The bytes that new buffers have left are those of their segments.
proof fn lemma_left_start(bufs: Seq<SegmentReadBuf>, segs: Seq<Arc<Segment>>)
    requires
        bufs.len() == segs.len(),
        segments_wf(segs),
        forall|j: int|
            0 <= j < bufs.len() ==> (#[trigger] bufs[j]).source() == segs[j].entries()
                && bufs[j].read() == 0 && bufs[j].pending().len() == 0,
    ensures
        left(bufs) <= total_size(segs),
    decreases bufs.len(),
{
    if bufs.len() > 0 {
        let b = bufs.drop_last();
        let s = segs.drop_last();
        assert forall|j: int| 0 <= j < b.len() implies (#[trigger] b[j]).source() == s[j].entries()
            && b[j].read() == 0 && b[j].pending().len() == 0 by {
            assert(b[j] == bufs[j] && s[j] == segs[j]);
        }
        assert forall|i: int| 0 <= i < s.len() implies (#[trigger] s[i]).wf() by {
            assert(s[i] == segs[i]);
        }
        lemma_left_start(b, s);
        assert(bufs.last() == bufs[bufs.len() - 1]);
        assert(segs.last() == segs[segs.len() - 1]);
        segs.last().lemma_entries();
        assert(segment::offset_of(bufs.last().source(), 0) == 0);
    }
}

/// At the start of a merge nothing was taken out.
proof fn lemma_merge_start(
    bufs: Seq<SegmentReadBuf>,
    segs: Seq<Arc<Segment>>,
    srcs: Seq<Seq<sstable::EntryView>>,
)
    requires
        bufs.len() == segs.len(),
        segments_wf(segs),
        srcs == sources(segs),
        forall|j: int|
            0 <= j < bufs.len() ==> (#[trigger] bufs[j]).source() == segs[j].entries()
                && bufs[j].read() == 0 && bufs[j].pending().len() == 0,
    ensures
        merging(srcs, positions(bufs), Seq::empty()),
        forall|j: int| 0 <= j < bufs.len() ==> (#[trigger] bufs[j]).source() == srcs[j],
{
    let c = positions(bufs);
    assert forall|j: int| 0 <= j < srcs.len() implies segment::sorted(#[trigger] srcs[j]) && 0
        <= c[j] <= srcs[j].len() by {
        segs[j].lemma_entries();
        assert(bufs[j].read() == 0);
    }
    assert forall|j: int| 0 <= j < srcs.len() implies 0 <= #[trigger] c[j] <= srcs[j].len() by {
        assert(segment::sorted(srcs[j]));
    }
    assert forall|j: int| 0 <= j < srcs.len() implies (#[trigger] taken(srcs, c)[j]).len() == 0 by {
        assert(bufs[j].read() == 0);
    }
}

/// Reading on takes nothing out.
proof fn lemma_after_fill(
    now: Seq<SegmentReadBuf>,
    before: Seq<SegmentReadBuf>,
    srcs: Seq<Seq<sstable::EntryView>>,
)
    requires
        all_wf(now),
        all_wf(before),
        now.len() == before.len() == srcs.len(),
        forall|j: int| 0 <= j < before.len() ==> filled(#[trigger] now[j], before[j]),
        forall|j: int| 0 <= j < before.len() ==> (#[trigger] before[j]).source() == srcs[j],
    ensures
        positions(now) == positions(before),
        forall|j: int| 0 <= j < now.len() ==> (#[trigger] now[j]).source() == srcs[j],
        forall|j: int|
            0 <= j < now.len() ==> {
                let c = positions(before)[j];
                let p = #[trigger] pendings(now)[j];
                let r = srcs[j];
                &&& c + p.len() <= r.len()
                &&& p == r.subrange(c, c + p.len())
                &&& p.len() == 0 ==> c == r.len()
            },
{
    assert forall|j: int| 0 <= j < now.len() implies {
        let c = positions(before)[j];
        let p = #[trigger] pendings(now)[j];
        let r = srcs[j];
        &&& c + p.len() <= r.len()
        &&& p == r.subrange(c, c + p.len())
        &&& p.len() == 0 ==> c == r.len()
        &&& positions(now)[j] == c
        &&& now[j].source() == r
    } by {
        assert(filled(now[j], before[j]));
        assert(before[j].source() == srcs[j]);
        lemma_filled(now[j], before[j]);
        before[j].lemma_pending();
        now[j].lemma_pending();
    }
    assert(positions(now) =~= positions(before));
    assert forall|j: int| 0 <= j < now.len() implies (#[trigger] now[j]).source() == srcs[j] by {
        assert(pendings(now)[j] == now[j].pending());
    }
}

/// What goes out of a merge was read through a buffer.
proof fn lemma_head_entries(
    srcs: Seq<Seq<sstable::EntryView>>,
    segs: Seq<Arc<Segment>>,
    c: Seq<int>,
    ps: Seq<Seq<sstable::EntryView>>,
    k: Seq<char>,
    o: Seq<sstable::EntryView>,
)
    requires
        srcs == sources(segs),
        segments_wf(segs),
        c.len() == srcs.len(),
        ps.len() == srcs.len(),
        forall|j: int|
            0 <= j < srcs.len() ==> {
                let r = srcs[j];
                &&& 0 <= c[j]
                &&& c[j] + (#[trigger] ps[j]).len() <= r.len()
                &&& ps[j] == r.subrange(c[j], c[j] + ps[j].len())
                &&& upto(ps[j], k) <= ps[j].len()
            },
        is_merge(heads(ps, k), o),
    ensures
        forall|a: int|
            0 <= a < o.len() ==> sstable::encodable(#[trigger] o[a]) && segment::frame_len(o[a])
                <= usize::MAX,
{
    let h = heads(ps, k);
    assert forall|a: int| 0 <= a < o.len() implies sstable::encodable(#[trigger] o[a])
        && segment::frame_len(o[a]) <= usize::MAX by {
        assert(newest(h, o[a]));
        let (j, x) = choose|j: int, x: int|
            0 <= j < h.len() && 0 <= x < h[j].len() && #[trigger] h[j][x] == o[a];
        assert(h[j][x] == ps[j][x]);
        assert(ps[j][x] == srcs[j][c[j] + x]);
        segs[j].lemma_entries();
        assert(srcs[j] == segs[j].entries());
        segment::lemma_offset_step(srcs[j], c[j] + x);
        segment::lemma_block(srcs[j], c[j] + x, c[j] + x + 1);
    }
}

/// The segments that hold the merge of the entries of `segments`, each of
/// which is read through a buffer. A new segment is begun where one is full and
/// where one of the segments that stay as they are lies between two entries.
/// There is no result where the numbers for the new segments do not suffice.
#[verifier::rlimit(100)]
pub fn merge_segments(
    segments: &Vec<Arc<Segment>>,
    untouched: &Vec<Arc<Segment>>,
    highest: u64,
    level_number: u64,
    index_sparsity_factor: u32,
) -> (r: Option<Vec<Arc<Segment>>>)
    requires
        level_number < 0x1_0000_0000,
        index_sparsity_factor > 0,
        segments_wf(segments@),
        segments_wf(untouched@),
    ensures
        r is Some <==> segments@.len() == 0 || numbers_left(
            highest as nat,
            total_size(segments@),
            untouched@.len(),
        ),
        r matches Some(new) ==> {
            &&& split(
                new@,
                untouched@,
                level_number as nat,
                (highest + 1) as nat,
                index_sparsity_factor as int,
            )
            &&& is_merge(sources(segments@), concat(new@))
        },
{
    let n: usize = segments.len();
    let ghost srcs = sources(segments@);
    if n == 0 {
        let new: Vec<Arc<Segment>> = Vec::new();
        return Some(new);
    }
    let total: u128 = size_of_all(segments);
    let end: u128 = 0x1_0000_0000;
    if highest as u128 >= end || total / 33554426 >= end || untouched.len() as u128 >= end
        || highest as u128 + 1 + total / 33554426 + untouched.len() as u128 >= end {
        return None;
    }
    let ghost first = (highest + 1) as nat;
    let ghost level = level_number as nat;
    let ghost s = index_sparsity_factor as int;
    let read_buf_len: u64 = MERGE_BUF_MAX_TOTAL_SIZE / (n as u64) + 1;
    let mut read_bufs: Vec<SegmentReadBuf> = Vec::new();
    let mut i: usize = 0;
    while i < n
        invariant
            i <= n == segments@.len(),
            segments_wf(segments@),
            read_bufs@.len() == i,
            all_wf(read_bufs@),
            forall|j: int|
                0 <= j < i ==> (#[trigger] read_bufs@[j]).source() == segments@[j].entries()
                    && read_bufs@[j].read() == 0 && read_bufs@[j].pending().len() == 0,
        decreases n - i,
    {
        read_bufs.push(SegmentReadBuf::new(share(&segments[i]), read_buf_len));
        i += 1;
    }
    let number: u64 = highest + 1;
    let mut output = MergeOutput {
        segments: Vec::new(),
        writer: SegmentWriter::create_new_segment(
            &level_number,
            &number,
            index_sparsity_factor,
        ),
        number,
        last_key: None,
        fulls: Ghost(0),
        cuts: Ghost(0),
    };
    proof {
        lemma_left_start(read_bufs@, segments@);
        lemma_merge_start(read_bufs@, segments@, srcs);
        assert(output.out() =~= Seq::<sstable::EntryView>::empty());
        lemma_left_bound(read_bufs@);
    }
    let ghost bytes = total as int;
    let mut more: bool = true;
    while more
        invariant
            n == segments@.len() == read_bufs@.len() == srcs.len(),
            n > 0,
            srcs == sources(segments@),
            segments_wf(segments@),
            segments_wf(untouched@),
            index_sparsity_factor > 0,
            level_number < 0x1_0000_0000,
            level == level_number,
            s == index_sparsity_factor,
            all_wf(read_bufs@),
            forall|j: int| 0 <= j < n ==> (#[trigger] read_bufs@[j]).source() == srcs[j],
            merging(srcs, positions(read_bufs@), output.out()),
            output.wf(untouched@, level, first, s),
            segment::frames(output.out()).len() + left(read_bufs@) <= bytes,
            left(read_bufs@) >= 0,
            first + bytes / 33554426 + untouched@.len() < 0x1_0000_0000,
            !more ==> taken(srcs, positions(read_bufs@)) == srcs,
        decreases left(read_bufs@), (if more { 1int } else { 0 }),
    {
        let ghost before = read_bufs@;
        let ghost out = output.out();
        let ghost c = positions(before);
        fill_all(&mut read_bufs);
        let ghost now = read_bufs@;
        let ghost ps = pendings(now);
        proof {
            lemma_after_fill(now, before, srcs);
            lemma_limit(ps);
        }
        let mut write_buf: VecDeque<SsTableEntry> = merge_sort(&mut read_bufs);
        let ghost o = segment::entry_views(write_buf@);
        let ghost after = read_bufs@;
        let ghost d = positions(after);
        if write_buf.len() == 0 {
            more = false;
            proof {
                assert(after == now);
                assert(positions(after) =~= c);
                assert forall|j: int| 0 <= j < n implies taken(srcs, c)[j] == srcs[j] by {
                    assert(ps[j].len() == 0);
                    assert(srcs[j].take(srcs[j].len() as int) =~= srcs[j]);
                }
                assert(taken(srcs, c) =~= srcs);
                assert(segment::frames(o).len() >= 0);
            }
        } else {
            let ghost k = limit(ps).unwrap();
            proof {
                assert forall|j: int| 0 <= j < n implies (#[trigger] after[j]).source()
                    == srcs[j] by {
                    assert(same_reader(after[j], now[j]));
                    assert(now[j].source() == srcs[j]);
                }
                assert forall|j: int| 0 <= j < n implies #[trigger] d[j] == c[j] + upto(
                    ps[j],
                    k,
                ) by {
                    assert(same_reader(after[j], now[j]));
                    assert(ps[j] == now[j].pending());
                    assert(filled(now[j], before[j]));
                    lemma_pending_sorted(now[j]);
                    lemma_upto(ps[j], k);
                }
                lemma_merge_round(srcs, c, d, out, ps, k, o);
                segment::lemma_frames_concat(out, o);
                lemma_left_bound(after);
                lemma_head_entries(srcs, segments@, c, ps, k, o);
                assert(o.skip(0) =~= o);
                assert(out + o.take(0) =~= out);
            }
            let ghost mut t: int = 0;
            let ghost count = o.len() as int;
            while write_buf.len() > 0
                invariant
                    0 <= t <= count,
                    count == o.len(),
                    segment::entry_views(write_buf@) == o.skip(t),
                    output.out() == out + o.take(t),
                    output.wf(untouched@, level, first, s),
                    segments_wf(untouched@),
                    index_sparsity_factor > 0,
                    level_number < 0x1_0000_0000,
                    level == level_number,
                    s == index_sparsity_factor,
                    segment::sorted(out + o),
                    forall|a: int|
                        0 <= a < o.len() ==> sstable::encodable(#[trigger] o[a])
                            && segment::frame_len(o[a]) <= usize::MAX,
                    segment::frames(out).len() + segment::frames(o).len() <= bytes,
                    first + bytes / 33554426 + untouched@.len() < 0x1_0000_0000,
                decreases write_buf@.len(),
            {
                let ghost held = write_buf@;
                proof {
                    let views = segment::entry_views(held);
                    assert(views.len() == held.len());
                    assert(views[0] == held[0]@);
                    assert(views[0] == o[t]);
                    let so_far = out + o.take(t);
                    assert forall|a: int| 0 <= a < so_far.len() implies order::key_lt(
                        (#[trigger] so_far[a]).key,
                        o[t].key,
                    ) by {
                        assert(so_far[a] == (out + o)[a]);
                        assert((out + o)[out.len() + t] == o[t]);
                    }
                    segment::lemma_frames_concat(out, o.take(t));
                    segment::lemma_offset_monotonic(o, t, count);
                    assert(o.take(count) =~= o);
                }
                let popped: Option<SsTableEntry> = write_buf.pop_front();
                let entry: SsTableEntry = popped.unwrap();
                output.write(
                    &entry,
                    untouched,
                    level_number,
                    index_sparsity_factor,
                    Ghost(first),
                    Ghost(bytes),
                );
                proof {
                    assert(segment::entry_views(write_buf@) =~= segment::entry_views(
                        held,
                    ).drop_first());
                    assert(o.skip(t).drop_first() =~= o.skip(t + 1));
                    assert(out + o.take(t + 1) =~= (out + o.take(t)).push(o[t]));
                    t = t + 1;
                }
            }
            proof {
                assert(o.skip(t).len() == 0);
                assert(o.take(count) =~= o);
                segment::lemma_offset_monotonic(o, 0, count);
                assert(o.take(0) =~= Seq::<sstable::EntryView>::empty());
            }
        }
    }
    let MergeOutput { segments: finished, writer, number: last_number, last_key, .. } = output;
    let mut new: Vec<Arc<Segment>> = finished;
    if last_key.is_some() {
        proof {
            let out = output.out();
            let cur = writer.entries();
            let done = concat(new@);
            assert(out.subrange(done.len() as int, out.len() as int) =~= cur);
            lemma_sorted_piece(out, done.len() as int, out.len() as int);
            assert forall|i: int| 0 <= i < cur.len() implies sstable::encodable(
                #[trigger] cur[i],
            ) by {
                assert(cur[i] == out[done.len() + i]);
            }
            writer.lemma_len();
        }
        let ghost segs = new@;
        let segment: Arc<Segment> = finish(writer, Ghost(level), Ghost(last_number as nat));
        new.push(segment);
        proof {
            lemma_split_push(segs, segment, untouched@, level, first, s);
        }
    }
    Some(new)
}

/// An index takes at least the bytes that are reckoned for it.
proof fn lemma_index_room(idx: Seq<segment::IndexEntryView>)
    ensures
        segment::index_bytes(idx).len() >= segment::index_len(idx),
    decreases idx.len(),
{
    broadcast use crate::codec::lemma_le_bytes_len;

    if idx.len() > 0 {
        lemma_index_room(idx.drop_last());
    }
}

/// What a merge writes goes to segments of sixty-four megabytes. The file of a
/// segment is at least so large where another segment follows and none of those
/// that stay begins between the two. Before its last entry was written it was
/// smaller. The segments are numbered one after the other, their names are those
/// of the level, and their indexes lead to the last of every so many entries.
pub proof fn lemma_segments_are_filled(
    new: Seq<Arc<Segment>>,
    us: Seq<Arc<Segment>>,
    level: nat,
    first: nat,
    s: int,
    i: int,
)
    requires
        split(new, us, level, first, s),
        0 <= i < new.len(),
    ensures
        new[i].wf(),
        new[i].numbered() == first + i,
        new[i].name() == segment::segment_filename(level, (first + i) as nat),
        segment::frames(new[i].entries().drop_last()).len() < 67108864,
        i + 1 < new.len() ==> new[i].contents().len() >= 67108864 || exists|k: int|
            0 <= k < us.len() && order::key_lt(
                new[i].entries().last().key,
                (#[trigger] us[k]).entries()[0].key,
            ) && order::key_lt(us[k].entries()[0].key, new[i + 1].entries()[0].key),
        forall|x: int, k: int|
            0 <= x < new[i].entries().len() - 1 && 0 <= k < us.len() ==> !(order::key_lt(
                (#[trigger] new[i].entries()[x]).key,
                (#[trigger] us[k]).entries()[0].key,
            ) && order::key_lt(us[k].entries()[0].key, new[i].entries()[x + 1].key)),
        forall|p: int|
            0 <= p < new[i].entries().len() ==> #[trigger] segment::indexed(
                new[i].contents(),
                new[i].entries(),
                p,
            ) == ((p + 1) % s == 0),
{
    broadcast use crate::codec::lemma_le_bytes_len;

    let es = new[i].entries();
    let idx = segment::sparse(es, s, 1, 0);
    assert(written(*new[i], level, (first + i) as nat, s));
    new[i].lemma_entries();
    assert forall|p: int| 0 <= p < es.len() implies #[trigger] segment::indexed(
        new[i].contents(),
        es,
        p,
    ) == ((p + 1) % s == 0) by {
        segment::lemma_written_index(es, s, 1, p);
    }
    lemma_full(es.drop_last(), s);
    if i + 1 < new.len() {
        assert(full(new[i].entries(), s) || separated(
            us,
            new[i].entries().last().key,
            new[i + 1].entries()[0].key,
        ));
        lemma_index_room(idx);
        if full(es, s) {
            assert(segment::image(es, idx).len() == segment::frames(es).len()
                + segment::index_bytes(idx).len() + 12);
        }
    }
    assert forall|x: int, k: int|
        0 <= x < es.len() - 1 && 0 <= k < us.len() implies !(order::key_lt(
        (#[trigger] es[x]).key,
        (#[trigger] us[k]).entries()[0].key,
    ) && order::key_lt(us[k].entries()[0].key, es[x + 1].key)) by {
        assert(!separated(us, es[x].key, es[x + 1].key));
    }
}

} // verus!
