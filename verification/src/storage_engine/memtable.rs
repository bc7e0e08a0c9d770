//! The in-memory table of the latest writes.

pub mod wal;

use crate::codec::byte_len;
use crate::codec;
use crate::order::{key_equal, key_less};
use crate::order;
use crate::storage_engine::sstable::level::segment;
use crate::storage_engine::sstable::SsTableEntry;
use crate::storage_engine::sstable;
use vstd::prelude::*;
use wal::segment::{OpType, Segment, WalEntry};
use wal::{LogDirectory, LogFile, Wal, WalStep};

verus! {

/// What the table holds for a key: the value last put, or nothing where the
/// key was deleted, and the sequence number of that write.
#[derive(Debug, PartialEq)]
pub struct MemTableValue {
    pub value: Option<String>,
    pub sequence_number: u64,
}

/// The model of what the table holds for a key.
pub struct ValueView {
    pub value: Option<Seq<char>>,
    pub sequence_number: u64,
}

impl View for MemTableValue {
    type V = ValueView;

    open spec fn view(&self) -> ValueView {
        ValueView { value: sstable::text_view(self.value), sequence_number: self.sequence_number }
    }
}

impl Clone for MemTableValue {
    fn clone(&self) -> (r: Self)
        ensures
            r == *self,
    {
        MemTableValue { value: self.value.clone(), sequence_number: self.sequence_number }
    }
}

/// What an entry says of its key.
pub open spec fn value_of(e: sstable::EntryView) -> ValueView {
    ValueView { value: e.value, sequence_number: e.sequence_number }
}

/// The entry of a key and what is held for it.
pub open spec fn entry_of(key: Seq<char>, v: ValueView) -> sstable::EntryView {
    sstable::EntryView { key, value: v.value, sequence_number: v.sequence_number }
}

/// What entries say of the keys.
pub open spec fn map_of(es: Seq<sstable::EntryView>) -> Map<Seq<char>, ValueView> {
    Map::new(
        |k: Seq<char>| segment::has_key(es, k),
        |k: Seq<char>| value_of(segment::lookup(es, k).unwrap()),
    )
}

/// What a part of the entries adds up to.
pub open spec fn total(
    es: Seq<sstable::EntryView>,
    part: spec_fn(sstable::EntryView) -> nat,
) -> nat
    decreases es.len(),
{
    if es.len() == 0 {
        0
    } else {
        total(es.drop_last(), part) + part(es.last())
    }
}

/// The number of bytes of an entry.
pub open spec fn whole() -> spec_fn(sstable::EntryView) -> nat {
    |e: sstable::EntryView| sstable::encoded_len(e)
}

/// The number of bytes of the key of an entry.
spec fn key_part() -> spec_fn(sstable::EntryView) -> nat {
    |e: sstable::EntryView| vstd::utf8::encode_utf8(e.key).len()
}

/// The number of bytes of the value of an entry.
spec fn value_part() -> spec_fn(sstable::EntryView) -> nat {
    |e: sstable::EntryView|
        match e.value {
            Some(v) => vstd::utf8::encode_utf8(v).len(),
            None => 0,
        }
}

/// The size of a table with these entries: the bytes that they take.
pub open spec fn table_size(es: Seq<sstable::EntryView>) -> nat {
    total(es, whole())
}

/// The bytes that a table takes for a key.
pub open spec fn held_len(m: Map<Seq<char>, ValueView>, key: Seq<char>) -> nat {
    if m.contains_key(key) {
        sstable::encoded_len(entry_of(key, m[key]))
    } else {
        0
    }
}

/// A size, or the largest number that can be held where it is larger.
pub open spec fn capped(n: nat) -> u64 {
    if n > u64::MAX {
        u64::MAX
    } else {
        n as u64
    }
}

/// Replacing an entry changes what a part adds up to by the difference.
proof fn lemma_total_update(
    es: Seq<sstable::EntryView>,
    part: spec_fn(sstable::EntryView) -> nat,
    i: int,
    e: sstable::EntryView,
)
    requires
        0 <= i < es.len(),
    ensures
        total(es.update(i, e), part) + part(es[i]) == total(es, part) + part(e),
    decreases es.len(),
{
    let now = es.update(i, e);
    if i == es.len() - 1 {
        assert(now.drop_last() =~= es.drop_last());
    } else {
        lemma_total_update(es.drop_last(), part, i, e);
        assert(now.drop_last() =~= es.drop_last().update(i, e));
    }
}

/// A new entry is added to what a part adds up to.
proof fn lemma_total_insert(
    es: Seq<sstable::EntryView>,
    part: spec_fn(sstable::EntryView) -> nat,
    i: int,
    e: sstable::EntryView,
)
    requires
        0 <= i <= es.len(),
    ensures
        total(es.insert(i, e), part) == total(es, part) + part(e),
    decreases es.len(),
{
    let now = es.insert(i, e);
    if i == es.len() {
        assert(now.drop_last() =~= es);
    } else {
        lemma_total_insert(es.drop_last(), part, i, e);
        assert(now.drop_last() =~= es.drop_last().insert(i, e));
        assert(now.last() == es.last());
    }
}

/// What a part adds up to is bounded by the number of entries.
proof fn lemma_total_bound(
    es: Seq<sstable::EntryView>,
    part: spec_fn(sstable::EntryView) -> nat,
    bound: nat,
)
    requires
        forall|i: int| 0 <= i < es.len() ==> part(#[trigger] es[i]) <= bound,
    ensures
        total(es, part) <= es.len() * bound,
    decreases es.len(),
{
    if es.len() > 0 {
        let init = es.drop_last();
        assert forall|i: int| 0 <= i < init.len() implies part(#[trigger] init[i]) <= bound by {
            assert(init[i] == es[i]);
        }
        lemma_total_bound(init, part, bound);
        assert(part(es[es.len() - 1]) <= bound);
        assert((es.len() - 1) * bound + bound == es.len() * bound) by (nonlinear_arith);
    }
}

/// The size of a table is that of its keys and its values, and what stands
/// beside them.
proof fn lemma_size_parts(es: Seq<sstable::EntryView>)
    ensures
        table_size(es) == 21 * es.len() + total(es, key_part()) + total(es, value_part()),
    decreases es.len(),
{
    if es.len() > 0 {
        lemma_size_parts(es.drop_last());
    }
}

/// The keys and the values of the entries fit into memory one by one.
spec fn parts_fit(es: Seq<sstable::EntryView>) -> bool {
    &&& forall|i: int| 0 <= i < es.len() ==> key_part()(#[trigger] es[i]) <= usize::MAX
    &&& forall|i: int| 0 <= i < es.len() ==> value_part()(#[trigger] es[i]) <= usize::MAX
}

/// What the keys and the values of a table add up to can be held.
proof fn lemma_parts_fit(es: Seq<sstable::EntryView>)
    requires
        parts_fit(es),
        es.len() <= usize::MAX,
    ensures
        total(es, key_part()) <= u128::MAX,
        total(es, value_part()) <= u128::MAX,
{
    lemma_total_bound(es, key_part(), usize::MAX as nat);
    lemma_total_bound(es, value_part(), usize::MAX as nat);
    let n = es.len();
    assert(n * usize::MAX as nat <= 0xFFFF_FFFF_FFFF_FFFF * 0xFFFF_FFFF_FFFF_FFFF)
        by (nonlinear_arith)
        requires
            n <= usize::MAX <= 0xFFFF_FFFF_FFFF_FFFF,
    ;
}

/// A map from keys to what was last written to them. No key occurs twice, and
/// the keys are kept in order. The bytes of the keys and those of the values are
/// counted.
pub struct Table {
    entries: Vec<SsTableEntry>,
    key_bytes: u128,
    value_bytes: u128,
}

impl View for Table {
    type V = Map<Seq<char>, ValueView>;

    closed spec fn view(&self) -> Map<Seq<char>, ValueView> {
        map_of(self.entries())
    }
}

impl Table {
    /// The entries of the table, in the order of their keys.
    pub closed spec fn entries(&self) -> Seq<sstable::EntryView> {
        segment::entry_views(self.entries@)
    }

    /// The keys are in order, and the bytes are counted.
    pub closed spec fn wf(&self) -> bool {
        &&& segment::sorted(self.entries())
        &&& parts_fit(self.entries())
        &&& self.key_bytes == total(self.entries(), key_part())
        &&& self.value_bytes == total(self.entries(), value_part())
    }

    /// The table says of the keys what its entries say.
    pub proof fn lemma_table(&self)
        requires
            self.wf(),
        ensures
            segment::sorted(self.entries()),
            self@ == map_of(self.entries()),
    {
    }

    /// A table without keys.
    pub fn new() -> (t: Table)
        ensures
            t.wf(),
            t@ == Map::<Seq<char>, ValueView>::empty(),
            t.entries().len() == 0,
    {
        let t = Table { entries: Vec::new(), key_bytes: 0, value_bytes: 0 };
        assert(t@ =~= Map::<Seq<char>, ValueView>::empty());
        t
    }

    /// The first position whose key does not come before `key`.
    fn position(&self, key: &String) -> (r: usize)
        requires
            self.wf(),
        ensures
            r <= self.entries().len(),
            forall|i: int| 0 <= i < r ==> order::key_lt((#[trigger] self.entries()[i]).key, key@),
            forall|i: int|
                r <= i < self.entries().len() ==> !order::key_lt(
                    (#[trigger] self.entries()[i]).key,
                    key@,
                ),
    {
        let ghost es = self.entries();
        let mut l: usize = 0;
        let mut r: usize = self.entries.len();
        while l < r
            invariant
                l <= r <= es.len(),
                es == self.entries(),
                es.len() == self.entries@.len(),
                segment::sorted(es),
                forall|i: int| 0 <= i < l ==> order::key_lt((#[trigger] es[i]).key, key@),
                forall|i: int| r <= i < es.len() ==> !order::key_lt((#[trigger] es[i]).key, key@),
            decreases r - l,
        {
            broadcast use order::group_key_order;

            let m: usize = l + (r - l) / 2;
            assert(es[m as int] == self.entries@[m as int]@);
            if key_less(&self.entries[m].key, key) {
                l = m + 1;
            } else {
                r = m;
            }
        }
        l
    }

    /// What the table holds for a key.
    pub fn get(&self, key: &String) -> (r: Option<MemTableValue>)
        requires
            self.wf(),
        ensures
            r is Some <==> self@.contains_key(key@),
            r matches Some(v) ==> v@ == self@[key@],
    {
        let ghost es = self.entries();
        let i: usize = self.position(key);
        proof {
            broadcast use order::group_key_order;

            if segment::has_key(es, key@) {
                let j = choose|j: int| 0 <= j < es.len() && (#[trigger] es[j]).key == key@;
                assert(i <= j);
                if i < j {
                    assert(order::key_lt(es[i as int].key, es[j].key));
                }
            }
        }
        if i < self.entries.len() && key_equal(&self.entries[i].key, key) {
            let e: &SsTableEntry = &self.entries[i];
            assert(es[i as int] == self.entries@[i as int]@);
            proof {
                segment::lemma_lookup(es, i as int);
            }
            Some(MemTableValue { value: e.value.clone(), sequence_number: e.sequence_number })
        } else {
            proof {
                if i < es.len() {
                    assert(es[i as int] == self.entries@[i as int]@);
                }
            }
            None
        }
    }

    /// Sets what the table holds for a key, and returns what it held before.
    pub fn insert(&mut self, key: String, value: MemTableValue) -> (r: Option<MemTableValue>)
        requires
            old(self).wf(),
        ensures
            final(self).wf(),
            final(self)@ == old(self)@.insert(key@, value@),
            r is Some <==> old(self)@.contains_key(key@),
            r matches Some(v) ==> v@ == old(self)@[key@],
            table_size(final(self).entries()) + held_len(old(self)@, key@) == table_size(
                old(self).entries(),
            ) + sstable::encoded_len(entry_of(key@, value@)),
    {
        let r: Option<MemTableValue> = self.get(&key);
        let key_len: usize = byte_len(&key);
        let value_len: usize = match &value.value {
            Some(v) => byte_len(v),
            None => 0,
        };
        let i: usize = self.position(&key);
        let ghost before = self.entries();
        let ghost k = key@;
        let ghost v = value@;
        let e: SsTableEntry = SsTableEntry::from(key, value);
        let ghost added = e@;
        assert(added == entry_of(k, v));
        proof {
            broadcast use order::group_key_order;

            if i < before.len() {
                order::lemma_key_lt_total(before[i as int].key, k);
            }
        }
        if i < self.entries.len() && key_equal(&self.entries[i].key, &e.key) {
            assert(before[i as int] == self.entries@[i as int]@);
            let old_len: usize = match &self.entries[i].value {
                Some(v) => byte_len(v),
                None => 0,
            };
            self.entries.set(i, e);
            proof {
                let now = self.entries();
                assert(self.entries.len() == self.entries@.len());
                assert(now =~= before.update(i as int, added));
                lemma_update(before, i as int, added);
                segment::lemma_lookup(before, i as int);
                lemma_total_update(before, key_part(), i as int, added);
                lemma_total_update(before, value_part(), i as int, added);
                lemma_total_update(before, whole(), i as int, added);
                lemma_update_fits(before, i as int, added);
                lemma_parts_fit(now);
                lemma_part_of_total(before, value_part(), i as int);
            }
            self.value_bytes = self.value_bytes - old_len as u128 + value_len as u128;
        } else {
            proof {
                if i < before.len() {
                    assert(before[i as int] == self.entries@[i as int]@);
                }
            }
            self.entries.insert(i, e);
            proof {
                let now = self.entries();
                assert(self.entries.len() == self.entries@.len());
                assert(now =~= before.insert(i as int, added));
                lemma_insert(before, i as int, added);
                lemma_total_insert(before, key_part(), i as int, added);
                lemma_total_insert(before, value_part(), i as int, added);
                lemma_total_insert(before, whole(), i as int, added);
                lemma_insert_fits(before, i as int, added);
                lemma_parts_fit(now);
            }
            self.key_bytes = self.key_bytes + key_len as u128;
            self.value_bytes = self.value_bytes + value_len as u128;
        }
        r
    }

    /// Removes every key.
    pub fn clear(&mut self)
        ensures
            final(self).wf(),
            final(self)@ == Map::<Seq<char>, ValueView>::empty(),
            final(self).entries().len() == 0,
    {
        self.entries.clear();
        self.key_bytes = 0;
        self.value_bytes = 0;
        assert(self@ =~= Map::<Seq<char>, ValueView>::empty());
    }

    /// The number of keys.
    pub fn len(&self) -> (n: usize)
        ensures
            n == self.entries().len(),
    {
        self.entries.len()
    }

    /// The size of the table, as far as it can be held.
    pub fn size(&self) -> (n: u64)
        requires
            self.wf(),
        ensures
            n == capped(table_size(self.entries())),
    {
        proof {
            lemma_size_parts(self.entries());
        }
        let most: u128 = u64::MAX as u128;
        if self.key_bytes > most || self.value_bytes > most {
            return u64::MAX;
        }
        let sum: u128 = self.key_bytes + self.value_bytes + 21 * self.entries.len() as u128;
        if sum > most {
            u64::MAX
        } else {
            sum as u64
        }
    }

    /// The entries in the order of their keys.
    pub fn sorted_entries(&self) -> (es: &Vec<SsTableEntry>)
        ensures
            segment::entry_views(es@) == self.entries(),
    {
        &self.entries
    }
}

/// A part of one entry is no more than that of all.
proof fn lemma_part_of_total(
    es: Seq<sstable::EntryView>,
    part: spec_fn(sstable::EntryView) -> nat,
    i: int,
)
    requires
        0 <= i < es.len(),
    ensures
        part(es[i]) <= total(es, part),
    decreases es.len(),
{
    if i < es.len() - 1 {
        lemma_part_of_total(es.drop_last(), part, i);
    }
}

/// Replacing an entry by one that fits.
proof fn lemma_update_fits(es: Seq<sstable::EntryView>, i: int, e: sstable::EntryView)
    requires
        parts_fit(es),
        0 <= i < es.len(),
        key_part()(e) <= usize::MAX,
        value_part()(e) <= usize::MAX,
    ensures
        parts_fit(es.update(i, e)),
{
    let now = es.update(i, e);
    assert forall|k: int| 0 <= k < now.len() implies key_part()(#[trigger] now[k]) <= usize::MAX by {
        if k != i {
            assert(now[k] == es[k]);
        }
    }
    assert forall|k: int| 0 <= k < now.len() implies value_part()(#[trigger] now[k])
        <= usize::MAX by {
        if k != i {
            assert(now[k] == es[k]);
        }
    }
}

/// Adding an entry that fits.
proof fn lemma_insert_fits(es: Seq<sstable::EntryView>, i: int, e: sstable::EntryView)
    requires
        parts_fit(es),
        0 <= i <= es.len(),
        key_part()(e) <= usize::MAX,
        value_part()(e) <= usize::MAX,
    ensures
        parts_fit(es.insert(i, e)),
{
    let now = es.insert(i, e);
    assert forall|k: int| 0 <= k < now.len() implies key_part()(#[trigger] now[k]) <= usize::MAX by {
        if k < i {
            assert(now[k] == es[k]);
        } else if k > i {
            assert(now[k] == es[k - 1]);
        }
    }
    assert forall|k: int| 0 <= k < now.len() implies value_part()(#[trigger] now[k])
        <= usize::MAX by {
        if k < i {
            assert(now[k] == es[k]);
        } else if k > i {
            assert(now[k] == es[k - 1]);
        }
    }
}

/// Replacing the entry of a key in sorted entries.
proof fn lemma_update(es: Seq<sstable::EntryView>, i: int, e: sstable::EntryView)
    requires
        segment::sorted(es),
        0 <= i < es.len(),
        es[i].key == e.key,
    ensures
        segment::sorted(es.update(i, e)),
        map_of(es.update(i, e)) == map_of(es).insert(e.key, value_of(e)),
{
    let now = es.update(i, e);
    assert(segment::sorted(now)) by {
        assert forall|p: int, q: int| 0 <= p < q < now.len() implies order::key_lt(
            (#[trigger] now[p]).key,
            (#[trigger] now[q]).key,
        ) by {
            assert(order::key_lt(es[p].key, es[q].key));
        }
    }
    assert forall|k: Seq<char>| map_of(now).contains_key(k) == #[trigger] map_of(es).insert(
        e.key,
        value_of(e),
    ).contains_key(k) by {
        if segment::has_key(now, k) {
            let j = choose|j: int| 0 <= j < now.len() && (#[trigger] now[j]).key == k;
            assert(es[j].key == k);
        }
        if segment::has_key(es, k) {
            let j = choose|j: int| 0 <= j < es.len() && (#[trigger] es[j]).key == k;
            assert(now[j].key == k);
        }
        if k == e.key {
            assert(now[i].key == k);
        }
    }
    assert forall|k: Seq<char>| #[trigger] map_of(now).contains_key(k) implies map_of(now)[k]
        == map_of(es).insert(e.key, value_of(e))[k] by {
        let j = choose|j: int| 0 <= j < now.len() && (#[trigger] now[j]).key == k;
        segment::lemma_lookup(now, j);
        segment::lemma_lookup(es, j);
        if k == e.key {
            segment::lemma_lookup(now, i);
        }
    }
    assert(map_of(now) =~= map_of(es).insert(e.key, value_of(e)));
}

/// Putting a new key in its place among sorted entries.
proof fn lemma_insert(es: Seq<sstable::EntryView>, i: int, e: sstable::EntryView)
    requires
        segment::sorted(es),
        0 <= i <= es.len(),
        forall|p: int| 0 <= p < i ==> order::key_lt((#[trigger] es[p]).key, e.key),
        forall|p: int| i <= p < es.len() ==> !order::key_lt((#[trigger] es[p]).key, e.key),
        i < es.len() ==> es[i].key != e.key,
    ensures
        segment::sorted(es.insert(i, e)),
        map_of(es.insert(i, e)) == map_of(es).insert(e.key, value_of(e)),
{
    broadcast use order::group_key_order;

    let now = es.insert(i, e);
    assert forall|p: int| i <= p < es.len() implies order::key_lt(
        e.key,
        (#[trigger] es[p]).key,
    ) by {
        order::lemma_key_lt_total(es[i].key, e.key);
        if p > i {
            assert(order::key_lt(es[i].key, es[p].key));
        }
    }
    assert(segment::sorted(now)) by {
        assert forall|p: int, q: int| 0 <= p < q < now.len() implies order::key_lt(
            (#[trigger] now[p]).key,
            (#[trigger] now[q]).key,
        ) by {
            let a = if p < i {
                p
            } else {
                p - 1
            };
            let b = if q < i {
                q
            } else {
                q - 1
            };
            if p != i && q != i {
                assert(now[p] == es[a] && now[q] == es[b]);
            } else if p == i {
                assert(now[q] == es[b]);
            } else {
                assert(now[p] == es[a]);
            }
        }
    }
    assert forall|k: Seq<char>| map_of(now).contains_key(k) == #[trigger] map_of(es).insert(
        e.key,
        value_of(e),
    ).contains_key(k) by {
        if segment::has_key(now, k) {
            let j = choose|j: int| 0 <= j < now.len() && (#[trigger] now[j]).key == k;
            if j < i {
                assert(now[j] == es[j]);
            } else if j > i {
                assert(now[j] == es[j - 1]);
            }
        }
        if segment::has_key(es, k) {
            let j = choose|j: int| 0 <= j < es.len() && (#[trigger] es[j]).key == k;
            if j < i {
                assert(now[j] == es[j]);
            } else {
                assert(now[j + 1] == es[j]);
            }
        }
        if k == e.key {
            assert(now[i].key == k);
        }
    }
    assert forall|k: Seq<char>| #[trigger] map_of(now).contains_key(k) implies map_of(now)[k]
        == map_of(es).insert(e.key, value_of(e))[k] by {
        let j = choose|j: int| 0 <= j < now.len() && (#[trigger] now[j]).key == k;
        segment::lemma_lookup(now, j);
        if j < i {
            assert(now[j] == es[j]);
            segment::lemma_lookup(es, j);
        } else if j > i {
            assert(now[j] == es[j - 1]);
            segment::lemma_lookup(es, j - 1);
        }
    }
    assert(map_of(now) =~= map_of(es).insert(e.key, value_of(e)));
}

/// What the table holds after writes that the log gives.
pub open spec fn replay(
    m: Map<Seq<char>, ValueView>,
    es: Seq<wal::segment::WalEntryView>,
) -> Map<Seq<char>, ValueView>
    decreases es.len(),
{
    if es.len() == 0 {
        m
    } else {
        let e = es.last();
        replay(m, es.drop_last()).insert(
            e.key,
            ValueView { value: e.value, sequence_number: e.sequence_number },
        )
    }
}

/// The bytes that a write takes in the table.
pub open spec fn write_len(e: wal::segment::WalEntryView) -> nat {
    sstable::encoded_len(
        sstable::EntryView { key: e.key, value: e.value, sequence_number: e.sequence_number },
    )
}

/// The first sequence number of a file of the log, where the name is that of
/// one.
pub open spec fn first_in(name: Seq<char>, segment_size: u32) -> Option<int> {
    match wal::segment::numbers_in(name) {
        Some((log, no)) => {
            let first = log * 0x1_0000_0000 + no * segment_size;
            if first + segment_size <= u64::MAX {
                Some(first)
            } else {
                None
            }
        },
        None => None,
    }
}

/// The file is one of the log and ends after a sequence number.
pub open spec fn ends_after(f: wal::FileView, segment_size: u32, sequence_number: u64) -> bool {
    first_in(f.name, segment_size) matches Some(first) && sequence_number < first + f.bytes.len()
}

/// The files of the log that end after a sequence number.
pub open spec fn listed(
    files: Seq<wal::FileView>,
    segment_size: u32,
    sequence_number: u64,
) -> Seq<wal::FileView>
    decreases files.len(),
{
    if files.len() == 0 {
        Seq::empty()
    } else {
        let rest = listed(files.drop_last(), segment_size, sequence_number);
        if ends_after(files.last(), segment_size, sequence_number) {
            rest.push(files.last())
        } else {
            rest
        }
    }
}

/// One of the files is larger than it may be.
pub open spec fn too_large(files: Seq<wal::FileView>, segment_size: u32) -> bool {
    exists|i: int| 0 <= i < files.len() && (#[trigger] files[i]).bytes.len() > segment_size
}

/// Where a log is broken: the name of the file, and the position in it.
#[derive(Debug, PartialEq)]
pub struct Corruption {
    pub filename: String,
    pub offset: u64,
}

/// Why a table cannot be started.
#[derive(Debug, PartialEq, Eq, Clone, Copy, Structural)]
pub enum StartError {
    FileTooLarge,
}

/// The in-memory table and the log of its writes.
pub struct MemTable {
    table: Table,
    wal: Wal,
    max_size: u64,
}

/// A write that takes effect when its steps on the files of the log are done.
pub struct PendingWrite {
    entry: WalEntry,
    wal: Wal,
    steps: Vec<WalStep>,
}

impl PendingWrite {
    /// The record of the write.
    pub closed spec fn entry(&self) -> wal::segment::WalEntryView {
        self.entry@
    }

    /// The log when the steps are done.
    pub closed spec fn log(&self) -> Wal {
        self.wal
    }

    /// The steps.
    pub closed spec fn plan(&self) -> Seq<wal::StepView> {
        wal::step_views(self.steps@)
    }

    /// What is to be done to the files of the log.
    pub fn steps(&self) -> (r: &Vec<WalStep>)
        ensures
            wal::step_views(r@) == self.plan(),
    {
        &self.steps
    }
}

impl MemTable {
    /// What the table holds.
    pub closed spec fn values(&self) -> Map<Seq<char>, ValueView> {
        self.table@
    }

    /// The entries of the table, in the order of their keys.
    pub closed spec fn entries(&self) -> Seq<sstable::EntryView> {
        self.table.entries()
    }

    /// The log.
    pub closed spec fn log(&self) -> Wal {
        self.wal
    }

    /// The size of what the table holds.
    pub open spec fn filled(&self) -> nat {
        table_size(self.entries())
    }

    /// The size at which the table is to be flushed.
    pub closed spec fn limit(&self) -> u64 {
        self.max_size
    }

    /// The table and the log are well formed.
    pub closed spec fn wf(&self) -> bool {
        self.table.wf() && self.wal.wf()
    }

    /// What holds of the table and the log.
    pub proof fn lemma_parts(&self)
        requires
            self.wf(),
        ensures
            self.log().wf(),
            segment::sorted(self.entries()),
            self.values() == map_of(self.entries()),
    {
        self.table.lemma_table();
    }

    /// The files of the log that end after a sequence number. Files with other
    /// names are passed over.
    pub fn list_segment_files(
        files: &Vec<LogFile>,
        segment_size: &u32,
        sequence_number: &u64,
    ) -> (r: Vec<LogFile>)
        ensures
            wal::file_views(r@) == listed(
                wal::file_views(files@),
                *segment_size,
                *sequence_number,
            ),
    {
        let ghost fs = wal::file_views(files@);
        let n: usize = files.len();
        let mut r: Vec<LogFile> = Vec::new();
        let mut i: usize = 0;
        assert(fs.take(0) =~= Seq::<wal::FileView>::empty());
        assert(wal::file_views(r@) =~= Seq::<wal::FileView>::empty());
        while i < n
            invariant
                i <= n == files@.len(),
                fs == wal::file_views(files@),
                wal::file_views(r@) == listed(fs.take(i as int), *segment_size, *sequence_number),
            decreases n - i,
        {
            assert(fs.take(i + 1).drop_last() =~= fs.take(i as int));
            assert(fs[i as int] == files@[i as int]@);
            let selected: bool = match first_lsn_in(&files[i].name, *segment_size) {
                Some(first) => (*sequence_number as u128) < first as u128 + files[i].bytes.len()
                    as u128,
                None => false,
            };
            if selected {
                let ghost before = r@;
                let file: LogFile = wal::copy_file(&files[i]);
                r.push(file);
                assert(wal::file_views(r@) =~= wal::file_views(before).push(file@));
            }
            i += 1;
        }
        assert(fs.take(n as int) =~= fs);
        r
    }

    /// Writes what files of the log give into a table, the first of them read
    /// from an offset on. Gives the size of the table, and where the log is
    /// broken, if it is.
    pub fn recover(
        segments: &Vec<LogFile>,
        segment_size: u32,
        starting_offset: u64,
        table: &mut Table,
    ) -> (r: Result<u64, (u64, Corruption)>)
        requires
            old(table).wf(),
            !too_large(wal::file_views(segments@), segment_size),
        ensures
            final(table).wf(),
            ({
                let fs = wal::file_views(segments@);
                let log = wal::recover_log(
                    wal::contents(fs),
                    segment_size as int,
                    starting_offset as int,
                    wal::nothing_carried(),
                    0,
                );
                &&& final(table)@ == replay(old(table)@, log.entries)
                &&& match log.broken {
                    None => r == Ok::<u64, (u64, Corruption)>(
                        capped(table_size(final(table).entries())),
                    ),
                    Some((j, at)) => {
                        &&& r matches Err((size, broken))
                        &&& size == capped(table_size(final(table).entries()))
                        &&& 0 <= j < fs.len()
                        &&& broken.filename@ == fs[j].name
                        &&& broken.offset == at
                    },
                }
            }),
    {
        proof {
            assert forall|i: int| 0 <= i < segments@.len() implies (
            #[trigger] segments@[i]).bytes@.len() <= segment_size by {
                assert(wal::file_views(segments@)[i] == segments@[i]@);
            }
        }
        let (entries, broken) = wal::read_log(segments, segment_size, starting_offset);
        let ghost es = wal::segment::wal_views(entries@);
        let ghost before = table@;
        let n: usize = entries.len();
        let mut i: usize = 0;
        assert(es.take(0) =~= Seq::<wal::segment::WalEntryView>::empty());
        while i < n
            invariant
                i <= n == entries@.len(),
                es == wal::segment::wal_views(entries@),
                table.wf(),
                table@ == replay(before, es.take(i as int)),
            decreases n - i,
        {
            assert(es.take(i + 1).drop_last() =~= es.take(i as int));
            assert(es[i as int] == entries@[i as int]@);
            let entry: &WalEntry = &entries[i];
            let value = MemTableValue {
                value: entry.value.clone(),
                sequence_number: entry.sequence_number,
            };
            let _ = table.insert(entry.key.clone(), value);
            i += 1;
        }
        assert(es.take(n as int) =~= es);
        let size: u64 = table.size();
        match broken {
            None => Ok(size),
            Some((j, at)) => {
                assert(wal::file_views(segments@)[j as int] == segments@[j as int]@);
                Err((size, Corruption { filename: segments[j].name.clone(), offset: at }))
            },
        }
    }
}

/// The first sequence number of a file of the log.
fn first_lsn_in(name: &String, segment_size: u32) -> (r: Option<u64>)
    ensures
        match first_in(name@, segment_size) {
            Some(first) => r matches Some(v) && v == first,
            None => r is None,
        },
{
    match wal::segment::parse_filename(name.as_str()) {
        Some((log, no)) => {
            proof {
                assert(no * segment_size <= 0xFFFF_FFFF * 0xFFFF_FFFF) by (nonlinear_arith)
                    requires
                        0 <= no <= 0xFFFF_FFFF,
                        0 <= segment_size <= 0xFFFF_FFFF,
                ;
            }
            let first: u128 = log as u128 * 0x1_0000_0000 + (no * segment_size as u64) as u128;
            if first + segment_size as u128 <= u64::MAX as u128 {
                Some(first as u64)
            } else {
                None
            }
        },
        None => None,
    }
}

/// The last file that is listed, where one is.
proof fn lemma_listed(files: Seq<wal::FileView>, segment_size: u32, a: u64, b: u64)
    requires
        a <= b,
    ensures
        listed(files, segment_size, b).len() <= listed(files, segment_size, a).len(),
        forall|i: int|
            0 <= i < listed(files, segment_size, a).len() ==> ends_after(
                #[trigger] listed(files, segment_size, a)[i],
                segment_size,
                a,
            ),
    decreases files.len(),
{
    if files.len() > 0 {
        lemma_listed(files.drop_last(), segment_size, a, b);
        let rest = listed(files.drop_last(), segment_size, a);
        let all = listed(files, segment_size, a);
        assert forall|i: int| 0 <= i < all.len() implies ends_after(
            #[trigger] all[i],
            segment_size,
            a,
        ) by {
            if i < rest.len() {
                assert(all[i] == rest[i]);
            }
        }
    }
}

/// The steps that remove files.
pub open spec fn removals(files: Seq<wal::FileView>) -> Seq<wal::StepView> {
    files.map_values(|f: wal::FileView| wal::StepView::Remove(f.name))
}

/// The table that a start with these files gives, and the steps that it asks
/// for. Where no file of the log ends after the sequence number, the table is
/// empty and the log is begun. Else the log is read from that number on. Where
/// it is sound, it goes on in its last file. Where it is broken, it is cut off
/// there, and the files behind are removed.
pub open spec fn started(
    files: Seq<wal::FileView>,
    segment_size: u32,
    sequence_number: u64,
    m: MemTable,
    steps: Seq<wal::StepView>,
) -> bool {
    let selected = listed(files, segment_size, sequence_number);
    if selected.len() == 0 {
        &&& m.values() == Map::<Seq<char>, ValueView>::empty()
        &&& m.log().name() == wal::segment::segment_filename(0, 0, segment_size)
        &&& m.log().first() == 0
        &&& m.log().size() == 0
        &&& steps == seq![wal::StepView::Create(m.log().name())]
    } else {
        let log = wal::recover_log(
            wal::contents(selected),
            segment_size as int,
            (sequence_number % segment_size as u64) as int,
            wal::nothing_carried(),
            0,
        );
        &&& m.values() == replay(Map::empty(), log.entries)
        &&& match log.broken {
            None => {
                let last = listed(files, segment_size, 0).last();
                &&& m.log().name() == last.name
                &&& m.log().size() == last.bytes.len()
                &&& Some(m.log().first() as int) == first_in(last.name, segment_size)
                &&& steps.len() == 0
            },
            Some((j, at)) => {
                let name = selected[j].name;
                let cut = wal::StepView::Truncate(name, at);
                &&& m.log().name() == name
                &&& m.log().size() == at
                &&& Some(m.log().first() as int) == first_in(name, segment_size)
                &&& steps == seq![cut] + removals(
                    listed(
                        wal::perform(files, cut),
                        segment_size,
                        (m.log().first() + at) as u64,
                    ),
                )
            },
        }
    }
}

/// Whether one of the files is larger than it may be.
fn any_too_large(files: &Vec<LogFile>, segment_size: u32) -> (r: bool)
    ensures
        r == too_large(wal::file_views(files@), segment_size),
{
    let ghost fs = wal::file_views(files@);
    let n: usize = files.len();
    let mut i: usize = 0;
    while i < n
        invariant
            i <= n == files@.len(),
            fs == wal::file_views(files@),
            forall|k: int| 0 <= k < i ==> (#[trigger] fs[k]).bytes.len() <= segment_size,
        decreases n - i,
    {
        assert(fs[i as int] == files@[i as int]@);
        if files[i].bytes.len() as u64 > segment_size as u64 {
            return true;
        }
        i += 1;
    }
    false
}

/// The directory of the files.
fn directory_of(files: &Vec<LogFile>) -> (r: LogDirectory)
    ensures
        wal::file_views(r.files@) == wal::file_views(files@),
{
    let n: usize = files.len();
    let mut copies: Vec<LogFile> = Vec::new();
    let mut i: usize = 0;
    let ghost fs = wal::file_views(files@);
    assert(wal::file_views(copies@) =~= fs.take(0));
    while i < n
        invariant
            i <= n == files@.len(),
            fs == wal::file_views(files@),
            wal::file_views(copies@) == fs.take(i as int),
        decreases n - i,
    {
        let ghost before = copies@;
        let file: LogFile = wal::copy_file(&files[i]);
        copies.push(file);
        assert(fs[i as int] == files@[i as int]@);
        assert(wal::file_views(copies@) =~= wal::file_views(before).push(file@));
        assert(fs.take(i + 1) =~= fs.take(i as int).push(fs[i as int]));
        i += 1;
    }
    assert(fs.take(n as int) =~= fs);
    LogDirectory { files: copies }
}

impl MemTable {
    fn from(table: Table, wal: Wal, max_size: u64) -> (r: Self)
        ensures
            r.values() == table@,
            r.entries() == table.entries(),
            r.log() == wal,
            r.limit() == max_size,
            table.wf() && wal.wf() ==> r.wf(),
    {
        MemTable { table, wal, max_size }
    }

    /// Starts the table with the files of the log directory, in the order of
    /// their names. The writes from the sequence number on are recovered. Gives
    /// the table and what is to be done to the files before it is used.
    pub fn start(
        files: &Vec<LogFile>,
        segment_size: u32,
        sequence_number: u64,
        max_size: u64,
    ) -> (r: Result<(MemTable, Vec<WalStep>), StartError>)
        requires
            segment_size > 0,
        ensures
            ({
                let fs = wal::file_views(files@);
                let selected = listed(fs, segment_size, sequence_number);
                let all = listed(fs, segment_size, 0);
                let log = wal::recover_log(
                    wal::contents(selected),
                    segment_size as int,
                    (sequence_number % segment_size as u64) as int,
                    wal::nothing_carried(),
                    0,
                );
                &&& r is Err <==> selected.len() > 0 && (too_large(selected, segment_size)
                    || log.broken is None && all.last().bytes.len() > segment_size)
                &&& r matches Ok((m, steps)) ==> {
                    &&& m.wf()
                    &&& m.limit() == max_size
                    &&& m.log().max() == segment_size
                    &&& started(
                        fs,
                        segment_size,
                        sequence_number,
                        m,
                        wal::step_views(steps@),
                    )
                }
            }),
            (forall|i: int|
                0 <= i < files@.len() ==> (#[trigger] files@[i]).bytes@.len() <= segment_size)
                ==> r is Ok,
    {
        let ghost fs = wal::file_views(files@);
        proof {
            if forall|i: int|
                0 <= i < files@.len() ==> (#[trigger] files@[i]).bytes@.len() <= segment_size {
                assert forall|i: int| 0 <= i < fs.len() implies (#[trigger] fs[i]).bytes.len()
                    <= segment_size by {
                    assert(fs[i] == files@[i]@);
                }
                lemma_start_succeeds(fs, segment_size, sequence_number);
                lemma_start_succeeds(fs, segment_size, 0);
                let all = listed(fs, segment_size, 0);
                let selected = listed(fs, segment_size, sequence_number);
                if selected.len() > 0 {
                    lemma_listed_contains(fs, segment_size, sequence_number, selected[0]);
                    lemma_listed_contains(fs, segment_size, 0, selected[0]);
                    assert(selected.contains(selected[0]));
                    assert(all.contains(selected[0]));
                    assert(all.last() == all[all.len() - 1]);
                    assert(!(all[all.len() - 1].bytes.len() > segment_size));
                }
            }
        }
        let segments: Vec<LogFile> = MemTable::list_segment_files(
            files,
            &segment_size,
            &sequence_number,
        );
        let ghost selected = wal::file_views(segments@);
        let mut steps: Vec<WalStep> = Vec::new();
        let mut table: Table = Table::new();
        if segments.len() == 0 {
            let (wal, step) = Wal::create_new(segment_size);
            steps.push(step);
            assert(wal::step_views(steps@) =~= seq![step@]);
            return Ok((MemTable::from(table, wal, max_size), steps));
        }
        if any_too_large(&segments, segment_size) {
            return Err(StartError::FileTooLarge);
        }
        proof {
            lemma_listed(fs, segment_size, 0, sequence_number);
            lemma_listed(fs, segment_size, sequence_number, sequence_number);
        }
        match MemTable::recover(
            &segments,
            segment_size,
            sequence_number % segment_size as u64,
            &mut table,
        ) {
            Ok(_) => {
                let all: Vec<LogFile> = MemTable::list_segment_files(files, &segment_size, &0);
                let last: &LogFile = &all[all.len() - 1];
                assert(wal::file_views(all@).last() == last@);
                assert(ends_after(wal::file_views(all@)[all@.len() - 1], segment_size, 0));
                match Segment::from(last.name.clone(), last.bytes.len() as u64, segment_size) {
                    Some(segment) => {
                        assert(wal::step_views(steps@).len() == 0);
                        Ok(
                            (
                                MemTable::from(
                                    table,
                                    Wal::from_segment(segment),
                                    max_size,
                                ),
                                steps,
                            ),
                        )
                    },
                    None => Err(StartError::FileTooLarge),
                }
            },
            Err((_, broken)) => {
                let ghost log = wal::recover_log(
                    wal::contents(selected),
                    segment_size as int,
                    (sequence_number % segment_size as u64) as int,
                    wal::nothing_carried(),
                    0,
                );
                let ghost (j, at) = log.broken.unwrap();
                proof {
                    wal::lemma_broken_in(
                        wal::contents(selected),
                        segment_size as int,
                        (sequence_number % segment_size as u64) as int,
                    );
                    assert(ends_after(selected[j], segment_size, sequence_number));
                    assert(wal::contents(selected)[j] == selected[j].bytes);
                    assert(!(selected[j].bytes.len() > segment_size));
                }
                let segment: Segment = Segment::from(
                    broken.filename.clone(),
                    broken.offset,
                    segment_size,
                ).unwrap();
                let wal: Wal = Wal::from_segment(segment);
                let mut dir: LogDirectory = directory_of(files);
                let cut: WalStep = WalStep::Truncate(broken.filename, broken.offset);
                dir.perform(&cut);
                let gone: Vec<LogFile> = MemTable::list_segment_files(
                    &dir.files,
                    &segment_size,
                    &wal.next_sequence_number(),
                );
                let ghost g = wal::file_views(gone@);
                let ghost first = cut@;
                steps.push(cut);
                let n: usize = gone.len();
                let mut i: usize = 0;
                assert(wal::step_views(steps@) =~= seq![first] + removals(g).take(0));
                while i < n
                    invariant
                        i <= n == gone@.len(),
                        g == wal::file_views(gone@),
                        wal::step_views(steps@) == seq![first] + removals(g).take(i as int),
                    decreases n - i,
                {
                    let ghost before = steps@;
                    let step: WalStep = WalStep::Remove(gone[i].name.clone());
                    steps.push(step);
                    proof {
                        assert(g[i as int] == gone@[i as int]@);
                        assert(wal::step_views(steps@) =~= wal::step_views(before).push(step@));
                        assert(removals(g).take(i + 1) =~= removals(g).take(i as int).push(
                            removals(g)[i as int],
                        ));
                        assert(wal::step_views(steps@) =~= seq![first] + removals(g).take(i + 1));
                    }
                    i += 1;
                }
                assert(removals(g).take(n as int) =~= removals(g));
                Ok((MemTable::from(table, wal, max_size), steps))
            },
        }
    }

    /// What the table holds for a key.
    pub fn get(&self, key: &String) -> (r: Option<MemTableValue>)
        requires
            self.wf(),
        ensures
            r is Some <==> self.values().contains_key(key@),
            r matches Some(v) ==> v@ == self.values()[key@],
    {
        self.table.get(key)
    }

    /// The record of a write to a key can be appended to the log.
    pub open spec fn accepts(&self, key: Seq<char>, value: Option<Seq<char>>) -> bool {
        let e = next_entry(*self, key, value);
        &&& vstd::utf8::encode_utf8(key).len() > 0
        &&& wal::segment::record_len(e) <= usize::MAX
        &&& wal::appendable(
            self.log().size() as int,
            self.log().max(),
            e.sequence_number,
            wal::segment::record_len(e),
        )
    }

    /// Whether the record of a write to a key can be appended to the log: the
    /// key is not empty, and the record fits into a file.
    pub fn can_write(&self, key: &String, value: Option<&String>) -> (r: bool)
        requires
            self.wf(),
        ensures
            r == self.accepts(
                key@,
                match value {
                    Some(v) => Some(v@),
                    None => None,
                },
            ),
    {
        proof {
            broadcast use codec::lemma_le_bytes_len;

            self.lemma_parts();
            self.log().lemma_active();
        }
        let key_len: usize = byte_len(key);
        if key_len == 0 {
            return false;
        }
        let value_len: u128 = match value {
            Some(v) => byte_len(v) as u128 + 4,
            None => 0,
        };
        let total: u128 = 21 + key_len as u128 + value_len;
        if total > usize::MAX as u128 {
            return false;
        }
        self.wal.can_append(self.wal.next_sequence_number(), total as usize)
    }

    /// Prepares a put: the record that is written to the log first.
    pub fn put(&self, key: String, value: String) -> (w: PendingWrite)
        requires
            self.wf(),
            self.accepts(key@, Some(value@)),
        ensures
            w.entry() == next_entry(*self, key@, Some(value@)),
            planned(*self, w),
    {
        let sequence_number: u64 = self.wal.next_sequence_number();
        let entry = WalEntry {
            operation_type: OpType::Put,
            key,
            value: Some(value),
            sequence_number,
        };
        let (wal, steps) = self.wal.append(&entry);
        PendingWrite { entry, wal, steps }
    }

    /// Prepares a delete: the record that is written to the log first.
    pub fn delete(&self, key: &String) -> (w: PendingWrite)
        requires
            self.wf(),
            self.accepts(key@, None),
        ensures
            w.entry() == next_entry(*self, key@, None),
            planned(*self, w),
    {
        let sequence_number: u64 = self.wal.next_sequence_number();
        let entry = WalEntry {
            operation_type: OpType::Delete,
            key: key.clone(),
            value: None,
            sequence_number,
        };
        let (wal, steps) = self.wal.append(&entry);
        PendingWrite { entry, wal, steps }
    }

    /// Lets a write take effect whose steps are done. Gives what the table held
    /// for the key before.
    pub fn complete(&mut self, write: PendingWrite) -> (r: Option<MemTableValue>)
        requires
            old(self).wf(),
            write.log().wf(),
        ensures
            final(self).wf(),
            final(self).log() == write.log(),
            final(self).limit() == old(self).limit(),
            final(self).values() == old(self).values().insert(
                write.entry().key,
                ValueView {
                    value: write.entry().value,
                    sequence_number: write.entry().sequence_number,
                },
            ),
            final(self).filled() + held_len(old(self).values(), write.entry().key) == old(
                self,
            ).filled() + write_len(write.entry()),
            r is Some <==> old(self).values().contains_key(write.entry().key),
            r matches Some(v) ==> v@ == old(self).values()[write.entry().key],
    {
        let PendingWrite { entry, wal, steps: _ } = write;
        let value = MemTableValue {
            value: entry.value.clone(),
            sequence_number: entry.sequence_number,
        };
        self.wal = wal;
        self.table.insert(entry.key, value)
    }

    /// Whether the table is to be flushed before the next write.
    pub fn needs_flush(&self) -> (r: bool)
        requires
            self.wf(),
        ensures
            r == (self.filled() >= self.limit()),
    {
        self.table.size() >= self.max_size
    }

    /// The table, which is to be flushed.
    pub fn contents(&self) -> (t: &Table)
        ensures
            t@ == self.values(),
            t.entries() == self.entries(),
            self.wf() ==> t.wf(),
    {
        &self.table
    }

    /// Empties the table, which was flushed.
    pub fn flushed(&mut self)
        requires
            old(self).wf(),
        ensures
            final(self).wf(),
            final(self).values() == Map::<Seq<char>, ValueView>::empty(),
            final(self).filled() == 0,
            final(self).limit() == old(self).limit(),
            final(self).log() == old(self).log(),
    {
        self.table.clear();
    }

    /// The name of the file that the next write is appended to.
    pub fn log_name(&self) -> (s: String)
        ensures
            s@ == self.log().name(),
    {
        self.wal.file_name()
    }

    /// The sequence number of the next write.
    pub fn next_sequence_number(&self) -> (n: u64)
        requires
            self.wf(),
        ensures
            n == self.log().first() + self.log().size(),
    {
        self.wal.next_sequence_number()
    }
}

/// The record of the next write.
pub open spec fn next_entry(
    m: MemTable,
    key: Seq<char>,
    value: Option<Seq<char>>,
) -> wal::segment::WalEntryView {
    wal::segment::WalEntryView {
        operation_type: if value is Some {
            OpType::Put
        } else {
            OpType::Delete
        },
        key,
        value,
        sequence_number: (m.log().first() + m.log().size()) as u64,
    }
}

/// The steps append the record of the write to the log.
pub open spec fn planned(m: MemTable, w: PendingWrite) -> bool {
    let e = w.entry();
    let n = wal::segment::record_len(e);
    let max = m.log().max();
    let next = wal::next_filename(e.sequence_number, n, max);
    let fits = m.log().size() + n <= max;
    &&& w.log().wf()
    &&& w.log().max() == max
    &&& w.log().size() == wal::size_after(m.log().size() as int, max as int, n as int)
    &&& w.log().name() == (if fits {
        m.log().name()
    } else {
        next
    })
    &&& w.log().first() == (if fits {
        m.log().first() as int
    } else {
        wal::segment::first_of((e.sequence_number + n) as u64, max)
    })
    &&& w.plan() == wal::append_steps(
        m.log().size() as int,
        max as int,
        wal::segment::record_bytes(e),
        next,
    )
}

/// What the files of a log give, read from a position in the first of them on.
pub open spec fn log_of(files: Seq<wal::FileView>, start: int, max: u32) -> wal::Recovered {
    wal::recover_log(wal::contents(files), max as int, start, wal::nothing_carried(), 0)
}

/// The files of the log are sound from a position in the first of them on, and
/// the log goes on at the end of the last of them.
pub open spec fn holds_log(files: Seq<wal::FileView>, start: int, log: Wal) -> bool {
    &&& files.len() > 0
    &&& 0 <= start <= files[0].bytes.len()
    &&& !too_large(files, log.max())
    &&& files.last().name == log.name()
    &&& files.last().bytes.len() == log.size()
    &&& first_in(files.last().name, log.max()) == Some(log.first() as int)
    &&& log_of(files, start, log.max()).broken is None
}

/// The files of the log, read from a position in the first of them on, give
/// exactly what the table holds, and the log goes on at the end of the last of
/// them.
pub open spec fn backs(files: Seq<wal::FileView>, start: int, m: MemTable) -> bool {
    &&& holds_log(files, start, m.log())
    &&& m.values() == replay(Map::empty(), log_of(files, start, m.log().max()).entries)
}

/// A write goes behind the others: when its steps are done, the files of the
/// log give what they gave before, and then the write.
pub proof fn lemma_write_is_logged(
    files: Seq<wal::FileView>,
    start: int,
    before: MemTable,
    write: PendingWrite,
)
    requires
        before.wf(),
        holds_log(files, start, before.log()),
        planned(before, write),
        wal::segment::readable(write.entry()),
        wal::appendable(
            before.log().size() as int,
            before.log().max(),
            write.entry().sequence_number,
            wal::segment::record_len(write.entry()),
        ),
    ensures
        holds_log(wal::perform_all(files, write.plan()), start, write.log()),
        log_of(
            wal::perform_all(files, write.plan()),
            start,
            write.log().max(),
        ).entries == log_of(files, start, before.log().max()).entries.push(write.entry()),
{
    let e = write.entry();
    let max = before.log().max();
    let record = wal::segment::record_bytes(e);
    let next = wal::next_filename(e.sequence_number, wal::segment::record_len(e), max);
    let now = wal::perform_all(files, write.plan());
    let cs = wal::contents(files);
    before.lemma_parts();
    before.log().lemma_active();
    wal::segment::lemma_record_len(e);
    wal::lemma_append_steps(files, max as int, record, next);
    assert(cs.last() == files.last().bytes);
    assert(cs[0] == files[0].bytes);
    wal::lemma_append_recovered(cs, max as int, start, wal::nothing_carried(), 0, e);
    let size = files.last().bytes.len() as int;
    let free = max - size;
    let ncs = wal::contents(now);
    assert forall|i: int| 0 <= i < now.len() implies (#[trigger] now[i]).bytes.len() <= max by {
        assert(ncs[i] == now[i].bytes);
        if i < files.len() - 1 {
            assert(cs[i] == files[i].bytes);
            assert(ncs[i] == cs[i]);
            assert(!(files[i].bytes.len() > max));
        } else if record.len() <= free {
            assert(ncs[i] == cs.last() + record);
        } else if wal::segment::HEADER_SIZE <= free {
            let full = cs.last() + record.take(wal::segment::HEADER_SIZE as int)
                + wal::segment::zeros((free - wal::segment::HEADER_SIZE) as nat);
            assert(i == files.len() - 1 ==> ncs[i] == full);
            assert(i == files.len() ==> ncs[i] == record.skip(wal::segment::HEADER_SIZE as int));
        } else {
            assert(i == files.len() - 1 ==> ncs[i] == cs.last() + wal::segment::zeros(
                free as nat,
            ));
            assert(i == files.len() ==> ncs[i] == record);
        }
    }
    assert(now[0].bytes.len() >= files[0].bytes.len()) by {
        assert(ncs[0] == now[0].bytes);
        if files.len() > 1 {
            assert(ncs[0] == cs[0]);
        }
    }
    if size + record.len() > max {
        lemma_next_first((e.sequence_number + wal::segment::record_len(e)) as u64, max);
    }
}

/// A start reads every file of the log: each has something after the first
/// sequence number, or there is only one, with nothing in it yet.
pub open spec fn all_read(files: Seq<wal::FileView>, segment_size: u32) -> bool {
    ||| forall|i: int| 0 <= i < files.len() ==> ends_after(#[trigger] files[i], segment_size, 0)
    ||| files.len() == 1 && files[0].bytes.len() == 0
}

/// Files that all end after a sequence number are all listed.
pub proof fn lemma_all_listed(files: Seq<wal::FileView>, segment_size: u32, sequence_number: u64)
    requires
        forall|i: int|
            0 <= i < files.len() ==> ends_after(#[trigger] files[i], segment_size, sequence_number),
    ensures
        listed(files, segment_size, sequence_number) == files,
    decreases files.len(),
{
    if files.len() > 0 {
        let init = files.drop_last();
        assert forall|i: int| 0 <= i < init.len() implies ends_after(
            #[trigger] init[i],
            segment_size,
            sequence_number,
        ) by {
            assert(init[i] == files[i]);
        }
        lemma_all_listed(init, segment_size, sequence_number);
        assert(files.last() == files[files.len() - 1]);
        assert(init.push(files.last()) =~= files);
    }
}

/// A start reads every file that a write has gone to.
pub proof fn lemma_written_files_read(
    files: Seq<wal::FileView>,
    start: int,
    before: MemTable,
    write: PendingWrite,
)
    requires
        before.wf(),
        holds_log(files, start, before.log()),
        all_read(files, before.log().max()),
        planned(before, write),
        wal::appendable(
            before.log().size() as int,
            before.log().max(),
            write.entry().sequence_number,
            wal::segment::record_len(write.entry()),
        ),
    ensures
        all_read(wal::perform_all(files, write.plan()), before.log().max()),
{
    let e = write.entry();
    let max = before.log().max();
    let record = wal::segment::record_bytes(e);
    let next = wal::next_filename(e.sequence_number, wal::segment::record_len(e), max);
    let now = wal::perform_all(files, write.plan());
    let cs = wal::contents(files);
    let ncs = wal::contents(now);
    before.lemma_parts();
    before.log().lemma_active();
    wal::segment::lemma_record_len(e);
    wal::lemma_append_steps(files, max as int, record, next);
    let size = files.last().bytes.len() as int;
    let free = max - size;
    assert(cs.last() == files.last().bytes);
    if size + record.len() > max {
        lemma_next_first((e.sequence_number + wal::segment::record_len(e)) as u64, max);
    }
    assert forall|i: int| 0 <= i < now.len() implies ends_after(#[trigger] now[i], max, 0) by {
        assert(ncs[i] == now[i].bytes);
        if i < files.len() - 1 {
            assert(cs[i] == files[i].bytes);
            assert(ncs[i] == cs[i]);
            assert(ends_after(files[i], max, 0));
            assert(now[i].name == files[i].name);
        } else if record.len() <= free {
            assert(ncs[i] == cs.last() + record);
            assert(now[i].name == files[i].name);
            assert(now[i].bytes.len() > 0);
        } else if wal::segment::HEADER_SIZE <= free {
            let full = cs.last() + record.take(wal::segment::HEADER_SIZE as int)
                + wal::segment::zeros((free - wal::segment::HEADER_SIZE) as nat);
            assert(i == files.len() - 1 ==> ncs[i] == full);
            assert(i == files.len() ==> ncs[i] == record.skip(wal::segment::HEADER_SIZE as int));
            assert(now[i].bytes.len() > 0);
            assert(i == files.len() - 1 ==> now[i].name == files[i].name);
        } else {
            assert(i == files.len() - 1 ==> ncs[i] == cs.last() + wal::segment::zeros(
                free as nat,
            ));
            assert(i == files.len() ==> ncs[i] == record);
            assert(max > 0);
            assert(now[i].bytes.len() > 0);
            assert(i == files.len() - 1 ==> now[i].name == files[i].name);
        }
    }
}

/// The first sequence number of a file is a multiple of the size of the files,
/// where that divides the size of a logical log.
pub proof fn lemma_first_in(name: Seq<char>, segment_size: u32)
    requires
        segment_size > 0,
        0x1_0000_0000int % segment_size as int == 0,
    ensures
        first_in(name, segment_size) matches Some(first) ==> first % segment_size as int == 0,
{
    if let Some((log, no)) = wal::segment::numbers_in(name) {
        let m = segment_size as int;
        let q = 0x1_0000_0000int / m;
        vstd::arithmetic::div_mod::lemma_fundamental_div_mod(0x1_0000_0000, m);
        assert(log * 0x1_0000_0000 + no * m == (log * q + no) * m) by (nonlinear_arith)
            requires
                0x1_0000_0000 == m * q,
        ;
        vstd::arithmetic::div_mod::lemma_mod_multiples_basic(log * q + no, m);
    }
}

/// A file that a write begins has sequence numbers behind those of the last one.
proof fn lemma_next_behind(m: MemTable, e: wal::segment::WalEntryView)
    requires
        m.wf(),
        wal::appendable(
            m.log().size() as int,
            m.log().max(),
            e.sequence_number,
            wal::segment::record_len(e),
        ),
        e.sequence_number == m.log().first() + m.log().size(),
        m.log().size() + wal::segment::record_len(e) > m.log().max(),
    ensures
        first_in(
            wal::next_filename(e.sequence_number, wal::segment::record_len(e), m.log().max()),
            m.log().max(),
        ) matches Some(first) && first > m.log().first(),
{
    let max = m.log().max();
    let x = (e.sequence_number + wal::segment::record_len(e)) as u64;
    m.lemma_parts();
    m.log().lemma_active();
    lemma_next_first(x, max);
    let hi = (x / 0x1_0000_0000) as int;
    let lo = (x % 0x1_0000_0000) as int;
    let s = max as int;
    assert(lo - lo / s * s < s) by (nonlinear_arith)
        requires
            s > 0,
            lo >= 0,
    ;
}

/// The files of the log where a write was interrupted: some of what it appends
/// to the files is there, and a file that it begins has its name.
pub open spec fn crashed(
    files: Seq<wal::FileView>,
    max: u32,
    e: wal::segment::WalEntryView,
    now: Seq<wal::FileView>,
    k: int,
) -> bool {
    &&& wal::interrupted(
        wal::contents(files),
        max as int,
        wal::segment::record_bytes(e),
        wal::contents(now),
        k,
    )
    &&& forall|i: int| 0 <= i < files.len() ==> (#[trigger] now[i]).name == files[i].name
    &&& now.len() > files.len() ==> now.last().name == wal::next_filename(
        e.sequence_number,
        wal::segment::record_len(e),
        max,
    )
}

/// A write that was interrupted leaves the log as it was: the files give what
/// they gave before, a start reads them all, and the log is broken nowhere but
/// where the write begins.
pub proof fn lemma_crash_keeps_log(
    files: Seq<wal::FileView>,
    before: MemTable,
    write: PendingWrite,
    now: Seq<wal::FileView>,
    k: int,
)
    requires
        before.wf(),
        holds_log(files, 0, before.log()),
        all_read(files, before.log().max()),
        wal::segment::readable(write.entry()),
        write.entry().sequence_number == before.log().first() + before.log().size(),
        wal::appendable(
            before.log().size() as int,
            before.log().max(),
            write.entry().sequence_number,
            wal::segment::record_len(write.entry()),
        ),
        crashed(files, before.log().max(), write.entry(), now, k),
    ensures
        log_of(now, 0, before.log().max()).entries == log_of(
            files,
            0,
            before.log().max(),
        ).entries,
        all_read(now, before.log().max()),
        log_of(now, 0, before.log().max()).broken matches Some((j, at)) ==> {
            ||| j == files.len() - 1 && at == before.log().size()
            ||| now.len() > files.len() && j == files.len() && at == 0
        },
{
    let e = write.entry();
    let max = before.log().max();
    let record = wal::segment::record_bytes(e);
    let cs = wal::contents(files);
    let ncs = wal::contents(now);
    let last = files.last();
    let size = last.bytes.len() as int;
    let first = wal::to_last(size, max as int, record);
    before.lemma_parts();
    before.log().lemma_active();
    wal::segment::lemma_record_len(e);
    assert(cs.last() == last.bytes);
    assert(cs[0] == files[0].bytes);
    wal::lemma_interrupted_append(cs, max as int, 0, wal::nothing_carried(), 0, e, ncs, k);
    assert(now.len() == ncs.len());
    if size + record.len() > max {
        lemma_next_behind(before, e);
    }
    if now.len() == 1 && now[0].bytes.len() == 0 {
    } else {
        assert forall|i: int| 0 <= i < now.len() implies ends_after(#[trigger] now[i], max, 0) by {
            assert(ncs[i] == now[i].bytes);
            if i < files.len() - 1 {
                assert(cs[i] == files[i].bytes);
                assert(ncs[i] == cs[i]);
                assert(ends_after(files[i], max, 0));
            } else if i == files.len() - 1 {
                assert(now[i].name == files[i].name);
                if now.len() == files.len() {
                    assert(ncs[i] == cs.last() + first.take(k));
                } else {
                    assert(ncs[i] == cs.last() + first);
                    assert(max > 0);
                }
                if now[i].bytes.len() == 0 {
                    assert(files.len() > 1);
                    assert(ends_after(files[i], max, 0));
                }
            }
        }
    }
}

/// A write survives a crash: when its steps are done, the files of the log give
/// the table with the write.
pub proof fn lemma_write_is_durable(
    files: Seq<wal::FileView>,
    start: int,
    before: MemTable,
    write: PendingWrite,
    after: MemTable,
)
    requires
        before.wf(),
        backs(files, start, before),
        planned(before, write),
        wal::segment::readable(write.entry()),
        wal::appendable(
            before.log().size() as int,
            before.log().max(),
            write.entry().sequence_number,
            wal::segment::record_len(write.entry()),
        ),
        after.log() == write.log(),
        after.values() == before.values().insert(
            write.entry().key,
            ValueView {
                value: write.entry().value,
                sequence_number: write.entry().sequence_number,
            },
        ),
    ensures
        backs(wal::perform_all(files, write.plan()), start, after),
{
    lemma_write_is_logged(files, start, before, write);
    let es = log_of(files, start, before.log().max()).entries;
    assert(es.push(write.entry()).drop_last() =~= es);
}

/// The name of a file gives the first sequence number in it.
proof fn lemma_next_first(sequence_number: u64, segment_size: u32)
    requires
        segment_size > 0,
        wal::segment::first_of(sequence_number, segment_size) + segment_size <= u64::MAX,
    ensures
        first_in(
            wal::segment::segment_filename(0, sequence_number, segment_size),
            segment_size,
        ) == Some(wal::segment::first_of(sequence_number, segment_size)),
{
    wal::segment::lemma_filename_numbers(0, sequence_number, segment_size);
}

/// After a start the files of the log give the table: those that were read,
/// where the log is sound.
pub proof fn lemma_started_sound(
    files: Seq<wal::FileView>,
    segment_size: u32,
    sequence_number: u64,
    m: MemTable,
    steps: Seq<wal::StepView>,
)
    requires
        started(files, segment_size, sequence_number, m, steps),
        m.log().max() == segment_size,
        segment_size > 0,
        ({
            let selected = listed(files, segment_size, sequence_number);
            let start = (sequence_number % segment_size as u64) as int;
            &&& selected.len() > 0
            &&& !too_large(selected, segment_size)
            &&& start <= selected[0].bytes.len()
            &&& selected.last() == listed(files, segment_size, 0).last()
            &&& wal::recover_log(
                wal::contents(selected),
                segment_size as int,
                start,
                wal::nothing_carried(),
                0,
            ).broken is None
        }),
    ensures
        backs(
            listed(files, segment_size, sequence_number),
            (sequence_number % segment_size as u64) as int,
            m,
        ),
{
}

/// After a start the files of the log give the table: those before the first
/// broken record, with its file cut off there, where the log is broken.
pub proof fn lemma_started_broken(
    files: Seq<wal::FileView>,
    segment_size: u32,
    sequence_number: u64,
    m: MemTable,
    steps: Seq<wal::StepView>,
    j: int,
    at: int,
)
    requires
        started(files, segment_size, sequence_number, m, steps),
        m.log().max() == segment_size,
        segment_size > 0,
        ({
            let selected = listed(files, segment_size, sequence_number);
            let start = (sequence_number % segment_size as u64) as int;
            &&& selected.len() > 0
            &&& !too_large(selected, segment_size)
            &&& start <= selected[0].bytes.len()
            &&& wal::recover_log(
                wal::contents(selected),
                segment_size as int,
                start,
                wal::nothing_carried(),
                0,
            ).broken == Some((j, at))
        }),
    ensures
        ({
            let selected = listed(files, segment_size, sequence_number);
            let kept = selected.take(j).push(
                wal::FileView { name: selected[j].name, bytes: selected[j].bytes.take(at) },
            );
            backs(kept, (sequence_number % segment_size as u64) as int, m)
        }),
{
    let selected = listed(files, segment_size, sequence_number);
    let start = (sequence_number % segment_size as u64) as int;
    let cs = wal::contents(selected);
    wal::lemma_broken_place(cs, segment_size as int, start, wal::nothing_carried(), 0);
    wal::lemma_truncated_log(cs, segment_size as int, start, wal::nothing_carried(), 0, j, at);
    let kept = selected.take(j).push(
        wal::FileView { name: selected[j].name, bytes: selected[j].bytes.take(at) },
    );
    assert(cs[j] == selected[j].bytes);
    assert(wal::contents(kept) =~= wal::truncated(cs, j, at));
    assert forall|i: int| 0 <= i < kept.len() implies (#[trigger] kept[i]).bytes.len()
        <= segment_size by {
        assert(!(selected[i].bytes.len() > segment_size));
    }
    assert(kept[0].bytes.len() >= start);
}

/// A restart gives the table back: a start that reads the files which give a
/// table gives that table.
pub proof fn lemma_restart(
    files: Seq<wal::FileView>,
    sequence_number: u64,
    m: MemTable,
    restarted: MemTable,
    steps: Seq<wal::StepView>,
)
    requires
        m.log().max() > 0,
        backs(
            listed(files, m.log().max(), sequence_number),
            (sequence_number % m.log().max() as u64) as int,
            m,
        ),
        started(files, m.log().max(), sequence_number, restarted, steps),
    ensures
        restarted.values() == m.values(),
        steps.len() == 0,
        listed(files, m.log().max(), 0).last() == listed(
            files,
            m.log().max(),
            sequence_number,
        ).last() ==> {
            &&& restarted.log().name() == m.log().name()
            &&& restarted.log().first() == m.log().first()
            &&& restarted.log().size() == m.log().size()
        },
{
}

/// The files of a log stand in the order of the sequence numbers in them, each
/// of them is read, and none reaches into the next.
pub open spec fn in_sequence(files: Seq<wal::FileView>, segment_size: u32) -> bool {
    &&& forall|i: int| 0 <= i < files.len() ==> ends_after(#[trigger] files[i], segment_size, 0)
    &&& forall|i: int, k: int|
        0 <= i < k < files.len() ==> {
            let a = first_in((#[trigger] files[i]).name, segment_size).unwrap();
            let b = first_in((#[trigger] files[k]).name, segment_size).unwrap();
            a < b && a + files[i].bytes.len() <= b
        }
}

/// Files that do not have a name stay.
proof fn lemma_without(files: Seq<wal::FileView>, name: Seq<char>)
    requires
        forall|i: int| 0 <= i < files.len() ==> (#[trigger] files[i]).name != name,
    ensures
        wal::without(files, name) == files,
    decreases files.len(),
{
    if files.len() > 0 {
        let init = files.drop_last();
        assert forall|i: int| 0 <= i < init.len() implies (#[trigger] init[i]).name != name by {
            assert(init[i] == files[i]);
        }
        lemma_without(init, name);
        assert(files.last() == files[files.len() - 1]);
        assert(init.push(files.last()) =~= files);
    }
}

/// One file after others, none of which has its name, is removed alone.
proof fn lemma_without_one(a: Seq<wal::FileView>, f: wal::FileView, c: Seq<wal::FileView>)
    requires
        forall|i: int| 0 <= i < a.len() ==> (#[trigger] a[i]).name != f.name,
        forall|i: int| 0 <= i < c.len() ==> (#[trigger] c[i]).name != f.name,
    ensures
        wal::without(a + (seq![f] + c), f.name) == a + c,
    decreases c.len(),
{
    let all = a + (seq![f] + c);
    if c.len() == 0 {
        lemma_without(a, f.name);
        assert(all.drop_last() =~= a);
        assert(a + c =~= a);
    } else {
        let init = c.drop_last();
        assert forall|i: int| 0 <= i < init.len() implies (#[trigger] init[i]).name != f.name by {
            assert(init[i] == c[i]);
        }
        lemma_without_one(a, f, init);
        assert(all.drop_last() =~= a + (seq![f] + init));
        assert(all.last() == c[c.len() - 1]);
        assert((a + init).push(c.last()) =~= a + c);
    }
}

/// Removing files that stand together leaves those around them.
proof fn lemma_removed(
    a: Seq<wal::FileView>,
    b: Seq<wal::FileView>,
    c: Seq<wal::FileView>,
)
    requires
        forall|i: int, k: int|
            0 <= i < a.len() && 0 <= k < b.len() ==> (#[trigger] a[i]).name != (
            #[trigger] b[k]).name,
        forall|i: int, k: int|
            0 <= i < c.len() && 0 <= k < b.len() ==> (#[trigger] c[i]).name != (
            #[trigger] b[k]).name,
        forall|i: int, k: int|
            0 <= i < k < b.len() ==> (#[trigger] b[i]).name != (#[trigger] b[k]).name,
    ensures
        wal::perform_all(a + (b + c), removals(b)) == a + c,
    decreases b.len(),
{
    if b.len() == 0 {
        assert(b + c =~= c);
    } else {
        let init = b.drop_last();
        let f = b.last();
        let d = seq![f] + c;
        assert(f == b[b.len() - 1]);
        assert forall|i: int, k: int| 0 <= i < d.len() && 0 <= k < init.len() implies (
        #[trigger] d[i]).name != (#[trigger] init[k]).name by {
            assert(init[k] == b[k]);
            if i > 0 {
                assert(d[i] == c[i - 1]);
            }
        }
        lemma_removed(a, init, d);
        assert(a + (b + c) =~= a + (init + d));
        assert(removals(b).drop_last() =~= removals(init));
        assert(removals(b).last() == wal::StepView::Remove(f.name));
        lemma_without_one(a, f, c);
    }
}

/// The files that end after a sequence number, of two lists of files.
proof fn lemma_listed_concat(
    a: Seq<wal::FileView>,
    b: Seq<wal::FileView>,
    segment_size: u32,
    n: u64,
)
    ensures
        listed(a + b, segment_size, n) == listed(a, segment_size, n) + listed(b, segment_size, n),
    decreases b.len(),
{
    if b.len() == 0 {
        assert(a + b =~= a);
        assert(listed(a, segment_size, n) + listed(b, segment_size, n) =~= listed(
            a,
            segment_size,
            n,
        ));
    } else {
        let init = b.drop_last();
        lemma_listed_concat(a, init, segment_size, n);
        assert((a + b).drop_last() =~= a + init);
        assert((a + b).last() == b.last());
        assert(listed(a + b, segment_size, n) =~= listed(a, segment_size, n) + listed(
            b,
            segment_size,
            n,
        ));
    }
}

/// Of files that end before a sequence number none is listed.
proof fn lemma_none_listed(files: Seq<wal::FileView>, segment_size: u32, n: u64)
    requires
        forall|i: int| 0 <= i < files.len() ==> !ends_after(#[trigger] files[i], segment_size, n),
    ensures
        listed(files, segment_size, n).len() == 0,
    decreases files.len(),
{
    if files.len() > 0 {
        let init = files.drop_last();
        assert forall|i: int| 0 <= i < init.len() implies !ends_after(
            #[trigger] init[i],
            segment_size,
            n,
        ) by {
            assert(init[i] == files[i]);
        }
        lemma_none_listed(init, segment_size, n);
        assert(files.last() == files[files.len() - 1]);
    }
}

/// The files of a log up to a position in one of them.
pub open spec fn kept(files: Seq<wal::FileView>, j: int, at: int) -> Seq<wal::FileView> {
    files.take(j).push(
        wal::FileView { name: files[j].name, bytes: files[j].bytes.take(at) },
    )
}

/// The names of all files differ.
spec fn names_differ(files: Seq<wal::FileView>) -> bool {
    forall|i: int, k: int|
        0 <= i < k < files.len() ==> (#[trigger] files[i]).name != (#[trigger] files[k]).name
}

/// The files of a log have different names.
proof fn lemma_names_differ(files: Seq<wal::FileView>, segment_size: u32)
    requires
        in_sequence(files, segment_size),
    ensures
        names_differ(files),
{
    assert forall|i: int, k: int| 0 <= i < k < files.len() implies (#[trigger] files[i]).name != (
    #[trigger] files[k]).name by {
        assert(first_in(files[i].name, segment_size).unwrap() < first_in(
            files[k].name,
            segment_size,
        ).unwrap());
    }
}

/// Cutting a file off leaves the others.
proof fn lemma_cut_one(files: Seq<wal::FileView>, j: int, at: int)
    requires
        names_differ(files),
        0 <= j < files.len(),
        0 <= at <= files[j].bytes.len(),
    ensures
        wal::perform(files, wal::StepView::Truncate(files[j].name, at)) == kept(files, j, at)
            + files.skip(j + 1),
{
    let now = wal::perform(files, wal::StepView::Truncate(files[j].name, at));
    let all = kept(files, j, at) + files.skip(j + 1);
    assert forall|i: int| 0 <= i < now.len() implies now[i] == all[i] by {
        assert(now[i] == wal::cut(files[i], files[j].name, at));
        if i > j {
            assert(all[i] == files[i]);
        } else if i < j {
            assert(all[i] == files[i]);
        }
    }
    assert(now =~= all);
}

/// Of the files up to a position and those behind, the latter end after it.
proof fn lemma_listed_behind(files: Seq<wal::FileView>, segment_size: u32, j: int, at: int)
    requires
        in_sequence(files, segment_size),
        0 <= j < files.len(),
        0 <= at < files[j].bytes.len(),
        files[j].bytes.len() <= segment_size,
    ensures
        listed(
            kept(files, j, at) + files.skip(j + 1),
            segment_size,
            (first_in(files[j].name, segment_size).unwrap() + at) as u64,
        ) == files.skip(j + 1),
{
    let max = segment_size;
    let a = kept(files, j, at);
    let b = files.skip(j + 1);
    assert(ends_after(files[j], max, 0));
    let first = first_in(files[j].name, max).unwrap();
    let n = (first + at) as u64;
    assert forall|i: int| 0 <= i < a.len() implies !ends_after(#[trigger] a[i], max, n) by {
        assert(ends_after(files[i], max, 0));
        if i < j {
            assert(a[i] == files[i]);
            assert(first_in(files[i].name, max).unwrap() + files[i].bytes.len() <= first);
        }
    }
    assert forall|i: int| 0 <= i < b.len() implies ends_after(#[trigger] b[i], max, n) by {
        assert(b[i] == files[j + 1 + i]);
        assert(ends_after(files[j + 1 + i], max, 0));
        assert(first + files[j].bytes.len() <= first_in(files[j + 1 + i].name, max).unwrap());
    }
    lemma_listed_concat(a, b, max, n);
    lemma_none_listed(a, max, n);
    lemma_all_listed(b, max, n);
    assert(listed(a + b, max, n) =~= b);
}

/// Every file up to a position is read.
proof fn lemma_kept_read(files: Seq<wal::FileView>, segment_size: u32, j: int, at: int)
    requires
        in_sequence(files, segment_size),
        0 <= j < files.len(),
        0 <= at < files[j].bytes.len(),
    ensures
        all_read(kept(files, j, at), segment_size),
{
    let max = segment_size;
    let a = kept(files, j, at);
    assert(ends_after(files[j], max, 0));
    let first = first_in(files[j].name, max).unwrap();
    if first + at > 0 {
        assert forall|i: int| 0 <= i < a.len() implies ends_after(#[trigger] a[i], max, 0) by {
            assert(ends_after(files[i], max, 0));
            if i < j {
                assert(a[i] == files[i]);
            }
        }
    } else {
        if j > 0 {
            assert(ends_after(files[0], max, 0));
            assert(first_in(files[0].name, max).unwrap() < first);
        }
        assert(a.len() == 1 && a[0].bytes.len() == 0);
    }
}

/// When a file is cut off and the files that end behind the cut are removed, the
/// files up to there are left.
proof fn lemma_repaired(files: Seq<wal::FileView>, segment_size: u32, j: int, at: int)
    requires
        in_sequence(files, segment_size),
        0 <= j < files.len(),
        0 <= at < files[j].bytes.len(),
        files[j].bytes.len() <= segment_size,
    ensures
        ({
            let cut = wal::StepView::Truncate(files[j].name, at);
            let n = (first_in(files[j].name, segment_size).unwrap() + at) as u64;
            let behind = listed(wal::perform(files, cut), segment_size, n);
            wal::perform_all(files, seq![cut] + removals(behind)) == kept(files, j, at)
        }),
{
    let a = kept(files, j, at);
    let b = files.skip(j + 1);
    let none = Seq::<wal::FileView>::empty();
    let cut = wal::StepView::Truncate(files[j].name, at);
    lemma_names_differ(files, segment_size);
    lemma_cut_one(files, j, at);
    lemma_listed_behind(files, segment_size, j, at);
    assert forall|i: int, k: int| 0 <= i < a.len() && 0 <= k < b.len() implies (
    #[trigger] a[i]).name != (#[trigger] b[k]).name by {
        assert(b[k] == files[j + 1 + k]);
        assert(a[i].name == files[i].name);
    }
    assert forall|i: int, k: int| 0 <= i < k < b.len() implies (#[trigger] b[i]).name != (
    #[trigger] b[k]).name by {
        assert(b[i] == files[j + 1 + i] && b[k] == files[j + 1 + k]);
    }
    lemma_removed(a, b, none);
    assert(a + (b + none) =~= a + b);
    assert(a + none =~= a);
    lemma_perform_first(files, cut, removals(b));
}

/// A start with a damaged log repairs it: the table holds exactly what the
/// records before the first broken one wrote, and when the steps are done, the
/// files are those up to that record, and they give the table.
pub proof fn lemma_damaged_log(
    files: Seq<wal::FileView>,
    segment_size: u32,
    m: MemTable,
    steps: Seq<wal::StepView>,
    j: int,
    at: int,
)
    requires
        segment_size > 0,
        in_sequence(files, segment_size),
        !too_large(files, segment_size),
        log_of(files, 0, segment_size).broken == Some((j, at)),
        m.wf(),
        m.log().max() == segment_size,
        started(files, segment_size, 0, m, steps),
    ensures
        m.values() == replay(Map::empty(), log_of(files, 0, segment_size).entries),
        wal::perform_all(files, steps) == kept(files, j, at),
        backs(kept(files, j, at), 0, m),
        all_read(kept(files, j, at), segment_size),
{
    let max = segment_size;
    let cs = wal::contents(files);
    lemma_all_listed(files, max, 0);
    assert(0u64 % max as u64 == 0);
    wal::lemma_broken_in(cs, max as int, 0);
    assert(cs[j] == files[j].bytes);
    lemma_started_broken(files, max, 0, m, steps, j, at);
    assert(ends_after(files[j], max, 0));
    lemma_repaired(files, max, j, at);
    lemma_kept_read(files, max, j, at);
}

/// A step before others is the first that is done.
proof fn lemma_perform_first(
    files: Seq<wal::FileView>,
    step: wal::StepView,
    steps: Seq<wal::StepView>,
)
    ensures
        wal::perform_all(files, seq![step] + steps) == wal::perform_all(
            wal::perform(files, step),
            steps,
        ),
    decreases steps.len(),
{
    let all = seq![step] + steps;
    if steps.len() == 0 {
        assert(all.drop_last() =~= Seq::<wal::StepView>::empty());
        assert(all.last() == step);
        assert(wal::perform_all(files, all.drop_last()) == files);
    } else {
        lemma_perform_first(files, step, steps.drop_last());
        assert(all.drop_last() =~= seq![step] + steps.drop_last());
        assert(all.last() == steps.last());
    }
}

/// A write was done: its steps append its record, and the table afterwards has
/// it.
pub open spec fn write_done(before: MemTable, write: PendingWrite, after: MemTable) -> bool {
    &&& planned(before, write)
    &&& write.entry().sequence_number == before.log().first() + before.log().size()
    &&& wal::segment::readable(write.entry())
    &&& wal::appendable(
        before.log().size() as int,
        before.log().max(),
        write.entry().sequence_number,
        wal::segment::record_len(write.entry()),
    )
    &&& after.wf()
    &&& after.log() == write.log()
    &&& after.values() == before.values().insert(
        write.entry().key,
        ValueView {
            value: write.entry().value,
            sequence_number: write.entry().sequence_number,
        },
    )
}

/// The table after writes, each of which is given with the table after it.
pub open spec fn table_after(m: MemTable, writes: Seq<(PendingWrite, MemTable)>) -> MemTable {
    if writes.len() == 0 {
        m
    } else {
        writes.last().1
    }
}

/// The writes were done one after the other.
pub open spec fn all_done(m: MemTable, writes: Seq<(PendingWrite, MemTable)>) -> bool
    decreases writes.len(),
{
    writes.len() > 0 ==> {
        &&& all_done(m, writes.drop_last())
        &&& write_done(
            table_after(m, writes.drop_last()),
            writes.last().0,
            writes.last().1,
        )
    }
}

/// The files of the log after the steps of the writes.
pub open spec fn files_after(
    files: Seq<wal::FileView>,
    writes: Seq<(PendingWrite, MemTable)>,
) -> Seq<wal::FileView>
    decreases writes.len(),
{
    if writes.len() == 0 {
        files
    } else {
        wal::perform_all(files_after(files, writes.drop_last()), writes.last().0.plan())
    }
}

/// The records of the writes.
pub open spec fn records_of(writes: Seq<(PendingWrite, MemTable)>) -> Seq<
    wal::segment::WalEntryView,
> {
    writes.map_values(|w: (PendingWrite, MemTable)| w.0.entry())
}

/// Writes go behind one another: when their steps are done, the files of the log
/// give the table, which holds what it held before and then the writes.
pub proof fn lemma_writes_are_durable(
    files: Seq<wal::FileView>,
    m: MemTable,
    writes: Seq<(PendingWrite, MemTable)>,
)
    requires
        m.wf(),
        backs(files, 0, m),
        all_read(files, m.log().max()),
        all_done(m, writes),
    ensures
        table_after(m, writes).wf(),
        table_after(m, writes).log().max() == m.log().max(),
        backs(files_after(files, writes), 0, table_after(m, writes)),
        all_read(files_after(files, writes), m.log().max()),
        table_after(m, writes).values() == replay(m.values(), records_of(writes)),
        log_of(files_after(files, writes), 0, m.log().max()).entries == log_of(
            files,
            0,
            m.log().max(),
        ).entries + records_of(writes),
    decreases writes.len(),
{
    let es = log_of(files, 0, m.log().max()).entries;
    if writes.len() == 0 {
        assert(es + records_of(writes) =~= es);
    } else {
        let init = writes.drop_last();
        let before = table_after(m, init);
        lemma_writes_are_durable(files, m, init);
        lemma_write_is_logged(files_after(files, init), 0, before, writes.last().0);
        assert((es + records_of(init)).push(writes.last().0.entry()) =~= es + records_of(writes));
        lemma_write_is_durable(
            files_after(files, init),
            0,
            before,
            writes.last().0,
            writes.last().1,
        );
        lemma_written_files_read(files_after(files, init), 0, before, writes.last().0);
        assert(records_of(writes).drop_last() =~= records_of(init));
    }
}

/// A damaged log is recovered from for good: after a start that found the log
/// broken, further writes and another start, the table holds what the records
/// before the first broken one wrote, and then those writes.
pub proof fn lemma_damaged_log_goes_on(
    files: Seq<wal::FileView>,
    segment_size: u32,
    m: MemTable,
    steps: Seq<wal::StepView>,
    j: int,
    at: int,
    writes: Seq<(PendingWrite, MemTable)>,
    again: MemTable,
    more: Seq<wal::StepView>,
)
    requires
        segment_size > 0,
        in_sequence(files, segment_size),
        !too_large(files, segment_size),
        log_of(files, 0, segment_size).broken == Some((j, at)),
        m.wf(),
        m.log().max() == segment_size,
        started(files, segment_size, 0, m, steps),
        all_done(m, writes),
        started(
            files_after(wal::perform_all(files, steps), writes),
            segment_size,
            0,
            again,
            more,
        ),
    ensures
        again.values() == replay(
            replay(Map::empty(), log_of(files, 0, segment_size).entries),
            records_of(writes),
        ),
{
    lemma_damaged_log(files, segment_size, m, steps, j, at);
    let a = kept(files, j, at);
    lemma_writes_are_durable(a, m, writes);
    let now = files_after(a, writes);
    let last = table_after(m, writes);
    assert(0u64 % segment_size as u64 == 0);
    if forall|i: int| 0 <= i < now.len() ==> ends_after(#[trigger] now[i], segment_size, 0) {
        lemma_all_listed(now, segment_size, 0);
        lemma_restart(now, 0, last, again, more);
    } else {
        assert(now.len() == 1 && now[0].bytes.len() == 0);
        assert(listed(now.drop_last(), segment_size, 0).len() == 0);
        assert(listed(now, segment_size, 0).len() == 0);
        let b = wal::readable_bytes(wal::contents(now)[0], 0, wal::nothing_carried());
        assert(b =~= Seq::<u8>::empty());
        reveal_with_fuel(wal::recover_log, 2);
        assert(log_of(now, 0, segment_size).entries =~= Seq::empty());
        assert(again.values() =~= last.values());
    }
}

/// The files of a log stand in the order of the sequence numbers in them, or
/// there is only one, with nothing in it yet.
pub open spec fn tidy(files: Seq<wal::FileView>, segment_size: u32) -> bool {
    in_sequence(files, segment_size) || files.len() == 1 && files[0].bytes.len() == 0
}

/// A file that a write begins starts behind where the last one ends when it is
/// full.
proof fn lemma_next_far(m: MemTable, e: wal::segment::WalEntryView)
    requires
        m.wf(),
        wal::appendable(
            m.log().size() as int,
            m.log().max(),
            e.sequence_number,
            wal::segment::record_len(e),
        ),
        e.sequence_number == m.log().first() + m.log().size(),
        m.log().size() + wal::segment::record_len(e) > m.log().max(),
        0x1_0000_0000int % m.log().max() as int == 0,
        m.log().first() as int % m.log().max() as int == 0,
    ensures
        first_in(
            wal::next_filename(e.sequence_number, wal::segment::record_len(e), m.log().max()),
            m.log().max(),
        ) matches Some(first) && first >= m.log().first() + m.log().max(),
{
    m.lemma_parts();
    m.log().lemma_active();
    let max = m.log().max() as int;
    let x = e.sequence_number + wal::segment::record_len(e);
    let first = m.log().first() as int;
    lemma_next_first(x as u64, m.log().max());
    lemma_first_of(x as u64, m.log().max());
    assert(x - x % max >= first + max) by (nonlinear_arith)
        requires
            max > 0,
            first % max == 0,
            x >= first + max,
    ;
}

/// Files go on in sequence where only the last of them grows and a new one
/// starts behind it.
proof fn lemma_extended(
    files: Seq<wal::FileView>,
    now: Seq<wal::FileView>,
    segment_size: u32,
)
    requires
        files.len() > 0,
        in_sequence(files, segment_size) || files.len() == 1,
        files.len() <= now.len() <= files.len() + 1,
        forall|i: int| 0 <= i < now.len() ==> ends_after(#[trigger] now[i], segment_size, 0),
        forall|i: int| 0 <= i < files.len() ==> (#[trigger] now[i]).name == files[i].name,
        forall|i: int| 0 <= i < files.len() - 1 ==> #[trigger] now[i] == files[i],
        now[files.len() - 1].bytes.len() <= segment_size,
        now.len() > files.len() ==> first_in(now.last().name, segment_size).unwrap() >= first_in(
            files.last().name,
            segment_size,
        ).unwrap() + segment_size,
        segment_size > 0,
    ensures
        in_sequence(now, segment_size),
{
    let max = segment_size;
    let p = files.len() - 1;
    assert forall|i: int, k: int| 0 <= i < k < now.len() implies {
        let a = first_in((#[trigger] now[i]).name, max).unwrap();
        let b = first_in((#[trigger] now[k]).name, max).unwrap();
        a < b && a + now[i].bytes.len() <= b
    } by {
        assert(now[i].name == files[i].name);
        if i < p {
            assert(now[i] == files[i]);
            assert(first_in(files[i].name, max).unwrap() < first_in(files[p].name, max).unwrap());
            assert(first_in(files[i].name, max).unwrap() + files[i].bytes.len() <= first_in(
                files[p].name,
                max,
            ).unwrap());
        }
        if k <= p {
            assert(now[k].name == files[k].name);
            assert(first_in(files[i].name, max).unwrap() < first_in(files[k].name, max).unwrap());
        } else {
            assert(now[k] == now.last());
            assert(files[p] == files.last());
        }
    }
}

/// A write leaves the files of the log in sequence.
pub proof fn lemma_written_files_tidy(
    files: Seq<wal::FileView>,
    before: MemTable,
    write: PendingWrite,
)
    requires
        before.wf(),
        holds_log(files, 0, before.log()),
        tidy(files, before.log().max()),
        planned(before, write),
        wal::segment::readable(write.entry()),
        write.entry().sequence_number == before.log().first() + before.log().size(),
        wal::appendable(
            before.log().size() as int,
            before.log().max(),
            write.entry().sequence_number,
            wal::segment::record_len(write.entry()),
        ),
        0x1_0000_0000int % before.log().max() as int == 0,
    ensures
        in_sequence(wal::perform_all(files, write.plan()), before.log().max()),
{
    let e = write.entry();
    let max = before.log().max();
    let record = wal::segment::record_bytes(e);
    let next = wal::next_filename(e.sequence_number, wal::segment::record_len(e), max);
    let now = wal::perform_all(files, write.plan());
    let cs = wal::contents(files);
    let ncs = wal::contents(now);
    before.lemma_parts();
    before.log().lemma_active();
    wal::segment::lemma_record_len(e);
    lemma_first_in(files.last().name, max);
    lemma_written_files_read(files, 0, before, write);
    lemma_write_is_logged(files, 0, before, write);
    wal::lemma_append_steps(files, max as int, record, next);
    assert(cs.last() == files.last().bytes);
    if before.log().size() + record.len() > max {
        lemma_next_far(before, e);
    }
    assert forall|i: int| 0 <= i < files.len() - 1 implies #[trigger] now[i] == files[i] by {
        assert(ncs[i] == now[i].bytes);
        assert(cs[i] == files[i].bytes);
        assert(ncs[i] == cs[i]);
        assert(now[i].name == files[i].name);
    }
    assert(!(now[files.len() - 1].bytes.len() > max));
    assert forall|i: int| 0 <= i < now.len() implies ends_after(#[trigger] now[i], max, 0) by {
        assert(now.len() == 1 && now[0].bytes.len() == 0 ==> now.last().bytes.len() > 0);
    }
    lemma_extended(files, now, max);
}

/// A write that was interrupted leaves the files of the log in sequence.
pub proof fn lemma_crashed_files_tidy(
    files: Seq<wal::FileView>,
    before: MemTable,
    write: PendingWrite,
    now: Seq<wal::FileView>,
    k: int,
)
    requires
        before.wf(),
        holds_log(files, 0, before.log()),
        tidy(files, before.log().max()),
        wal::segment::readable(write.entry()),
        write.entry().sequence_number == before.log().first() + before.log().size(),
        wal::appendable(
            before.log().size() as int,
            before.log().max(),
            write.entry().sequence_number,
            wal::segment::record_len(write.entry()),
        ),
        crashed(files, before.log().max(), write.entry(), now, k),
        0x1_0000_0000int % before.log().max() as int == 0,
    ensures
        tidy(now, before.log().max()),
        !too_large(now, before.log().max()),
        files.len() <= now.len() <= files.len() + 1,
        now.len() == files.len() ==> now.last().bytes.len() >= before.log().size(),
        now.len() > files.len() ==> first_in(now.last().name, before.log().max()).unwrap()
            >= before.log().first() + before.log().max(),
{
    let e = write.entry();
    let max = before.log().max();
    let record = wal::segment::record_bytes(e);
    let cs = wal::contents(files);
    let ncs = wal::contents(now);
    let p = files.len() - 1;
    let size = files.last().bytes.len() as int;
    let first = wal::to_last(size, max as int, record);
    before.lemma_parts();
    before.log().lemma_active();
    wal::segment::lemma_record_len(e);
    lemma_first_in(files.last().name, max);
    lemma_crash_keeps_log(files, before, write, now, k);
    assert(cs.last() == files.last().bytes);
    assert(now.len() == ncs.len());
    if before.log().size() + record.len() > max {
        lemma_next_far(before, e);
    }
    assert forall|i: int| 0 <= i < p implies #[trigger] now[i] == files[i] by {
        assert(ncs[i] == now[i].bytes);
        assert(cs[i] == files[i].bytes);
        assert(ncs[i] == cs[i]);
        assert(now[i].name == files[i].name);
    }
    assert(ncs[p] == now[p].bytes);
    assert(first.len() <= max - size);
    assert(size <= now[p].bytes.len() <= max);
    assert forall|i: int| 0 <= i < now.len() implies (#[trigger] now[i]).bytes.len() <= max by {
        assert(ncs[i] == now[i].bytes);
        if i < p {
            assert(now[i] == files[i]);
            assert(!(files[i].bytes.len() > max));
        }
    }
    if forall|i: int| 0 <= i < now.len() ==> ends_after(#[trigger] now[i], max, 0) {
        lemma_extended(files, now, max);
    }
}

/// Writes leave the files of the log in sequence.
proof fn lemma_writes_tidy(
    files: Seq<wal::FileView>,
    m: MemTable,
    writes: Seq<(PendingWrite, MemTable)>,
)
    requires
        m.wf(),
        backs(files, 0, m),
        tidy(files, m.log().max()),
        all_done(m, writes),
        0x1_0000_0000int % m.log().max() as int == 0,
    ensures
        tidy(files_after(files, writes), m.log().max()),
    decreases writes.len(),
{
    if writes.len() > 0 {
        let init = writes.drop_last();
        lemma_writes_are_durable(files, m, init);
        lemma_writes_tidy(files, m, init);
        lemma_written_files_tidy(
            files_after(files, init),
            table_after(m, init),
            writes.last().0,
        );
    }
}

/// The files where one of them has lost what stands behind a position.
pub open spec fn cut_short(files: Seq<wal::FileView>, j: int, n: int) -> Seq<wal::FileView> {
    files.update(j, wal::FileView { name: files[j].name, bytes: files[j].bytes.take(n) })
}

/// Cutting a file short within a record leaves the files in sequence, and they
/// give the records before that one.
proof fn lemma_cut_short(files: Seq<wal::FileView>, segment_size: u32, j: int, n: int)
    requires
        segment_size > 0,
        tidy(files, segment_size),
        !too_large(files, segment_size),
        0 <= j < files.len(),
        0 <= n < files[j].bytes.len(),
        log_of(cut_short(files, j, n), 0, segment_size).broken matches Some((b, _)) && b <= j,
    ensures
        in_sequence(cut_short(files, j, n), segment_size),
        !too_large(cut_short(files, j, n), segment_size),
        log_of(cut_short(files, j, n), 0, segment_size).entries.is_prefix_of(
            log_of(files, 0, segment_size).entries,
        ),
{
    let max = segment_size;
    let now = cut_short(files, j, n);
    let cs = wal::contents(files);
    assert(cs[j] == files[j].bytes);
    assert(!(files[j].bytes.len() > max));
    assert(wal::contents(now) =~= cs.update(j, cs[j].take(n)));
    wal::lemma_cut_log(cs, max as int, 0, wal::nothing_carried(), 0, j, n);
    assert forall|i: int| 0 <= i < now.len() implies (#[trigger] now[i]).bytes.len() <= max by {
        assert(!(files[i].bytes.len() > max));
    }
    assert forall|i: int| 0 <= i < now.len() implies ends_after(#[trigger] now[i], max, 0) by {
        assert(ends_after(files[i], max, 0));
        if i == j && j > 0 {
            assert(ends_after(files[0], max, 0));
            assert(first_in(files[0].name, max).unwrap() < first_in(files[j].name, max).unwrap());
        }
    }
    assert forall|i: int, k: int| 0 <= i < k < now.len() implies {
        let a = first_in((#[trigger] now[i]).name, max).unwrap();
        let b = first_in((#[trigger] now[k]).name, max).unwrap();
        a < b && a + now[i].bytes.len() <= b
    } by {
        assert(now[i].name == files[i].name && now[k].name == files[k].name);
        assert(now[i].bytes.len() <= files[i].bytes.len());
        assert(first_in(files[i].name, max).unwrap() + files[i].bytes.len() <= first_in(
            files[k].name,
            max,
        ).unwrap());
    }
}

/// A record of the log that was cut short is discarded for good, with all that
/// was written after it. Where a file of a log lost its end, and the cut stands
/// within a record, a start shows exactly what the records before that one
/// wrote. After further writes another start shows what those records wrote, and
/// then these writes.
pub proof fn lemma_cut_record_discarded(
    files: Seq<wal::FileView>,
    first: MemTable,
    writes: Seq<(PendingWrite, MemTable)>,
    j: int,
    n: int,
    m: MemTable,
    steps: Seq<wal::StepView>,
    more: Seq<(PendingWrite, MemTable)>,
    again: MemTable,
    last_steps: Seq<wal::StepView>,
)
    requires
        first.wf(),
        0x1_0000_0000int % first.log().max() as int == 0,
        backs(files, 0, first),
        tidy(files, first.log().max()),
        all_done(first, writes),
        ({
            let size = first.log().max();
            let log = files_after(files, writes);
            let now = cut_short(log, j, n);
            &&& 0 <= j < log.len()
            &&& 0 <= n < log[j].bytes.len()
            &&& log_of(now, 0, size).broken matches Some((b, _)) && b <= j
            &&& m.wf()
            &&& m.log().max() == size
            &&& started(now, size, 0, m, steps)
            &&& all_done(m, more)
            &&& started(
                files_after(wal::perform_all(now, steps), more),
                size,
                0,
                again,
                last_steps,
            )
        }),
    ensures
        ({
            let size = first.log().max();
            let now = cut_short(files_after(files, writes), j, n);
            let all = log_of(files, 0, size).entries + records_of(writes);
            let i = log_of(now, 0, size).entries.len() as int;
            &&& !too_large(listed(now, size, 0), size)
            &&& i <= all.len()
            &&& m.values() == replay(Map::empty(), all.take(i))
            &&& again.values() == replay(replay(Map::empty(), all.take(i)), records_of(more))
        }),
{
    let size = first.log().max();
    let log = files_after(files, writes);
    let now = cut_short(log, j, n);
    first.lemma_parts();
    first.log().lemma_active();
    if tidy(files, size) && !in_sequence(files, size) {
        assert(all_read(files, size));
    }
    lemma_writes_are_durable(files, first, writes);
    lemma_writes_tidy(files, first, writes);
    lemma_cut_short(log, size, j, n);
    let es = log_of(now, 0, size).entries;
    let all = log_of(files, 0, size).entries + records_of(writes);
    assert(es == all.take(es.len() as int)) by {
        assert(es == all.subrange(0, es.len() as int));
        assert(all.take(es.len() as int) =~= all.subrange(0, es.len() as int));
    }
    let (b, at) = log_of(now, 0, size).broken.unwrap();
    lemma_all_listed(now, size, 0);
    lemma_damaged_log(now, size, m, steps, b, at);
    lemma_damaged_log_goes_on(now, size, m, steps, b, at, more, again, last_steps);
}

/// A log that is begun gives the table without keys.
pub proof fn lemma_log_begun(m: MemTable, steps: Seq<wal::StepView>)
    requires
        m.wf(),
        started(Seq::empty(), m.log().max(), 0, m, steps),
    ensures
        backs(wal::perform_all(Seq::empty(), steps), 0, m),
        tidy(wal::perform_all(Seq::empty(), steps), m.log().max()),
        log_of(wal::perform_all(Seq::empty(), steps), 0, m.log().max()).entries.len() == 0,
{
    let max = m.log().max();
    let none = Seq::<wal::FileView>::empty();
    m.lemma_parts();
    m.log().lemma_active();
    assert(listed(none, max, 0) =~= none);
    let name = m.log().name();
    let files = wal::perform_all(none, steps);
    let one = none.push(wal::FileView { name, bytes: Seq::empty() });
    assert(files =~= one) by {
        assert(steps.drop_first() =~= Seq::<wal::StepView>::empty());
        reveal_with_fuel(wal::perform_all, 3);
    }
    assert(wal::segment::first_of(0, max) == 0) by {
        assert(0u64 % 0x1_0000_0000 / max as u64 == 0) by (nonlinear_arith)
            requires
                max > 0,
        ;
        assert(0 * max == 0) by (nonlinear_arith);
    }
    wal::segment::lemma_filename_numbers(0, 0, max);
    lemma_empty_log(files, max);
}

/// A file with nothing in it gives nothing.
pub proof fn lemma_empty_log(files: Seq<wal::FileView>, max: u32)
    requires
        files.len() == 1,
        files[0].bytes.len() == 0,
    ensures
        log_of(files, 0, max).entries == Seq::<wal::segment::WalEntryView>::empty(),
        log_of(files, 0, max).broken is None,
{
    let cs = wal::contents(files);
    assert(files[0].bytes =~= Seq::<u8>::empty());
    assert(cs =~= seq![Seq::<u8>::empty()]);
    reveal_with_fuel(wal::recover_log, 3);
    assert(cs.drop_first() =~= Seq::<Seq<u8>>::empty());
    assert(log_of(files, 0, max).entries =~= Seq::<wal::segment::WalEntryView>::empty());
}

/// The files of the log when the steps of a start are done. A log that has only
/// one file, with nothing in it, may be begun anew.
pub open spec fn files_started(
    files: Seq<wal::FileView>,
    steps: Seq<wal::StepView>,
) -> Seq<wal::FileView> {
    if files.len() == 1 && files[0].bytes.len() == 0 && steps.len() > 0 {
        wal::perform_all(Seq::empty(), steps)
    } else {
        wal::perform_all(files, steps)
    }
}

/// Where a log goes on after a start: where its first broken record begins, or
/// at the end of its last file.
pub open spec fn goes_on_at(files: Seq<wal::FileView>, segment_size: u32) -> int {
    match log_of(files, 0, segment_size).broken {
        Some((j, at)) => first_in(files[j].name, segment_size).unwrap() + at,
        None => first_in(files.last().name, segment_size).unwrap() + files.last().bytes.len(),
    }
}

/// A start with the only file of a log, which has nothing in it.
proof fn lemma_started_empty(
    files: Seq<wal::FileView>,
    segment_size: u32,
    m: MemTable,
    steps: Seq<wal::StepView>,
)
    requires
        files.len() == 1,
        files[0].bytes.len() == 0,
        first_in(files[0].name, segment_size) is Some,
        m.wf(),
        m.log().max() == segment_size,
        started(files, segment_size, 0, m, steps),
    ensures
        backs(files_started(files, steps), 0, m),
        tidy(files_started(files, steps), segment_size),
        log_of(files_started(files, steps), 0, segment_size).entries == log_of(
            files,
            0,
            segment_size,
        ).entries,
        m.log().first() + m.log().size() == goes_on_at(files, segment_size),
{
    let none = Seq::<wal::FileView>::empty();
    m.lemma_parts();
    m.log().lemma_active();
    lemma_empty_log(files, segment_size);
    assert(0u64 % segment_size as u64 == 0);
    assert(files.drop_last() =~= none);
    assert(listed(none, segment_size, 0) =~= none);
    if ends_after(files[0], segment_size, 0) {
        lemma_all_listed(files, segment_size, 0);
        lemma_started_sound(files, segment_size, 0, m, steps);
        assert(files_started(files, steps) == files);
    } else {
        assert(listed(files, segment_size, 0) =~= none);
        lemma_log_begun(m, steps);
        assert(log_of(files_started(files, steps), 0, segment_size).entries =~= log_of(
            files,
            0,
            segment_size,
        ).entries);
    }
}

/// A start leaves a log that gives the table: when its steps are done, the files
/// are in sequence and give the records that they gave before.
pub proof fn lemma_started_tidy(
    files: Seq<wal::FileView>,
    segment_size: u32,
    m: MemTable,
    steps: Seq<wal::StepView>,
)
    requires
        files.len() > 0,
        tidy(files, segment_size),
        first_in(files[0].name, segment_size) is Some,
        !too_large(files, segment_size),
        m.wf(),
        m.log().max() == segment_size,
        started(files, segment_size, 0, m, steps),
    ensures
        backs(files_started(files, steps), 0, m),
        tidy(files_started(files, steps), segment_size),
        log_of(files_started(files, steps), 0, segment_size).entries == log_of(
            files,
            0,
            segment_size,
        ).entries,
        m.log().first() + m.log().size() == goes_on_at(files, segment_size),
{
    m.lemma_parts();
    m.log().lemma_active();
    if files.len() == 1 && files[0].bytes.len() == 0 {
        lemma_started_empty(files, segment_size, m, steps);
    } else {
        lemma_all_listed(files, segment_size, 0);
        assert(0u64 % segment_size as u64 == 0);
        match log_of(files, 0, segment_size).broken {
            Some((j, at)) => {
                lemma_damaged_log(files, segment_size, m, steps, j, at);
                lemma_kept_tidy(files, segment_size, j, at);
            },
            None => {
                lemma_started_sound(files, segment_size, 0, m, steps);
                assert(files_started(files, steps) == files);
            },
        }
    }
}

/// The files up to the first broken record are in sequence, and give the records
/// before it.
proof fn lemma_kept_tidy(files: Seq<wal::FileView>, segment_size: u32, j: int, at: int)
    requires
        in_sequence(files, segment_size),
        log_of(files, 0, segment_size).broken == Some((j, at)),
    ensures
        tidy(kept(files, j, at), segment_size),
        log_of(kept(files, j, at), 0, segment_size).entries == log_of(
            files,
            0,
            segment_size,
        ).entries,
{
    let max = segment_size;
    let cs = wal::contents(files);
    let a = kept(files, j, at);
    wal::lemma_broken_in(cs, max as int, 0);
    assert(cs[j] == files[j].bytes);
    assert(cs[0] == files[0].bytes);
    wal::lemma_truncated_log(cs, max as int, 0, wal::nothing_carried(), 0, j, at);
    assert(wal::contents(a) =~= wal::truncated(cs, j, at));
    lemma_kept_read(files, max, j, at);
    if forall|i: int| 0 <= i < a.len() ==> ends_after(#[trigger] a[i], max, 0) {
        assert forall|i: int, k: int| 0 <= i < k < a.len() implies {
            let x = first_in((#[trigger] a[i]).name, max).unwrap();
            let y = first_in((#[trigger] a[k]).name, max).unwrap();
            x < y && x + a[i].bytes.len() <= y
        } by {
            assert(a[i] == files[i]);
            assert(a[k].name == files[k].name);
            assert(first_in(files[i].name, max).unwrap() < first_in(files[k].name, max).unwrap());
        }
    }
}

/// The sequence number of the next write is higher than that of a write.
pub proof fn lemma_sequence_numbers_increase(m: MemTable, write: PendingWrite)
    requires
        m.wf(),
        planned(m, write),
        write.entry().sequence_number == m.log().first() + m.log().size(),
        wal::appendable(
            m.log().size() as int,
            m.log().max(),
            write.entry().sequence_number,
            wal::segment::record_len(write.entry()),
        ),
        0x1_0000_0000int % m.log().max() as int == 0,
        m.log().first() as int % m.log().max() as int == 0,
    ensures
        write.entry().sequence_number < write.log().first() + write.log().size(),
        write.log().first() as int % m.log().max() as int == 0,
{
    m.lemma_parts();
    m.log().lemma_active();
    let n = wal::segment::record_len(write.entry()) as int;
    let max = m.log().max() as int;
    let seq = write.entry().sequence_number as int;
    if m.log().size() + n > max {
        let x = seq + n;
        lemma_first_of(x as u64, m.log().max());
        let first = m.log().first() as int;
        assert(x - x % max >= first + max) by (nonlinear_arith)
            requires
                max > 0,
                first % max == 0,
                x >= first + max,
        ;
    }
}

/// Where the size of a file divides that of a logical log, files start at the
/// multiples of their size.
pub proof fn lemma_first_of(sequence_number: u64, segment_size: u32)
    requires
        segment_size > 0,
        0x1_0000_0000int % segment_size as int == 0,
    ensures
        wal::segment::first_of(sequence_number, segment_size) == sequence_number - sequence_number
            % segment_size as u64,
        wal::segment::first_of(sequence_number, segment_size) % segment_size as int == 0,
{
    let x = sequence_number as int;
    let m = segment_size as int;
    let big = 0x1_0000_0000int;
    let hi = x / big;
    let lo = x % big;
    let q = big / m;
    assert(big == q * m) by {
        vstd::arithmetic::div_mod::lemma_fundamental_div_mod(big, m);
        assert(m * q == q * m) by (nonlinear_arith);
    }
    assert(lo / m * m == lo - lo % m) by {
        vstd::arithmetic::div_mod::lemma_fundamental_div_mod(lo, m);
        assert(m * (lo / m) == lo / m * m) by (nonlinear_arith);
    }
    assert(x % m == lo % m) by {
        assert(x == (hi * q) * m + lo) by (nonlinear_arith)
            requires
                x == hi * big + lo,
                big == q * m,
        ;
        vstd::arithmetic::div_mod::lemma_mod_multiples_vanish(hi * q, lo, m);
        assert(m * (hi * q) + lo == (hi * q) * m + lo) by (nonlinear_arith);
    }
    assert((x - x % m) % m == 0) by {
        vstd::arithmetic::div_mod::lemma_fundamental_div_mod(x, m);
        assert(x - x % m == m * (x / m));
        vstd::arithmetic::div_mod::lemma_mod_multiples_basic(x / m, m);
        assert((x / m) * m == m * (x / m)) by (nonlinear_arith);
    }
}

/// A flushed table can be read back: its file is opened as a segment that gives
/// of every key what the table held.
pub proof fn lemma_flush_keeps_values(
    es: Seq<sstable::EntryView>,
    index_sparsity_factor: int,
    key: Seq<char>,
)
    requires
        es.len() > 0,
        segment::sorted(es),
        segment::all_encodable(es),
        segment::frames(es).len() <= u64::MAX,
    ensures
        segment::open_image(
            segment::image(es, segment::sparse(es, index_sparsity_factor, 0, 0)),
        ) == Some(es),
        segment::lookup(es, key) is Some <==> map_of(es).contains_key(key),
        segment::lookup(es, key) matches Some(e) ==> e.key == key && map_of(es)[key] == value_of(e),
{
    segment::lemma_written_opens(es, index_sparsity_factor, 0);
    if segment::has_key(es, key) {
        let i = choose|i: int| 0 <= i < es.len() && (#[trigger] es[i]).key == key;
        segment::lemma_lookup(es, i);
    }
}

/// The bytes that a write takes in the log.
pub open spec fn bytes_in_log(key: Seq<char>, value: Option<Seq<char>>) -> int {
    21 + vstd::utf8::encode_utf8(key).len() as int + match value {
        Some(v) => 4 + vstd::utf8::encode_utf8(v).len() as int,
        None => 0,
    }
}

/// Every write to a key that is not empty is accepted where a file of the log can
/// hold its record, whatever the key and the value are: at once where the record
/// fits into the file that is written, and else where the numbers of the log
/// suffice for a new file. A write is refused where its key is empty, or where
/// not even its record without the header fits into a file.
pub proof fn lemma_write_is_accepted(m: MemTable, key: Seq<char>, value: Option<Seq<char>>)
    requires
        m.wf(),
    ensures
        ({
            let n = bytes_in_log(key, value);
            let size = m.log().size() as int;
            let max = m.log().max() as int;
            let room = m.log().first() + size + n + max <= u64::MAX;
            &&& vstd::utf8::encode_utf8(key).len() == 0 ==> !m.accepts(key, value)
            &&& vstd::utf8::encode_utf8(key).len() > 0 && size + n <= max ==> m.accepts(key, value)
            &&& vstd::utf8::encode_utf8(key).len() > 0 && n <= max && room ==> m.accepts(key, value)
            &&& vstd::utf8::encode_utf8(key).len() > 0 && n <= usize::MAX && size + 13 <= max && n
                <= max + 13 && room ==> m.accepts(key, value)
            &&& n > max + 13 ==> !m.accepts(key, value)
            &&& size + 13 > max && n > max ==> !m.accepts(key, value)
        }),
{
    broadcast use codec::lemma_le_bytes_len;

    m.lemma_parts();
    m.log().lemma_active();
    let e = next_entry(m, key, value);
    let n = wal::segment::record_len(e);
    let max = m.log().max();
    assert(n == bytes_in_log(key, value));
    assert(wal::segment::HEADER_SIZE == 13);
    if m.log().first() + m.log().size() + n + max <= u64::MAX {
        lemma_first_of_bound((e.sequence_number + n) as u64, max);
    }
}

/// A file starts no later than what is in it.
proof fn lemma_first_of_bound(sequence_number: u64, segment_size: u32)
    requires
        segment_size > 0,
    ensures
        wal::segment::first_of(sequence_number, segment_size) <= sequence_number,
{
    let low = sequence_number as int % 0x1_0000_0000;
    assert(low / (segment_size as int) * segment_size <= low) by (nonlinear_arith)
        requires
            segment_size > 0,
            low >= 0,
    ;
}

/// The record of a write says what is written: the key, the value of a put or
/// that there is none, and the number of the first byte of the record.
pub proof fn lemma_record_of_write(m: MemTable, key: Seq<char>, value: Option<Seq<char>>)
    requires
        m.wf(),
    ensures
        ({
            let e = next_entry(m, key, value);
            &&& e.key == key
            &&& e.value == value
            &&& e.operation_type == OpType::Put <==> value is Some
            &&& e.sequence_number == m.log().first() + m.log().size()
        }),
{
    m.lemma_parts();
    m.log().lemma_active();
}

/// The last write to a key wins: after writes a key has what the last of those to
/// it wrote, and a key that none of them wrote has what it had.
pub proof fn lemma_last_write_wins(
    m: Map<Seq<char>, ValueView>,
    es: Seq<wal::segment::WalEntryView>,
    i: int,
    key: Seq<char>,
)
    requires
        -1 <= i < es.len(),
        i >= 0 ==> es[i].key == key,
        forall|j: int| i < j < es.len() ==> (#[trigger] es[j]).key != key,
    ensures
        i >= 0 ==> {
            &&& replay(m, es).contains_key(key)
            &&& replay(m, es)[key].value == es[i].value
            &&& replay(m, es)[key].sequence_number == es[i].sequence_number
        },
        i < 0 ==> {
            &&& replay(m, es).contains_key(key) <==> m.contains_key(key)
            &&& m.contains_key(key) ==> replay(m, es)[key] == m[key]
        },
    decreases es.len(),
{
    if es.len() > 0 && i < es.len() - 1 {
        assert(es[es.len() - 1].key != key);
        lemma_last_write_wins(m, es.drop_last(), i, key);
    }
}

/// The size of a table is what its entries take together: of each its key, its
/// value and twenty-one bytes more.
pub proof fn lemma_size_of_entries(es: Seq<sstable::EntryView>)
    ensures
        table_size(es) == es.map_values(
            |e: sstable::EntryView|
                21 + vstd::utf8::encode_utf8(e.key).len() as int + match e.value {
                    Some(v) => vstd::utf8::encode_utf8(v).len() as int,
                    None => 0,
                },
        ).fold_left(0, |sum: int, n: int| sum + n),
    decreases es.len(),
{
    let lens = es.map_values(
        |e: sstable::EntryView|
            21 + vstd::utf8::encode_utf8(e.key).len() as int + match e.value {
                Some(v) => vstd::utf8::encode_utf8(v).len() as int,
                None => 0,
            },
    );
    if es.len() > 0 {
        lemma_size_of_entries(es.drop_last());
        assert(es.drop_last().map_values(
            |e: sstable::EntryView|
                21 + vstd::utf8::encode_utf8(e.key).len() as int + match e.value {
                    Some(v) => vstd::utf8::encode_utf8(v).len() as int,
                    None => 0,
                },
        ) =~= lens.drop_last());
    }
}

/// A start reads the files of the log that have something from a sequence number
/// on, and no others: a file that begins at a number is among them exactly where
/// it ends after that sequence number.
pub proof fn lemma_files_that_are_read(
    files: Seq<wal::FileView>,
    segment_size: u32,
    sequence_number: u64,
    i: int,
    first: u64,
)
    requires
        segment_size > 0,
        0x1_0000_0000int % segment_size as int == 0,
        0 <= i < files.len(),
        files[i].name == wal::segment::segment_filename(0, first, segment_size),
        first as int % segment_size as int == 0,
        first + segment_size <= u64::MAX,
    ensures
        listed(files, segment_size, sequence_number).contains(files[i]) <==> sequence_number < first
            + files[i].bytes.len(),
{
    wal::segment::lemma_filename_numbers(0, first, segment_size);
    lemma_first_of(first, segment_size);
    assert(first_in(files[i].name, segment_size) == Some(first as int)) by {
        assert(wal::segment::first_of(first, segment_size) == first);
        assert((first / 0x1_0000_0000) * 0x1_0000_0000 + (first % 0x1_0000_0000
            / segment_size as u64) * segment_size == first);
    }
    lemma_listed_contains(files, segment_size, sequence_number, files[i]);
    assert(files.contains(files[i]));
}

/// The files that are listed are those that end after a sequence number.
proof fn lemma_listed_contains(
    files: Seq<wal::FileView>,
    segment_size: u32,
    sequence_number: u64,
    f: wal::FileView,
)
    ensures
        listed(files, segment_size, sequence_number).contains(f) <==> files.contains(f)
            && ends_after(f, segment_size, sequence_number),
    decreases files.len(),
{
    let all = listed(files, segment_size, sequence_number);
    if files.len() > 0 {
        let init = files.drop_last();
        let rest = listed(init, segment_size, sequence_number);
        lemma_listed_contains(init, segment_size, sequence_number, f);
        assert(files.contains(f) <==> init.contains(f) || f == files.last()) by {
            if init.contains(f) {
                let i = choose|i: int| 0 <= i < init.len() && init[i] == f;
                assert(files[i] == f);
            }
            if files.contains(f) && f != files.last() {
                let i = choose|i: int| 0 <= i < files.len() && files[i] == f;
                assert(init[i] == f);
            }
        }
        if ends_after(files.last(), segment_size, sequence_number) {
            assert(all.contains(f) <==> rest.contains(f) || f == files.last()) by {
                if rest.contains(f) {
                    let i = choose|i: int| 0 <= i < rest.len() && rest[i] == f;
                    assert(all[i] == f);
                }
                assert(all[all.len() - 1] == files.last());
                if all.contains(f) && f != files.last() {
                    let i = choose|i: int| 0 <= i < all.len() && all[i] == f;
                    assert(rest[i] == f);
                }
            }
        }
    }
}

/// A file that does not have the name of one of the log is passed over.
pub proof fn lemma_other_files_passed_over(
    files: Seq<wal::FileView>,
    segment_size: u32,
    sequence_number: u64,
    f: wal::FileView,
)
    requires
        wal::segment::numbers_in(f.name) is None || !files.contains(f),
    ensures
        !listed(files, segment_size, sequence_number).contains(f),
{
    lemma_listed_contains(files, segment_size, sequence_number, f);
}

/// A start does not fail where no file is larger than it may be.
pub proof fn lemma_start_succeeds(
    files: Seq<wal::FileView>,
    segment_size: u32,
    sequence_number: u64,
)
    requires
        forall|i: int|
            0 <= i < files.len() ==> (#[trigger] files[i]).bytes.len() <= segment_size,
    ensures
        !too_large(listed(files, segment_size, sequence_number), segment_size),
{
    let all = listed(files, segment_size, sequence_number);
    assert forall|i: int| 0 <= i < all.len() implies (#[trigger] all[i]).bytes.len()
        <= segment_size by {
        lemma_listed_contains(files, segment_size, sequence_number, all[i]);
        assert(all.contains(all[i]));
        let k = choose|k: int| 0 <= k < files.len() && files[k] == all[i];
        assert(files[k].bytes.len() <= segment_size);
    }
}

/// Where the record of a write goes. It goes behind what is in the last file
/// where it fits. Else the last file is filled up, and one file is begun: where
/// there is room for the header, that stays together in the last file and the rest
/// of the record goes to the new one, and else all of it does. What was in the
/// files stays there.
pub proof fn lemma_record_is_placed(
    files: Seq<wal::FileView>,
    before: MemTable,
    write: PendingWrite,
)
    requires
        before.wf(),
        files.len() > 0,
        files.last().bytes.len() == before.log().size(),
        planned(before, write),
    ensures
        ({
            let record = wal::segment::record_bytes(write.entry());
            let now = wal::perform_all(files, write.plan());
            let k = files.len() - 1;
            let size = before.log().size() as int;
            let max = before.log().max() as int;
            &&& forall|i: int| 0 <= i < k ==> #[trigger] now[i] == files[i]
            &&& now[k].name == files[k].name
            &&& now[k].bytes.take(size) == files[k].bytes
            &&& if size + record.len() <= max {
                &&& now.len() == files.len()
                &&& now[k].bytes == files[k].bytes + record
            } else {
                &&& now.len() == files.len() + 1
                &&& now[k].bytes.len() == max
                &&& forall|i: int|
                    size + 13 <= i < max ==> #[trigger] now[k].bytes[i] == 0
                &&& if size + 13 <= max {
                    &&& now[k].bytes.subrange(size, size + 13) == record.take(13)
                    &&& now[k + 1].bytes == record.skip(13)
                } else {
                    &&& forall|i: int| size <= i < max ==> #[trigger] now[k].bytes[i] == 0
                    &&& now[k + 1].bytes == record
                }
            }
        }),
{
    let e = write.entry();
    let record = wal::segment::record_bytes(e);
    let n = wal::segment::record_len(e);
    let max = before.log().max();
    let k = files.len() - 1;
    before.lemma_parts();
    before.log().lemma_active();
    wal::segment::lemma_record_len(e);
    assert(wal::segment::HEADER_SIZE == 13);
    let next = wal::next_filename(e.sequence_number, n, max);
    wal::lemma_append_steps(files, max as int, record, next);
    let now = wal::perform_all(files, write.plan());
    let steps = wal::append_steps(before.log().size() as int, max as int, record, next);
    reveal_with_fuel(wal::perform_all, 5);
    if before.log().size() + n <= max {
        assert(steps.drop_last() =~= Seq::<wal::StepView>::empty());
    } else if before.log().size() + 13 <= max {
        assert(steps.drop_last().drop_last().drop_last().drop_last() =~= Seq::<
            wal::StepView,
        >::empty());
        assert(now[k].bytes.subrange(before.log().size() as int, before.log().size() + 13)
            =~= record.take(13));
        assert(now[k + 1].bytes =~= record.skip(13));
    } else {
        assert(steps.drop_last().drop_last().drop_last() =~= Seq::<wal::StepView>::empty());
        assert(now[k + 1].bytes =~= record);
    }
    assert(now[k].bytes.take(before.log().size() as int) =~= files[k].bytes);
}

/// A size is told as it is, unless it is larger than can be told.
pub proof fn lemma_size_is_told(n: nat)
    ensures
        n <= u64::MAX ==> capped(n) == n,
        n > u64::MAX ==> capped(n) == u64::MAX,
{
}

/// The bytes that a record takes in the log.
pub proof fn lemma_record_bytes_in_log(e: wal::segment::WalEntryView)
    ensures
        wal::segment::record_len(e) == bytes_in_log(e.key, e.value),
        wal::segment::record_bytes(e).len() == bytes_in_log(e.key, e.value),
{
    broadcast use codec::lemma_le_bytes_len;

    wal::segment::lemma_record_len(e);
}

/// The files of the log follow one another without a gap: the file that a write
/// begins starts where the last one ends, as its name says, and the sequence
/// number of the next write is the number of the byte behind the record.
pub proof fn lemma_log_has_no_gaps(m: MemTable, write: PendingWrite)
    requires
        m.wf(),
        planned(m, write),
        write.entry().sequence_number == m.log().first() + m.log().size(),
        0x1_0000_0000int % m.log().max() as int == 0,
        m.log().first() as int % m.log().max() as int == 0,
        m.log().first() + 2 * m.log().max() <= u64::MAX,
    ensures
        ({
            let n = bytes_in_log(write.entry().key, write.entry().value);
            let size = m.log().size();
            let max = m.log().max();
            let next = m.log().first() + max;
            &&& size + n <= max ==> {
                &&& write.log().first() == m.log().first()
                &&& write.log().size() == size + n
                &&& write.log().name() == m.log().name()
            }
            &&& max < size + n < 2 * max ==> {
                &&& write.log().first() == next
                &&& write.log().name() == wal::segment::segment_filename(0, next as u64, max)
                &&& write.log().size() == if size + 13 <= max {
                    n - 13
                } else {
                    n
                }
            }
        }),
{
    let e = write.entry();
    let n = wal::segment::record_len(e);
    let max = m.log().max();
    m.lemma_parts();
    m.log().lemma_active();
    lemma_record_bytes_in_log(e);
    assert(wal::segment::HEADER_SIZE == 13);
    if max < m.log().size() + n < 2 * max {
        let x = (e.sequence_number + n) as u64;
        let next = (m.log().first() + max) as u64;
        lemma_first_of(x, max);
        lemma_first_of(next, max);
        assert(next as int % max as int == 0) by (nonlinear_arith)
            requires
                m.log().first() as int % max as int == 0,
                next == m.log().first() + max,
                max > 0,
        ;
        assert(x as int % max as int == x - next) by (nonlinear_arith)
            requires
                next as int % max as int == 0,
                0 <= x - next < max,
                max > 0,
        ;
        assert(wal::segment::first_of(x, max) == next);
        assert(wal::segment::first_of(next, max) == next);
        lemma_same_file(x, next, max);
    }
}

/// Numbers of the same file lead to the same name.
proof fn lemma_same_file(a: u64, b: u64, segment_size: u32)
    requires
        segment_size > 0,
        0x1_0000_0000int % segment_size as int == 0,
        wal::segment::first_of(a, segment_size) == wal::segment::first_of(b, segment_size),
    ensures
        wal::segment::segment_filename(0, a, segment_size) == wal::segment::segment_filename(
            0,
            b,
            segment_size,
        ),
{
    let s = segment_size as int;
    let (h, l) = (a as int / 0x1_0000_0000, a as int % 0x1_0000_0000);
    let (g, k) = (b as int / 0x1_0000_0000, b as int % 0x1_0000_0000);
    let x = l / s * s;
    let y = k / s * s;
    assert(0 <= x <= l && 0 <= y <= k) by (nonlinear_arith)
        requires
            x == l / s * s,
            y == k / s * s,
            s > 0,
            l >= 0,
            k >= 0,
    ;
    assert(h * 0x1_0000_0000 + x == g * 0x1_0000_0000 + y);
    assert(h == g && x == y);
    assert(l / s == k / s) by (nonlinear_arith)
        requires
            l / s * s == k / s * s,
            s > 0,
    ;
}

/// Files that are put into the order of their names are in the order in which the
/// log was written: of two files of the log the one that begins earlier stands
/// first.
pub proof fn lemma_files_in_order_of_log(
    files: Seq<wal::FileView>,
    segment_size: u32,
    i: int,
    j: int,
    a: u64,
    b: u64,
)
    requires
        wal::in_name_order(files),
        segment_size > 0,
        0 <= i < files.len(),
        0 <= j < files.len(),
        files[i].name == wal::segment::segment_filename(0, a, segment_size),
        files[j].name == wal::segment::segment_filename(0, b, segment_size),
        wal::segment::first_of(a, segment_size) < wal::segment::first_of(b, segment_size),
    ensures
        i < j,
{
    broadcast use order::group_key_order;

    wal::segment::lemma_filename_order(a, b, segment_size);
    if j < i {
        assert(order::key_le(files[j].name, files[i].name));
    }
}

} // verus!
