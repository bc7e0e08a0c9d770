//! What an engine holds after all that has happened to it.

use crate::storage_engine;
use crate::storage_engine::memtable;
use crate::storage_engine::memtable::wal;
use crate::storage_engine::memtable::PendingWrite;
use crate::storage_engine::memtable_flusher::SegmentFile;
use crate::storage_engine::sstable::level::segment::Segment;
use crate::storage_engine::sstable::level::PartitionedLevel;
use crate::storage_engine::{Command, Prepared, Worker};
use std::sync::Arc;
use vstd::prelude::*;

verus! {

/// What happens to an engine: a command is written, the in-memory table is
/// flushed, a turn of the compaction is taken, the engine is started anew with the
/// files of its log, or it is so after a crash has interrupted a write and left
/// those files with only some of it.
pub enum Event {
    Written(Command, PendingWrite),
    Flushed(SegmentFile),
    Compacted(Seq<Seq<char>>, bool),
    Restarted(Seq<wal::StepView>),
    Crashed(Command, PendingWrite, Seq<wal::FileView>, int, Seq<wal::StepView>),
}

/// An engine and the files of its log.
pub struct Store {
    pub engine: Worker,
    pub files: Seq<wal::FileView>,
}

/// What an event makes of a store.
pub open spec fn happens(before: Store, event: Event, after: Store) -> bool {
    match event {
        Event::Written(command, write) => {
            &&& command !is Get
            &&& storage_engine::prepared(before.engine, command, Prepared::Write(write))
            &&& storage_engine::completed(before.engine, write, after.engine)
            &&& after.files == wal::perform_all(before.files, write.plan())
        },
        Event::Flushed(file) => {
            &&& storage_engine::flush_done(before.engine, file, after.engine)
            &&& after.files == before.files
        },
        Event::Compacted(names, goes_on) => {
            &&& storage_engine::compacted(before.engine, after.engine, names, goes_on)
            &&& after.files == before.files
        },
        Event::Restarted(steps) => {
            let max = before.engine.memtable().log().max();
            &&& starts(before.files, max, after.engine, steps)
            &&& after.files == memtable::files_started(before.files, steps)
        },
        Event::Crashed(command, write, left, k, steps) => {
            let max = before.engine.memtable().log().max();
            &&& command !is Get
            &&& storage_engine::prepared(before.engine, command, Prepared::Write(write))
            &&& memtable::crashed(before.files, max, write.entry(), left, k)
            &&& starts(left, max, after.engine, steps)
            &&& after.files == memtable::files_started(left, steps)
        },
    }
}

/// An engine starts with the files of a log.
pub open spec fn starts(
    files: Seq<wal::FileView>,
    max: u32,
    engine: Worker,
    steps: Seq<wal::StepView>,
) -> bool {
    &&& engine.wf()
    &&& engine.memtable().log().max() == max
    &&& memtable::started(files, max, 0, engine.memtable(), steps)
    &&& engine.sstable().zero() == Seq::<Arc<Segment>>::empty()
    &&& engine.sstable().levels() == Seq::<PartitionedLevel>::empty()
}

/// The events happen one after the other.
pub open spec fn all_happen(stores: Seq<Store>, events: Seq<Event>) -> bool {
    &&& stores.len() == events.len() + 1
    &&& forall|i: int|
        0 <= i < events.len() ==> happens(stores[i], #[trigger] events[i], stores[i + 1])
}

/// The keys and values after an event: a put sets the value of its key, a delete
/// takes its key away, and nothing else changes anything.
pub open spec fn after_event(m: Map<Seq<char>, Seq<char>>, event: Event) -> Map<
    Seq<char>,
    Seq<char>,
> {
    match event {
        Event::Written(Command::Put(key, value), _) => m.insert(key@, value@),
        Event::Written(Command::Delete(key), _) => m.remove(key@),
        _ => m,
    }
}

/// The keys and values after events.
pub open spec fn after_events(m: Map<Seq<char>, Seq<char>>, events: Seq<Event>) -> Map<
    Seq<char>,
    Seq<char>,
>
    decreases events.len(),
{
    if events.len() == 0 {
        m
    } else {
        after_event(after_events(m, events.drop_last()), events.last())
    }
}

/// A get of every key gives its value, and none where the key has none.
pub open spec fn gives(engine: Worker, m: Map<Seq<char>, Seq<char>>) -> bool {
    forall|asked: String, r: Prepared| #[trigger]
        storage_engine::prepared(engine, Command::Get(asked), r) ==> match r {
            Prepared::Answer(Some(v)) => m.contains_key(asked@) && m[asked@] == v@,
            Prepared::Answer(None) => !m.contains_key(asked@),
            _ => false,
        }
}

/// A lookup of every key gives its value.
spec fn holds(engine: Worker, m: Map<Seq<char>, Seq<char>>) -> bool {
    forall|key: Seq<char>| #[trigger]
        engine.lookup(key) == if m.contains_key(key) {
            Some(m[key])
        } else {
            None
        }
}

/// The store is sound: the files of its log give what the engine holds, and files
/// have a size that divides that of a logical log.
pub open spec fn in_good_order(store: Store) -> bool {
    &&& storage_engine::sound(store.engine)
    &&& storage_engine::logged(store.files, store.engine)
    &&& 0x1_0000_0000int % store.engine.memtable().log().max() as int == 0
}

/// The key that a command writes, and the value of a put.
spec fn written_by(command: Command) -> (Seq<char>, Option<Seq<char>>) {
    match command {
        Command::Put(key, value) => (key@, Some(value@)),
        Command::Delete(key) => (key@, None),
        Command::Get(key) => (key@, None),
    }
}

/// The record of a write that is carried out has a length that fits its bytes.
proof fn lemma_record_fits(before: Store, command: Command, write: PendingWrite)
    requires
        in_good_order(before),
        command !is Get,
        storage_engine::prepared(before.engine, command, Prepared::Write(write)),
    ensures
        wal::segment::record_len(write.entry()) <= u32::MAX,
        write.entry() == memtable::next_entry(
            before.engine.memtable(),
            written_by(command).0,
            written_by(command).1,
        ),
        before.engine.memtable().accepts(written_by(command).0, written_by(command).1),
        before.engine.memtable().log().first() as int % before.engine.memtable().log().max() as int
            == 0,
        before.engine.memtable().log().max() > 0,
{
    let w = before.engine;
    let log = w.memtable().log();
    let (key, value) = written_by(command);
    w.lemma_parts();
    w.memtable().lemma_parts();
    log.lemma_active();
    memtable::lemma_write_is_accepted(w.memtable(), key, value);
    memtable::lemma_record_of_write(w.memtable(), key, value);
    memtable::lemma_first_in(before.files.last().name, log.max());
    assert(write.entry() == memtable::next_entry(w.memtable(), key, value));
    assert(log.max() <= 0x8000_0000) by (nonlinear_arith)
        requires
            0x1_0000_0000int % log.max() as int == 0,
            0 < log.max() <= 0xFFFF_FFFF,
    {
        let max = log.max() as int;
        let q = 0x1_0000_0000int / max;
        assert(0x1_0000_0000int == q * max + 0x1_0000_0000int % max);
        assert(q >= 2) by (nonlinear_arith)
            requires
                0x1_0000_0000int == q * max,
                0 < max <= 0xFFFF_FFFF,
        ;
        assert(2 * max <= q * max) by (nonlinear_arith)
            requires
                q >= 2,
                max > 0,
        ;
    }
    memtable::lemma_record_bytes_in_log(write.entry());
}

/// A write sets the value of its key or takes the key away.
proof fn lemma_written(
    before: Store,
    command: Command,
    write: PendingWrite,
    after: Store,
    m: Map<Seq<char>, Seq<char>>,
)
    requires
        in_good_order(before),
        holds(before.engine, m),
        happens(before, Event::Written(command, write), after),
    ensures
        in_good_order(after),
        holds(after.engine, after_event(m, Event::Written(command, write))),
{
    let w = before.engine;
    let (key, value) = written_by(command);
    lemma_record_fits(before, command, write);
    storage_engine::lemma_read_after_write(w, key, value, write, after.engine);
    storage_engine::lemma_engine_write_is_durable(
        before.files,
        w,
        key,
        value,
        write,
        after.engine,
    );
    let now = after_event(m, Event::Written(command, write));
    assert forall|k: Seq<char>| #[trigger]
        after.engine.lookup(k) == if now.contains_key(k) {
            Some(now[k])
        } else {
            None
        } by {
        if k != key {
            assert(after.engine.lookup(k) == w.lookup(k));
        }
    }
}

/// One event.
proof fn lemma_event(before: Store, event: Event, after: Store, m: Map<Seq<char>, Seq<char>>)
    requires
        in_good_order(before),
        holds(before.engine, m),
        happens(before, event, after),
    ensures
        in_good_order(after),
        holds(after.engine, after_event(m, event)),
{
    let w = before.engine;
    w.lemma_parts();
    w.memtable().lemma_parts();
    w.memtable().log().lemma_active();
    match event {
        Event::Written(command, write) => {
            lemma_written(before, command, write, after, m);
        },
        Event::Flushed(file) => {
            storage_engine::lemma_flush_loses_nothing(w, file, after.engine);
            storage_engine::lemma_unchanged_lookups_stay_logged(before.files, w, after.engine);
        },
        Event::Compacted(names, goes_on) => {
            storage_engine::lemma_turn_keeps_engine(w, after.engine, names, goes_on);
            storage_engine::lemma_unchanged_lookups_stay_logged(before.files, w, after.engine);
        },
        Event::Restarted(steps) => {
            storage_engine::lemma_engine_restart(before.files, w, after.engine, steps);
        },
        Event::Crashed(command, write, left, k, steps) => {
            lemma_record_fits(before, command, write);
            storage_engine::lemma_engine_crash(
                before.files,
                w,
                written_by(command).0,
                written_by(command).1,
                write,
                left,
                k,
                after.engine,
                steps,
            );
        },
    }
}

/// All events.
proof fn lemma_events(
    stores: Seq<Store>,
    events: Seq<Event>,
    n: int,
    m: Map<Seq<char>, Seq<char>>,
)
    requires
        all_happen(stores, events),
        0 <= n <= events.len(),
        in_good_order(stores[0]),
        holds(stores[0].engine, m),
    ensures
        in_good_order(stores[n]),
        holds(stores[n].engine, after_events(m, events.take(n))),
    decreases n,
{
    if n > 0 {
        lemma_events(stores, events, n - 1, m);
        assert(events.take(n).drop_last() =~= events.take(n - 1));
        assert(happens(stores[n - 1], events[n - 1], stores[n - 1 + 1]));
        lemma_event(
            stores[n - 1],
            events[n - 1],
            stores[n],
            after_events(m, events.take(n - 1)),
        );
    }
}

/// A store is a map from keys to values, whatever happens to it. It begins empty.
/// However many puts, deletes, flushes, compactions, restarts and crashes follow,
/// and in whichever order, a get gives the value of the last put to its key, and
/// none where the key was never put or was deleted since. A write that a crash has
/// interrupted is as if it had not been.
pub proof fn lemma_store_is_a_map(
    stores: Seq<Store>,
    events: Seq<Event>,
    begun: Seq<wal::StepView>,
)
    requires
        all_happen(stores, events),
        0x1_0000_0000int % stores[0].engine.memtable().log().max() as int == 0,
        starts(
            Seq::empty(),
            stores[0].engine.memtable().log().max(),
            stores[0].engine,
            begun,
        ),
        stores[0].files == wal::perform_all(Seq::empty(), begun),
    ensures
        gives(stores.last().engine, after_events(Map::empty(), events)),
        storage_engine::sound(stores.last().engine),
        storage_engine::logged(stores.last().files, stores.last().engine),
{
    let first = stores[0].engine;
    first.lemma_parts();
    first.memtable().lemma_parts();
    first.memtable().log().lemma_active();
    storage_engine::lemma_engine_begun(first, begun);
    lemma_events(stores, events, events.len() as int, Map::empty());
    assert(events.take(events.len() as int) =~= events);
    assert(stores.last() == stores[events.len() as int]);
    let last = stores.last().engine;
    let m = after_events(Map::empty(), events);
    assert forall|asked: String, r: Prepared| #[trigger]
        storage_engine::prepared(last, Command::Get(asked), r) implies match r {
        Prepared::Answer(Some(v)) => m.contains_key(asked@) && m[asked@] == v@,
        Prepared::Answer(None) => !m.contains_key(asked@),
        _ => false,
    } by {
        assert(last.lookup(asked@) == if m.contains_key(asked@) {
            Some(m[asked@])
        } else {
            None
        });
    }
}

} // verus!
