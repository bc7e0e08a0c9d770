//! The connections that are open.

use std::collections::HashMap;
use vstd::prelude::*;

verus! {

/// A connection that was started: how to wait for it, and its number.
#[derive(Debug)]
pub struct ConnectionHandleData<H> {
    pub conn_handle: H,
    pub id: u64,
}

/// What is told of a connection: that it was started, or that it is at its end.
#[derive(Debug)]
pub enum ConnectionData<H> {
    StartSignal(ConnectionHandleData<H>),
    CompletionSignal(u64),
}

/// What is done about it: nothing more, waiting for the connection to be over,
/// or listening no more.
#[derive(Debug)]
pub enum ManagerAction<H> {
    Continue,
    Await(H),
    Stop,
}

/// The connections that are open, by number. `H` is what a connection is waited
/// for by.
#[derive(Debug)]
pub struct ConnectionManager<H> {
    handles: HashMap<u64, H>,
}

/// The connections that are open after a signal, and what is done about it. Once
/// the server is cancelled, a connection that was started is still taken note of,
/// so that it is waited for with the others.
pub open spec fn managed<H>(
    open: Map<u64, H>,
    data: ConnectionData<H>,
    cancelled: bool,
    after: Map<u64, H>,
    action: ManagerAction<H>,
) -> bool {
    if cancelled {
        &&& action is Stop
        &&& after == match data {
            ConnectionData::StartSignal(h) => open.insert(h.id, h.conn_handle),
            ConnectionData::CompletionSignal(_) => open,
        }
    } else {
        match data {
            ConnectionData::StartSignal(h) => after == open.insert(h.id, h.conn_handle)
                && action is Continue,
            ConnectionData::CompletionSignal(id) => after == open.remove(id) && action == (
            if open.contains_key(id) {
                ManagerAction::Await(open[id])
            } else {
                ManagerAction::Continue
            }),
        }
    }
}

impl<H> View for ConnectionManager<H> {
    type V = Map<u64, H>;

    closed spec fn view(&self) -> Map<u64, H> {
        self.handles@
    }
}

impl<H> ConnectionManager<H> {
    /// No connection is open.
    pub fn new() -> (r: Self)
        ensures
            r@ == Map::<u64, H>::empty(),
    {
        ConnectionManager { handles: HashMap::new() }
    }

    /// Takes note of a signal. Once the server is cancelled, nothing more is
    /// listened to; a connection that was started is still among those that are
    /// waited for.
    pub fn handle(&mut self, data: ConnectionData<H>, cancelled: bool) -> (r: ManagerAction<H>)
        ensures
            managed(old(self)@, data, cancelled, final(self)@, r),
    {
        broadcast use vstd::std_specs::hash::group_hash_axioms;

        match data {
            ConnectionData::CompletionSignal(id) => if cancelled {
                ManagerAction::Stop
            } else {
                match self.handles.remove(&id) {
                    None => {
                        assert(old(self)@.remove(id) =~= old(self)@);
                        ManagerAction::Continue
                    },
                    Some(handle) => ManagerAction::Await(handle),
                }
            },
            ConnectionData::StartSignal(handle) => {
                self.handles.insert(handle.id, handle.conn_handle);
                if cancelled {
                    ManagerAction::Stop
                } else {
                    ManagerAction::Continue
                }
            },
        }
    }

    /// The connections that are still open and are waited for at the end.
    pub fn into_handles(self) -> (r: HashMap<u64, H>)
        ensures
            r@ == self@,
    {
        self.handles
    }
}

/// A connection that was started and has not ended is among those that are
/// waited for: another signal does not drop it.
pub proof fn lemma_open_connection_kept<H>(
    open: Map<u64, H>,
    data: ConnectionData<H>,
    cancelled: bool,
    after: Map<u64, H>,
    action: ManagerAction<H>,
    id: u64,
)
    requires
        open.contains_key(id),
        managed(open, data, cancelled, after, action),
        match data {
            ConnectionData::StartSignal(h) => h.id != id,
            ConnectionData::CompletionSignal(other) => other != id,
        },
    ensures
        after.contains_key(id),
        after[id] == open[id],
{
}

/// A connection that is started is among those that are waited for, whether the
/// server was cancelled or not.
pub proof fn lemma_started_connection_kept<H>(
    open: Map<u64, H>,
    handle: ConnectionHandleData<H>,
    cancelled: bool,
    after: Map<u64, H>,
    action: ManagerAction<H>,
)
    requires
        managed(open, ConnectionData::StartSignal(handle), cancelled, after, action),
    ensures
        after.contains_key(handle.id),
        after[handle.id] == handle.conn_handle,
{
}

/// A connection that ends is waited for, and then it is forgotten.
pub proof fn lemma_ended_connection_awaited<H>(
    open: Map<u64, H>,
    handle: ConnectionHandleData<H>,
    started: Map<u64, H>,
    first: ManagerAction<H>,
    ended: Map<u64, H>,
    second: ManagerAction<H>,
)
    requires
        !open.contains_key(handle.id),
        managed(open, ConnectionData::StartSignal(handle), false, started, first),
        managed(started, ConnectionData::CompletionSignal(handle.id), false, ended, second),
    ensures
        second == ManagerAction::Await(handle.conn_handle),
        ended == open,
{
    assert(ended =~= open);
}

/// The manager listens until the server is cancelled, and then no more.
pub proof fn lemma_listens_until_cancelled<H>(
    open: Map<u64, H>,
    data: ConnectionData<H>,
    cancelled: bool,
    after: Map<u64, H>,
    action: ManagerAction<H>,
)
    requires
        managed(open, data, cancelled, after, action),
    ensures
        action is Stop <==> cancelled,
{
}

/// A connection is waited for where it is open and has ended, and nowhere else;
/// where nothing is known of one that has ended, nothing changes. No connection
/// comes to be open but by being started.
pub proof fn lemma_only_open_connections_awaited<H>(
    open: Map<u64, H>,
    data: ConnectionData<H>,
    after: Map<u64, H>,
    action: ManagerAction<H>,
    id: u64,
)
    requires
        managed(open, data, false, after, action),
    ensures
        action is Await <==> data is CompletionSignal && open.contains_key(
            data->CompletionSignal_0,
        ),
        action matches ManagerAction::Await(h) ==> h == open[data->CompletionSignal_0],
        data matches ConnectionData::CompletionSignal(i) ==> !after.contains_key(i),
        data matches ConnectionData::CompletionSignal(i) ==> (!open.contains_key(i) ==> after
            == open),
        after.contains_key(id) && !open.contains_key(id) ==> (
        data matches ConnectionData::StartSignal(h) && h.id == id),
{
    if let ConnectionData::CompletionSignal(i) = data {
        if !open.contains_key(i) {
            assert(open.remove(i) =~= open);
        }
    }
}

} // verus!
