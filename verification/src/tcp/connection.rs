//! The life of a connection: a request is read, the engine is called and the
//! response is sent, until the client is gone or the connection is closed.
//! What is read, called and sent is performed outside; here stands what comes
//! next.

use super::protocol;
use super::protocol::{
    ConnectionError, CorrelationId, ParseError, Received, Receiving, RequestType, TcpError, TcpRequest,
    TcpResponse,
};
use crate::storage_engine::StorageEngineError;
use std::io;
use vstd::prelude::*;

verus! {

/// The key and the value of a put request.
#[derive(Debug, PartialEq)]
pub struct PutData {
    pub key: String,
    pub value: String,
}

/// What the engine is asked for.
#[derive(Debug, PartialEq)]
pub enum Operation {
    Get(String),
    Put(PutData),
    Delete(String),
}

/// Whether a connection goes on after a request, and whether the client is told
/// where it does not.
#[derive(Debug, Clone, Copy, PartialEq, Eq, Structural)]
pub enum KeepAliveStatus {
    KeepAlive,
    CloseNotify,
    CloseSilent,
}

/// How a connection is closed that waits for a request in vain.
#[derive(Debug, Clone, Copy, PartialEq, Eq, Structural)]
pub enum CloseMode {
    Notify,
    Silent,
}

/// What is being sent: the answer of the engine, an error, or what the client
/// is told before the connection is closed.
#[derive(Debug, Clone, Copy, PartialEq, Eq, Structural)]
pub enum Reply {
    Answer,
    Error,
    Farewell,
}

/// Where a connection stands: between two requests, within a request, waiting
/// for the engine (with the id of the request, and whether it is a lookup),
/// sending, or at its end.
#[derive(Debug, PartialEq)]
pub enum ConnectionState {
    Idle,
    Receiving(Receiving),
    Calling(CorrelationId, bool),
    Sending(Reply),
    Closed,
}

/// What happens to a connection.
#[derive(Debug)]
pub enum ConnectionEvent {
    Cancelled,
    HeaderLen(Result<u32, CloseMode>),
    Bytes(Vec<u8>),
    ReadFailed(io::Error),
    Answered(Result<Option<String>, StorageEngineError>),
    Sent,
    SendFailed,
}

/// What a connection does next.
#[derive(Debug, PartialEq)]
pub enum ConnectionAction {
    AwaitRequest,
    Read(u32),
    Call(Operation),
    Send(Vec<u8>),
    Finish,
}

/// What a request asks of the engine.
pub open spec fn asks(q: TcpRequest, op: Operation) -> bool {
    match op {
        Operation::Get(key) => q.headers.request_type == RequestType::Get && key@ == q@.payload.key,
        Operation::Delete(key) => q.headers.request_type == RequestType::Delete && key@
            == q@.payload.key,
        Operation::Put(data) => q.headers.request_type == RequestType::Put && data.key@
            == q@.payload.key && Some(data.value@) == q@.payload.value,
    }
}

impl Operation {
    /// What a request asks of the engine. A put request has a value.
    pub fn from(request: TcpRequest) -> (r: Self)
        requires
            request.headers.request_type == RequestType::Put ==> request@.payload.value is Some,
        ensures
            asks(request, r),
            r is Get <==> request.headers.request_type == RequestType::Get,
            r is Put <==> request.headers.request_type == RequestType::Put,
            r is Delete <==> request.headers.request_type == RequestType::Delete,
            r matches Operation::Get(key) ==> key@ == request.payload.key@,
            r matches Operation::Delete(key) ==> key@ == request.payload.key@,
            r matches Operation::Put(data) ==> data.key@ == request.payload.key@
                && (request.payload.value matches Some(v) && data.value@ == v@),
    {
        let key = request.payload.key;
        match request.headers.request_type {
            RequestType::Delete => Operation::Delete(key),
            RequestType::Get => Operation::Get(key),
            RequestType::Put => Operation::Put(
                PutData { key, value: request.payload.value.unwrap() },
            ),
        }
    }

    /// Whether this is a lookup.
    pub fn is_get(&self) -> (r: bool)
        ensures
            r == (self is Get),
    {
        match self {
            Operation::Get(_) => true,
            _ => false,
        }
    }
}

/// What a request is answered, given what the engine returns: a lookup that
/// finds nothing is an error.
pub open spec fn answer_of(get: bool, result: Result<Option<String>, StorageEngineError>) -> Result<
    Option<Seq<char>>,
    StorageEngineError,
> {
    match result {
        Ok(v) => if get && v is None {
            Err(StorageEngineError::NotFound)
        } else {
            Ok(protocol::text_of(v))
        },
        Err(e) => Err(e),
    }
}

/// The response that carries an answer.
pub open spec fn response_to(
    id: CorrelationId,
    answer: Result<Option<Seq<char>>, StorageEngineError>,
) -> protocol::ResponseView {
    match answer {
        Ok(v) => protocol::ResponseView { id, code: 0, payload: v },
        Err(e) => protocol::ResponseView { id, code: e.code(), payload: None },
    }
}

/// The response that carries an error in a request.
pub open spec fn response_to_error(e: ParseError) -> protocol::ResponseView {
    protocol::ResponseView { id: e.id(), code: TcpError::Parse(e).code(), payload: None }
}

/// What a request is answered, given what the engine returns.
pub fn engine_answer(get: bool, result: Result<Option<String>, StorageEngineError>) -> (r: Result<
    Option<String>,
    StorageEngineError,
>)
    ensures
        r is Ok <==> answer_of(get, result) is Ok,
        r matches Ok(v) ==> answer_of(get, result) == Ok::<Option<Seq<char>>, StorageEngineError>(
            protocol::text_of(v),
        ),
        r matches Err(e) ==> answer_of(get, result) == Err::<
            Option<Seq<char>>,
            StorageEngineError,
        >(e),
        result matches Ok(Some(v)) ==> (r matches Ok(Some(w)) && w@ == v@),
        result is Ok && result->Ok_0 is None && get ==> r == Err::<
            Option<String>,
            StorageEngineError,
        >(StorageEngineError::NotFound),
        result is Ok && result->Ok_0 is None && !get ==> (r matches Ok(v) && v is None),
        result matches Err(e) ==> (r matches Err(x) && x == e),
{
    match result {
        Ok(Some(value)) => Ok(Some(value)),
        Ok(None) => if get {
            Err(StorageEngineError::NotFound)
        } else {
            Ok(None)
        },
        Err(e) => Err(e),
    }
}

/// What a connection does with the end of a request, the end of the connection
/// or neither.
pub open spec fn concluded(
    status: KeepAliveStatus,
    next: ConnectionState,
    action: ConnectionAction,
) -> bool {
    match status {
        KeepAliveStatus::KeepAlive => next is Idle && action is AwaitRequest,
        KeepAliveStatus::CloseSilent => next is Closed && action is Finish,
        KeepAliveStatus::CloseNotify => {
            &&& next == ConnectionState::Sending(Reply::Farewell)
            &&& action matches ConnectionAction::Send(b)
            &&& b@ == protocol::response_bytes(protocol::close_notification())
        },
    }
}

/// What a connection does where there is no request.
pub open spec fn refused(
    error: TcpError,
    next: ConnectionState,
    action: ConnectionAction,
) -> bool {
    match error {
        TcpError::Connection(ConnectionError::TimedOut) => concluded(
            KeepAliveStatus::CloseNotify,
            next,
            action,
        ),
        TcpError::Connection(_) => concluded(KeepAliveStatus::CloseSilent, next, action),
        TcpError::Parse(e) => {
            &&& next == ConnectionState::Sending(Reply::Error)
            &&& action matches ConnectionAction::Send(b)
            &&& b@ == protocol::response_bytes(response_to_error(e))
        },
    }
}

/// The event can happen where the connection stands.
pub open spec fn possible(state: ConnectionState, event: ConnectionEvent) -> bool {
    match state {
        ConnectionState::Idle => event is Cancelled || event is HeaderLen,
        ConnectionState::Receiving(r) => match event {
            ConnectionEvent::Bytes(b) => protocol::readable(r, b@),
            ConnectionEvent::ReadFailed(_) => true,
            _ => false,
        },
        ConnectionState::Calling(_, _) => event is Answered,
        ConnectionState::Sending(_) => event is Sent || event is SendFailed,
        ConnectionState::Closed => false,
    }
}

/// What a connection does next with what came of a part of a request.
pub open spec fn taken(r: Received, next: ConnectionState, action: ConnectionAction) -> bool {
    match r {
        Received::More(more) => next == ConnectionState::Receiving(more) && action
            == ConnectionAction::Read(more.wanted()),
        Received::Request(q) => {
            &&& action matches ConnectionAction::Call(op)
            &&& asks(q, op)
            &&& next == ConnectionState::Calling(q.headers.correlation_id, op is Get)
        },
        Received::Failed(e) => refused(e, next, action),
    }
}

/// Where a connection stands after an event, and what it does.
pub open spec fn stepped(
    state: ConnectionState,
    event: ConnectionEvent,
    next: ConnectionState,
    action: ConnectionAction,
) -> bool {
    match (state, event) {
        (ConnectionState::Idle, ConnectionEvent::HeaderLen(Ok(len))) => next
            == ConnectionState::Receiving(Receiving::Headers(len)) && action
            == ConnectionAction::Read(len),
        (ConnectionState::Idle, ConnectionEvent::HeaderLen(Err(CloseMode::Silent))) => concluded(
            KeepAliveStatus::CloseSilent,
            next,
            action,
        ),
        (ConnectionState::Idle, _) => concluded(KeepAliveStatus::CloseNotify, next, action),
        (ConnectionState::Receiving(r), ConnectionEvent::Bytes(b)) => exists|out: Received| #[trigger]
            protocol::received(r, b@, out) && taken(out, next, action),
        (ConnectionState::Receiving(_), _) => concluded(KeepAliveStatus::CloseSilent, next, action),
        (ConnectionState::Calling(id, get), ConnectionEvent::Answered(result)) => {
            let answer = answer_of(get, result);
            &&& next == ConnectionState::Sending(
                if answer is Ok {
                    Reply::Answer
                } else {
                    Reply::Error
                },
            )
            &&& action matches ConnectionAction::Send(b)
            &&& b@ == protocol::response_bytes(response_to(id, answer))
        },
        (ConnectionState::Sending(reply), _) => concluded(
            if reply == Reply::Farewell || (reply == Reply::Error && event is SendFailed) {
                KeepAliveStatus::CloseSilent
            } else {
                KeepAliveStatus::KeepAlive
            },
            next,
            action,
        ),
        _ => false,
    }
}

/// What a connection does at the end of a request.
fn conclude(status: KeepAliveStatus) -> (r: (ConnectionState, ConnectionAction))
    ensures
        concluded(status, r.0, r.1),
{
    match status {
        KeepAliveStatus::KeepAlive => (ConnectionState::Idle, ConnectionAction::AwaitRequest),
        KeepAliveStatus::CloseSilent => (ConnectionState::Closed, ConnectionAction::Finish),
        KeepAliveStatus::CloseNotify => {
            let bytes = TcpResponse::create_close_notification().to_bytes();
            (ConnectionState::Sending(Reply::Farewell), ConnectionAction::Send(bytes))
        },
    }
}

/// What a connection does where there is no request: the client is told of an
/// error in the request, and a connection that fails is closed.
pub fn handle_tcp_error(error: TcpError) -> (r: (ConnectionState, ConnectionAction))
    ensures
        refused(error, r.0, r.1),
{
    match error {
        TcpError::Connection(e) => match e {
            ConnectionError::TimedOut => conclude(KeepAliveStatus::CloseNotify),
            ConnectionError::IoError(_) => conclude(KeepAliveStatus::CloseSilent),
            ConnectionError::WrongMagicBytes => conclude(KeepAliveStatus::CloseSilent),
        },
        TcpError::Parse(e) => {
            let bytes = TcpResponse::from_tcp_parse_error(e).to_bytes();
            (ConnectionState::Sending(Reply::Error), ConnectionAction::Send(bytes))
        },
    }
}

impl ConnectionState {
    /// A connection that waits for its first request.
    pub fn start() -> (r: (ConnectionState, ConnectionAction))
        ensures
            concluded(KeepAliveStatus::KeepAlive, r.0, r.1),
    {
        conclude(KeepAliveStatus::KeepAlive)
    }

    /// Whether the event can happen where the connection stands.
    pub fn can_happen(&self, event: &ConnectionEvent) -> (r: bool)
        ensures
            r == possible(*self, *event),
    {
        match (self, event) {
            (ConnectionState::Idle, ConnectionEvent::Cancelled) => true,
            (ConnectionState::Idle, ConnectionEvent::HeaderLen(_)) => true,
            (ConnectionState::Receiving(r), ConnectionEvent::Bytes(b)) => r.can_receive(b),
            (ConnectionState::Receiving(_), ConnectionEvent::ReadFailed(_)) => true,
            (ConnectionState::Calling(_, _), ConnectionEvent::Answered(_)) => true,
            (ConnectionState::Sending(_), ConnectionEvent::Sent) => true,
            (ConnectionState::Sending(_), ConnectionEvent::SendFailed) => true,
            _ => false,
        }
    }

    /// Where the connection stands after an event, and what it does.
    pub fn step(self, event: ConnectionEvent) -> (r: (ConnectionState, ConnectionAction))
        requires
            possible(self, event),
        ensures
            stepped(self, event, r.0, r.1),
    {
        match (self, event) {
            (ConnectionState::Idle, ConnectionEvent::HeaderLen(Ok(len))) => (
                ConnectionState::Receiving(Receiving::Headers(len)),
                ConnectionAction::Read(len),
            ),
            (ConnectionState::Idle, ConnectionEvent::HeaderLen(Err(mode))) => match mode {
                CloseMode::Notify => conclude(KeepAliveStatus::CloseNotify),
                CloseMode::Silent => conclude(KeepAliveStatus::CloseSilent),
            },
            (ConnectionState::Idle, _) => conclude(KeepAliveStatus::CloseNotify),
            (ConnectionState::Receiving(r), ConnectionEvent::Bytes(b)) => {
                let ghost bytes = b@;
                let out = r.receive(b);
                let ghost came = out;
                let res = match out {
                    Received::More(more) => {
                        let len: u32 = more.bytes_wanted();
                        (ConnectionState::Receiving(more), ConnectionAction::Read(len))
                    },
                    Received::Request(request) => {
                        let id = request.headers.correlation_id;
                        let op = Operation::from(request);
                        let get: bool = op.is_get();
                        (ConnectionState::Calling(id, get), ConnectionAction::Call(op))
                    },
                    Received::Failed(e) => handle_tcp_error(e),
                };
                assert(protocol::received(r, bytes, came) && taken(came, res.0, res.1));
                res
            },
            (ConnectionState::Receiving(_), ConnectionEvent::ReadFailed(e)) => handle_tcp_error(
                TcpError::from(e),
            ),
            (ConnectionState::Calling(id, get), ConnectionEvent::Answered(result)) => {
                match engine_answer(get, result) {
                    Ok(value) => (
                        ConnectionState::Sending(Reply::Answer),
                        ConnectionAction::Send(TcpResponse::from(&id, value).to_bytes()),
                    ),
                    Err(e) => (
                        ConnectionState::Sending(Reply::Error),
                        ConnectionAction::Send(TcpResponse::from_internal_error(&id, &e).to_bytes()),
                    ),
                }
            },
            (ConnectionState::Sending(reply), ConnectionEvent::SendFailed) => match reply {
                Reply::Answer => conclude(KeepAliveStatus::KeepAlive),
                _ => conclude(KeepAliveStatus::CloseSilent),
            },
            (ConnectionState::Sending(reply), _) => match reply {
                Reply::Farewell => conclude(KeepAliveStatus::CloseSilent),
                _ => conclude(KeepAliveStatus::KeepAlive),
            },
            (state, _) => (state, ConnectionAction::Finish),
        }
    }
}

/// What came of a part of a request is fixed by its bytes, up to the strings
/// that hold the same characters.
proof fn lemma_received_once(r: Receiving, bytes: Seq<u8>, a: Received, b: Received)
    requires
        protocol::received(r, bytes, a),
        protocol::received(r, bytes, b),
    ensures
        a is More <==> b is More,
        a is Request <==> b is Request,
        a is Failed ==> a == b,
        a matches Received::More(x) ==> b matches Received::More(y) && x.wanted() == y.wanted(),
        a matches Received::Request(x) ==> b matches Received::Request(y) && x@ == y@,
{
    match r {
        Receiving::Headers(_) => {
            assert(protocol::PROTOCOL_VERSION == 0);
        },
        _ => {},
    }
}

/// A request is answered, and once: when its payload was read, the engine is
/// called with what the request asks for; whatever the engine returns, one
/// response is sent that carries the id of the request and the answer; and the
/// connection then waits for the next request.
pub proof fn lemma_request_answered(
    headers: protocol::TcpHeaders,
    bytes: Vec<u8>,
    q: TcpRequest,
    calling: (ConnectionState, ConnectionAction),
    result: Result<Option<String>, StorageEngineError>,
    sending: (ConnectionState, ConnectionAction),
    done: (ConnectionState, ConnectionAction),
)
    requires
        protocol::readable(Receiving::Payload(headers, bytes.len() as u32), bytes@),
        protocol::received(
            Receiving::Payload(headers, bytes.len() as u32),
            bytes@,
            Received::Request(q),
        ),
        stepped(
            ConnectionState::Receiving(Receiving::Payload(headers, bytes.len() as u32)),
            ConnectionEvent::Bytes(bytes),
            calling.0,
            calling.1,
        ),
        stepped(calling.0, ConnectionEvent::Answered(result), sending.0, sending.1),
        stepped(sending.0, ConnectionEvent::Sent, done.0, done.1),
    ensures
        possible(calling.0, ConnectionEvent::Answered(result)),
        calling.1 matches ConnectionAction::Call(op) && asks(q, op),
        possible(sending.0, ConnectionEvent::Sent),
        sending.1 matches ConnectionAction::Send(b) && b@ == protocol::response_bytes(
            response_to(
                headers.correlation_id,
                answer_of(headers.request_type == RequestType::Get, result),
            ),
        ),
        done.0 is Idle,
        done.1 is AwaitRequest,
{
    let r = Receiving::Payload(headers, bytes.len() as u32);
    let out = choose|out: Received| #[trigger]
        protocol::received(r, bytes@, out) && taken(out, calling.0, calling.1);
    lemma_received_once(r, bytes@, Received::Request(q), out);
}

/// A request that cannot be read is answered too: one response is sent that
/// carries the id of the request and the code of the error, and the connection
/// then waits for the next request, or ends where the response cannot be sent.
pub proof fn lemma_error_answered(
    r: Receiving,
    bytes: Vec<u8>,
    error: ParseError,
    sending: (ConnectionState, ConnectionAction),
    event: ConnectionEvent,
    done: (ConnectionState, ConnectionAction),
)
    requires
        protocol::readable(r, bytes@),
        protocol::received(r, bytes@, Received::Failed(TcpError::Parse(error))),
        stepped(
            ConnectionState::Receiving(r),
            ConnectionEvent::Bytes(bytes),
            sending.0,
            sending.1,
        ),
        possible(sending.0, event),
        stepped(sending.0, event, done.0, done.1),
    ensures
        sending.1 matches ConnectionAction::Send(b) && b@ == protocol::response_bytes(
            response_to_error(error),
        ),
        match r {
            Receiving::Headers(_) => error.id().bytes@ == bytes@.subrange(4, 20),
            Receiving::PayloadLen(h) => error.id() == h.correlation_id,
            Receiving::Payload(h, _) => error.id() == h.correlation_id,
        },
        event is Sent ==> done.0 is Idle && done.1 is AwaitRequest,
        event is SendFailed ==> done.0 is Closed && done.1 is Finish,
{
    let out = choose|out: Received| #[trigger]
        protocol::received(r, bytes@, out) && taken(out, sending.0, sending.1);
    lemma_received_once(r, bytes@, Received::Failed(TcpError::Parse(error)), out);
    if r is Headers {
        protocol::lemma_header_error_id(bytes@, Err(TcpError::Parse(error)));
    }
}

/// A connection that is cancelled, or that waits too long for a request, tells
/// the client and ends.
pub proof fn lemma_closed_with_notice(
    event: ConnectionEvent,
    sending: (ConnectionState, ConnectionAction),
    sent: ConnectionEvent,
    done: (ConnectionState, ConnectionAction),
)
    requires
        event is Cancelled || event == ConnectionEvent::HeaderLen(Err(CloseMode::Notify)),
        stepped(ConnectionState::Idle, event, sending.0, sending.1),
        possible(sending.0, sent),
        stepped(sending.0, sent, done.0, done.1),
    ensures
        sending.1 matches ConnectionAction::Send(b) && b@ == protocol::response_bytes(
            protocol::close_notification(),
        ),
        done.0 is Closed,
        done.1 is Finish,
{
}

/// A connection whose client cannot be read from, or does not speak the
/// protocol, ends at once, and nothing is sent.
pub proof fn lemma_closed_silently(
    state: ConnectionState,
    event: ConnectionEvent,
    done: (ConnectionState, ConnectionAction),
)
    requires
        possible(state, event),
        stepped(state, event, done.0, done.1),
        ({
            ||| state is Idle && event == ConnectionEvent::HeaderLen(Err(CloseMode::Silent))
            ||| state is Receiving && event is ReadFailed
            ||| state matches ConnectionState::Receiving(Receiving::Headers(_))
                && event matches ConnectionEvent::Bytes(b) && b@.take(4) != protocol::MAGIC_BYTES@
        }),
    ensures
        done.0 is Closed,
        done.1 is Finish,
{
}

/// A request that is being read, answered or sent is not cut short by a
/// cancellation: a connection is cancelled between two requests only, and one
/// that has ended does nothing any more.
pub proof fn lemma_cancelled_between_requests(state: ConnectionState, event: ConnectionEvent)
    ensures
        possible(state, ConnectionEvent::Cancelled) <==> state is Idle,
        state is Closed ==> !possible(state, event),
{
}

/// The engine is asked for what the request is of: a get request looks its key
/// up, a delete request deletes its key, and a put request puts its value.
pub proof fn lemma_operation_of_request(q: TcpRequest, op: Operation)
    requires
        asks(q, op),
    ensures
        match q.headers.request_type {
            RequestType::Get => op matches Operation::Get(key) && key@ == q.payload.key@,
            RequestType::Delete => op matches Operation::Delete(key) && key@ == q.payload.key@,
            RequestType::Put => op matches Operation::Put(data) && data.key@ == q.payload.key@
                && (q.payload.value matches Some(v) && data.value@ == v@),
        },
{
}

/// The bytes of a response: the number of the bytes that follow, the id, the
/// code, and the text where there is one.
pub open spec fn carries(
    b: Seq<u8>,
    id: Seq<u8>,
    code: u8,
    text: Option<Seq<char>>,
) -> bool {
    let t = match text {
        Some(v) => vstd::utf8::encode_utf8(v),
        None => Seq::<u8>::empty(),
    };
    &&& b.len() == 21 + t.len()
    &&& b.len() - 4 <= u32::MAX ==> crate::codec::be_value(b.take(4)) == b.len() - 4
    &&& b.subrange(4, 20) == id
    &&& b[20] == code
    &&& b.skip(21) == t
}

/// A response carries its id, its code and its text.
proof fn lemma_carries(r: protocol::ResponseView)
    ensures
        carries(protocol::response_bytes(r), r.id.bytes@, r.code, r.payload),
{
    protocol::lemma_response_read(r);
    crate::codec::lemma_be_bytes_len(protocol::response_body(r).len(), 4);
    let t = match r.payload {
        Some(v) => vstd::utf8::encode_utf8(v),
        None => Seq::<u8>::empty(),
    };
    assert(protocol::response_bytes(r).skip(21) =~= t);
}

/// What the engine returns is what the client is sent. A value is sent with the
/// code of success, whether it was looked up or is what a write has replaced. A
/// lookup that finds nothing, and nothing else but the engine's own word, is
/// answered by the code of a missing key. A write that replaces nothing succeeds
/// without a value, and an error is sent as its code.
pub proof fn lemma_answer_is_what_the_engine_returns(
    id: CorrelationId,
    get: bool,
    result: Result<Option<String>, StorageEngineError>,
    sending: (ConnectionState, ConnectionAction),
)
    requires
        stepped(
            ConnectionState::Calling(id, get),
            ConnectionEvent::Answered(result),
            sending.0,
            sending.1,
        ),
    ensures
        sending.1 matches ConnectionAction::Send(b) && match result {
            Ok(Some(v)) => carries(b@, id.bytes@, 0, Some(v@)),
            Ok(None) => carries(
                b@,
                id.bytes@,
                if get {
                    2
                } else {
                    0
                },
                None,
            ),
            Err(StorageEngineError::IoError) => carries(b@, id.bytes@, 1, None),
            Err(StorageEngineError::NotFound) => carries(b@, id.bytes@, 2, None),
            Err(StorageEngineError::Shutdown) => carries(b@, id.bytes@, 3, None),
        },
        sending.0 is Sending,
        sending.0 != ConnectionState::Sending(Reply::Farewell),
{
    lemma_carries(response_to(id, answer_of(get, result)));
}

/// A request that is sent reaches the engine. The connection reads the header
/// block, the length of the payload and the payload, each as many bytes as the
/// request has of it, and then it calls the engine with the operation, the key
/// and the value of the request.
pub proof fn lemma_request_reaches_engine(
    q: protocol::RequestView,
    headers: Vec<u8>,
    len: Vec<u8>,
    payload: Vec<u8>,
    first: (ConnectionState, ConnectionAction),
    second: (ConnectionState, ConnectionAction),
    third: (ConnectionState, ConnectionAction),
    last: (ConnectionState, ConnectionAction),
)
    requires
        4 + vstd::utf8::encode_utf8(q.payload.key).len() + (match q.payload.value {
            Some(v) => 4 + vstd::utf8::encode_utf8(v).len(),
            None => 0,
        }) <= u32::MAX,
        q.headers.protocol_version == 0,
        q.payload.value is Some <==> q.headers.request_type == RequestType::Put,
        headers@ == protocol::request_bytes(q).subrange(4, 28),
        len@ == protocol::request_bytes(q).subrange(28, 32),
        payload@ == protocol::request_bytes(q).skip(32),
        stepped(
            ConnectionState::Idle,
            ConnectionEvent::HeaderLen(Ok(24)),
            first.0,
            first.1,
        ),
        stepped(first.0, ConnectionEvent::Bytes(headers), second.0, second.1),
        stepped(second.0, ConnectionEvent::Bytes(len), third.0, third.1),
        stepped(third.0, ConnectionEvent::Bytes(payload), last.0, last.1),
    ensures
        possible(ConnectionState::Idle, ConnectionEvent::HeaderLen(Ok(24))),
        first.1 == ConnectionAction::Read(24),
        possible(first.0, ConnectionEvent::Bytes(headers)),
        second.1 == ConnectionAction::Read(4),
        possible(second.0, ConnectionEvent::Bytes(len)),
        third.1 matches ConnectionAction::Read(n) && n == payload@.len(),
        possible(third.0, ConnectionEvent::Bytes(payload)),
        last.1 matches ConnectionAction::Call(op) && match q.headers.request_type {
            RequestType::Get => op matches Operation::Get(key) && key@ == q.payload.key,
            RequestType::Delete => op matches Operation::Delete(key) && key@ == q.payload.key,
            RequestType::Put => op matches Operation::Put(data) && data.key@ == q.payload.key
                && Some(data.value@) == q.payload.value,
        },
        last.0 matches ConnectionState::Calling(id, get) && id.bytes@ == protocol::swapped(
            q.headers.correlation_id.bytes@,
        ) && get == (q.headers.request_type == RequestType::Get),
{
    assert(protocol::PROTOCOL_VERSION == 0);
    crate::codec::lemma_le_bytes_len(vstd::utf8::encode_utf8(q.payload.key).len(), 4);
    if q.payload.value is Some {
        let v = q.payload.value.unwrap();
        crate::codec::lemma_le_bytes_len(vstd::utf8::encode_utf8(v).len(), 4);
    }
    assert(protocol::sendable(q.payload));
    let r0 = Receiving::Headers(24);
    assert(first.0 == ConnectionState::Receiving(r0));
    let o1 = choose|out: Received| #[trigger]
        protocol::received(r0, headers@, out) && taken(out, second.0, second.1);
    let no = Received::Failed(TcpError::Connection(ConnectionError::TimedOut));
    let o2 = match o1 {
        Received::More(s) => choose|out: Received| #[trigger]
            protocol::received(s, len@, out) && taken(out, third.0, third.1),
        _ => no,
    };
    let o3 = match o2 {
        Received::More(s) => choose|out: Received| #[trigger]
            protocol::received(s, payload@, out) && taken(out, last.0, last.1),
        _ => no,
    };
    protocol::lemma_request_received(q, o1, o2, o3);
    protocol::lemma_id_bytes(protocol::swapped(q.headers.correlation_id.bytes@));
}

/// A client whose connection is cancelled, or that waits too long, is told so by
/// a response to no request that carries the code of a timeout and no text.
pub proof fn lemma_notice_carries(
    event: ConnectionEvent,
    sending: (ConnectionState, ConnectionAction),
)
    requires
        event is Cancelled || event == ConnectionEvent::HeaderLen(Err(CloseMode::Notify)),
        stepped(ConnectionState::Idle, event, sending.0, sending.1),
    ensures
        sending.1 matches ConnectionAction::Send(b) && carries(
            b@,
            Seq::new(16, |i: int| 0u8),
            11,
            None,
        ),
{
    lemma_carries(protocol::close_notification());
    protocol::lemma_id_bytes(Seq::new(16, |i: int| 0u8));
}

/// A client whose request cannot be read is told why: by the id of its request
/// and the code of the error, with no text.
pub proof fn lemma_error_carries(
    r: Receiving,
    bytes: Vec<u8>,
    error: ParseError,
    sending: (ConnectionState, ConnectionAction),
)
    requires
        protocol::readable(r, bytes@),
        protocol::received(r, bytes@, Received::Failed(TcpError::Parse(error))),
        stepped(
            ConnectionState::Receiving(r),
            ConnectionEvent::Bytes(bytes),
            sending.0,
            sending.1,
        ),
    ensures
        sending.0 == ConnectionState::Sending(Reply::Error),
        sending.1 matches ConnectionAction::Send(b) && carries(
            b@,
            match r {
                Receiving::Headers(_) => bytes@.subrange(4, 20),
                Receiving::PayloadLen(h) => h.correlation_id.bytes@,
                Receiving::Payload(h, _) => h.correlation_id.bytes@,
            },
            match error {
                ParseError::InvalidKey(_) => 4,
                ParseError::InvalidValue(_) => 5,
                ParseError::MissingValue(_) => 6,
                ParseError::MalformedPayload(_) => 7,
                ParseError::InvalidRequestType(_) => 8,
                ParseError::UnknownFlags(_) => 9,
                ParseError::UnsupportedVersion(_) => 10,
            },
            None,
        ),
{
    let out = choose|out: Received| #[trigger]
        protocol::received(r, bytes@, out) && taken(out, sending.0, sending.1);
    lemma_received_once(r, bytes@, Received::Failed(TcpError::Parse(error)), out);
    if r is Headers {
        protocol::lemma_header_error_id(bytes@, Err(TcpError::Parse(error)));
    }
    lemma_carries(response_to_error(error));
}

/// After a response was sent, or could not be, the connection waits for the next
/// request, with two exceptions: it ends after its farewell, and where the client
/// could not be told of an error.
pub proof fn lemma_connection_goes_on(
    reply: Reply,
    event: ConnectionEvent,
    done: (ConnectionState, ConnectionAction),
)
    requires
        event is Sent || event is SendFailed,
        stepped(ConnectionState::Sending(reply), event, done.0, done.1),
    ensures
        possible(ConnectionState::Sending(reply), event),
        match reply {
            Reply::Answer => done.0 is Idle && done.1 is AwaitRequest,
            Reply::Error => if event is Sent {
                done.0 is Idle && done.1 is AwaitRequest
            } else {
                done.0 is Closed && done.1 is Finish
            },
            Reply::Farewell => done.0 is Closed && done.1 is Finish,
        },
{
}

/// A connection reads as many bytes of headers as the client announces, whatever
/// their number.
pub proof fn lemma_headers_are_read(len: u32, next: (ConnectionState, ConnectionAction))
    requires
        stepped(ConnectionState::Idle, ConnectionEvent::HeaderLen(Ok(len)), next.0, next.1),
    ensures
        next.0 == ConnectionState::Receiving(Receiving::Headers(len)),
        next.1 == ConnectionAction::Read(len),
{
}

/// What can happen to a connection: between two requests it is cancelled or told
/// how many bytes of headers follow, or that none do; within a request it gets
/// bytes, or cannot read them; then it is answered by the engine; and what it
/// sends is sent or is not.
pub proof fn lemma_what_can_happen(
    receiving: Receiving,
    id: CorrelationId,
    get: bool,
    reply: Reply,
    event: ConnectionEvent,
)
    ensures
        possible(ConnectionState::Idle, event) <==> event is Cancelled || event is HeaderLen,
        event is ReadFailed ==> possible(ConnectionState::Receiving(receiving), event),
        event matches ConnectionEvent::Bytes(b) ==> (possible(
            ConnectionState::Receiving(receiving),
            event,
        ) <==> protocol::readable(receiving, b@)),
        possible(ConnectionState::Calling(id, get), event) <==> event is Answered,
        possible(ConnectionState::Sending(reply), event) <==> event is Sent || event is SendFailed,
        !possible(ConnectionState::Closed, event),
{
}

/// A client is told of an error in its request and of a timeout, and of nothing
/// else: a connection that cannot be read from, or whose client does not speak the
/// protocol, ends at once.
pub proof fn lemma_client_is_told(error: TcpError, next: (ConnectionState, ConnectionAction))
    requires
        refused(error, next.0, next.1),
    ensures
        match error {
            TcpError::Parse(e) => next.0 == ConnectionState::Sending(Reply::Error) && (
            next.1 matches ConnectionAction::Send(b) && carries(
                b@,
                e.id().bytes@,
                TcpError::Parse(e).code(),
                None,
            )),
            TcpError::Connection(ConnectionError::TimedOut) => next.0 == ConnectionState::Sending(
                Reply::Farewell,
            ) && (next.1 matches ConnectionAction::Send(b) && carries(
                b@,
                Seq::new(16, |i: int| 0u8),
                11,
                None,
            )),
            TcpError::Connection(_) => next.0 is Closed && next.1 is Finish,
        },
{
    lemma_carries(protocol::close_notification());
    protocol::lemma_id_bytes(Seq::new(16, |i: int| 0u8));
    if let TcpError::Parse(e) = error {
        lemma_carries(response_to_error(e));
    }
}

} // verus!
