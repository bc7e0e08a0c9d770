//! The life of a connection, with a store in memory and a client that reads and
//! writes buffers.

use rkvs::storage_engine::StorageEngineError;
use rkvs::tcp::connection::{
    engine_answer, CloseMode, ConnectionAction, ConnectionEvent, ConnectionState, Operation,
};
use rkvs::tcp::connection_manager::{
    ConnectionData, ConnectionHandleData, ConnectionManager, ManagerAction,
};
use rkvs::tcp::protocol::{
    CorrelationId, ParseError, Payload, RequestType, TcpHeaders, TcpRequest, TcpResponse,
};
use std::collections::HashMap;
use std::io;
use uuid::Uuid;

fn id(n: u128) -> CorrelationId {
    CorrelationId::from_bytes(Uuid::from_u128(n).into_bytes())
}

fn request(request_type: RequestType, n: u128, key: &str, value: Option<&str>) -> TcpRequest {
    TcpRequest {
        headers: TcpHeaders {
            request_type,
            correlation_id: id(n),
            protocol_version: 0,
            flags: 0,
        },
        payload: Payload { key: String::from(key), value: value.map(|v| String::from(v)) },
    }
}

struct FakeStore {
    map: HashMap<String, String>,
}

impl FakeStore {
    fn new() -> Self {
        FakeStore { map: HashMap::new() }
    }

    fn call(&mut self, op: Operation) -> Result<Option<String>, StorageEngineError> {
        match op {
            Operation::Delete(key) => Ok(self.map.remove(&key)),
            Operation::Get(key) => Ok(self.map.get(&key).cloned()),
            Operation::Put(data) => Ok(self.map.insert(data.key, data.value)),
        }
    }
}

/// What is sent over a connection whose client sends the bytes. `at_end` is what
/// happens when the bytes are used up.
fn run(
    store: &mut FakeStore,
    bytes: &[u8],
    at_end: fn() -> ConnectionEvent,
    fails: bool,
) -> Vec<Vec<u8>> {
    let mut sent = Vec::new();
    let mut at = 0;
    let (mut state, mut action) = ConnectionState::start();
    loop {
        let event = match action {
            ConnectionAction::AwaitRequest => {
                if at + 4 > bytes.len() {
                    at_end()
                } else {
                    let len = u32::from_be_bytes(bytes[at..at + 4].try_into().unwrap());
                    at += 4;
                    ConnectionEvent::HeaderLen(Ok(len))
                }
            }
            ConnectionAction::Read(len) => {
                let len = len as usize;
                if at + len > bytes.len() {
                    ConnectionEvent::ReadFailed(io::Error::from(io::ErrorKind::UnexpectedEof))
                } else {
                    at += len;
                    ConnectionEvent::Bytes(bytes[at - len..at].to_vec())
                }
            }
            ConnectionAction::Call(op) => ConnectionEvent::Answered(store.call(op)),
            ConnectionAction::Send(b) => {
                sent.push(b);
                if fails {
                    ConnectionEvent::SendFailed
                } else {
                    ConnectionEvent::Sent
                }
            }
            ConnectionAction::Finish => {
                assert_eq!(state, ConnectionState::Closed);
                return sent;
            }
        };
        assert!(state.can_happen(&event));
        (state, action) = state.step(event);
    }
}

fn gone() -> ConnectionEvent {
    ConnectionEvent::HeaderLen(Err(CloseMode::Silent))
}

fn timed_out() -> ConnectionEvent {
    ConnectionEvent::HeaderLen(Err(CloseMode::Notify))
}

fn cancelled() -> ConnectionEvent {
    ConnectionEvent::Cancelled
}

#[test]
fn handle_put_request() {
    let mut store = FakeStore::new();
    let request = request(RequestType::Put, 1024, "key", Some("value"));
    let response = TcpResponse::from(&id(1024), None);
    let sent = run(&mut store, &request.to_bytes(), gone, false);
    assert_eq!(sent, vec![response.to_bytes()]);
    assert_eq!(store.map.get("key"), Some(&String::from("value")));
}

#[test]
fn handle_put_get_request() {
    let mut store = FakeStore::new();
    let put_request = request(RequestType::Put, 1024, "key", Some("value"));
    let get_request = request(RequestType::Get, 512, "key", None);
    let put_response = TcpResponse::from(&id(1024), None);
    let get_response = TcpResponse::from(&id(512), Some(String::from("value")));
    let sent = run(&mut store, &put_request.to_bytes(), gone, false);
    assert_eq!(sent, vec![put_response.to_bytes()]);
    let sent = run(&mut store, &get_request.to_bytes(), gone, false);
    assert_eq!(sent, vec![get_response.to_bytes()]);
    assert_eq!(store.map.get("key"), Some(&String::from("value")));
}

#[test]
fn handle_put_get_request_reuse_conn() {
    let mut store = FakeStore::new();
    let mut bytes = request(RequestType::Put, 1024, "key", Some("value")).to_bytes();
    bytes.extend(request(RequestType::Get, 512, "key", None).to_bytes());
    let put_response = TcpResponse::from(&id(1024), None);
    let get_response = TcpResponse::from(&id(512), Some(String::from("value")));
    let sent = run(&mut store, &bytes, gone, false);
    assert_eq!(sent, vec![put_response.to_bytes(), get_response.to_bytes()]);
    assert_eq!(store.map.get("key"), Some(&String::from("value")));
}

#[test]
fn connection_cancel_before_start() {
    let mut store = FakeStore::new();
    store.map.insert(String::from("key"), String::from("value1"));
    let (state, _) = ConnectionState::start();
    let (state, action) = state.step(ConnectionEvent::Cancelled);
    assert_eq!(
        action,
        ConnectionAction::Send(TcpResponse::create_close_notification().to_bytes())
    );
    let (state, action) = state.step(ConnectionEvent::Sent);
    assert_eq!(action, ConnectionAction::Finish);
    assert_eq!(state, ConnectionState::Closed);
    assert_eq!(store.map.get("key"), Some(&String::from("value1")));
}

#[test]
fn connection_cancel_after_start() {
    let mut store = FakeStore::new();
    store.map.insert(String::from("key"), String::from("value1"));
    let request = request(RequestType::Put, 1024, "key", Some("value2"));
    let response = TcpResponse::from(&id(1024), Some(String::from("value1")));
    let sent = run(&mut store, &request.to_bytes(), cancelled, false);
    assert_eq!(
        sent,
        vec![response.to_bytes(), TcpResponse::create_close_notification().to_bytes()]
    );
    assert_eq!(store.map.get("key"), Some(&String::from("value2")));
}

#[test]
fn connection_timout_stops() {
    let mut store = FakeStore::new();
    let sent = run(&mut store, &[], timed_out, false);
    assert_eq!(sent, vec![TcpResponse::create_close_notification().to_bytes()]);
}

#[test]
fn missing_keys_are_not_found() {
    let mut store = FakeStore::new();
    let mut bytes = request(RequestType::Get, 1, "key", None).to_bytes();
    bytes.extend(request(RequestType::Delete, 2, "key", None).to_bytes());
    let sent = run(&mut store, &bytes, gone, false);
    let not_found = TcpResponse::from_internal_error(&id(1), &StorageEngineError::NotFound);
    let deleted = TcpResponse::from(&id(2), None);
    assert_eq!(sent, vec![not_found.to_bytes(), deleted.to_bytes()]);
    assert_eq!(
        engine_answer(true, Err(StorageEngineError::Shutdown)),
        Err(StorageEngineError::Shutdown)
    );
    assert_eq!(engine_answer(false, Ok(None)), Ok(None));
}

#[test]
fn bad_requests_are_answered_and_the_connection_goes_on() {
    let mut store = FakeStore::new();
    let mut bytes = request(RequestType::Put, 7, "key", None).to_bytes();
    bytes.extend(request(RequestType::Get, 8, "key", Some("value")).to_bytes());
    bytes.extend(request(RequestType::Put, 9, "key", Some("value")).to_bytes());
    let sent = run(&mut store, &bytes, gone, false);
    assert_eq!(
        sent,
        vec![
            TcpResponse::from_tcp_parse_error(ParseError::MissingValue(id(7))).to_bytes(),
            TcpResponse::from_tcp_parse_error(ParseError::MalformedPayload(id(8))).to_bytes(),
            TcpResponse::from(&id(9), None).to_bytes(),
        ]
    );
}

#[test]
fn strangers_are_dropped_silently() {
    let mut store = FakeStore::new();
    let mut bytes = request(RequestType::Get, 7, "key", None).to_bytes();
    bytes[4] = b'x';
    assert!(run(&mut store, &bytes, gone, false).is_empty());
    // So are those who leave within a request.
    let bytes = request(RequestType::Put, 7, "key", Some("value")).to_bytes();
    assert!(run(&mut store, &bytes[..bytes.len() - 1], gone, false).is_empty());
    assert!(store.map.is_empty());
}

#[test]
fn an_error_that_cannot_be_sent_ends_the_connection() {
    let mut store = FakeStore::new();
    let mut bytes = request(RequestType::Get, 1, "key", None).to_bytes();
    bytes.extend(request(RequestType::Put, 2, "key", Some("value")).to_bytes());
    let sent = run(&mut store, &bytes, gone, true);
    assert_eq!(sent.len(), 1);
    assert!(store.map.is_empty());
    // An answer that cannot be sent does not.
    let mut bytes = request(RequestType::Put, 1, "key", Some("value")).to_bytes();
    bytes.extend(request(RequestType::Delete, 2, "key", None).to_bytes());
    let sent = run(&mut store, &bytes, gone, true);
    assert_eq!(sent.len(), 2);
}

#[test]
fn a_request_is_not_cancelled() {
    let (state, _) = ConnectionState::start();
    assert!(state.can_happen(&ConnectionEvent::Cancelled));
    let (state, action) = state.step(ConnectionEvent::HeaderLen(Ok(24)));
    assert_eq!(action, ConnectionAction::Read(24));
    assert!(!state.can_happen(&ConnectionEvent::Cancelled));
    assert!(!state.can_happen(&ConnectionEvent::Bytes(vec![0; 23])));
}

#[test]
fn connections_are_waited_for() {
    let mut manager: ConnectionManager<&str> = ConnectionManager::new();
    for (id, conn_handle) in [(1, "one"), (2, "two"), (3, "three")] {
        let data = ConnectionData::StartSignal(ConnectionHandleData { conn_handle, id });
        assert!(matches!(manager.handle(data, false), ManagerAction::Continue));
    }
    let action = manager.handle(ConnectionData::CompletionSignal(2), false);
    assert!(matches!(action, ManagerAction::Await("two")));
    let action = manager.handle(ConnectionData::CompletionSignal(2), false);
    assert!(matches!(action, ManagerAction::Continue));
    let action = manager.handle(ConnectionData::CompletionSignal(1), true);
    assert!(matches!(action, ManagerAction::Stop));
    // One that was started when the server was cancelled is waited for too.
    let late = ConnectionHandleData { conn_handle: "four", id: 4 };
    let action = manager.handle(ConnectionData::StartSignal(late), true);
    assert!(matches!(action, ManagerAction::Stop));
    let open = manager.into_handles();
    assert_eq!(open.len(), 3);
    assert_eq!(open.get(&4), Some(&"four"));
    assert_eq!(open.get(&1), Some(&"one"));
    assert_eq!(open.get(&3), Some(&"three"));
}
