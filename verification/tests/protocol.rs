//! The wire protocol.

use rkvs::storage_engine::StorageEngineError;
use rkvs::tcp::protocol::{
    headers_readable, parse_headers, parse_payload, parse_request_type, payload_readable,
    verify_magic_bytes, ConnectionError, CorrelationId, ParseError, Payload, Received, Receiving,
    RequestType, TcpError, TcpHeaders, TcpRequest, TcpResponse, MAGIC_BYTES,
};
use uuid::Uuid;

fn id(n: u128) -> CorrelationId {
    CorrelationId::from_bytes(Uuid::from_u128(n).into_bytes())
}

fn number(id: &CorrelationId) -> u128 {
    Uuid::from_bytes(id.bytes).as_u128()
}

#[test]
fn parse_headers_ok_delete() {
    let headers_write = TcpHeaders {
        correlation_id: id(1),
        request_type: RequestType::Delete,
        protocol_version: 0,
        flags: 0,
    };
    let mut buf = Vec::<u8>::new();
    buf.resize(headers_write.len() + 4, 0);
    buf[0..4].copy_from_slice(&MAGIC_BYTES);
    buf[4..].copy_from_slice(&headers_write.to_bytes());
    let headers_read = parse_headers(&buf);
    assert!(headers_read.is_ok());
    assert_eq!(number(&headers_read.as_ref().unwrap().correlation_id), 1);
    assert_eq!(headers_read.as_ref().unwrap().flags, 0);
    assert_eq!(headers_read.as_ref().unwrap().protocol_version, 0);
    assert_eq!(
        headers_read.as_ref().unwrap().request_type,
        RequestType::Delete
    );
}

#[test]
fn parse_headers_ok_get() {
    let headers_write = TcpHeaders {
        correlation_id: id(64),
        request_type: RequestType::Get,
        protocol_version: 0,
        flags: 0,
    };
    let mut buf = Vec::<u8>::new();
    buf.resize(headers_write.len() + 4, 0);
    buf[0..4].copy_from_slice(&MAGIC_BYTES);
    buf[4..].copy_from_slice(&headers_write.to_bytes());
    let headers_read = parse_headers(&buf);
    assert!(headers_read.is_ok());
    assert_eq!(number(&headers_read.as_ref().unwrap().correlation_id), 64);
    assert_eq!(headers_read.as_ref().unwrap().flags, 0);
    assert_eq!(headers_read.as_ref().unwrap().protocol_version, 0);
    assert_eq!(
        headers_read.as_ref().unwrap().request_type,
        RequestType::Get
    );
}

#[test]
fn parse_headers_ok_put() {
    let headers_write = TcpHeaders {
        correlation_id: id(1024),
        request_type: RequestType::Put,
        protocol_version: 0,
        flags: 0,
    };
    let mut buf = Vec::<u8>::new();
    buf.resize(headers_write.len() + 4, 0);
    buf[0..4].copy_from_slice(&MAGIC_BYTES);
    buf[4..].copy_from_slice(&headers_write.to_bytes());
    let headers_read = parse_headers(&buf);
    assert!(headers_read.is_ok());
    assert_eq!(
        number(&headers_read.as_ref().unwrap().correlation_id),
        1024
    );
    assert_eq!(headers_read.as_ref().unwrap().flags, 0);
    assert_eq!(headers_read.as_ref().unwrap().protocol_version, 0);
    assert_eq!(
        headers_read.as_ref().unwrap().request_type,
        RequestType::Put
    );
}

#[test]
fn parse_headers_wrong_version() {
    let headers_write = TcpHeaders {
        correlation_id: id(1),
        request_type: RequestType::Delete,
        protocol_version: 1,
        flags: 0,
    };
    let mut buf = Vec::<u8>::new();
    buf.resize(headers_write.len() + 4, 0);
    buf[0..4].copy_from_slice(&MAGIC_BYTES);
    buf[4..].copy_from_slice(&headers_write.to_bytes());
    let headers_read = parse_headers(&buf);
    assert!(matches!(
        headers_read,
        Err(TcpError::Parse(ParseError::UnsupportedVersion(_)))
    ))
}

#[test]
fn protocol_parse_headers_wrong_magic_bytes() {
    let headers_write = TcpHeaders {
        correlation_id: id(1),
        request_type: RequestType::Delete,
        protocol_version: 0,
        flags: 0,
    };
    let mut buf = Vec::<u8>::new();
    buf.resize(headers_write.len() + 4, 0);
    buf[0..4].copy_from_slice(&MAGIC_BYTES);
    buf[0] += 1;
    buf[4..].copy_from_slice(&headers_write.to_bytes());
    let headers_read = parse_headers(&buf);
    assert!(matches!(
        headers_read,
        Err(TcpError::Connection(ConnectionError::WrongMagicBytes))
    ));
}

#[test]
fn protocol_parse_payload_delete_ok() {
    let payload_write = Payload {
        key: String::from("key"),
        value: None,
    };
    let buf = payload_write.to_bytes();
    let correlation_id = id(20);
    let payload = parse_payload(&buf, &RequestType::Delete, &correlation_id);
    assert!(payload.is_ok());
    assert_eq!(payload_write.key, payload.as_ref().unwrap().key);
    assert!(payload.as_ref().unwrap().value.is_none());
}

#[test]
fn protocol_parse_payload_get_ok() {
    let payload_write = Payload {
        key: String::from("key"),
        value: None,
    };
    let buf = payload_write.to_bytes();
    let correlation_id = id(20);
    let payload = parse_payload(&buf, &RequestType::Get, &correlation_id);
    assert!(payload.is_ok());
    assert_eq!(payload_write.key, payload.as_ref().unwrap().key);
    assert!(payload.as_ref().unwrap().value.is_none());
}

#[test]
fn protocol_parse_payload_put_ok() {
    let payload_write = Payload {
        key: String::from("key"),
        value: Some(String::from("value")),
    };
    let buf = payload_write.to_bytes();
    let correlation_id = id(20);
    let payload = parse_payload(&buf, &RequestType::Put, &correlation_id);
    assert!(payload.is_ok());
    assert_eq!(payload_write.key, payload.as_ref().unwrap().key);
    assert!(payload.as_ref().unwrap().value.is_some());
    assert_eq!(
        payload_write.value.as_ref().unwrap(),
        payload.as_ref().unwrap().value.as_ref().unwrap()
    );
}

#[test]
fn protocol_parse_payload_put_no_value() {
    let payload_write = Payload {
        key: String::from("key"),
        value: None,
    };
    let buf = payload_write.to_bytes();
    let correlation_id = id(20);
    let payload = parse_payload(&buf, &RequestType::Put, &correlation_id);
    assert!(matches!(
        payload,
        Err(TcpError::Parse(ParseError::MissingValue(_)))
    ));
}

#[test]
fn protocol_parse_payload_get_with_value() {
    let payload_write = Payload {
        key: String::from("key"),
        value: Some(String::from("value")),
    };
    let buf = payload_write.to_bytes();
    let correlation_id = id(20);
    let payload = parse_payload(&buf, &RequestType::Get, &correlation_id);
    assert!(matches!(
        payload,
        Err(TcpError::Parse(ParseError::MalformedPayload(_)))
    ));
}

#[test]
fn protocol_parse_payload_delete_with_value() {
    let payload_write = Payload {
        key: String::from("key"),
        value: Some(String::from("value")),
    };
    let buf = payload_write.to_bytes();
    let correlation_id = id(20);
    let payload = parse_payload(&buf, &RequestType::Delete, &correlation_id);
    assert!(matches!(
        payload,
        Err(TcpError::Parse(ParseError::MalformedPayload(_)))
    ));
}

fn parse_tcp_request(bytes: &Vec<u8>) -> Result<TcpRequest, TcpError> {
    let header_len = u32::from_be_bytes(bytes[0..4].try_into().unwrap());
    let header_len_usize = usize::try_from(header_len).unwrap();
    let headers = parse_headers(&bytes[4..4 + header_len_usize].to_vec())?;
    let payload = parse_payload(
        &bytes[8 + header_len_usize..].to_vec(),
        &headers.request_type,
        &headers.correlation_id,
    )?;
    Ok(TcpRequest {
        headers: headers,
        payload: payload,
    })
}

#[test]
fn serialize_request_no_value() {
    let headers = TcpHeaders {
        correlation_id: id(1024),
        request_type: RequestType::Get,
        protocol_version: 0,
        flags: 0,
    };
    let payload = Payload {
        key: String::from("key"),
        value: None,
    };
    let request = TcpRequest {
        headers: headers,
        payload: payload,
    };
    let bytes = request.to_bytes();
    let request_read = parse_tcp_request(&bytes);
    assert!(matches!(request_read, Ok(_)));
    assert_eq!(request_read.as_ref().unwrap().headers, request.headers);
    assert_eq!(request_read.as_ref().unwrap().payload, request.payload);
}

#[test]
fn parse_headers_ok() {
    let headers_write = TcpHeaders {
        correlation_id: id(1),
        request_type: RequestType::Delete,
        protocol_version: 0,
        flags: 0,
    };
    let mut buf = Vec::<u8>::new();
    buf.resize(headers_write.len() + 4, 0);
    buf[0..4].copy_from_slice(&MAGIC_BYTES);
    buf[4..].copy_from_slice(&headers_write.to_bytes());
    let headers_read = parse_headers(&buf);
    assert!(headers_read.is_ok());
    assert_eq!(number(&headers_read.as_ref().unwrap().correlation_id), 1);
    assert_eq!(headers_read.as_ref().unwrap().flags, 0);
    assert_eq!(headers_read.as_ref().unwrap().protocol_version, 0);
    assert_eq!(
        headers_read.as_ref().unwrap().request_type,
        RequestType::Delete
    );
}

#[test]
fn tcp_protocol_parse_headers_wrong_magic_bytes() {
    let headers_write = TcpHeaders {
        correlation_id: id(1),
        request_type: RequestType::Delete,
        protocol_version: 0,
        flags: 0,
    };
    let mut buf = Vec::<u8>::new();
    buf.resize(headers_write.len() + 4, 0);
    buf[0..4].copy_from_slice(&MAGIC_BYTES);
    buf[0] += 1;
    buf[4..].copy_from_slice(&headers_write.to_bytes());
    let headers_read = parse_headers(&buf);
    assert!(matches!(headers_read, Err(TcpError::Connection(ConnectionError::WrongMagicBytes))));
}

#[test]
fn tcp_protocol_parse_payload_delete_ok() {
    let payload_write = Payload {
        key: String::from("key"),
        value: None,
    };
    let buf = payload_write.to_bytes();
    let correlation_id = id(20);
    let payload = parse_payload(&buf, &RequestType::Delete, &correlation_id);
    assert!(payload.is_ok());
    assert_eq!(payload_write.key, payload.as_ref().unwrap().key);
    assert!(payload.as_ref().unwrap().value.is_none());
}

#[test]
fn tcp_protocol_parse_payload_get_ok() {
    let payload_write = Payload {
        key: String::from("key"),
        value: None,
    };
    let buf = payload_write.to_bytes();
    let correlation_id = id(20);
    let payload = parse_payload(&buf, &RequestType::Get, &correlation_id);
    assert!(payload.is_ok());
    assert_eq!(payload_write.key, payload.as_ref().unwrap().key);
    assert!(payload.as_ref().unwrap().value.is_none());
}

#[test]
fn tcp_protocol_parse_payload_put_ok() {
    let payload_write = Payload {
        key: String::from("key"),
        value: Some(String::from("value")),
    };
    let buf = payload_write.to_bytes();
    let correlation_id = id(20);
    let payload = parse_payload(&buf, &RequestType::Put, &correlation_id);
    assert!(payload.is_ok());
    assert_eq!(payload_write.key, payload.as_ref().unwrap().key);
    assert!(payload.as_ref().unwrap().value.is_some());
    assert_eq!(
        payload_write.value.as_ref().unwrap(),
        payload.as_ref().unwrap().value.as_ref().unwrap()
    );
}

#[test]
fn tcp_protocol_parse_payload_put_no_value() {
    let payload_write = Payload {
        key: String::from("key"),
        value: None,
    };
    let buf = payload_write.to_bytes();
    let correlation_id = id(20);
    let payload = parse_payload(&buf, &RequestType::Put, &correlation_id);
    assert!(matches!(payload, Err(TcpError::Parse(ParseError::MissingValue(_)))));
}

#[test]
fn tcp_protocol_parse_payload_get_with_value() {
    let payload_write = Payload {
        key: String::from("key"),
        value: Some(String::from("value")),
    };
    let buf = payload_write.to_bytes();
    let correlation_id = id(20);
    let payload = parse_payload(&buf, &RequestType::Get, &correlation_id);
    assert!(matches!(payload, Err(TcpError::Parse(ParseError::MalformedPayload(_)))));
}

#[test]
fn tcp_protocol_parse_payload_delete_with_value() {
    let payload_write = Payload {
        key: String::from("key"),
        value: Some(String::from("value")),
    };
    let buf = payload_write.to_bytes();
    let correlation_id = id(20);
    let payload = parse_payload(&buf, &RequestType::Delete, &correlation_id);
    assert!(matches!(payload, Err(TcpError::Parse(ParseError::MalformedPayload(_)))));
}

fn headers(request_type: RequestType) -> TcpHeaders {
    TcpHeaders { request_type, correlation_id: id(5), protocol_version: 0, flags: 0 }
}

fn block(h: &TcpHeaders) -> Vec<u8> {
    let mut buf = MAGIC_BYTES.to_vec();
    buf.extend_from_slice(&h.to_bytes());
    buf
}

#[test]
fn request_layout() {
    let request = TcpRequest {
        headers: TcpHeaders {
            request_type: RequestType::Put,
            correlation_id: id(0x0102030405060708090a0b0c0d0e0f10),
            protocol_version: 0,
            flags: 0x1234,
        },
        payload: Payload { key: String::from("k"), value: Some(String::from("vw")) },
    };
    let bytes = request.to_bytes();
    let mut expected = vec![0, 0, 0, 24];
    expected.extend_from_slice(b"rkvs");
    expected.extend_from_slice(&[4, 3, 2, 1, 6, 5, 8, 7, 9, 10, 11, 12, 13, 14, 15, 16]);
    expected.extend_from_slice(&[0, 0, 0x12, 0x34]);
    expected.extend_from_slice(&[0, 0, 0, 11]);
    expected.extend_from_slice(&[1, 0, 0, 0, b'k', 2, 0, 0, 0, b'v', b'w']);
    assert_eq!(bytes, expected);
    assert_eq!(request.headers.len(), 20);
    assert_eq!(request.payload.len(), 11);
    let payload = Payload { key: String::from("key"), value: None };
    assert_eq!(payload.to_bytes(), vec![3, 0, 0, 0, 107, 101, 121]);
}

#[test]
fn request_types() {
    assert_eq!(parse_request_type(0), Ok(RequestType::Put));
    assert_eq!(parse_request_type(1), Ok(RequestType::Delete));
    assert_eq!(parse_request_type(2), Ok(RequestType::Get));
    assert_eq!(parse_request_type(3), Err(()));
    assert_eq!(parse_request_type(4), Err(()));
    assert_eq!(parse_request_type(255), Err(()));
}

#[test]
fn magic_bytes() {
    assert!(verify_magic_bytes(b"rkvs"));
    assert!(!verify_magic_bytes(b"rkvz"));
    assert!(!verify_magic_bytes(b"xkvs"));
}

#[test]
fn headers_come_back_with_the_id_reordered() {
    let h = TcpHeaders {
        request_type: RequestType::Get,
        correlation_id: id(0x0102030405060708090a0b0c0d0e0f10),
        protocol_version: 0,
        flags: 7,
    };
    let read = parse_headers(&block(&h)).unwrap();
    assert_eq!(number(&read.correlation_id), 0x0403020106050807090a0b0c0d0e0f10);
    assert_eq!(read.flags, 7);
    assert_eq!(read.request_type, RequestType::Get);
    // Written once more, the id is the one that it was.
    let again = parse_headers(&block(&read)).unwrap();
    assert_eq!(again, h);
}

#[test]
fn unknown_request_type() {
    let mut buf = block(&headers(RequestType::Get));
    buf[21] = 3;
    let res = parse_headers(&buf);
    match res {
        Err(TcpError::Parse(ParseError::InvalidRequestType(c))) => assert_eq!(c, id(5)),
        _ => panic!("there is no such type"),
    }
}

#[test]
fn headers_that_are_too_short() {
    let buf = block(&headers(RequestType::Get));
    assert!(headers_readable(&buf));
    assert!(!headers_readable(&buf[..23].to_vec()));
}

#[test]
fn payload_that_is_no_text() {
    let buf = vec![1, 0, 0, 0, 0xff];
    let res = parse_payload(&buf, &RequestType::Get, &id(6));
    assert!(matches!(res, Err(TcpError::Parse(ParseError::InvalidKey(c))) if c == id(6)));
    let buf = vec![1, 0, 0, 0, b'k', 1, 0, 0, 0, 0xff];
    let res = parse_payload(&buf, &RequestType::Put, &id(6));
    assert!(matches!(res, Err(TcpError::Parse(ParseError::InvalidValue(c))) if c == id(6)));
}

#[test]
fn payload_that_announces_too_much() {
    assert!(!payload_readable(&vec![0, 0, 0], &RequestType::Get));
    assert!(!payload_readable(&vec![2, 0, 0, 0, b'k'], &RequestType::Get));
    assert!(payload_readable(&vec![1, 0, 0, 0, b'k'], &RequestType::Put));
    assert!(!payload_readable(&vec![1, 0, 0, 0, b'k', 0, 0], &RequestType::Put));
    assert!(payload_readable(&vec![1, 0, 0, 0, b'k', 0, 0], &RequestType::Get));
    assert!(!payload_readable(&vec![1, 0, 0, 0, b'k', 9, 0, 0, 0, b'v'], &RequestType::Put));
    assert!(!payload_readable(&vec![0xff, 0xff, 0xff, 0xff, b'k'], &RequestType::Put));
}

#[test]
fn request_received_in_parts() {
    let request = TcpRequest {
        headers: headers(RequestType::Put),
        payload: Payload { key: String::from("key"), value: Some(String::from("value")) },
    };
    let bytes = request.to_bytes();
    let state = Receiving::Headers(24);
    assert_eq!(state.bytes_wanted(), 24);
    let part = bytes[4..28].to_vec();
    assert!(state.can_receive(&part));
    let state = match state.receive(part) {
        Received::More(state) => state,
        _ => panic!("the payload follows"),
    };
    assert_eq!(state.bytes_wanted(), 4);
    let state = match state.receive(bytes[28..32].to_vec()) {
        Received::More(state) => state,
        _ => panic!("the payload follows"),
    };
    assert_eq!(state.bytes_wanted() as usize, bytes.len() - 32);
    assert!(!state.can_receive(&bytes[33..].to_vec()));
    match state.receive(bytes[32..].to_vec()) {
        Received::Request(read) => assert_eq!(read, request),
        _ => panic!("this is the whole request"),
    }
}

#[test]
fn response_layout() {
    let response = TcpResponse::from(&id(1024), Some(String::from("value")));
    assert_eq!(response.len(), 22);
    let bytes = response.to_bytes();
    assert_eq!(bytes.len(), 26);
    assert_eq!(bytes[..4], [0, 0, 0, 22]);
    assert_eq!(bytes[4..20], *Uuid::from_u128(1024).as_bytes());
    assert_eq!(bytes[20], 0);
    assert_eq!(bytes[21..], *b"value");
    let response = TcpResponse::from(&id(1024), None);
    assert_eq!(response.len(), 17);
    assert_eq!(response.to_bytes().len(), 21);
}

#[test]
fn close_notification_layout() {
    let mut expected = vec![0, 0, 0, 17];
    expected.extend_from_slice(&[0; 16]);
    expected.push(11);
    assert_eq!(TcpResponse::create_close_notification().to_bytes(), expected);
    assert_eq!(CorrelationId::nil().bytes, *Uuid::nil().as_bytes());
}

#[test]
fn error_responses() {
    let response = TcpResponse::from_internal_error(&id(3), &StorageEngineError::NotFound);
    assert_eq!(response.to_bytes()[4..20], id(3).bytes);
    assert_eq!(response.to_bytes()[20..], [2]);
    let codes = vec![
        (ParseError::InvalidKey(id(9)), 4),
        (ParseError::InvalidValue(id(9)), 5),
        (ParseError::MissingValue(id(9)), 6),
        (ParseError::MalformedPayload(id(9)), 7),
        (ParseError::InvalidRequestType(id(9)), 8),
        (ParseError::UnknownFlags(id(9)), 9),
        (ParseError::UnsupportedVersion(id(9)), 10),
    ];
    for (error, code) in codes {
        assert_eq!(error.extract_correlation_id(), id(9));
        assert_eq!(TcpError::from(error).to_rc(), code);
        let bytes = TcpResponse::from_tcp_parse_error(error).to_bytes();
        assert_eq!(bytes[4..20], id(9).bytes);
        assert_eq!(bytes[20..], [code]);
    }
    assert_eq!(TcpError::from(ConnectionError::TimedOut).to_rc(), 11);
    assert_eq!(TcpError::from(ConnectionError::WrongMagicBytes).to_rc(), 255);
    let error = std::io::Error::from(std::io::ErrorKind::UnexpectedEof);
    assert_eq!(TcpError::from(error).to_rc(), 255);
    assert_eq!(StorageEngineError::IoError.to_rc(), 1);
    assert_eq!(StorageEngineError::Shutdown.to_rc(), 3);
}
