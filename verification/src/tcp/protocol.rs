//! The wire protocol. A request is a header block and a payload, each behind
//! its length. The header block holds the magic bytes, a correlation id, the
//! protocol version, the request type and flags; the payload holds a key and,
//! in a put request, a value, each behind its length. A response is its length,
//! the correlation id, a code and the value that answers the request. Numbers
//! are big-endian, but for those in a payload, which are little-endian.

use crate::codec;
use crate::codec::{byte_len, bytes_of, get_be, get_be32, get_le32, get_text, put_be, put_bytes, put_le};
use crate::storage_engine::StorageEngineError;
use std::io;
use vstd::prelude::*;
use vstd::utf8::*;

verus! {

/// The version of the protocol that is spoken here.
pub const PROTOCOL_VERSION: u8 = 0;

/// The bytes that every header block begins with: `rkvs`.
pub const MAGIC_BYTES: [u8; 4] = [0x72, 0x6B, 0x76, 0x73];

/// The error of an input or output operation.
#[verifier::external_type_specification]
#[verifier::external_body]
pub struct ExIoError(std::io::Error);

/// The id by which a client matches a response to its request: the sixteen
/// bytes of a UUID.
#[derive(Debug, Clone, Copy, PartialEq, Eq)]
pub struct CorrelationId {
    pub bytes: [u8; 16],
}

/// The bytes of a UUID with those of each of its first three fields reversed.
pub open spec fn swapped(b: Seq<u8>) -> Seq<u8> {
    seq![
        b[3], b[2], b[1], b[0], b[5], b[4], b[7], b[6],
        b[8], b[9], b[10], b[11], b[12], b[13], b[14], b[15],
    ]
}

/// `uuid::Uuid::to_bytes_le` on the UUID that `uuid::Uuid::from_bytes` makes of
/// the bytes: the same bytes, with those of each of the first three fields (of
/// four, two and two bytes) in reverse order.
#[verifier::external_body]
fn uuid_bytes_le(bytes: [u8; 16]) -> (r: [u8; 16])
    ensures
        r@ == swapped(bytes@),
{
    uuid::Uuid::from_bytes(bytes).to_bytes_le()
}

/// `uuid::Uuid::nil`: the UUID whose sixteen bytes are all zero.
#[verifier::external_body]
fn uuid_nil() -> (r: [u8; 16])
    ensures
        r@ == Seq::new(16, |i: int| 0u8),
{
    uuid::Uuid::nil().into_bytes()
}

/// Why a request cannot be answered as it was meant, with its correlation id.
#[derive(Debug, Clone, Copy, PartialEq, Eq)]
pub enum ParseError {
    UnsupportedVersion(CorrelationId),
    InvalidRequestType(CorrelationId),
    MissingValue(CorrelationId),
    InvalidKey(CorrelationId),
    InvalidValue(CorrelationId),
    UnknownFlags(CorrelationId),
    MalformedPayload(CorrelationId),
}

/// Why a connection cannot go on.
#[derive(Debug)]
pub enum ConnectionError {
    IoError(io::Error),
    WrongMagicBytes,
    TimedOut,
}

/// Why there is no request.
#[derive(Debug)]
pub enum TcpError {
    Connection(ConnectionError),
    Parse(ParseError),
}

/// What a request asks for.
#[derive(Debug, Clone, Copy, PartialEq, Eq, Structural)]
pub enum RequestType {
    Get,
    Put,
    Delete,
}

/// The headers of a request.
#[derive(Debug, PartialEq)]
pub struct TcpHeaders {
    pub request_type: RequestType,
    pub correlation_id: CorrelationId,
    pub protocol_version: u8,
    pub flags: u16,
}

/// The key of a request, and the value of a put request.
#[derive(Debug, PartialEq)]
pub struct Payload {
    pub key: String,
    pub value: Option<String>,
}

/// A request.
#[derive(Debug, PartialEq)]
pub struct TcpRequest {
    pub headers: TcpHeaders,
    pub payload: Payload,
}

/// A response.
#[derive(Debug, PartialEq)]
pub struct TcpResponse {
    correlation_id: CorrelationId,
    response_code: u8,
    payload: Option<String>,
}

/// The contents of a payload.
#[verifier::ext_equal]
pub struct PayloadView {
    pub key: Seq<char>,
    pub value: Option<Seq<char>>,
}

/// The contents of a request.
#[verifier::ext_equal]
pub struct RequestView {
    pub headers: TcpHeaders,
    pub payload: PayloadView,
}

/// The contents of a response.
#[verifier::ext_equal]
pub struct ResponseView {
    pub id: CorrelationId,
    pub code: u8,
    pub payload: Option<Seq<char>>,
}

/// The characters of an optional string.
pub open spec fn text_of(s: Option<String>) -> Option<Seq<char>> {
    match s {
        Some(v) => Some(v@),
        None => None,
    }
}

impl View for Payload {
    type V = PayloadView;

    open spec fn view(&self) -> PayloadView {
        PayloadView { key: self.key@, value: text_of(self.value) }
    }
}

impl View for TcpRequest {
    type V = RequestView;

    open spec fn view(&self) -> RequestView {
        RequestView { headers: self.headers, payload: self.payload@ }
    }
}

impl View for TcpResponse {
    type V = ResponseView;

    closed spec fn view(&self) -> ResponseView {
        ResponseView {
            id: self.correlation_id,
            code: self.response_code,
            payload: text_of(self.payload),
        }
    }
}

impl CorrelationId {
    /// The id with these bytes.
    pub fn from_bytes(bytes: [u8; 16]) -> (r: Self)
        ensures
            r.bytes == bytes,
    {
        CorrelationId { bytes }
    }

    /// The id of a response that answers no request: sixteen zeros.
    pub fn nil() -> (r: Self)
        ensures
            r.bytes@ == Seq::new(16, |i: int| 0u8),
    {
        CorrelationId { bytes: uuid_nil() }
    }
}

/// The id with these bytes.
pub open spec fn id_of(b: Seq<u8>) -> CorrelationId {
    CorrelationId {
        bytes: [
            b[0], b[1], b[2], b[3], b[4], b[5], b[6], b[7],
            b[8], b[9], b[10], b[11], b[12], b[13], b[14], b[15],
        ],
    }
}

/// An id is the one with its bytes.
pub proof fn lemma_id_of(id: CorrelationId)
    ensures
        id_of(id.bytes@) == id,
{
    assert(id_of(id.bytes@).bytes =~= id.bytes);
}

/// The bytes of an id are those that it is made of.
pub proof fn lemma_id_bytes(b: Seq<u8>)
    requires
        b.len() == 16,
    ensures
        id_of(b).bytes@ == b,
{
    assert(id_of(b).bytes@ =~= b);
}

/// The sixteen bytes of `buf` from `start`, as an id.
fn get_id(buf: &[u8], start: usize) -> (r: CorrelationId)
    requires
        start + 16 <= buf@.len(),
    ensures
        r == id_of(buf@.subrange(start as int, start + 16)),
{
    let len: usize = buf.len();
    let r = CorrelationId {
        bytes: [
            buf[start], buf[start + 1], buf[start + 2], buf[start + 3],
            buf[start + 4], buf[start + 5], buf[start + 6], buf[start + 7],
            buf[start + 8], buf[start + 9], buf[start + 10], buf[start + 11],
            buf[start + 12], buf[start + 13], buf[start + 14], buf[start + 15],
        ],
    };
    assert(r.bytes =~= id_of(buf@.subrange(start as int, start + 16)).bytes);
    r
}

/// The byte that stands for a request type.
pub open spec fn type_code(t: RequestType) -> u8 {
    match t {
        RequestType::Put => 0,
        RequestType::Delete => 1,
        RequestType::Get => 2,
    }
}

/// Whether the bytes are the magic bytes.
pub fn verify_magic_bytes(buf: &[u8; 4]) -> (r: bool)
    ensures
        r == (buf@ == MAGIC_BYTES@),
{
    let r = buf[0] == MAGIC_BYTES[0] && buf[1] == MAGIC_BYTES[1] && buf[2] == MAGIC_BYTES[2]
        && buf[3] == MAGIC_BYTES[3];
    proof {
        if r {
            assert(buf@ =~= MAGIC_BYTES@);
        }
    }
    r
}

/// The request type that a byte stands for.
pub fn parse_request_type(n: u8) -> (r: Result<RequestType, ()>)
    ensures
        r is Ok <==> n <= 2,
        r matches Ok(t) ==> type_code(t) == n,
{
    match n {
        0 => Ok(RequestType::Put),
        1 => Ok(RequestType::Delete),
        2 => Ok(RequestType::Get),
        _ => Err(()),
    }
}

/// What the bytes of a header block say.
pub open spec fn headers_in(buf: Seq<u8>, r: Result<TcpHeaders, TcpError>) -> bool {
    let id = id_of(buf.subrange(4, 20));
    if buf.take(4) != MAGIC_BYTES@ {
        r matches Err(e) && e == TcpError::Connection(ConnectionError::WrongMagicBytes)
    } else if buf[20] > PROTOCOL_VERSION {
        r matches Err(e) && e == TcpError::Parse(ParseError::UnsupportedVersion(id))
    } else if buf[21] > 2 {
        r matches Err(e) && e == TcpError::Parse(ParseError::InvalidRequestType(id))
    } else {
        &&& r matches Ok(h)
        &&& h.correlation_id == id
        &&& h.protocol_version == buf[20]
        &&& type_code(h.request_type) == buf[21]
        &&& h.flags == codec::be_value(buf.subrange(22, 24))
    }
}

/// Whether a header block is long enough to be read.
pub fn headers_readable(buf: &Vec<u8>) -> (r: bool)
    ensures
        r == (buf@.len() >= 24),
{
    buf.len() >= 24
}

/// Reads a header block.
pub fn parse_headers(buf: &Vec<u8>) -> (r: Result<TcpHeaders, TcpError>)
    requires
        buf@.len() >= 24,
    ensures
        headers_in(buf@, r),
{
    let magic: [u8; 4] = [buf[0], buf[1], buf[2], buf[3]];
    assert(magic@ =~= buf@.take(4));
    if !verify_magic_bytes(&magic) {
        return Err(TcpError::Connection(ConnectionError::WrongMagicBytes));
    }
    let bytes: &[u8] = buf.as_slice();
    let correlation_id = get_id(bytes, 4);
    let version: u8 = buf[20];
    if version > PROTOCOL_VERSION {
        return Err(TcpError::Parse(ParseError::UnsupportedVersion(correlation_id)));
    }
    let request_type = match parse_request_type(buf[21]) {
        Ok(t) => t,
        Err(_) => {
            return Err(TcpError::Parse(ParseError::InvalidRequestType(correlation_id)));
        },
    };
    proof {
        codec::lemma_byte_bounds();
    }
    let flags: u16 = get_be(bytes, 22, 2) as u16;
    Ok(TcpHeaders { request_type, correlation_id, protocol_version: version, flags })
}

/// The length of the key that a payload announces.
pub open spec fn key_len(buf: Seq<u8>) -> int {
    codec::le_value(buf.take(4)) as int
}

/// The length of the value that a payload announces behind its key.
pub open spec fn value_len(buf: Seq<u8>) -> int {
    codec::le_value(buf.subrange(key_len(buf) + 4, key_len(buf) + 8)) as int
}

/// The key in a payload.
pub open spec fn key_in(buf: Seq<u8>) -> Option<Seq<char>> {
    codec::text(buf.subrange(4, key_len(buf) + 4))
}

/// The value in a payload.
pub open spec fn value_in(buf: Seq<u8>) -> Option<Seq<char>> {
    codec::text(buf.subrange(key_len(buf) + 8, key_len(buf) + 8 + value_len(buf)))
}

/// A payload ends where its key ends.
pub open spec fn key_only(buf: Seq<u8>) -> bool {
    buf.len() == key_len(buf) + 4
}

/// A payload holds what it announces: its key and, where it is that of a put
/// request and goes on behind a key that is text, the value.
pub open spec fn complete(buf: Seq<u8>, t: RequestType) -> bool {
    &&& buf.len() >= 4
    &&& buf.len() >= key_len(buf) + 4
    &&& t == RequestType::Put && key_in(buf) is Some && !key_only(buf) ==> buf.len() >= key_len(buf)
        + 8 && buf.len() >= key_len(buf) + 8 + value_len(buf)
}

/// What the bytes of a payload say.
pub open spec fn payload_in(
    buf: Seq<u8>,
    t: RequestType,
    id: CorrelationId,
    r: Result<Payload, TcpError>,
) -> bool {
    if key_in(buf) is None {
        r matches Err(e) && e == TcpError::Parse(ParseError::InvalidKey(id))
    } else if t == RequestType::Put && key_only(buf) {
        r matches Err(e) && e == TcpError::Parse(ParseError::MissingValue(id))
    } else if t == RequestType::Put && value_in(buf) is None {
        r matches Err(e) && e == TcpError::Parse(ParseError::InvalidValue(id))
    } else if t != RequestType::Put && !key_only(buf) {
        r matches Err(e) && e == TcpError::Parse(ParseError::MalformedPayload(id))
    } else {
        &&& r matches Ok(p)
        &&& Some(p@.key) == key_in(buf)
        &&& p@.value == if t == RequestType::Put {
            value_in(buf)
        } else {
            None
        }
    }
}

/// Whether a payload holds what it announces.
pub fn payload_readable(buf: &Vec<u8>, request_type: &RequestType) -> (r: bool)
    ensures
        r == complete(buf@, *request_type),
{
    let bytes: &[u8] = buf.as_slice();
    let len: usize = bytes.len();
    if len < 4 {
        return false;
    }
    let key: u32 = get_le32(bytes, 0);
    assert(buf@.subrange(0, 4) =~= buf@.take(4));
    if len as u64 - 4 < key as u64 {
        return false;
    }
    let key_end: usize = key as usize + 4;
    if *request_type != RequestType::Put || key_end == len {
        return true;
    }
    if get_text(bytes, 4, key_end).is_none() {
        return true;
    }
    if len - key_end < 4 {
        return false;
    }
    let value: u32 = get_le32(bytes, key_end);
    (len - key_end - 4) as u64 >= value as u64
}

/// Reads a payload.
pub fn parse_payload(
    buf: &Vec<u8>,
    request_type: &RequestType,
    correlation_id: &CorrelationId,
) -> (r: Result<Payload, TcpError>)
    requires
        complete(buf@, *request_type),
    ensures
        payload_in(buf@, *request_type, *correlation_id, r),
{
    let bytes: &[u8] = buf.as_slice();
    let payload_len: usize = bytes.len();
    assert(buf@.subrange(0, 4) =~= buf@.take(4));
    let key_len: usize = get_le32(bytes, 0) as usize;
    let key = match get_text(bytes, 4, key_len + 4) {
        Some(key) => key,
        None => {
            return Err(TcpError::Parse(ParseError::InvalidKey(*correlation_id)));
        },
    };
    if *request_type == RequestType::Put {
        if key_len >= payload_len - 4 {
            return Err(TcpError::Parse(ParseError::MissingValue(*correlation_id)));
        }
        let value_len: usize = get_le32(bytes, key_len + 4) as usize;
        match get_text(bytes, key_len + 8, key_len + 8 + value_len) {
            Some(value) => Ok(Payload { key, value: Some(value) }),
            None => Err(TcpError::Parse(ParseError::InvalidValue(*correlation_id))),
        }
    } else if key_len < payload_len - 4 {
        Err(TcpError::Parse(ParseError::MalformedPayload(*correlation_id)))
    } else {
        Ok(Payload { key, value: None })
    }
}

impl From<ParseError> for TcpError {
    fn from(value: ParseError) -> (r: Self) {
        TcpError::Parse(value)
    }
}

impl vstd::std_specs::convert::FromSpecImpl<ParseError> for TcpError {
    open spec fn obeys_from_spec() -> bool {
        true
    }

    open spec fn from_spec(value: ParseError) -> Self {
        TcpError::Parse(value)
    }
}

impl From<ConnectionError> for TcpError {
    fn from(value: ConnectionError) -> (r: Self) {
        TcpError::Connection(value)
    }
}

impl vstd::std_specs::convert::FromSpecImpl<ConnectionError> for TcpError {
    open spec fn obeys_from_spec() -> bool {
        true
    }

    open spec fn from_spec(value: ConnectionError) -> Self {
        TcpError::Connection(value)
    }
}

impl From<io::Error> for TcpError {
    fn from(value: io::Error) -> (r: Self) {
        TcpError::Connection(ConnectionError::IoError(value))
    }
}

impl vstd::std_specs::convert::FromSpecImpl<io::Error> for TcpError {
    open spec fn obeys_from_spec() -> bool {
        true
    }

    open spec fn from_spec(value: io::Error) -> Self {
        TcpError::Connection(ConnectionError::IoError(value))
    }
}

impl ParseError {
    /// The id of the request that has the error.
    pub open spec fn id(&self) -> CorrelationId {
        match *self {
            ParseError::UnsupportedVersion(c) => c,
            ParseError::InvalidRequestType(c) => c,
            ParseError::MissingValue(c) => c,
            ParseError::InvalidKey(c) => c,
            ParseError::InvalidValue(c) => c,
            ParseError::UnknownFlags(c) => c,
            ParseError::MalformedPayload(c) => c,
        }
    }

    /// The id of the request that has the error.
    pub fn extract_correlation_id(&self) -> (r: CorrelationId)
        ensures
            r == self.id(),
    {
        match self {
            ParseError::InvalidKey(c) => *c,
            ParseError::InvalidRequestType(c) => *c,
            ParseError::InvalidValue(c) => *c,
            ParseError::MalformedPayload(c) => *c,
            ParseError::MissingValue(c) => *c,
            ParseError::UnknownFlags(c) => *c,
            ParseError::UnsupportedVersion(c) => *c,
        }
    }
}

impl TcpError {
    /// The return code that a client gets.
    pub open spec fn code(&self) -> u8 {
        match *self {
            TcpError::Parse(ParseError::InvalidKey(_)) => 4,
            TcpError::Parse(ParseError::InvalidValue(_)) => 5,
            TcpError::Parse(ParseError::MissingValue(_)) => 6,
            TcpError::Parse(ParseError::MalformedPayload(_)) => 7,
            TcpError::Parse(ParseError::InvalidRequestType(_)) => 8,
            TcpError::Parse(ParseError::UnknownFlags(_)) => 9,
            TcpError::Parse(ParseError::UnsupportedVersion(_)) => 10,
            TcpError::Connection(ConnectionError::TimedOut) => 11,
            TcpError::Connection(ConnectionError::IoError(_)) => 255,
            TcpError::Connection(ConnectionError::WrongMagicBytes) => 255,
        }
    }

    /// The return code that a client gets.
    pub fn to_rc(&self) -> (rc: u8)
        ensures
            rc == self.code(),
    {
        match self {
            TcpError::Parse(e) => match e {
                ParseError::InvalidKey(_) => 4,
                ParseError::InvalidValue(_) => 5,
                ParseError::MissingValue(_) => 6,
                ParseError::MalformedPayload(_) => 7,
                ParseError::InvalidRequestType(_) => 8,
                ParseError::UnknownFlags(_) => 9,
                ParseError::UnsupportedVersion(_) => 10,
            },
            TcpError::Connection(e) => match e {
                ConnectionError::IoError(_) => 255,
                ConnectionError::TimedOut => 11,
                ConnectionError::WrongMagicBytes => 255,
            },
        }
    }
}

/// The bytes of the headers, without the magic bytes.
pub open spec fn header_bytes(h: TcpHeaders) -> Seq<u8> {
    swapped(h.correlation_id.bytes@) + seq![h.protocol_version, type_code(h.request_type)]
        + codec::be_bytes(h.flags as nat, 2)
}

/// The bytes of a payload.
pub open spec fn payload_bytes(p: PayloadView) -> Seq<u8> {
    let key = encode_utf8(p.key);
    let head = codec::le_bytes(key.len(), 4) + key;
    match p.value {
        Some(v) => head + codec::le_bytes(encode_utf8(v).len(), 4) + encode_utf8(v),
        None => head,
    }
}

/// The length of a payload fits into its four bytes.
pub open spec fn sendable(p: PayloadView) -> bool {
    &&& payload_bytes(p).len() <= u32::MAX
    &&& payload_bytes(p).len() <= usize::MAX
}

/// The bytes of a request.
pub open spec fn request_bytes(r: RequestView) -> Seq<u8> {
    codec::be_bytes(24, 4) + MAGIC_BYTES@ + header_bytes(r.headers) + codec::be_bytes(
        payload_bytes(r.payload).len(),
        4,
    ) + payload_bytes(r.payload)
}

/// The bytes of a response: the number of the bytes that follow, and those.
pub open spec fn response_bytes(r: ResponseView) -> Seq<u8> {
    codec::be_bytes(response_body(r).len(), 4) + response_body(r)
}

/// The bytes of a response behind its length.
pub open spec fn response_body(r: ResponseView) -> Seq<u8> {
    let head = r.id.bytes@.push(r.code);
    match r.payload {
        Some(v) => head + encode_utf8(v),
        None => head,
    }
}

impl TcpHeaders {
    /// The number of bytes of the headers, without the magic bytes.
    pub fn len(&self) -> (r: usize)
        ensures
            r == 20,
            r == header_bytes(*self).len(),
    {
        broadcast use codec::lemma_be_bytes_len;

        20
    }

    /// The bytes of the headers, without the magic bytes.
    pub fn to_bytes(&self) -> (r: Vec<u8>)
        ensures
            r@ == header_bytes(*self),
    {
        let mut buf: Vec<u8> = Vec::new();
        let id: [u8; 16] = uuid_bytes_le(self.correlation_id.bytes);
        put_bytes(&mut buf, id.as_slice());
        buf.push(self.protocol_version);
        let code: u8 = match self.request_type {
            RequestType::Put => 0,
            RequestType::Delete => 1,
            RequestType::Get => 2,
        };
        buf.push(code);
        assert(buf@ =~= swapped(self.correlation_id.bytes@) + seq![self.protocol_version, code]);
        put_be(&mut buf, self.flags as u64, 2);
        buf
    }
}

/// The number of bytes of a payload.
proof fn lemma_payload_len(p: PayloadView)
    ensures
        p.value is None ==> payload_bytes(p).len() == 4 + encode_utf8(p.key).len(),
        p.value matches Some(v) ==> payload_bytes(p).len() == 8 + encode_utf8(p.key).len()
            + encode_utf8(v).len(),
{
    broadcast use codec::lemma_le_bytes_len;

}

impl Payload {
    /// The number of bytes of the payload.
    pub fn len(&self) -> (r: usize)
        requires
            payload_bytes(self@).len() <= usize::MAX,
        ensures
            r == payload_bytes(self@).len(),
    {
        proof {
            lemma_payload_len(self@);
        }
        match &self.value {
            Some(value) => 8 + byte_len(&self.key) + byte_len(value),
            None => 4 + byte_len(&self.key),
        }
    }

    /// The bytes of the payload.
    pub fn to_bytes(&self) -> (r: Vec<u8>)
        requires
            encode_utf8(self@.key).len() <= u32::MAX,
            self@.value matches Some(v) ==> encode_utf8(v).len() <= u32::MAX,
        ensures
            r@ == payload_bytes(self@),
    {
        let mut buf: Vec<u8> = Vec::new();
        put_le(&mut buf, byte_len(&self.key) as u64, 4);
        put_bytes(&mut buf, bytes_of(&self.key));
        assert(buf@ =~= codec::le_bytes(encode_utf8(self@.key).len(), 4) + encode_utf8(self@.key));
        if let Some(value) = &self.value {
            put_le(&mut buf, byte_len(value) as u64, 4);
            put_bytes(&mut buf, bytes_of(value));
        }
        buf
    }
}

impl TcpRequest {
    /// The bytes of the request.
    pub fn to_bytes(&self) -> (r: Vec<u8>)
        requires
            sendable(self@.payload),
        ensures
            r@ == request_bytes(self@),
    {
        proof {
            lemma_payload_len(self@.payload);
        }
        let mut bytes: Vec<u8> = Vec::new();
        let header_len: usize = self.headers.len() + 4;
        put_be(&mut bytes, header_len as u64, 4);
        let magic: [u8; 4] = MAGIC_BYTES;
        put_bytes(&mut bytes, magic.as_slice());
        put_bytes(&mut bytes, self.headers.to_bytes().as_slice());
        put_be(&mut bytes, self.payload.len() as u64, 4);
        put_bytes(&mut bytes, self.payload.to_bytes().as_slice());
        assert(bytes@ =~= request_bytes(self@));
        bytes
    }
}

impl TcpResponse {
    /// The response to a request that the engine did not answer.
    pub fn from_internal_error(correlation_id: &CorrelationId, error: &StorageEngineError) -> (r:
        Self)
        ensures
            r@ == (ResponseView { id: *correlation_id, code: error.code(), payload: None }),
    {
        TcpResponse {
            correlation_id: *correlation_id,
            response_code: error.to_rc(),
            payload: None,
        }
    }

    /// The response to a request that could not be read.
    pub fn from_tcp_parse_error(error: ParseError) -> (r: Self)
        ensures
            r@ == (ResponseView {
                id: error.id(),
                code: TcpError::Parse(error).code(),
                payload: None,
            }),
    {
        let correlation_id = error.extract_correlation_id();
        let e = TcpError::from(error);
        TcpResponse { correlation_id, response_code: e.to_rc(), payload: None }
    }

    /// The response to a request that was answered, with the value it is
    /// answered by.
    pub fn from(correlation_id: &CorrelationId, value: Option<String>) -> (r: Self)
        ensures
            r@ == (ResponseView { id: *correlation_id, code: 0, payload: text_of(value) }),
    {
        TcpResponse { correlation_id: *correlation_id, response_code: 0, payload: value }
    }

    /// What a client is told before the connection is closed.
    pub fn create_close_notification() -> (r: Self)
        ensures
            r@ == close_notification(),
    {
        let error = TcpError::from(ConnectionError::TimedOut);
        let correlation_id = CorrelationId::nil();
        proof {
            lemma_id_of(correlation_id);
        }
        TcpResponse { correlation_id, response_code: error.to_rc(), payload: None }
    }

    /// The number of bytes of the response behind its length.
    pub fn len(&self) -> (r: usize)
        requires
            response_body(self@).len() <= usize::MAX,
        ensures
            r == response_body(self@).len(),
    {
        match &self.payload {
            Some(value) => byte_len(value) + 17,
            None => 17,
        }
    }

    /// The bytes of the response.
    pub fn to_bytes(&self) -> (r: Vec<u8>)
        ensures
            r@ == response_bytes(self@),
    {
        let mut body: Vec<u8> = Vec::new();
        let id: [u8; 16] = self.correlation_id.bytes;
        put_bytes(&mut body, id.as_slice());
        body.push(self.response_code);
        assert(body@ =~= self@.id.bytes@.push(self@.code));
        if let Some(value) = &self.payload {
            put_bytes(&mut body, bytes_of(value));
        }
        let mut buf: Vec<u8> = Vec::new();
        put_be(&mut buf, body.len() as u64, 4);
        put_bytes(&mut buf, body.as_slice());
        assert(buf@ =~= response_bytes(self@));
        buf
    }
}

/// What a client is told before the connection is closed: the id of no request
/// and the code of a timeout.
pub open spec fn close_notification() -> ResponseView {
    ResponseView {
        id: id_of(Seq::new(16, |i: int| 0u8)),
        code: 11,
        payload: None,
    }
}

/// What is read next of a request: the header block of this length, the length
/// of the payload, or the payload of this length.
#[derive(Debug, PartialEq)]
pub enum Receiving {
    Headers(u32),
    PayloadLen(TcpHeaders),
    Payload(TcpHeaders, u32),
}

/// What came of a part of a request: a next part, the request, or an error.
#[derive(Debug)]
pub enum Received {
    More(Receiving),
    Request(TcpRequest),
    Failed(TcpError),
}

/// The bytes are as many as are read next, and they hold what they announce.
pub open spec fn readable(state: Receiving, bytes: Seq<u8>) -> bool {
    match state {
        Receiving::Headers(len) => bytes.len() == len && len >= 24,
        Receiving::PayloadLen(_) => bytes.len() == 4,
        Receiving::Payload(h, len) => bytes.len() == len && complete(bytes, h.request_type),
    }
}

/// What comes of the bytes of the part that is read next.
pub open spec fn received(state: Receiving, bytes: Seq<u8>, r: Received) -> bool {
    match state {
        Receiving::Headers(_) => match r {
            Received::More(Receiving::PayloadLen(h)) => headers_in(bytes, Ok(h)),
            Received::Failed(e) => headers_in(bytes, Err(e)),
            _ => false,
        },
        Receiving::PayloadLen(h) => r == Received::More(
            Receiving::Payload(h, codec::be_value(bytes) as u32),
        ),
        Receiving::Payload(h, _) => match r {
            Received::Request(q) => q.headers == h && payload_in(
                bytes,
                h.request_type,
                h.correlation_id,
                Ok(q.payload),
            ),
            Received::Failed(e) => payload_in(bytes, h.request_type, h.correlation_id, Err(e)),
            _ => false,
        },
    }
}

impl Receiving {
    /// The number of bytes that are read next.
    pub open spec fn wanted(&self) -> u32 {
        match *self {
            Receiving::Headers(len) => len,
            Receiving::PayloadLen(_) => 4,
            Receiving::Payload(_, len) => len,
        }
    }

    /// The number of bytes that are read next.
    pub fn bytes_wanted(&self) -> (r: u32)
        ensures
            r == self.wanted(),
    {
        match self {
            Receiving::Headers(len) => *len,
            Receiving::PayloadLen(_) => 4,
            Receiving::Payload(_, len) => *len,
        }
    }

    /// Whether the bytes are as many as are read next and hold what they
    /// announce.
    pub fn can_receive(&self, bytes: &Vec<u8>) -> (r: bool)
        ensures
            r == readable(*self, bytes@),
    {
        let len: usize = bytes.len();
        if len as u64 != self.bytes_wanted() as u64 {
            return false;
        }
        match self {
            Receiving::Headers(_) => headers_readable(bytes),
            Receiving::PayloadLen(_) => true,
            Receiving::Payload(h, _) => payload_readable(bytes, &h.request_type),
        }
    }

    /// Goes on with the bytes of the part that is read next.
    pub fn receive(self, bytes: Vec<u8>) -> (r: Received)
        requires
            readable(self, bytes@),
        ensures
            received(self, bytes@, r),
    {
        match self {
            Receiving::Headers(_) => match parse_headers(&bytes) {
                Ok(h) => Received::More(Receiving::PayloadLen(h)),
                Err(e) => Received::Failed(e),
            },
            Receiving::PayloadLen(h) => {
                assert(bytes@.subrange(0, 4) =~= bytes@);
                let len: u32 = get_be32(bytes.as_slice(), 0);
                Received::More(Receiving::Payload(h, len))
            },
            Receiving::Payload(h, _) => {
                match parse_payload(&bytes, &h.request_type, &h.correlation_id) {
                    Ok(payload) => Received::Request(TcpRequest { headers: h, payload }),
                    Err(e) => Received::Failed(e),
                }
            },
        }
    }
}

/// Headers survive being written as bytes and read back, but for the id: the
/// bytes of each of its first three fields come back in reverse order. An id
/// that reads the same both ways comes back as it was.
pub proof fn lemma_headers_round_trip(h: TcpHeaders, r: Result<TcpHeaders, TcpError>)
    requires
        h.protocol_version <= PROTOCOL_VERSION,
        headers_in(MAGIC_BYTES@ + header_bytes(h), r),
    ensures
        (MAGIC_BYTES@ + header_bytes(h)).len() == 24,
        r == Ok::<TcpHeaders, TcpError>(
            (TcpHeaders { correlation_id: id_of(swapped(h.correlation_id.bytes@)), ..h }),
        ),
        swapped(h.correlation_id.bytes@) == h.correlation_id.bytes@ ==> r == Ok::<
            TcpHeaders,
            TcpError,
        >(h),
{
    let buf = MAGIC_BYTES@ + header_bytes(h);
    let flags = codec::be_bytes(h.flags as nat, 2);
    codec::lemma_be_bytes_len(h.flags as nat, 2);
    codec::lemma_byte_bounds();
    codec::lemma_be_round_trip(h.flags as nat, 2);
    assert(buf.take(4) =~= MAGIC_BYTES@);
    assert(buf.subrange(4, 20) =~= swapped(h.correlation_id.bytes@));
    assert(buf[20] == h.protocol_version);
    assert(buf[21] == type_code(h.request_type));
    assert(buf.subrange(22, 24) =~= flags);
    lemma_id_of(h.correlation_id);
}

/// A payload survives being written as bytes and read back, in a request of a
/// type that it fits: a put request has a value, another has none.
pub proof fn lemma_payload_round_trip(
    p: PayloadView,
    t: RequestType,
    id: CorrelationId,
    r: Result<Payload, TcpError>,
)
    requires
        encode_utf8(p.key).len() <= u32::MAX,
        p.value matches Some(v) ==> encode_utf8(v).len() <= u32::MAX,
        p.value is Some <==> t == RequestType::Put,
        payload_in(payload_bytes(p), t, id, r),
    ensures
        complete(payload_bytes(p), t),
        r matches Ok(q) && q@ == p,
{
    lemma_payload_parts(p);
}

/// What stands where in the bytes of a payload.
proof fn lemma_payload_parts(p: PayloadView)
    requires
        encode_utf8(p.key).len() <= u32::MAX,
        p.value matches Some(v) ==> encode_utf8(v).len() <= u32::MAX,
    ensures
        key_len(payload_bytes(p)) == encode_utf8(p.key).len(),
        key_in(payload_bytes(p)) == Some(p.key),
        key_only(payload_bytes(p)) <==> p.value is None,
        p.value is None ==> complete(payload_bytes(p), RequestType::Get),
        complete(payload_bytes(p), RequestType::Put),
        p.value matches Some(v) ==> value_in(payload_bytes(p)) == Some(v),
{
    broadcast use {codec::lemma_le_bytes_len, codec::lemma_text_round_trip};

    let buf = payload_bytes(p);
    let key = encode_utf8(p.key);
    lemma_payload_len(p);
    codec::lemma_byte_bounds();
    codec::lemma_le_round_trip(key.len(), 4);
    assert(buf.take(4) =~= codec::le_bytes(key.len(), 4));
    assert(buf.subrange(4, key_len(buf) + 4) =~= key);
    if let Some(v) = p.value {
        let value = encode_utf8(v);
        codec::lemma_le_round_trip(value.len(), 4);
        assert(buf.subrange(key_len(buf) + 4, key_len(buf) + 8) =~= codec::le_bytes(
            value.len(),
            4,
        ));
        assert(buf.subrange(key_len(buf) + 8, key_len(buf) + 8 + value_len(buf)) =~= value);
    }
}

/// A put request without a value lacks it, and another request with a value is
/// malformed.
pub proof fn lemma_value_expected(
    p: PayloadView,
    t: RequestType,
    id: CorrelationId,
    r: Result<Payload, TcpError>,
)
    requires
        encode_utf8(p.key).len() <= u32::MAX,
        p.value matches Some(v) ==> encode_utf8(v).len() <= u32::MAX,
        !(p.value is Some <==> t == RequestType::Put),
        payload_in(payload_bytes(p), t, id, r),
    ensures
        complete(payload_bytes(p), t),
        t == RequestType::Put ==> r == Err::<Payload, TcpError>(
            TcpError::Parse(ParseError::MissingValue(id)),
        ),
        t != RequestType::Put ==> r == Err::<Payload, TcpError>(
            TcpError::Parse(ParseError::MalformedPayload(id)),
        ),
{
    lemma_payload_parts(p);
}

/// A request survives being sent: its bytes, taken in the parts in which they
/// are read, give the request back, but for the byte order of its id.
pub proof fn lemma_request_received(
    q: RequestView,
    first: Received,
    second: Received,
    last: Received,
)
    requires
        sendable(q.payload),
        q.headers.protocol_version <= PROTOCOL_VERSION,
        q.payload.value is Some <==> q.headers.request_type == RequestType::Put,
        received(Receiving::Headers(24), request_bytes(q).subrange(4, 28), first),
        first matches Received::More(s) ==> received(s, request_bytes(q).subrange(28, 32), second),
        second matches Received::More(s) ==> received(s, request_bytes(q).skip(32), last),
    ensures
        codec::be_value(request_bytes(q).take(4)) == 24,
        readable(Receiving::Headers(24), request_bytes(q).subrange(4, 28)),
        first matches Received::More(s) && readable(s, request_bytes(q).subrange(28, 32)),
        second matches Received::More(s) && readable(s, request_bytes(q).skip(32)),
        last matches Received::Request(g) && g@.payload == q.payload && g@.headers == (TcpHeaders {
            correlation_id: id_of(swapped(q.headers.correlation_id.bytes@)),
            ..q.headers
        }),
{
    broadcast use codec::lemma_be_bytes_len;

    let bytes = request_bytes(q);
    let payload = payload_bytes(q.payload);
    codec::lemma_byte_bounds();
    codec::lemma_be_round_trip(24, 4);
    codec::lemma_be_round_trip(payload.len(), 4);
    lemma_payload_len(q.payload);
    assert(bytes.take(4) =~= codec::be_bytes(24, 4));
    assert(bytes.subrange(4, 28) =~= MAGIC_BYTES@ + header_bytes(q.headers));
    assert(bytes.subrange(28, 32) =~= codec::be_bytes(payload.len(), 4));
    assert(bytes.skip(32) =~= payload);
    let h = match first {
        Received::More(Receiving::PayloadLen(h)) => {
            lemma_headers_round_trip(q.headers, Ok(h));
            h
        },
        Received::Failed(e) => {
            lemma_headers_round_trip(q.headers, Err(e));
            q.headers
        },
        _ => q.headers,
    };
    match last {
        Received::Request(g) => {
            lemma_payload_round_trip(q.payload, h.request_type, h.correlation_id, Ok(g.payload));
        },
        Received::Failed(e) => {
            lemma_payload_round_trip(q.payload, h.request_type, h.correlation_id, Err(e));
        },
        _ => {},
    }
}

/// An error in a header block that the client is told of carries the id of the
/// request.
pub proof fn lemma_header_error_id(buf: Seq<u8>, r: Result<TcpHeaders, TcpError>)
    requires
        buf.len() >= 24,
        headers_in(buf, r),
    ensures
        r matches Err(TcpError::Parse(e)) ==> e.id().bytes@ == buf.subrange(4, 20),
{
    lemma_id_bytes(buf.subrange(4, 20));
}

/// An error in a payload carries the id of the request.
pub proof fn lemma_payload_error_id(
    buf: Seq<u8>,
    t: RequestType,
    id: CorrelationId,
    r: Result<Payload, TcpError>,
)
    requires
        payload_in(buf, t, id, r),
    ensures
        r matches Err(e) ==> e is Parse && e->Parse_0.id() == id,
{
}

/// A client finds in a response how many bytes follow the length, the id of its
/// request, the code, and the text of the answer.
pub proof fn lemma_response_read(r: ResponseView)
    ensures
        response_bytes(r).len() >= 21,
        response_body(r).len() <= u32::MAX ==> codec::be_value(response_bytes(r).take(4))
            == response_bytes(r).len() - 4,
        response_bytes(r).subrange(4, 20) == r.id.bytes@,
        response_bytes(r)[20] == r.code,
        codec::text(response_bytes(r).skip(21)) == Some(
            match r.payload {
                Some(v) => v,
                None => Seq::<char>::empty(),
            },
        ),
{
    broadcast use codec::lemma_be_bytes_len;

    let bytes = response_bytes(r);
    codec::lemma_byte_bounds();
    if response_body(r).len() <= u32::MAX {
        codec::lemma_be_round_trip(response_body(r).len(), 4);
    }
    assert(bytes.take(4) =~= codec::be_bytes(response_body(r).len(), 4));
    assert(bytes.subrange(4, 20) =~= r.id.bytes@);
    match r.payload {
        Some(v) => {
            assert(bytes.skip(21) =~= encode_utf8(v));
            codec::lemma_text_round_trip(v);
        },
        None => {
            assert(bytes.skip(21) =~= encode_utf8(Seq::<char>::empty()));
            codec::lemma_text_round_trip(Seq::<char>::empty());
        },
    }
}

/// A client that is told the code of an error in its request knows which error
/// it is: no other error has the code, neither of a request nor of a connection
/// nor of the engine, and neither has success.
pub proof fn lemma_codes(a: ParseError, b: ParseError, c: ConnectionError, e: StorageEngineError)
    ensures
        a.id() == b.id() && TcpError::Parse(a).code() == TcpError::Parse(b).code() ==> a == b,
        TcpError::Parse(a).code() != TcpError::Connection(c).code(),
        TcpError::Parse(a).code() != e.code(),
        TcpError::Parse(a).code() != 0,
        TcpError::Connection(c).code() != 0,
        TcpError::Connection(c).code() != e.code(),
        e.code() != 0,
{
}

/// What a header block says, byte by byte. It is refused where it does not begin
/// with the magic bytes, where its version is a later one, and where its type is
/// none, in this order, and nowhere else. Zero stands for a put, one for a delete
/// and two for a get.
pub proof fn lemma_header_block(buf: Seq<u8>, r: Result<TcpHeaders, TcpError>)
    requires
        buf.len() >= 24,
        headers_in(buf, r),
    ensures
        if !(buf[0] == 0x72 && buf[1] == 0x6B && buf[2] == 0x76 && buf[3] == 0x73) {
            r matches Err(TcpError::Connection(e)) && e is WrongMagicBytes
        } else if buf[20] > 0 {
            r matches Err(TcpError::Parse(e)) && e is UnsupportedVersion && e.id().bytes@
                == buf.subrange(4, 20)
        } else if buf[21] > 2 {
            r matches Err(TcpError::Parse(e)) && e is InvalidRequestType && e.id().bytes@
                == buf.subrange(4, 20)
        } else {
            &&& r matches Ok(h)
            &&& h.correlation_id.bytes@ == buf.subrange(4, 20)
            &&& h.protocol_version == 0
            &&& h.request_type == RequestType::Put <==> buf[21] == 0
            &&& h.request_type == RequestType::Delete <==> buf[21] == 1
            &&& h.request_type == RequestType::Get <==> buf[21] == 2
            &&& h.flags == 256 * buf[22] + buf[23]
        },
{
    lemma_id_bytes(buf.subrange(4, 20));
    let m = buf.take(4);
    assert(MAGIC_BYTES@ =~= seq![0x72u8, 0x6Bu8, 0x76u8, 0x73u8]);
    assert(m[0] == buf[0] && m[1] == buf[1] && m[2] == buf[2] && m[3] == buf[3]);
    if buf[0] == 0x72 && buf[1] == 0x6B && buf[2] == 0x76 && buf[3] == 0x73 {
        assert(m =~= MAGIC_BYTES@);
    }
    let f = buf.subrange(22, 24);
    reveal_with_fuel(codec::be_value, 3);
    assert(f.drop_last() =~= seq![buf[22]]);
    assert(f.drop_last().drop_last() =~= Seq::<u8>::empty());
    assert(PROTOCOL_VERSION == 0);
}

/// The number that the first four bytes hold, the first of them being the least.
pub open spec fn announced(buf: Seq<u8>) -> int {
    buf[0] + 256 * buf[1] + 65536 * buf[2] + 16777216 * buf[3]
}

/// The number in four bytes.
proof fn lemma_announced(buf: Seq<u8>)
    requires
        buf.len() == 4,
    ensures
        codec::le_value(buf) == announced(buf),
{
    reveal_with_fuel(codec::le_value, 5);
    let a = buf.drop_first();
    let b = a.drop_first();
    let c = b.drop_first();
    assert(a[0] == buf[1] && b[0] == buf[2] && c[0] == buf[3]);
    assert(c.drop_first() =~= Seq::<u8>::empty());
}

/// What a payload says, byte by byte. It announces its key and, behind the key of
/// a put request, its value, each by its length. A payload that holds less than it
/// announces is not taken. One that is taken is refused where its key is no text,
/// where a put request lacks its value or has one that is no text, and where
/// another request has more than a key, and nowhere else.
pub proof fn lemma_payload_block(
    buf: Seq<u8>,
    t: RequestType,
    id: CorrelationId,
    r: Result<Payload, TcpError>,
)
    requires
        payload_in(buf, t, id, r),
    ensures
        complete(buf, t) ==> buf.len() >= 4 && buf.len() >= 4 + announced(buf.take(4)),
        buf.len() >= 4 && buf.len() >= 4 + announced(buf.take(4)) ==> {
            let k = announced(buf.take(4));
            let key = buf.subrange(4, 4 + k);
            if !valid_utf8(key) {
                &&& complete(buf, t)
                &&& r == Err::<Payload, TcpError>(TcpError::Parse(ParseError::InvalidKey(id)))
            } else if buf.len() == 4 + k {
                &&& complete(buf, t)
                &&& if t == RequestType::Put {
                    r == Err::<Payload, TcpError>(TcpError::Parse(ParseError::MissingValue(id)))
                } else {
                    r matches Ok(p) && p.key@ == decode_utf8(key) && p.value is None
                }
            } else if t != RequestType::Put {
                &&& complete(buf, t)
                &&& r == Err::<Payload, TcpError>(TcpError::Parse(ParseError::MalformedPayload(id)))
            } else if buf.len() < 8 + k {
                !complete(buf, t)
            } else {
                let v = announced(buf.subrange(4 + k, 8 + k));
                let value = buf.subrange(8 + k, 8 + k + v);
                &&& complete(buf, t) <==> buf.len() >= 8 + k + v
                &&& complete(buf, t) ==> if valid_utf8(value) {
                    &&& r matches Ok(p)
                    &&& p.key@ == decode_utf8(key)
                    &&& p.value matches Some(x)
                    &&& x@ == decode_utf8(value)
                } else {
                    r == Err::<Payload, TcpError>(TcpError::Parse(ParseError::InvalidValue(id)))
                }
            }
        },
{
    if buf.len() >= 4 {
        lemma_announced(buf.take(4));
        let k = key_len(buf);
        if buf.len() >= k + 8 {
            lemma_announced(buf.subrange(k + 4, k + 8));
        }
    }
}

/// A connection asks for as many bytes as are announced, and goes on once it has
/// them: for the header block, for the four bytes of the length of the payload,
/// and for the payload. Headers take twenty-four bytes at least.
pub proof fn lemma_bytes_asked_for(state: Receiving, bytes: Seq<u8>, r: Received)
    requires
        readable(state, bytes),
        received(state, bytes, r),
    ensures
        bytes.len() == state.wanted(),
        match state {
            Receiving::Headers(len) => {
                &&& state.wanted() == len
                &&& bytes.len() >= 24
                &&& r !is Request
                &&& r matches Received::More(s) ==> s is PayloadLen && s.wanted() == 4
            },
            Receiving::PayloadLen(h) => {
                &&& r matches Received::More(Receiving::Payload(g, len))
                &&& g == h
                &&& len == 16777216 * bytes[0] + 65536 * bytes[1] + 256 * bytes[2] + bytes[3]
                &&& Receiving::Payload(g, len).wanted() == len
            },
            Receiving::Payload(h, len) => {
                &&& state.wanted() == len
                &&& r !is More
                &&& r matches Received::Request(q) ==> q.headers == h
            },
        },
{
    if state is PayloadLen {
        reveal_with_fuel(codec::be_value, 5);
        let a = bytes.drop_last();
        let b = a.drop_last();
        let c = b.drop_last();
        assert(a.last() == bytes[2] && b.last() == bytes[1] && c.last() == bytes[0]);
        assert(c.drop_last() =~= Seq::<u8>::empty());
        codec::lemma_be_value_bound(bytes);
        codec::lemma_byte_bounds();
    }
}

} // verus!
