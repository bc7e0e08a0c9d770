//! The records of the write-ahead log and the files that hold them.

use crate::codec::{byte_len, bytes_of, get_le32, get_le64, get_text, put_bytes, put_le};
use crate::codec;
use crate::hex;
use crate::order;
use crate::storage_engine::sstable;
use vstd::prelude::*;
use vstd::utf8::*;

verus! {

/// The bytes of a record that are never split over two files: its length, its
/// checksum, its operation and the length of its key.
pub const HEADER_SIZE: usize = 13;

/// The CRC-32 of bytes with the Castagnoli polynomial.
pub uninterp spec fn crc32_castagnoli(bytes: Seq<u8>) -> u32;

/// Trusted: `crc::Crc::<u32>::new` with `crc::CRC_32_ISCSI` (the Castagnoli
/// polynomial, reflected, initial value and final exclusive or of all ones), a
/// digest that is updated once with the bytes and finalized. The checksum is a
/// function of the bytes alone.
#[verifier::external_body]
fn castagnoli(buf: &[u8]) -> (r: u32)
    ensures
        r == crc32_castagnoli(buf@),
{
    let crc32 = crc::Crc::<u32>::new(&crc::CRC_32_ISCSI);
    let mut digest = crc32.digest();
    digest.update(buf);
    digest.finalize()
}

/// The checksum of bytes.
pub fn calculate_checksum(buf: &[u8]) -> (r: u32)
    ensures
        r == crc32_castagnoli(buf@),
{
    castagnoli(buf)
}

/// What a record of the log does to a key.
#[derive(Debug, PartialEq, Eq, Clone, Copy, Structural)]
pub enum OpType {
    Put,
    Delete,
}

/// Why a log cannot be read on.
#[derive(Debug, PartialEq, Eq, Clone, Copy, Structural)]
pub enum RecoveryError {
    Corrupted,
}

/// A record of the log.
#[derive(Debug, PartialEq)]
pub struct WalEntry {
    pub operation_type: OpType,
    pub key: String,
    pub value: Option<String>,
    pub sequence_number: u64,
}

/// The model of a record.
pub struct WalEntryView {
    pub operation_type: OpType,
    pub key: Seq<char>,
    pub value: Option<Seq<char>>,
    pub sequence_number: u64,
}

impl View for WalEntry {
    type V = WalEntryView;

    open spec fn view(&self) -> WalEntryView {
        WalEntryView {
            operation_type: self.operation_type,
            key: self.key@,
            value: sstable::text_view(self.value),
            sequence_number: self.sequence_number,
        }
    }
}

/// The bytes of an optional value: its length and its text, or nothing.
pub open spec fn optional_bytes(value: Option<Seq<char>>) -> Seq<u8> {
    match value {
        Some(v) => codec::le_bytes(encode_utf8(v).len(), 4) + encode_utf8(v),
        None => Seq::empty(),
    }
}

/// The byte of an operation.
pub open spec fn op_byte(op: OpType) -> u8 {
    match op {
        OpType::Put => 1,
        OpType::Delete => 2,
    }
}

/// The bytes of a record that its checksum is of.
#[verifier::opaque]
pub open spec fn body_bytes(e: WalEntryView) -> Seq<u8> {
    seq![op_byte(e.operation_type)] + codec::le_bytes(encode_utf8(e.key).len(), 4) + encode_utf8(
        e.key,
    ) + optional_bytes(e.value) + codec::le_bytes(e.sequence_number as nat, 8)
}

/// The bytes of a record: the length of what follows it, the checksum, and the
/// body.
#[verifier::opaque]
pub open spec fn record_bytes(e: WalEntryView) -> Seq<u8> {
    codec::le_bytes(body_bytes(e).len() + 4, 4) + codec::le_bytes(
        crc32_castagnoli(body_bytes(e)) as nat,
        4,
    ) + body_bytes(e)
}

/// The number of bytes of a record.
pub open spec fn record_len(e: WalEntryView) -> nat {
    21 + encode_utf8(e.key).len() + optional_bytes(e.value).len()
}

/// The record can be written: it has a key, and it has a value exactly where
/// it is a put.
pub open spec fn writable(e: WalEntryView) -> bool {
    &&& encode_utf8(e.key).len() > 0
    &&& e.operation_type == OpType::Put <==> e.value is Some
}

/// The lengths in the record fit the bytes that hold them.
pub open spec fn readable(e: WalEntryView) -> bool {
    &&& e.operation_type == OpType::Put <==> e.value is Some
    &&& record_len(e) <= u32::MAX
}

/// The record that a body holds, where it holds one.
#[verifier::opaque]
pub open spec fn parse_body(b: Seq<u8>) -> Option<WalEntryView> {
    let n = b.len() as int;
    if n < 5 {
        None
    } else {
        let op = if b[0] == 1 {
            OpType::Put
        } else {
            OpType::Delete
        };
        let k = 5 + codec::le_value(b.subrange(1, 5)) as int;
        if n < k {
            None
        } else {
            match codec::text(b.subrange(5, k)) {
                None => None,
                Some(key) => if k + 8 < n {
                    let v = k + 4 + codec::le_value(b.subrange(k, k + 4)) as int;
                    if n < v {
                        None
                    } else {
                        match codec::text(b.subrange(k + 4, v)) {
                            None => None,
                            Some(value) => if n != v + 8 {
                                None
                            } else {
                                Some(
                                    WalEntryView {
                                        operation_type: op,
                                        key,
                                        value: Some(value),
                                        sequence_number: codec::le_value(
                                            b.subrange(v, n),
                                        ) as u64,
                                    },
                                )
                            },
                        }
                    }
                } else if n != k + 8 {
                    None
                } else {
                    Some(
                        WalEntryView {
                            operation_type: op,
                            key,
                            value: None,
                            sequence_number: codec::le_value(b.subrange(k, n)) as u64,
                        },
                    )
                },
            }
        }
    }
}

pub proof fn lemma_record_len(e: WalEntryView)
    ensures
        body_bytes(e).len() == record_len(e) - 8,
        record_bytes(e).len() == record_len(e),
{
    broadcast use codec::lemma_le_bytes_len;

    reveal(body_bytes);
    reveal(record_bytes);
}

/// A record whose lengths fit is read back from its body.
pub proof fn lemma_body_round_trip(e: WalEntryView)
    requires
        readable(e),
    ensures
        parse_body(body_bytes(e)) == Some(e),
{
    broadcast use codec::lemma_le_bytes_len;

    reveal(body_bytes);
    reveal(parse_body);
    let b = body_bytes(e);
    let n = b.len() as int;
    let key = encode_utf8(e.key);
    let k = 5 + key.len() as int;
    lemma_record_len(e);
    codec::lemma_byte_bounds();
    assert(b[0] == op_byte(e.operation_type));
    assert(b.subrange(1, 5) =~= codec::le_bytes(key.len(), 4));
    codec::lemma_le_round_trip(key.len(), 4);
    assert(b.subrange(5, k) =~= key);
    codec::lemma_text_round_trip(e.key);
    codec::lemma_le_round_trip(e.sequence_number as nat, 8);
    assert(b.subrange(n - 8, n) =~= codec::le_bytes(e.sequence_number as nat, 8));
    if let Some(text) = e.value {
        let value = encode_utf8(text);
        assert(b.subrange(k, k + 4) =~= codec::le_bytes(value.len(), 4));
        codec::lemma_le_round_trip(value.len(), 4);
        assert(b.subrange(k + 4, n - 8) =~= value);
        codec::lemma_text_round_trip(text);
    }
}

/// A body that was cut short is refused. The body of a put reads as one without
/// a value where it was cut eight bytes behind its key; it is refused wherever
/// else it was cut.
pub proof fn lemma_body_cut(e: WalEntryView, n: int)
    requires
        readable(e),
        0 <= n < body_bytes(e).len(),
        e.operation_type == OpType::Put ==> n != 13 + encode_utf8(e.key).len(),
    ensures
        parse_body(body_bytes(e).take(n)) is None,
{
    broadcast use codec::lemma_le_bytes_len;

    reveal(body_bytes);
    reveal(parse_body);
    let b = body_bytes(e);
    let c = b.take(n);
    let key = encode_utf8(e.key);
    let k = 5 + key.len() as int;
    lemma_record_len(e);
    codec::lemma_byte_bounds();
    if n >= 5 {
        assert(c.subrange(1, 5) =~= codec::le_bytes(key.len(), 4));
        codec::lemma_le_round_trip(key.len(), 4);
        if k + 8 < n {
            let value = encode_utf8(e.value.unwrap());
            assert(c.subrange(k, k + 4) =~= codec::le_bytes(value.len(), 4));
            codec::lemma_le_round_trip(value.len(), 4);
        }
    }
}

impl WalEntry {
    /// The bytes of the record.
    pub fn to_bytes(&self) -> (buf: Vec<u8>)
        requires
            writable(self@),
            record_len(self@) <= usize::MAX,
        ensures
            buf@ == record_bytes(self@),
    {
        proof {
            broadcast use codec::lemma_le_bytes_len;

            reveal(body_bytes);
            reveal(record_bytes);
        }
        let mut body: Vec<u8> = Vec::new();
        let op: u8 = match self.operation_type {
            OpType::Put => 1,
            OpType::Delete => 2,
        };
        body.push(op);
        put_le(&mut body, byte_len(&self.key) as u64, 4);
        put_bytes(&mut body, bytes_of(&self.key));
        if let Some(value) = &self.value {
            put_le(&mut body, byte_len(value) as u64, 4);
            put_bytes(&mut body, bytes_of(value));
        }
        put_le(&mut body, self.sequence_number, 8);
        assert(body@ =~= body_bytes(self@));
        let checksum: u32 = calculate_checksum(body.as_slice());
        let mut buf: Vec<u8> = Vec::new();
        proof {
            lemma_record_len(self@);
        }
        put_le(&mut buf, (body.len() + 4) as u64, 4);
        put_le(&mut buf, checksum as u64, 4);
        put_bytes(&mut buf, body.as_slice());
        assert(buf@ =~= record_bytes(self@));
        buf
    }

    /// The record that a body holds.
    pub fn from_bytes(bytes: &[u8]) -> (r: Result<Self, RecoveryError>)
        ensures
            r is Ok <==> parse_body(bytes@) is Some,
            r matches Ok(e) ==> parse_body(bytes@) == Some(e@),
    {
        reveal(parse_body);
        let n: usize = bytes.len();
        if n < 5 {
            return Err(RecoveryError::Corrupted);
        }
        let op: OpType = if bytes[0] == 1 {
            OpType::Put
        } else {
            OpType::Delete
        };
        let key_len: usize = get_le32(bytes, 1) as usize;
        if n - 5 < key_len {
            return Err(RecoveryError::Corrupted);
        }
        let k: usize = 5 + key_len;
        let key: String = match get_text(bytes, 5, k) {
            Some(key) => key,
            None => {
                return Err(RecoveryError::Corrupted);
            },
        };
        if n - k > 8 {
            let value_len: usize = get_le32(bytes, k) as usize;
            if n - k - 4 < value_len {
                return Err(RecoveryError::Corrupted);
            }
            let v: usize = k + 4 + value_len;
            let value: String = match get_text(bytes, k + 4, v) {
                Some(value) => value,
                None => {
                    return Err(RecoveryError::Corrupted);
                },
            };
            if n - v != 8 {
                return Err(RecoveryError::Corrupted);
            }
            Ok(
                WalEntry {
                    operation_type: op,
                    key,
                    value: Some(value),
                    sequence_number: get_le64(bytes, v),
                },
            )
        } else if n - k != 8 {
            Err(RecoveryError::Corrupted)
        } else {
            Ok(
                WalEntry {
                    operation_type: op,
                    key,
                    value: None,
                    sequence_number: get_le64(bytes, k),
                },
            )
        }
    }
}

/// Where reading records ends: at the end of the bytes, at the start of a
/// record that is not complete, or at the start of one that is not valid.
pub enum LogEnd {
    Done,
    Rest(int),
    Bad(int),
}

/// The records that bytes hold, and where they end.
pub struct LogParse {
    pub entries: Seq<WalEntryView>,
    pub end: LogEnd,
}

/// The record between two positions, where its checksum and its body are
/// valid.
pub open spec fn record_at(b: Seq<u8>, from: int, to: int) -> Option<WalEntryView> {
    if codec::le_value(b.subrange(from + 4, from + 8)) != crc32_castagnoli(
        b.subrange(from + 8, to),
    ) {
        None
    } else {
        parse_body(b.subrange(from + 8, to))
    }
}

/// The records that bytes hold from a position on.
pub open spec fn parse_log(b: Seq<u8>, from: int) -> LogParse
    decreases b.len() - from,
{
    let n = b.len() as int;
    if from >= n {
        LogParse { entries: Seq::empty(), end: LogEnd::Done }
    } else if n - from < 4 {
        LogParse { entries: Seq::empty(), end: LogEnd::Rest(from) }
    } else {
        let len = codec::le_value(b.subrange(from, from + 4)) as int;
        let to = from + 4 + len;
        if len < 9 {
            LogParse { entries: Seq::empty(), end: LogEnd::Bad(from) }
        } else if to > n {
            LogParse { entries: Seq::empty(), end: LogEnd::Rest(from) }
        } else {
            match record_at(b, from, to) {
                None => LogParse { entries: Seq::empty(), end: LogEnd::Bad(from) },
                Some(e) => {
                    let rest = parse_log(b, to);
                    LogParse { entries: seq![e] + rest.entries, end: rest.end }
                },
            }
        }
    }
}

/// The models of records.
pub open spec fn wal_views(es: Seq<WalEntry>) -> Seq<WalEntryView> {
    es.map_values(|e: WalEntry| e@)
}

/// Where reading records has ended.
#[derive(Debug, PartialEq, Eq, Clone, Copy, Structural)]
pub enum ParseEnd {
    Done,
    Rest(usize),
    Bad(usize),
}

/// The model of where reading has ended.
pub open spec fn end_view(end: ParseEnd) -> LogEnd {
    match end {
        ParseEnd::Done => LogEnd::Done,
        ParseEnd::Rest(p) => LogEnd::Rest(p as int),
        ParseEnd::Bad(p) => LogEnd::Bad(p as int),
    }
}

/// Reads the records that bytes hold and adds them to `entries`.
pub fn read_records(bytes: &Vec<u8>, entries: &mut Vec<WalEntry>) -> (end: ParseEnd)
    ensures
        wal_views(final(entries)@) == wal_views(old(entries)@) + parse_log(bytes@, 0).entries,
        end_view(end) == parse_log(bytes@, 0).end,
{
    let n: usize = bytes.len();
    let ghost b = bytes@;
    let ghost all = parse_log(b, 0);
    let ghost start = wal_views(entries@);
    let mut from: usize = 0;
    assert(wal_views(entries@) + parse_log(b, 0).entries =~= start + all.entries);
    while from < n
        invariant
            from <= n == bytes@.len(),
            b == bytes@,
            all == parse_log(b, 0),
            start == wal_views(old(entries)@),
            wal_views(entries@) + parse_log(b, from as int).entries == start + all.entries,
            parse_log(b, from as int).end == all.end,
        decreases n - from,
    {
        if n - from < 4 {
            assert(wal_views(entries@) =~= start + all.entries);
            return ParseEnd::Rest(from);
        }
        let len: usize = get_le32(bytes.as_slice(), from) as usize;
        if len < 9 {
            assert(wal_views(entries@) =~= start + all.entries);
            return ParseEnd::Bad(from);
        }
        if n - from - 4 < len {
            assert(wal_views(entries@) =~= start + all.entries);
            return ParseEnd::Rest(from);
        }
        let to: usize = from + 4 + len;
        let read_checksum: u32 = get_le32(bytes.as_slice(), from + 4);
        let body: &[u8] = &bytes.as_slice()[from + 8..to];
        assert(body@ =~= b.subrange(from + 8, to as int));
        if read_checksum != calculate_checksum(body) {
            assert(wal_views(entries@) =~= start + all.entries);
            return ParseEnd::Bad(from);
        }
        match WalEntry::from_bytes(body) {
            Ok(entry) => {
                let ghost before = entries@;
                entries.push(entry);
                proof {
                    let rest = parse_log(b, to as int);
                    assert(wal_views(entries@) =~= wal_views(before).push(entry@));
                    assert(wal_views(entries@) + rest.entries =~= wal_views(before) + (
                    seq![entry@] + rest.entries));
                }
            },
            Err(_) => {
                assert(wal_views(entries@) =~= start + all.entries);
                return ParseEnd::Bad(from);
            },
        }
        from = to;
    }
    assert(wal_views(entries@) =~= start + all.entries);
    ParseEnd::Done
}

/// The file of the log that a sequence number is in: the timeline, the number
/// of the logical log, which has four gigabytes, and the number of the segment
/// within it, as eight hexadecimal digits each.
pub open spec fn segment_filename(
    timeline: u32,
    sequence_number: u64,
    segment_size: u32,
) -> Seq<char> {
    hex::hex_chars(timeline as nat, 8) + hex::hex_chars(
        (sequence_number / 0x1_0000_0000) as nat,
        8,
    ) + hex::hex_chars((sequence_number % 0x1_0000_0000 / segment_size as u64) as nat, 8)
        + seq!['.', 'w', 'a', 'l']
}

/// The name of the file of the log that a sequence number is in.
pub fn determine_segment_filename(
    timeline: &u32,
    sequence_number: &u64,
    segment_size: &u32,
) -> (s: String)
    requires
        *segment_size > 0,
    ensures
        s@ == segment_filename(*timeline, *sequence_number, *segment_size),
{
    let ghost name = segment_filename(*timeline, *sequence_number, *segment_size);
    let log_number: u64 = *sequence_number / 0x1_0000_0000;
    let segment_number: u64 = *sequence_number % 0x1_0000_0000 / *segment_size as u64;
    let mut buf: Vec<u8> = Vec::new();
    hex::put_hex(&mut buf, *timeline as u64, 8);
    hex::put_hex(&mut buf, log_number, 8);
    hex::put_hex(&mut buf, segment_number, 8);
    buf.push(46);
    buf.push(119);
    buf.push(97);
    buf.push(108);
    proof {
        hex::lemma_hex_chars_ascii(*timeline as nat, 8);
        hex::lemma_hex_chars_ascii(log_number as nat, 8);
        hex::lemma_hex_chars_ascii(segment_number as nat, 8);
        hex::lemma_hex_chars_len(*timeline as nat, 8);
        hex::lemma_hex_chars_len(log_number as nat, 8);
        hex::lemma_hex_chars_len(segment_number as nat, 8);
        assert(buf@ =~= hex::ascii_bytes(name));
        assert(is_ascii_chars(name));
    }
    hex::ascii_string(&buf, Ghost(name))
}

/// The number that eight hexadecimal digits denote. A plus sign may stand in
/// place of the first.
pub open spec fn signed_digits(s: Seq<u8>) -> Option<nat> {
    if s.len() > 0 && s[0] == 43 {
        hex::digits_value(s.drop_first())
    } else {
        hex::digits_value(s)
    }
}

/// The number of the logical log and the number of the segment that a file
/// name gives.
pub open spec fn numbers_in(filename: Seq<char>) -> Option<(nat, nat)> {
    let b = encode_utf8(filename);
    if b.len() < 24 {
        None
    } else {
        match (signed_digits(b.subrange(8, 16)), signed_digits(b.subrange(16, 24))) {
            (Some(log), Some(no)) => Some((log, no)),
            _ => None,
        }
    }
}

/// The name of a file gives the numbers that it was made of.
pub proof fn lemma_filename_numbers(timeline: u32, sequence_number: u64, segment_size: u32)
    requires
        segment_size > 0,
    ensures
        numbers_in(segment_filename(timeline, sequence_number, segment_size)) == Some(
            (
                (sequence_number / 0x1_0000_0000) as nat,
                (sequence_number % 0x1_0000_0000 / segment_size as u64) as nat,
            ),
        ),
{
    let name = segment_filename(timeline, sequence_number, segment_size);
    let log = (sequence_number / 0x1_0000_0000) as nat;
    let no = (sequence_number % 0x1_0000_0000 / segment_size as u64) as nat;
    assert(no < 0x1_0000_0000) by (nonlinear_arith)
        requires
            no == (sequence_number % 0x1_0000_0000) as int / segment_size as int,
            segment_size > 0,
    ;
    hex::lemma_hex_chars_ascii(timeline as nat, 8);
    hex::lemma_hex_chars_ascii(log, 8);
    hex::lemma_hex_chars_ascii(no, 8);
    hex::lemma_hex_chars_len(timeline as nat, 8);
    hex::lemma_hex_chars_len(log, 8);
    hex::lemma_hex_chars_len(no, 8);
    hex::lemma_hex_bounds();
    hex::lemma_hex_round_trip(log, 8);
    hex::lemma_hex_round_trip(no, 8);
    assert(is_ascii_chars(name));
    is_ascii_chars_encode_utf8(name);
    let b = encode_utf8(name);
    let lb = hex::ascii_bytes(hex::hex_chars(log, 8));
    let nb = hex::ascii_bytes(hex::hex_chars(no, 8));
    assert(b.subrange(8, 16) =~= lb);
    assert(b.subrange(16, 24) =~= nb);
    hex::lemma_hex_first(log, 8);
    hex::lemma_hex_first(no, 8);
}

/// The number that eight characters of a name denote.
fn get_number(b: &[u8], start: usize) -> (r: Option<u64>)
    requires
        start + 8 <= b@.len(),
    ensures
        r is Some <==> signed_digits(b@.subrange(start as int, start + 8)) is Some,
        r matches Some(v) ==> signed_digits(b@.subrange(start as int, start + 8)) == Some(v as nat)
            && v < 0x1_0000_0000,
{
    let len: usize = b.len();
    let ghost s = b@.subrange(start as int, start + 8);
    assert(s[0] == b@[start as int]);
    assert(s.drop_first() =~= b@.subrange(start + 1, start + 8));
    proof {
        hex::lemma_hex_bounds();
        hex::lemma_hex_bound_monotonic(7, 8);
    }
    if b[start] == 43 {
        hex::get_hex(b, start + 1, 7)
    } else {
        hex::get_hex(b, start, 8)
    }
}

/// The numbers that a file name gives.
pub fn parse_filename(filename: &str) -> (r: Option<(u64, u64)>)
    ensures
        r is Some <==> numbers_in(filename@) is Some,
        r matches Some((log, no)) ==> {
            &&& numbers_in(filename@) == Some((log as nat, no as nat))
            &&& log < 0x1_0000_0000
            &&& no < 0x1_0000_0000
        },
{
    let b: &[u8] = filename.as_bytes();
    if b.len() < 24 {
        return None;
    }
    match (get_number(b, 8), get_number(b, 16)) {
        (Some(log), Some(no)) => Some((log, no)),
        _ => None,
    }
}

/// Whether the last entry of a file of the log comes after a sequence number,
/// as far as the size of the file and the numbers in its name tell.
pub fn final_entry_after(filename: &str, file_size: u64, sequence_number: &u64) -> (r: bool)
    requires
        numbers_in(filename@) matches Some((log, no)) && log * 0x1_0000_0000 + file_size * no
            <= u64::MAX,
    ensures
        numbers_in(filename@) matches Some((log, no)) && r == (*sequence_number <= log
            * 0x1_0000_0000 + file_size * no),
{
    match parse_filename(filename) {
        Some((log, no)) => {
            assert(file_size * no <= u64::MAX);
            *sequence_number <= log * 0x1_0000_0000 + file_size * no
        },
        None => false,
    }
}

/// The first sequence number of the file that a sequence number is in.
pub open spec fn first_of(sequence_number: u64, segment_size: u32) -> int {
    sequence_number / 0x1_0000_0000 * 0x1_0000_0000 + sequence_number % 0x1_0000_0000
        / segment_size as u64 * segment_size
}

/// The files of the log sort by their names as by the sequence numbers in them.
pub proof fn lemma_filename_order(a: u64, b: u64, segment_size: u32)
    requires
        segment_size > 0,
        first_of(a, segment_size) < first_of(b, segment_size),
    ensures
        order::key_lt(segment_filename(0, a, segment_size), segment_filename(0, b, segment_size)),
{
    let s = segment_size as int;
    let (la, lb) = ((a / 0x1_0000_0000) as nat, (b / 0x1_0000_0000) as nat);
    let (ra, rb) = ((a % 0x1_0000_0000) as int, (b % 0x1_0000_0000) as int);
    let (na, nb) = ((ra / s) as nat, (rb / s) as nat);
    assert(na * s <= ra && nb * s <= rb && na < 0x1_0000_0000 && nb < 0x1_0000_0000)
        by (nonlinear_arith)
        requires
            s > 0,
            0 <= ra < 0x1_0000_0000,
            0 <= rb < 0x1_0000_0000,
            na == ra / s,
            nb == rb / s,
    ;
    assert(la < lb || la == lb && na < nb) by {
        assert(la <= lb);
        if la == lb {
            assert(na < nb) by (nonlinear_arith)
                requires
                    na * s < nb * s,
                    s > 0,
            ;
        }
    }
    let (hla, hlb) = (hex::hex_chars(la, 8), hex::hex_chars(lb, 8));
    let (hna, hnb) = (hex::hex_chars(na, 8), hex::hex_chars(nb, 8));
    let t = hex::hex_chars(0, 8);
    let end = seq!['.', 'w', 'a', 'l'];
    hex::lemma_hex_chars_ascii(0, 8);
    hex::lemma_hex_chars_ascii(la, 8);
    hex::lemma_hex_chars_ascii(lb, 8);
    hex::lemma_hex_chars_ascii(na, 8);
    hex::lemma_hex_chars_ascii(nb, 8);
    hex::lemma_hex_bounds();
    hex::lemma_hex_chars_len(la, 8);
    hex::lemma_hex_chars_len(lb, 8);
    hex::lemma_hex_chars_len(na, 8);
    hex::lemma_hex_chars_len(nb, 8);
    let (x, y) = (
        segment_filename(0, a, segment_size),
        segment_filename(0, b, segment_size),
    );
    is_ascii_chars_encode_utf8(x);
    is_ascii_chars_encode_utf8(y);
    let tb = hex::ascii_bytes(t);
    let (xl, yl) = (hex::ascii_bytes(hla), hex::ascii_bytes(hlb));
    let (xn, yn) = (hex::ascii_bytes(hna + end), hex::ascii_bytes(hnb + end));
    assert(encode_utf8(x) =~= tb + (xl + xn));
    assert(encode_utf8(y) =~= tb + (yl + yn));
    order::lemma_lex_lt_prefix(tb, xl + xn, yl + yn);
    if la < lb {
        hex::lemma_hex_order(la, lb, 8);
        order::lemma_lex_lt_extend(xl, yl, xn, yn);
    } else {
        hex::lemma_hex_order(na, nb, 8);
        let eb = hex::ascii_bytes(end);
        order::lemma_lex_lt_extend(hex::ascii_bytes(hna), hex::ascii_bytes(hnb), eb, eb);
        assert(xn =~= hex::ascii_bytes(hna) + eb);
        assert(yn =~= hex::ascii_bytes(hnb) + eb);
        order::lemma_lex_lt_prefix(xl, xn, yn);
    }
    reveal(order::key_lt);
}

/// A file of the log that records are appended to.
pub struct Segment {
    filename: String,
    first_lsn: u64,
    file_size: u32,
    max_size: u32,
}

impl Segment {
    /// The name of the file.
    pub closed spec fn name(&self) -> Seq<char> {
        self.filename@
    }

    /// The sequence number of the first byte of the file.
    pub closed spec fn first(&self) -> u64 {
        self.first_lsn
    }

    /// The number of bytes of the file.
    pub closed spec fn size(&self) -> u32 {
        self.file_size
    }

    /// The number of bytes that the file may have.
    pub closed spec fn max(&self) -> u32 {
        self.max_size
    }

    /// The file is not too large.
    pub closed spec fn wf(&self) -> bool {
        &&& self.file_size <= self.max_size
        &&& self.max_size > 0
        &&& self.first_lsn + self.max_size <= u64::MAX
    }

    /// What holds of a file.
    pub proof fn lemma_size(&self)
        requires
            self.wf(),
        ensures
            self.size() <= self.max(),
            self.max() > 0,
            self.first() + self.max() <= u64::MAX,
    {
    }

    /// A new file for the records from a sequence number on.
    pub fn new(sequence_number: u64, max_size: u32) -> (r: Self)
        requires
            max_size > 0,
            first_of(sequence_number, max_size) + max_size <= u64::MAX,
        ensures
            r.wf(),
            r.name() == segment_filename(0, sequence_number, max_size),
            r.first() == first_of(sequence_number, max_size),
            r.size() == 0,
            r.max() == max_size,
    {
        let filename: String = determine_segment_filename(&0, &sequence_number, &max_size);
        let no: u64 = sequence_number % 0x1_0000_0000 / max_size as u64;
        proof {
            let a = (sequence_number % 0x1_0000_0000) as int;
            let m = max_size as int;
            assert(0 <= a / m * m <= a) by (nonlinear_arith)
                requires
                    m > 0,
                    a >= 0,
            ;
        }
        let first_lsn: u64 = sequence_number / 0x1_0000_0000 * 0x1_0000_0000 + no * max_size as u64;
        Segment { filename, first_lsn, file_size: 0, max_size }
    }

    /// The file of this name with this many bytes, or nothing where the name is
    /// not that of a file of the log or the file is too large.
    pub fn from(filename: String, file_size: u64, max_size: u32) -> (r: Option<Self>)
        requires
            max_size > 0,
        ensures
            r is Some <==> {
                &&& file_size <= max_size
                &&& numbers_in(filename@) matches Some((log, no))
                &&& log * 0x1_0000_0000 + no * max_size + max_size <= u64::MAX
            },
            r matches Some(seg) ==> {
                &&& seg.wf()
                &&& seg.name() == filename@
                &&& seg.size() == file_size
                &&& seg.max() == max_size
                &&& numbers_in(filename@) matches Some((log, no))
                &&& seg.first() == log * 0x1_0000_0000 + no * max_size
            },
    {
        if file_size > max_size as u64 {
            return None;
        }
        match parse_filename(filename.as_str()) {
            Some((log, no)) => {
                proof {
                    assert(no * max_size <= 0xFFFF_FFFF * 0xFFFF_FFFF) by (nonlinear_arith)
                        requires
                            0 <= no <= 0xFFFF_FFFF,
                            0 <= max_size <= 0xFFFF_FFFF,
                    ;
                }
                let first: u128 = log as u128 * 0x1_0000_0000 + (no * max_size as u64) as u128;
                if first + max_size as u128 > u64::MAX as u128 {
                    None
                } else {
                    Some(
                        Segment {
                            filename,
                            first_lsn: first as u64,
                            file_size: file_size as u32,
                            max_size,
                        },
                    )
                }
            },
            None => None,
        }
    }

    /// Accounts for bytes that are appended to the file.
    pub fn append(&mut self, buf: &[u8])
        requires
            old(self).wf(),
            old(self).size() + buf@.len() <= old(self).max(),
        ensures
            final(self).wf(),
            final(self).size() == old(self).size() + buf@.len(),
            final(self).name() == old(self).name(),
            final(self).first() == old(self).first(),
            final(self).max() == old(self).max(),
    {
        self.file_size = self.file_size + buf.len() as u32;
    }

    /// Fills the file up, and gives the bytes that are appended for it.
    pub fn pad(&mut self) -> (buf: Vec<u8>)
        requires
            old(self).wf(),
        ensures
            final(self).wf(),
            final(self).size() == old(self).max(),
            final(self).name() == old(self).name(),
            final(self).first() == old(self).first(),
            final(self).max() == old(self).max(),
            buf@ == zeros((old(self).max() - old(self).size()) as nat),
    {
        let buf: Vec<u8> = zero_bytes(self.remaining_space());
        self.file_size = self.max_size;
        buf
    }

    /// The number of bytes that may still be appended.
    pub fn remaining_space(&self) -> (n: u32)
        requires
            self.wf(),
        ensures
            n == self.max() - self.size(),
    {
        self.max_size - self.file_size
    }

    /// The number of bytes of the file.
    pub fn file_size(&self) -> (n: u32)
        ensures
            n == self.size(),
    {
        self.file_size
    }

    /// The name of the file.
    pub fn file_path(&self) -> (s: String)
        ensures
            s@ == self.name(),
    {
        self.filename.clone()
    }

    /// The number of bytes that the file may have.
    pub fn max_size(&self) -> (n: u32)
        ensures
            n == self.max(),
    {
        self.max_size
    }

    /// The same file.
    pub fn duplicate(&self) -> (r: Self)
        ensures
            r.name() == self.name(),
            r.first() == self.first(),
            r.size() == self.size(),
            r.max() == self.max(),
            self.wf() ==> r.wf(),
    {
        Segment {
            filename: self.filename.clone(),
            first_lsn: self.first_lsn,
            file_size: self.file_size,
            max_size: self.max_size,
        }
    }

    /// The sequence number of the next byte.
    pub fn next_lsn(&self) -> (n: u64)
        requires
            self.wf(),
        ensures
            n == self.first() + self.size(),
    {
        self.first_lsn + self.file_size as u64
    }

    /// Reads the records of a file that holds the bytes `content`, from an
    /// offset on. Gives the bytes of the last record where it is not complete.
    pub fn read_parse_validate_from_offset(
        content: &Vec<u8>,
        entries: &mut Vec<WalEntry>,
        offset: u32,
    ) -> (r: Result<Option<Vec<u8>>, RecoveryError>)
        requires
            offset <= content@.len(),
        ensures
            wal_views(final(entries)@) == wal_views(old(entries)@) + parse_log(
                content@.skip(offset as int),
                0,
            ).entries,
            parsed(r, content@.skip(offset as int)),
    {
        let bytes: Vec<u8> = codec::copy_range(content.as_slice(), offset as usize, content.len());
        assert(bytes@ =~= content@.skip(offset as int));
        Segment::parse_validate_wal_entries(&bytes, entries)
    }

    /// Reads the records of a file that holds the bytes `content`, the first
    /// of which has begun with the bytes `partial` in the file before.
    pub fn read_parse_validate_from_partial_record(
        partial: Vec<u8>,
        content: &Vec<u8>,
        entries: &mut Vec<WalEntry>,
    ) -> (r: Result<Option<Vec<u8>>, RecoveryError>)
        ensures
            wal_views(final(entries)@) == wal_views(old(entries)@) + parse_log(
                partial@ + content@,
                0,
            ).entries,
            parsed(r, partial@ + content@),
    {
        let mut bytes: Vec<u8> = partial;
        put_bytes(&mut bytes, content.as_slice());
        Segment::parse_validate_wal_entries(&bytes, entries)
    }

    /// Reads the records that bytes hold. Gives the bytes of the last record
    /// where it is not complete.
    pub fn parse_validate_wal_entries(bytes: &Vec<u8>, entries: &mut Vec<WalEntry>) -> (r: Result<
        Option<Vec<u8>>,
        RecoveryError,
    >)
        ensures
            wal_views(final(entries)@) == wal_views(old(entries)@) + parse_log(bytes@, 0).entries,
            parsed(r, bytes@),
    {
        proof {
            lemma_parse_end(bytes@, 0);
        }
        match read_records(bytes, entries) {
            ParseEnd::Done => Ok(None),
            ParseEnd::Rest(p) => {
                let rest: Vec<u8> = codec::copy_range(bytes.as_slice(), p, bytes.len());
                assert(rest@ =~= bytes@.skip(p as int));
                Ok(Some(rest))
            },
            ParseEnd::Bad(_) => Err(RecoveryError::Corrupted),
        }
    }
}

/// The result of reading records tells how they end.
pub open spec fn parsed(r: Result<Option<Vec<u8>>, RecoveryError>, b: Seq<u8>) -> bool {
    match parse_log(b, 0).end {
        LogEnd::Done => r == Ok::<Option<Vec<u8>>, RecoveryError>(None),
        LogEnd::Rest(p) => r matches Ok(Some(rest)) && rest@ == b.skip(p),
        LogEnd::Bad(_) => r is Err,
    }
}

/// Reading ends within the bytes.
pub proof fn lemma_parse_end(b: Seq<u8>, from: int)
    requires
        0 <= from <= b.len(),
    ensures
        match parse_log(b, from).end {
            LogEnd::Done => true,
            LogEnd::Rest(p) => from <= p < b.len(),
            LogEnd::Bad(p) => from <= p <= b.len() - 4,
        },
    decreases b.len() - from,
{
    if b.len() - from >= 4 {
        let len = codec::le_value(b.subrange(from, from + 4)) as int;
        let to = from + 4 + len;
        if len >= 9 && to <= b.len() {
            lemma_parse_end(b, to);
        }
    }
}

/// So many zero bytes.
pub open spec fn zeros(n: nat) -> Seq<u8> {
    Seq::new(n, |i: int| 0u8)
}

fn zero_bytes(n: u32) -> (buf: Vec<u8>)
    ensures
        buf@ == zeros(n as nat),
{
    let mut buf: Vec<u8> = Vec::new();
    let mut i: u32 = 0;
    while i < n
        invariant
            i <= n,
            buf@ == zeros(i as nat),
        decreases n - i,
    {
        buf.push(0);
        i += 1;
        assert(buf@ =~= zeros(i as nat));
    }
    buf
}

/// Records that are read to the end are read in the same way before others.
pub proof fn lemma_parse_extend(b: Seq<u8>, x: Seq<u8>, from: int)
    requires
        0 <= from <= b.len(),
        parse_log(b, from).end is Done,
    ensures
        parse_log(b + x, from).entries == parse_log(b, from).entries + parse_log(
            b + x,
            b.len() as int,
        ).entries,
        parse_log(b + x, from).end == parse_log(b + x, b.len() as int).end,
    decreases b.len() - from,
{
    let c = b + x;
    if from < b.len() {
        let len = codec::le_value(b.subrange(from, from + 4)) as int;
        let to = from + 4 + len;
        assert(c.subrange(from, from + 4) =~= b.subrange(from, from + 4));
        assert(c.subrange(from + 4, from + 8) =~= b.subrange(from + 4, from + 8));
        assert(c.subrange(from + 8, to) =~= b.subrange(from + 8, to));
        lemma_parse_extend(b, x, to);
        let e = record_at(b, from, to).unwrap();
        assert(seq![e] + parse_log(c, to).entries =~= (seq![e] + parse_log(b, to).entries)
            + parse_log(c, b.len() as int).entries);
    } else {
        assert(parse_log(b, from).entries + parse_log(c, from).entries =~= parse_log(
            c,
            from,
        ).entries);
    }
}

/// Without what follows the last valid record, the records are read to the
/// end.
pub proof fn lemma_parse_cut(b: Seq<u8>, from: int, p: int)
    requires
        0 <= from <= b.len(),
        parse_log(b, from).end == LogEnd::Rest(p) || parse_log(b, from).end == LogEnd::Bad(p),
    ensures
        from <= p < b.len(),
        parse_log(b.take(p), from).entries == parse_log(b, from).entries,
        parse_log(b.take(p), from).end is Done,
    decreases b.len() - from,
{
    lemma_parse_end(b, from);
    let c = b.take(p);
    if p > from {
        let len = codec::le_value(b.subrange(from, from + 4)) as int;
        let to = from + 4 + len;
        lemma_parse_cut(b, to, p);
        assert(c.subrange(from, from + 4) =~= b.subrange(from, from + 4));
        assert(c.subrange(from + 4, from + 8) =~= b.subrange(from + 4, from + 8));
        assert(c.subrange(from + 8, to) =~= b.subrange(from + 8, to));
    } else if b.len() - from >= 4 {
        let len = codec::le_value(b.subrange(from, from + 4)) as int;
        let to = from + 4 + len;
        if len >= 9 && to <= b.len() {
            if record_at(b, from, to) is Some {
                lemma_parse_end(b, to);
            }
        }
    }
}

/// A record whose lengths fit is read where it stands.
pub proof fn lemma_parse_record(b: Seq<u8>, from: int, e: WalEntryView)
    requires
        readable(e),
        0 <= from,
        from + record_len(e) <= b.len(),
        b.subrange(from, from + record_len(e)) == record_bytes(e),
    ensures
        parse_log(b, from).entries == seq![e] + parse_log(b, from + record_len(e)).entries,
        parse_log(b, from).end == parse_log(b, from + record_len(e)).end,
{
    broadcast use codec::lemma_le_bytes_len;

    reveal(record_bytes);
    lemma_record_len(e);
    lemma_body_round_trip(e);
    let r = record_bytes(e);
    let n = record_len(e) as int;
    let to = from + n;
    codec::lemma_byte_bounds();
    assert(b.subrange(from, from + 4) =~= r.subrange(0, 4)) by {
        assert(r == b.subrange(from, to));
    }
    assert(r.subrange(0, 4) =~= codec::le_bytes(body_bytes(e).len() + 4, 4));
    codec::lemma_le_round_trip(body_bytes(e).len() + 4, 4);
    assert(b.subrange(from + 4, from + 8) =~= r.subrange(4, 8)) by {
        assert(r == b.subrange(from, to));
    }
    assert(r.subrange(4, 8) =~= codec::le_bytes(crc32_castagnoli(body_bytes(e)) as nat, 4));
    codec::lemma_le_round_trip(crc32_castagnoli(body_bytes(e)) as nat, 4);
    assert(b.subrange(from + 8, to) =~= r.subrange(8, n)) by {
        assert(r == b.subrange(from, to));
    }
    assert(r.subrange(8, n) =~= body_bytes(e));
}

/// The records one after the other.
pub open spec fn records(es: Seq<WalEntryView>) -> Seq<u8>
    decreases es.len(),
{
    if es.len() == 0 {
        Seq::empty()
    } else {
        records(es.drop_last()) + record_bytes(es.last())
    }
}

/// Records that are written one after the other are read back.
pub proof fn lemma_records_round_trip(es: Seq<WalEntryView>)
    requires
        forall|i: int| 0 <= i < es.len() ==> readable(#[trigger] es[i]),
    ensures
        parse_log(records(es), 0).entries == es,
        parse_log(records(es), 0).end is Done,
    decreases es.len(),
{
    if es.len() > 0 {
        let init = es.drop_last();
        let e = es.last();
        assert forall|i: int| 0 <= i < init.len() implies readable(#[trigger] init[i]) by {
            assert(init[i] == es[i]);
        }
        assert(readable(es[es.len() - 1]));
        lemma_records_round_trip(init);
        lemma_record_len(e);
        let a = records(init);
        let b = records(es);
        lemma_parse_extend(a, record_bytes(e), 0);
        assert(b.subrange(a.len() as int, b.len() as int) =~= record_bytes(e));
        lemma_parse_record(b, a.len() as int, e);
        assert(parse_log(b, b.len() as int).entries =~= Seq::<WalEntryView>::empty());
        assert(init + seq![e] =~= es);
    } else {
        assert(parse_log(records(es), 0).entries =~= es);
    }
}

/// A record whose checksum is another ends what is read: the records before it
/// are read, whatever follows it is not, and the bytes are refused.
pub proof fn lemma_wrong_checksum(
    es: Seq<WalEntryView>,
    e: WalEntryView,
    sum: Seq<u8>,
    rest: Seq<u8>,
)
    requires
        forall|i: int| 0 <= i < es.len() ==> readable(#[trigger] es[i]),
        readable(e),
        sum.len() == 4,
        sum != record_bytes(e).subrange(4, 8),
    ensures
        ({
            let r = record_bytes(e);
            let b = records(es) + (r.take(4) + sum + r.skip(8) + rest);
            &&& parse_log(b, 0).entries == es
            &&& parse_log(b, 0).end == LogEnd::Bad(records(es).len() as int)
        }),
{
    broadcast use codec::lemma_le_bytes_len;

    let r = record_bytes(e);
    let x = r.take(4) + sum + r.skip(8) + rest;
    let b = records(es) + x;
    let p = records(es).len() as int;
    let to = p + record_len(e);
    lemma_records_round_trip(es);
    lemma_parse_extend(records(es), x, 0);
    lemma_record_len(e);
    reveal(record_bytes);
    codec::lemma_byte_bounds();
    assert(b.subrange(p, p + 4) =~= codec::le_bytes(body_bytes(e).len() + 4, 4));
    codec::lemma_le_round_trip(body_bytes(e).len() + 4, 4);
    assert(b.subrange(p + 4, p + 8) =~= sum);
    assert(b.subrange(p + 8, to) =~= body_bytes(e));
    assert(r.subrange(4, 8) =~= codec::le_bytes(crc32_castagnoli(body_bytes(e)) as nat, 4));
    codec::lemma_le_value_exact(sum);
    assert(record_at(b, p, to) is None);
    assert(parse_log(b, 0).entries =~= es);
}

/// A length of zero ends what is read: the records before it are read, whatever
/// follows it is not, and the bytes are refused.
pub proof fn lemma_zero_length(es: Seq<WalEntryView>, rest: Seq<u8>)
    requires
        forall|i: int| 0 <= i < es.len() ==> readable(#[trigger] es[i]),
    ensures
        ({
            let b = records(es) + (zeros(4) + rest);
            &&& parse_log(b, 0).entries == es
            &&& parse_log(b, 0).end == LogEnd::Bad(records(es).len() as int)
        }),
{
    broadcast use codec::lemma_le_bytes_len;

    let x = zeros(4) + rest;
    let b = records(es) + x;
    let p = records(es).len() as int;
    lemma_records_round_trip(es);
    lemma_parse_extend(records(es), x, 0);
    codec::lemma_byte_bounds();
    codec::lemma_le_round_trip(0, 4);
    reveal_with_fuel(codec::le_bytes, 5);
    assert(codec::le_bytes(0, 4) =~= zeros(4));
    assert(b.subrange(p, p + 4) =~= codec::le_bytes(0, 4));
    assert(parse_log(b, 0).entries =~= es);
}

/// A record that is not complete is handed back: the records before it are
/// read, its bytes are the remainder, and with the bytes that it lacks they are
/// read as the record.
pub proof fn lemma_incomplete_record(es: Seq<WalEntryView>, e: WalEntryView, n: int)
    requires
        forall|i: int| 0 <= i < es.len() ==> readable(#[trigger] es[i]),
        readable(e),
        0 < n < record_len(e),
    ensures
        ({
            let tail = record_bytes(e).take(n);
            let b = records(es) + tail;
            let whole = parse_log(tail + record_bytes(e).skip(n), 0);
            &&& parse_log(b, 0).entries == es
            &&& parse_log(b, 0).end == LogEnd::Rest(records(es).len() as int)
            &&& b.skip(records(es).len() as int) == tail
            &&& whole.entries == seq![e]
            &&& whole.end is Done
        }),
{
    broadcast use codec::lemma_le_bytes_len;

    let r = record_bytes(e);
    let tail = r.take(n);
    let b = records(es) + tail;
    let p = records(es).len() as int;
    lemma_record_len(e);
    lemma_records_round_trip(es);
    lemma_parse_extend(records(es), tail, 0);
    codec::lemma_byte_bounds();
    assert(b.skip(p) =~= tail);
    if n >= 4 {
        reveal(record_bytes);
        assert(b.subrange(p, p + 4) =~= codec::le_bytes(body_bytes(e).len() + 4, 4));
        codec::lemma_le_round_trip(body_bytes(e).len() + 4, 4);
    }
    assert(parse_log(b, 0).entries =~= es);
    assert(tail + r.skip(n) =~= r);
    assert(r.subrange(0, r.len() as int) =~= r);
    lemma_parse_record(r, 0, e);
    assert(parse_log(r, 0).entries =~= seq![e]);
}

/// Records are read from a position on as the bytes behind it are read.
pub proof fn lemma_parse_from(b: Seq<u8>, from: int, p: int)
    requires
        0 <= p <= from <= b.len(),
    ensures
        parse_log(b.skip(p), from - p).entries == parse_log(b, from).entries,
        parse_log(b.skip(p), from - p).end == match parse_log(b, from).end {
            LogEnd::Done => LogEnd::Done,
            LogEnd::Rest(q) => LogEnd::Rest(q - p),
            LogEnd::Bad(q) => LogEnd::Bad(q - p),
        },
    decreases b.len() - from,
{
    let c = b.skip(p);
    let n = b.len() as int;
    if from < n && n - from >= 4 {
        let at = from - p;
        let len = codec::le_value(b.subrange(from, from + 4)) as int;
        let to = from + 4 + len;
        assert(c.subrange(at, at + 4) =~= b.subrange(from, from + 4));
        if len >= 9 && to <= n {
            assert(c.subrange(at + 4, at + 8) =~= b.subrange(from + 4, from + 8));
            assert(c.subrange(at + 8, to - p) =~= b.subrange(from + 8, to));
            lemma_parse_from(b, to, p);
        }
    }
}

/// What a record looks like, byte by byte: the length of what follows, the
/// checksum of the body, and the body, which holds the operation, the key behind
/// its length, the value of a put behind its length, and the sequence number.
pub proof fn lemma_record_layout(e: WalEntryView)
    requires
        readable(e),
    ensures
        ({
            let b = record_bytes(e);
            let k = encode_utf8(e.key).len() as int;
            let n = b.len() as int;
            &&& codec::le_value(b.subrange(0, 4)) == n - 4
            &&& codec::le_value(b.subrange(4, 8)) == crc32_castagnoli(b.skip(8))
            &&& b[8] == if e.operation_type == OpType::Put {
                1u8
            } else {
                2u8
            }
            &&& codec::le_value(b.subrange(9, 13)) == k
            &&& b.subrange(13, 13 + k) == encode_utf8(e.key)
            &&& match e.value {
                Some(v) => {
                    let m = encode_utf8(v).len() as int;
                    &&& n == 25 + k + m
                    &&& codec::le_value(b.subrange(13 + k, 17 + k)) == m
                    &&& b.subrange(17 + k, 17 + k + m) == encode_utf8(v)
                },
                None => n == 21 + k,
            }
            &&& codec::le_value(b.skip(n - 8)) == e.sequence_number
        }),
{
    broadcast use codec::lemma_le_bytes_len;

    let b = record_bytes(e);
    let n = b.len() as int;
    let key = encode_utf8(e.key);
    let k = key.len() as int;
    lemma_record_len(e);
    reveal(record_bytes);
    reveal(body_bytes);
    codec::lemma_byte_bounds();
    codec::lemma_le_round_trip(body_bytes(e).len() + 4, 4);
    codec::lemma_le_round_trip(crc32_castagnoli(body_bytes(e)) as nat, 4);
    codec::lemma_le_round_trip(key.len(), 4);
    codec::lemma_le_round_trip(e.sequence_number as nat, 8);
    assert(b.subrange(0, 4) =~= codec::le_bytes(body_bytes(e).len() + 4, 4));
    assert(b.subrange(4, 8) =~= codec::le_bytes(crc32_castagnoli(body_bytes(e)) as nat, 4));
    assert(b.skip(8) =~= body_bytes(e));
    assert(b.subrange(9, 13) =~= codec::le_bytes(key.len(), 4));
    assert(b.subrange(13, 13 + k) =~= key);
    assert(b.skip(n - 8) =~= codec::le_bytes(e.sequence_number as nat, 8));
    if let Some(v) = e.value {
        let m = encode_utf8(v).len() as int;
        codec::lemma_le_round_trip(encode_utf8(v).len(), 4);
        assert(b.subrange(13 + k, 17 + k) =~= codec::le_bytes(encode_utf8(v).len(), 4));
        assert(b.subrange(17 + k, 17 + k + m) =~= encode_utf8(v));
    }
}

/// How reading records ends is told. Whole records are read without a remainder. A
/// record that is not complete is the remainder. A record whose checksum does not
/// agree, and a length of zero, are an error.
pub proof fn lemma_end_is_told(
    es: Seq<WalEntryView>,
    e: WalEntryView,
    n: int,
    sum: Seq<u8>,
    rest: Seq<u8>,
    whole: Result<Option<Vec<u8>>, RecoveryError>,
    torn: Result<Option<Vec<u8>>, RecoveryError>,
    wrong: Result<Option<Vec<u8>>, RecoveryError>,
    empty: Result<Option<Vec<u8>>, RecoveryError>,
)
    requires
        forall|i: int| 0 <= i < es.len() ==> readable(#[trigger] es[i]),
        readable(e),
        0 < n < record_len(e),
        sum.len() == 4,
        sum != record_bytes(e).subrange(4, 8),
        parsed(whole, records(es)),
        parsed(torn, records(es) + record_bytes(e).take(n)),
        parsed(
            wrong,
            records(es) + (record_bytes(e).take(4) + sum + record_bytes(e).skip(8) + rest),
        ),
        parsed(empty, records(es) + (zeros(4) + rest)),
    ensures
        whole matches Ok(None),
        torn matches Ok(Some(left)) && left@ == record_bytes(e).take(n),
        wrong is Err,
        empty is Err,
{
    lemma_records_round_trip(es);
    lemma_incomplete_record(es, e, n);
    lemma_wrong_checksum(es, e, sum, rest);
    lemma_zero_length(es, rest);
    let b = records(es) + record_bytes(e).take(n);
    assert(b.skip(records(es).len() as int) =~= record_bytes(e).take(n));
}

} // verus!
