//! Fixed-width integers and strings as bytes.

use vstd::prelude::*;
use vstd::utf8::*;

verus! {

/// The number of values that `n` bytes can hold.
pub open spec fn byte_bound(n: nat) -> nat
    decreases n,
{
    if n == 0 {
        1
    } else {
        256 * byte_bound((n - 1) as nat)
    }
}

/// The low `n` bytes of `x`, least significant first.
pub open spec fn le_bytes(x: nat, n: nat) -> Seq<u8>
    decreases n,
{
    if n == 0 {
        Seq::empty()
    } else {
        seq![(x % 256) as u8] + le_bytes(x / 256, (n - 1) as nat)
    }
}

/// The number whose bytes are `s`, least significant first.
pub open spec fn le_value(s: Seq<u8>) -> nat
    decreases s.len(),
{
    if s.len() == 0 {
        0
    } else {
        s[0] as nat + 256 * le_value(s.drop_first())
    }
}

/// The low `n` bytes of `x`, most significant first.
pub open spec fn be_bytes(x: nat, n: nat) -> Seq<u8>
    decreases n,
{
    if n == 0 {
        Seq::empty()
    } else {
        be_bytes(x / 256, (n - 1) as nat).push((x % 256) as u8)
    }
}

/// The number whose bytes are `s`, most significant first.
pub open spec fn be_value(s: Seq<u8>) -> nat
    decreases s.len(),
{
    if s.len() == 0 {
        0
    } else {
        256 * be_value(s.drop_last()) + s.last() as nat
    }
}

pub broadcast proof fn lemma_le_bytes_len(x: nat, n: nat)
    ensures
        #[trigger] le_bytes(x, n).len() == n,
    decreases n,
{
    if n > 0 {
        lemma_le_bytes_len(x / 256, (n - 1) as nat);
    }
}

pub broadcast proof fn lemma_be_bytes_len(x: nat, n: nat)
    ensures
        #[trigger] be_bytes(x, n).len() == n,
    decreases n,
{
    if n > 0 {
        lemma_be_bytes_len(x / 256, (n - 1) as nat);
    }
}

/// Reading the little-endian bytes of a number gives the number back.
pub proof fn lemma_le_round_trip(x: nat, n: nat)
    requires
        x < byte_bound(n),
    ensures
        le_value(le_bytes(x, n)) == x,
    decreases n,
{
    lemma_le_bytes_len(x, n);
    if n > 0 {
        let rest = le_bytes(x / 256, (n - 1) as nat);
        lemma_le_round_trip(x / 256, (n - 1) as nat);
        assert(le_bytes(x, n).drop_first() =~= rest);
    }
}

/// Reading the big-endian bytes of a number gives the number back.
pub proof fn lemma_be_round_trip(x: nat, n: nat)
    requires
        x < byte_bound(n),
    ensures
        be_value(be_bytes(x, n)) == x,
    decreases n,
{
    lemma_be_bytes_len(x, n);
    if n > 0 {
        let rest = be_bytes(x / 256, (n - 1) as nat);
        lemma_be_round_trip(x / 256, (n - 1) as nat);
        assert(be_bytes(x, n).drop_last() =~= rest);
    }
}

/// Bytes are the little-endian bytes of the number they hold.
pub proof fn lemma_le_value_exact(s: Seq<u8>)
    ensures
        le_bytes(le_value(s), s.len()) == s,
    decreases s.len(),
{
    if s.len() > 0 {
        lemma_le_value_exact(s.drop_first());
        assert(s =~= seq![s[0]] + s.drop_first());
    } else {
        assert(s =~= le_bytes(0, 0));
    }
}

/// A small number has zeros for its high bytes.
pub proof fn lemma_le_bytes_widen(x: nat, m: nat, n: nat)
    requires
        x < byte_bound(m),
    ensures
        le_bytes(x, m + n) == le_bytes(x, m) + le_bytes(0, n),
    decreases m,
{
    if m > 0 {
        lemma_le_bytes_widen(x / 256, (m - 1) as nat, n);
        assert(seq![(x % 256) as u8] + (le_bytes(x / 256, (m - 1) as nat) + le_bytes(0, n))
            =~= le_bytes(x, m) + le_bytes(0, n));
        assert(m + n - 1 == (m - 1) + n);
    } else {
        assert(le_bytes(x, 0) + le_bytes(0, n) =~= le_bytes(0, n));
    }
}

/// A number read from bytes is below the bound of their count.
pub proof fn lemma_le_value_bound(s: Seq<u8>)
    ensures
        le_value(s) < byte_bound(s.len()),
    decreases s.len(),
{
    if s.len() > 0 {
        lemma_le_value_bound(s.drop_first());
    }
}

/// A number read from bytes is below the bound of their count.
pub proof fn lemma_be_value_bound(s: Seq<u8>)
    ensures
        be_value(s) < byte_bound(s.len()),
    decreases s.len(),
{
    if s.len() > 0 {
        lemma_be_value_bound(s.drop_last());
    }
}

pub proof fn lemma_byte_bounds()
    ensures
        byte_bound(2) == 0x1_0000,
        byte_bound(4) == 0x1_0000_0000,
        byte_bound(8) == 0x1_0000_0000_0000_0000,
{
    reveal_with_fuel(byte_bound, 9);
}

pub proof fn lemma_byte_bound_monotonic(m: nat, n: nat)
    requires
        m <= n,
    ensures
        byte_bound(m) <= byte_bound(n),
    decreases n,
{
    if m < n {
        lemma_byte_bound_monotonic(m, (n - 1) as nat);
    }
}

/// Appends the low `n` bytes of `x` to `buf`, least significant first.
pub fn put_le(buf: &mut Vec<u8>, x: u64, n: usize)
    ensures
        final(buf)@ == old(buf)@ + le_bytes(x as nat, n as nat),
{
    let ghost start = buf@;
    let mut rest: u64 = x;
    let mut i: usize = 0;
    proof {
        assert(buf@ + le_bytes(x as nat, n as nat) =~= start + le_bytes(x as nat, n as nat));
    }
    while i < n
        invariant
            i <= n,
            buf@ + le_bytes(rest as nat, (n - i) as nat) == start + le_bytes(x as nat, n as nat),
        decreases n - i,
    {
        let ghost before = buf@;
        let b: u8 = (rest % 256) as u8;
        buf.push(b);
        proof {
            let tail = le_bytes((rest / 256) as nat, (n - i - 1) as nat);
            assert(before.push(b) + tail =~= before + (seq![b] + tail));
        }
        rest = rest / 256;
        i += 1;
    }
    assert(buf@ + le_bytes(rest as nat, 0) =~= buf@);
}

/// The number held by the `n` bytes of `buf` from `start`, least significant
/// first.
pub fn get_le(buf: &[u8], start: usize, n: usize) -> (x: u64)
    requires
        n <= 8,
        start + n <= buf@.len(),
    ensures
        x == le_value(buf@.subrange(start as int, start + n)),
        x < byte_bound(n as nat),
{
    let len: usize = buf.len();
    let mut acc: u64 = 0;
    let mut i: usize = n;
    assert(buf@.subrange(start + i, start + n) =~= Seq::<u8>::empty());
    while i > 0
        invariant
            i <= n <= 8,
            start + n <= buf@.len() == len,
            acc == le_value(buf@.subrange(start + i, start + n)),
            acc < byte_bound((n - i) as nat),
        decreases i,
    {
        i -= 1;
        let b: u8 = buf[start + i];
        proof {
            lemma_byte_bound_monotonic((n - i) as nat, 8);
            lemma_byte_bounds();
            let s = buf@.subrange(start + i, start + n);
            assert(s.drop_first() =~= buf@.subrange(start + i + 1, start + n));
            assert(byte_bound((n - i) as nat) == 256 * byte_bound((n - i - 1) as nat));
        }
        acc = acc * 256 + b as u64;
    }
    acc
}

/// The number held by the four bytes of `buf` from `start`, least significant
/// first.
pub fn get_le32(buf: &[u8], start: usize) -> (x: u32)
    requires
        start + 4 <= buf@.len(),
    ensures
        x == le_value(buf@.subrange(start as int, start + 4)),
{
    proof {
        lemma_byte_bounds();
    }
    get_le(buf, start, 4) as u32
}

/// The number held by the eight bytes of `buf` from `start`, least significant
/// first.
pub fn get_le64(buf: &[u8], start: usize) -> (x: u64)
    requires
        start + 8 <= buf@.len(),
    ensures
        x == le_value(buf@.subrange(start as int, start + 8)),
{
    get_le(buf, start, 8)
}

/// Appends the low `n` bytes of `x` to `buf`, most significant first.
pub fn put_be(buf: &mut Vec<u8>, x: u64, n: usize)
    ensures
        final(buf)@ == old(buf)@ + be_bytes(x as nat, n as nat),
    decreases n,
{
    if n > 0 {
        put_be(buf, x / 256, n - 1);
        buf.push((x % 256) as u8);
    }
    assert(buf@ =~= old(buf)@ + be_bytes(x as nat, n as nat));
}

/// The number held by the `n` bytes of `buf` from `start`, most significant
/// first.
pub fn get_be(buf: &[u8], start: usize, n: usize) -> (x: u64)
    requires
        n <= 8,
        start + n <= buf@.len(),
    ensures
        x == be_value(buf@.subrange(start as int, start + n)),
        x < byte_bound(n as nat),
{
    let len: usize = buf.len();
    let mut acc: u64 = 0;
    let mut i: usize = 0;
    assert(buf@.subrange(start as int, start + i) =~= Seq::<u8>::empty());
    while i < n
        invariant
            i <= n <= 8,
            start + n <= buf@.len() == len,
            acc == be_value(buf@.subrange(start as int, start + i)),
            acc < byte_bound(i as nat),
        decreases n - i,
    {
        let b: u8 = buf[start + i];
        proof {
            lemma_byte_bound_monotonic((i + 1) as nat, 8);
            lemma_byte_bounds();
            let s = buf@.subrange(start as int, start + i + 1);
            assert(s.drop_last() =~= buf@.subrange(start as int, start + i));
        }
        acc = acc * 256 + b as u64;
        i += 1;
    }
    acc
}

/// The number held by the four bytes of `buf` from `start`, most significant
/// first.
pub fn get_be32(buf: &[u8], start: usize) -> (x: u32)
    requires
        start + 4 <= buf@.len(),
    ensures
        x == be_value(buf@.subrange(start as int, start + 4)),
{
    proof {
        lemma_byte_bounds();
    }
    get_be(buf, start, 4) as u32
}

/// Appends `bytes` to `buf`.
pub fn put_bytes(buf: &mut Vec<u8>, bytes: &[u8])
    ensures
        final(buf)@ == old(buf)@ + bytes@,
{
    buf.extend_from_slice(bytes);
    assert(buf@ =~= old(buf)@ + bytes@);
}

/// A copy of the bytes of `buf` from `start` to `end`.
pub fn copy_range(buf: &[u8], start: usize, end: usize) -> (out: Vec<u8>)
    requires
        start <= end <= buf@.len(),
    ensures
        out@ == buf@.subrange(start as int, end as int),
{
    let mut out: Vec<u8> = Vec::new();
    put_bytes(&mut out, &buf[start..end]);
    assert(out@ =~= buf@.subrange(start as int, end as int));
    out
}

/// The error of `String::from_utf8`.
#[verifier::external_type_specification]
#[verifier::external_body]
pub struct ExFromUtf8Error(std::string::FromUtf8Error);

/// `String::from_utf8`: converts a vector of bytes to a string. It succeeds on
/// exactly the byte sequences that are valid UTF-8, and the string then holds
/// the characters that they encode.
#[verifier::external_body]
fn string_from_utf8(bytes: Vec<u8>) -> (r: Result<String, std::string::FromUtf8Error>)
    ensures
        r is Ok <==> valid_utf8(bytes@),
        r is Ok ==> r->Ok_0@ == decode_utf8(bytes@),
{
    String::from_utf8(bytes)
}

/// The text that `bytes` encode, or nothing where they are not valid UTF-8.
pub open spec fn text(bytes: Seq<u8>) -> Option<Seq<char>> {
    if valid_utf8(bytes) {
        Some(decode_utf8(bytes))
    } else {
        None
    }
}

/// Reads the bytes of `buf` from `start` to `end` as text.
pub fn get_text(buf: &[u8], start: usize, end: usize) -> (r: Option<String>)
    requires
        start <= end <= buf@.len(),
    ensures
        r is Some <==> text(buf@.subrange(start as int, end as int)) is Some,
        r matches Some(s) ==> Some(s@) == text(buf@.subrange(start as int, end as int)),
{
    match string_from_utf8(copy_range(buf, start, end)) {
        Ok(s) => Some(s),
        Err(_) => None,
    }
}

/// The bytes of a string.
pub fn bytes_of(s: &String) -> (b: &[u8])
    ensures
        b@ == encode_utf8(s@),
{
    s.as_str().as_bytes()
}

/// The number of bytes of a string.
pub fn byte_len(s: &String) -> (n: usize)
    ensures
        n == encode_utf8(s@).len(),
{
    bytes_of(s).len()
}

/// Text survives being written as bytes and read back.
pub broadcast proof fn lemma_text_round_trip(s: Seq<char>)
    ensures
        #[trigger] text(encode_utf8(s)) == Some(s),
{
    encode_utf8_valid_utf8(s);
    encode_utf8_decode_utf8(s);
}

/// Different strings have different bytes.
pub proof fn lemma_encode_injective(a: Seq<char>, b: Seq<char>)
    requires
        encode_utf8(a) == encode_utf8(b),
    ensures
        a == b,
{
    encode_utf8_decode_utf8(a);
    encode_utf8_decode_utf8(b);
}

/// The bytes of a number are its digits to the base of 256, from the last to the
/// first or the other way round.
pub proof fn lemma_bytes_are_digits(x: nat, n: nat, i: int)
    requires
        0 <= i < n,
    ensures
        le_bytes(x, n)[i] == x / byte_bound(i as nat) % 256,
        be_bytes(x, n)[n - 1 - i] == x / byte_bound(i as nat) % 256,
    decreases n,
{
    lemma_le_bytes_len(x, n);
    lemma_be_bytes_len(x, n);
    lemma_le_bytes_len(x / 256, (n - 1) as nat);
    lemma_be_bytes_len(x / 256, (n - 1) as nat);
    if i > 0 {
        lemma_bytes_are_digits(x / 256, (n - 1) as nat, i - 1);
        let m = byte_bound((i - 1) as nat);
        lemma_byte_bound_monotonic(0, (i - 1) as nat);
        assert(byte_bound(i as nat) == 256 * m);
        vstd::arithmetic::div_mod::lemma_div_denominator(x as int, 256, m as int);
    }
}

} // verus!
