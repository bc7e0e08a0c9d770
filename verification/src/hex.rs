//! Numbers as hexadecimal text of a fixed width, as file names hold them.

use crate::codec;
use crate::order;
use vstd::prelude::*;
use vstd::utf8::*;

verus! {

/// The lower-case hexadecimal digit of `d`.
pub open spec fn hex_digit(d: nat) -> char {
    if d < 10 {
        (48 + d) as char
    } else {
        (87 + d) as char
    }
}

/// The last `n` hexadecimal digits of `x`.
pub open spec fn hex_chars(x: nat, n: nat) -> Seq<char>
    decreases n,
{
    if n == 0 {
        Seq::empty()
    } else {
        hex_chars(x / 16, (n - 1) as nat).push(hex_digit(x % 16))
    }
}

/// The value of the byte `b` as a hexadecimal digit of either case.
pub open spec fn digit_value(b: u8) -> Option<nat> {
    if 48 <= b <= 57 {
        Some((b - 48) as nat)
    } else if 97 <= b <= 102 {
        Some((b - 87) as nat)
    } else if 65 <= b <= 70 {
        Some((b - 55) as nat)
    } else {
        None
    }
}

/// The number that a row of hexadecimal digits denotes.
pub open spec fn digits_value(s: Seq<u8>) -> Option<nat>
    decreases s.len(),
{
    if s.len() == 0 {
        Some(0)
    } else {
        match (digits_value(s.drop_last()), digit_value(s.last())) {
            (Some(high), Some(low)) => Some(16 * high + low),
            _ => None,
        }
    }
}

/// The number of values that `n` hexadecimal digits can hold.
pub open spec fn hex_bound(n: nat) -> nat
    decreases n,
{
    if n == 0 {
        1
    } else {
        16 * hex_bound((n - 1) as nat)
    }
}

pub proof fn lemma_hex_bounds()
    ensures
        hex_bound(8) == 0x1_0000_0000,
{
    reveal_with_fuel(hex_bound, 9);
}

pub proof fn lemma_hex_bound_monotonic(m: nat, n: nat)
    requires
        m <= n,
    ensures
        hex_bound(m) <= hex_bound(n),
    decreases n,
{
    if m < n {
        lemma_hex_bound_monotonic(m, (n - 1) as nat);
    }
}

pub broadcast proof fn lemma_hex_chars_len(x: nat, n: nat)
    ensures
        #[trigger] hex_chars(x, n).len() == n,
    decreases n,
{
    if n > 0 {
        lemma_hex_chars_len(x / 16, (n - 1) as nat);
    }
}

/// Every hexadecimal digit is an ASCII character.
pub proof fn lemma_hex_chars_ascii(x: nat, n: nat)
    ensures
        is_ascii_chars(hex_chars(x, n)),
    decreases n,
{
    if n > 0 {
        lemma_hex_chars_ascii(x / 16, (n - 1) as nat);
        lemma_hex_chars_len(x / 16, (n - 1) as nat);
    }
}

/// The bytes of ASCII characters are the characters' own numbers.
pub open spec fn ascii_bytes(s: Seq<char>) -> Seq<u8> {
    Seq::new(s.len(), |i: int| s[i] as u8)
}

/// Hexadecimal digits do not start with a sign.
pub proof fn lemma_hex_first(x: nat, n: nat)
    requires
        n > 0,
    ensures
        ascii_bytes(hex_chars(x, n))[0] != 43,
    decreases n,
{
    lemma_hex_chars_len(x, n);
    lemma_hex_chars_len(x / 16, (n - 1) as nat);
    if n > 1 {
        lemma_hex_first(x / 16, (n - 1) as nat);
        assert(hex_chars(x, n)[0] == hex_chars(x / 16, (n - 1) as nat)[0]);
    }
}

/// A number written with enough digits is read back from them.
pub proof fn lemma_hex_round_trip(x: nat, n: nat)
    requires
        x < hex_bound(n),
    ensures
        digits_value(ascii_bytes(hex_chars(x, n))) == Some(x),
    decreases n,
{
    lemma_hex_chars_len(x, n);
    if n > 0 {
        let init = hex_chars(x / 16, (n - 1) as nat);
        lemma_hex_chars_len(x / 16, (n - 1) as nat);
        lemma_hex_round_trip(x / 16, (n - 1) as nat);
        let all = ascii_bytes(hex_chars(x, n));
        assert(all.drop_last() =~= ascii_bytes(init));
        assert(all.last() == hex_digit(x % 16) as u8);
    }
}

/// Numbers written with the same number of digits sort as numbers do.
pub proof fn lemma_hex_order(x: nat, y: nat, n: nat)
    requires
        x < y < hex_bound(n),
    ensures
        order::lex_lt(ascii_bytes(hex_chars(x, n)), ascii_bytes(hex_chars(y, n))),
    decreases n,
{
    if n > 0 {
        let m = (n - 1) as nat;
        let a = ascii_bytes(hex_chars(x / 16, m));
        let b = ascii_bytes(hex_chars(y / 16, m));
        let c = seq![hex_digit(x % 16) as u8];
        let d = seq![hex_digit(y % 16) as u8];
        lemma_hex_chars_len(x / 16, m);
        lemma_hex_chars_len(y / 16, m);
        assert(ascii_bytes(hex_chars(x, n)) =~= a + c);
        assert(ascii_bytes(hex_chars(y, n)) =~= b + d);
        if x / 16 < y / 16 {
            lemma_hex_order(x / 16, y / 16, m);
            order::lemma_lex_lt_extend(a, b, c, d);
        } else {
            order::lemma_lex_lt_prefix(a, c, d);
        }
    }
}

/// Digits denote a number below the bound of their count.
pub proof fn lemma_digits_value_bound(s: Seq<u8>)
    ensures
        digits_value(s) matches Some(v) ==> v < hex_bound(s.len()),
    decreases s.len(),
{
    if s.len() > 0 {
        lemma_digits_value_bound(s.drop_last());
    }
}

/// Appends the last `n` hexadecimal digits of `x` to `buf`.
pub fn put_hex(buf: &mut Vec<u8>, x: u64, n: usize)
    ensures
        final(buf)@ == old(buf)@ + ascii_bytes(hex_chars(x as nat, n as nat)),
    decreases n,
{
    if n > 0 {
        put_hex(buf, x / 16, n - 1);
        let d: u8 = (x % 16) as u8;
        let c: u8 = if d < 10 {
            48 + d
        } else {
            87 + d
        };
        buf.push(c);
    }
    proof {
        lemma_hex_chars_len(x as nat, n as nat);
        if n > 0 {
            lemma_hex_chars_len((x / 16) as nat, (n - 1) as nat);
        }
    }
    assert(buf@ =~= old(buf)@ + ascii_bytes(hex_chars(x as nat, n as nat)));
}

/// The number that the `n` bytes of `buf` from `start` denote as hexadecimal
/// digits, or nothing where one of them is no such digit.
pub fn get_hex(buf: &[u8], start: usize, n: usize) -> (r: Option<u64>)
    requires
        n <= 8,
        start + n <= buf@.len(),
    ensures
        r is Some <==> digits_value(buf@.subrange(start as int, start + n)) is Some,
        r matches Some(v) ==> digits_value(buf@.subrange(start as int, start + n)) == Some(v as nat)
            && v < hex_bound(n as nat),
    decreases n,
{
    let ghost s = buf@.subrange(start as int, start + n);
    if n == 0 {
        return Some(0);
    }
    assert(s.drop_last() =~= buf@.subrange(start as int, start + n - 1));
    let high: u64 = match get_hex(buf, start, n - 1) {
        Some(v) => v,
        None => {
            return None;
        },
    };
    let len: usize = buf.len();
    let b: u8 = buf[start + (n - 1)];
    let low: u64 = if 48 <= b && b <= 57 {
        (b - 48) as u64
    } else if 97 <= b && b <= 102 {
        (b - 87) as u64
    } else if 65 <= b && b <= 70 {
        (b - 55) as u64
    } else {
        return None;
    };
    proof {
        lemma_hex_bound_monotonic((n - 1) as nat, 8);
        lemma_hex_bounds();
    }
    Some(16 * high + low)
}

/// The string of which `buf` holds the bytes, where these are ASCII.
pub(crate) fn ascii_string(buf: &Vec<u8>, Ghost(chars): Ghost<Seq<char>>) -> (s: String)
    requires
        buf@ == ascii_bytes(chars),
        is_ascii_chars(chars),
    ensures
        s@ == chars,
{
    proof {
        is_ascii_chars_encode_utf8(chars);
        assert(buf@ =~= encode_utf8(chars));
        codec::lemma_text_round_trip(chars);
        assert(buf@.subrange(0, buf@.len() as int) =~= buf@);
    }
    match codec::get_text(buf.as_slice(), 0, buf.len()) {
        Some(s) => s,
        None => String::new(),
    }
}

} // verus!
