//! The order of keys: strings compare by their bytes, as in a dictionary.

use crate::codec::bytes_of;
use vstd::prelude::*;
use vstd::utf8::*;

verus! {

/// Dictionary order on bytes.
pub open spec fn lex_lt(a: Seq<u8>, b: Seq<u8>) -> bool
    decreases a.len(),
{
    if b.len() == 0 {
        false
    } else if a.len() == 0 {
        true
    } else if a[0] != b[0] {
        a[0] < b[0]
    } else {
        lex_lt(a.drop_first(), b.drop_first())
    }
}

/// The key `a` comes before the key `b`.
#[verifier::opaque]
pub open spec fn key_lt(a: Seq<char>, b: Seq<char>) -> bool {
    lex_lt(encode_utf8(a), encode_utf8(b))
}

/// The key `a` comes before the key `b`, or they are the same key.
pub open spec fn key_le(a: Seq<char>, b: Seq<char>) -> bool {
    key_lt(a, b) || a == b
}

proof fn lemma_lex_lt_transitive(a: Seq<u8>, b: Seq<u8>, c: Seq<u8>)
    requires
        lex_lt(a, b),
        lex_lt(b, c),
    ensures
        lex_lt(a, c),
    decreases a.len(),
{
    if a.len() > 0 && a[0] == b[0] && b[0] == c[0] {
        lemma_lex_lt_transitive(a.drop_first(), b.drop_first(), c.drop_first());
    }
}

proof fn lemma_lex_lt_irreflexive(a: Seq<u8>)
    ensures
        !lex_lt(a, a),
    decreases a.len(),
{
    if a.len() > 0 {
        lemma_lex_lt_irreflexive(a.drop_first());
    }
}

proof fn lemma_lex_lt_total(a: Seq<u8>, b: Seq<u8>)
    ensures
        lex_lt(a, b) || lex_lt(b, a) || a == b,
    decreases a.len(),
{
    if a.len() == 0 || b.len() == 0 {
        if a.len() == 0 && b.len() == 0 {
            assert(a =~= b);
        }
    } else if a[0] == b[0] {
        lemma_lex_lt_total(a.drop_first(), b.drop_first());
        if a.drop_first() == b.drop_first() {
            assert(a =~= seq![a[0]] + a.drop_first());
            assert(b =~= seq![b[0]] + b.drop_first());
        }
    }
}

/// What two byte strings begin with in common does not count.
pub proof fn lemma_lex_lt_prefix(p: Seq<u8>, a: Seq<u8>, b: Seq<u8>)
    ensures
        lex_lt(p + a, p + b) == lex_lt(a, b),
    decreases p.len(),
{
    if p.len() == 0 {
        assert(p + a =~= a);
        assert(p + b =~= b);
    } else {
        lemma_lex_lt_prefix(p.drop_first(), a, b);
        assert((p + a).drop_first() =~= p.drop_first() + a);
        assert((p + b).drop_first() =~= p.drop_first() + b);
    }
}

/// What follows two different byte strings of the same length does not count.
pub proof fn lemma_lex_lt_extend(a: Seq<u8>, b: Seq<u8>, x: Seq<u8>, y: Seq<u8>)
    requires
        a.len() == b.len(),
        lex_lt(a, b),
    ensures
        lex_lt(a + x, b + y),
    decreases a.len(),
{
    if a.len() > 0 && a[0] == b[0] {
        lemma_lex_lt_extend(a.drop_first(), b.drop_first(), x, y);
        assert((a + x).drop_first() =~= a.drop_first() + x);
        assert((b + y).drop_first() =~= b.drop_first() + y);
    }
}

/// The order of keys is transitive.
pub broadcast proof fn lemma_key_lt_transitive(a: Seq<char>, b: Seq<char>, c: Seq<char>)
    requires
        #[trigger] key_lt(a, b),
        #[trigger] key_lt(b, c),
    ensures
        key_lt(a, c),
{
    reveal(key_lt);
    lemma_lex_lt_transitive(encode_utf8(a), encode_utf8(b), encode_utf8(c));
}

/// No key comes before itself, and no two keys before each other.
pub broadcast proof fn lemma_key_lt_asymmetric(a: Seq<char>, b: Seq<char>)
    requires
        #[trigger] key_lt(a, b),
    ensures
        a != b,
        !key_lt(b, a),
{
    reveal(key_lt);
    lemma_lex_lt_irreflexive(encode_utf8(a));
    if key_lt(b, a) {
        lemma_lex_lt_transitive(encode_utf8(a), encode_utf8(b), encode_utf8(a));
    }
}

/// Of two different keys one comes before the other.
pub broadcast proof fn lemma_key_lt_total(a: Seq<char>, b: Seq<char>)
    ensures
        #[trigger] key_lt(a, b) || key_lt(b, a) || a == b,
{
    reveal(key_lt);
    lemma_lex_lt_total(encode_utf8(a), encode_utf8(b));
    if encode_utf8(a) == encode_utf8(b) {
        crate::codec::lemma_encode_injective(a, b);
    }
}

pub broadcast group group_key_order {
    lemma_key_lt_transitive,
    lemma_key_lt_asymmetric,
    lemma_key_lt_total,
}

/// Whether the key `a` comes before the key `b`.
pub fn key_less(a: &String, b: &String) -> (r: bool)
    ensures
        r == key_lt(a@, b@),
{
    proof {
        reveal(key_lt);
    }
    let x: &[u8] = bytes_of(a);
    let y: &[u8] = bytes_of(b);
    let n: usize = x.len();
    let m: usize = y.len();
    let mut i: usize = 0;
    assert(x@.skip(0) =~= x@);
    assert(y@.skip(0) =~= y@);
    while i < n && i < m
        invariant
            i <= n == x@.len(),
            i <= m == y@.len(),
            key_lt(a@, b@) == lex_lt(x@.skip(i as int), y@.skip(i as int)),
        decreases n - i,
    {
        assert(x@.skip(i as int)[0] == x@[i as int] && y@.skip(i as int)[0] == y@[i as int]);
        if x[i] != y[i] {
            return x[i] < y[i];
        }
        assert(x@.skip(i as int).drop_first() =~= x@.skip(i + 1));
        assert(y@.skip(i as int).drop_first() =~= y@.skip(i + 1));
        i += 1;
    }
    i < m
}

/// Whether `a` and `b` are the same key.
pub fn key_equal(a: &String, b: &String) -> (r: bool)
    ensures
        r == (a@ == b@),
{
    *a == *b
}

/// Keys are ordered as words in a dictionary, by their bytes. Where two keys have
/// the same bytes up to a position, the one with the smaller byte there comes
/// first, and one that ends there comes before one that goes on.
pub proof fn lemma_dictionary_order(a: Seq<char>, b: Seq<char>, i: int)
    requires
        0 <= i <= encode_utf8(a).len(),
        i <= encode_utf8(b).len(),
        forall|j: int| 0 <= j < i ==> encode_utf8(a)[j] == #[trigger] encode_utf8(b)[j],
    ensures
        ({
            let x = encode_utf8(a);
            let y = encode_utf8(b);
            &&& i < x.len() && i < y.len() && x[i] < y[i] ==> key_lt(a, b) && !key_lt(b, a)
            &&& i == x.len() && i < y.len() ==> key_lt(a, b) && !key_lt(b, a)
            &&& i == x.len() && i == y.len() ==> !key_lt(a, b)
        }),
{
    let x = encode_utf8(a);
    let y = encode_utf8(b);
    assert(x =~= x.take(i) + x.skip(i));
    assert(y =~= x.take(i) + y.skip(i)) by {
        assert forall|j: int| 0 <= j < i implies #[trigger] y[j] == x[j] by {
            assert(x[j] == encode_utf8(b)[j]);
        }
    }
    reveal(key_lt);
    lemma_lex_lt_prefix(x.take(i), x.skip(i), y.skip(i));
    lemma_lex_lt_prefix(x.take(i), y.skip(i), x.skip(i));
}

} // verus!
