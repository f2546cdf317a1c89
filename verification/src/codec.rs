//! Deterministic encoding of (collection prefix, selector) into store keys,
//! plus the byte-level helpers the collections share.
//!
//! A selector is either a logical index of a `List` or a string key of a map.
//! An index is rendered as eight fixed-width big-endian bytes, a string key as
//! an eight-byte length prefix followed by the key's UTF-8 bytes, so that two
//! distinct selectors under one prefix never alias, and keys of collections
//! whose prefixes are free of one another (neither is a byte-prefix of the
//! other) never collide.

use vstd::prelude::*;
use vstd::utf8::*;

verus! {

/// The eight big-endian bytes of a 64-bit integer.
pub open spec fn be8_of(n: u64) -> Seq<u8> {
    seq![
        ((n >> 56) & 0xff) as u8,
        ((n >> 48) & 0xff) as u8,
        ((n >> 40) & 0xff) as u8,
        ((n >> 32) & 0xff) as u8,
        ((n >> 24) & 0xff) as u8,
        ((n >> 16) & 0xff) as u8,
        ((n >> 8) & 0xff) as u8,
        (n & 0xff) as u8,
    ]
}

/// The integer read back from eight big-endian bytes.
pub open spec fn be8_val(b: Seq<u8>) -> u64
    recommends
        b.len() == 8,
{
    ((b[0] as u64) << 56) | ((b[1] as u64) << 48) | ((b[2] as u64) << 40) | ((b[3] as u64) << 32)
        | ((b[4] as u64) << 24) | ((b[5] as u64) << 16) | ((b[6] as u64) << 8) | (b[7] as u64)
}

/// Reading the eight big-endian bytes of `n` gives back `n`.
pub proof fn lemma_be8_roundtrip(n: u64)
    ensures
        be8_val(be8_of(n)) == n,
        be8_of(n).len() == 8,
{
    assert((((((n >> 56) & 0xff) as u8) as u64) << 56) | (((((n >> 48) & 0xff) as u8) as u64)
        << 48) | (((((n >> 40) & 0xff) as u8) as u64) << 40) | (((((n >> 32) & 0xff) as u8) as u64)
        << 32) | (((((n >> 24) & 0xff) as u8) as u64) << 24) | (((((n >> 16) & 0xff) as u8) as u64)
        << 16) | (((((n >> 8) & 0xff) as u8) as u64) << 8) | (((n & 0xff) as u8) as u64) == n)
        by (bit_vector);
}

/// Re-encoding the integer read from eight bytes gives back the same bytes.
pub proof fn lemma_be8_of_val(b: Seq<u8>)
    requires
        b.len() == 8,
    ensures
        be8_of(be8_val(b)) == b,
{
    let b0 = b[0];
    let b1 = b[1];
    let b2 = b[2];
    let b3 = b[3];
    let b4 = b[4];
    let b5 = b[5];
    let b6 = b[6];
    let b7 = b[7];
    let n = be8_val(b);
    assert(n == ((b0 as u64) << 56) | ((b1 as u64) << 48) | ((b2 as u64) << 40) | ((b3 as u64)
        << 32) | ((b4 as u64) << 24) | ((b5 as u64) << 16) | ((b6 as u64) << 8) | (b7 as u64));
    assert({
        let m = ((b0 as u64) << 56) | ((b1 as u64) << 48) | ((b2 as u64) << 40) | ((b3 as u64)
            << 32) | ((b4 as u64) << 24) | ((b5 as u64) << 16) | ((b6 as u64) << 8) | (b7 as u64);
        ((m >> 56) & 0xff) as u8 == b0 && ((m >> 48) & 0xff) as u8 == b1 && ((m >> 40) & 0xff) as u8
            == b2 && ((m >> 32) & 0xff) as u8 == b3 && ((m >> 24) & 0xff) as u8 == b4 && ((m >> 16)
            & 0xff) as u8 == b5 && ((m >> 8) & 0xff) as u8 == b6 && (m & 0xff) as u8 == b7
    }) by (bit_vector);
    assert(be8_of(n) =~= b);
}

/// The fixed-width rendering is injective.
pub proof fn lemma_be8_injective(a: u64, b: u64)
    requires
        be8_of(a) == be8_of(b),
    ensures
        a == b,
{
    lemma_be8_roundtrip(a);
    lemma_be8_roundtrip(b);
}

/// `p` stands at the front of `k`.
pub open spec fn is_prefix_of(p: Seq<u8>, k: Seq<u8>) -> bool {
    p.len() <= k.len() && k.subrange(0, p.len() as int) == p
}

/// The store key of element `i` of the list persisted under `prefix`.
pub open spec fn index_key(prefix: Seq<u8>, i: u64) -> Seq<u8> {
    prefix + be8_of(i)
}

/// The store key of map entry `k` under `prefix`; also the prefix derived for
/// the nested list that key `k` owns.
pub open spec fn str_key(prefix: Seq<u8>, k: Seq<char>) -> Seq<u8> {
    prefix + be8_of(encode_utf8(k).len() as u64) + encode_utf8(k)
}

/// The key's UTF-8 rendering fits the fixed-width length prefix.
pub open spec fn small_key(k: Seq<char>) -> bool {
    encode_utf8(k).len() <= u64::MAX
}

/// Splitting a concatenation at matching lengths splits its parts.
pub proof fn lemma_concat_parts(a: Seq<u8>, b: Seq<u8>, c: Seq<u8>, d: Seq<u8>)
    requires
        a.len() == c.len(),
        a + b == c + d,
    ensures
        a == c,
        b == d,
{
    assert forall|i: int| 0 <= i < a.len() implies a[i] == c[i] by {
        assert((a + b)[i] == a[i]);
        assert((c + d)[i] == c[i]);
    }
    assert(a =~= c);
    assert((a + b).len() == a.len() + b.len());
    assert((c + d).len() == c.len() + d.len());
    assert(b.len() == d.len());
    assert forall|i: int| 0 <= i < b.len() implies b[i] == d[i] by {
        assert((a + b)[a.len() + i] == b[i]);
        assert((c + d)[c.len() + i] == d[i]);
    }
    assert(b =~= d);
}

/// Two distinct indices under one prefix never share a store key.
pub proof fn lemma_index_key_injective(prefix: Seq<u8>, i: u64, j: u64)
    requires
        index_key(prefix, i) == index_key(prefix, j),
    ensures
        i == j,
{
    lemma_be8_roundtrip(i);
    lemma_be8_roundtrip(j);
    lemma_concat_parts(prefix, be8_of(i), prefix, be8_of(j));
    lemma_be8_injective(i, j);
}

/// Two distinct string keys under one prefix never share a store key.
pub proof fn lemma_str_key_injective(prefix: Seq<u8>, k1: Seq<char>, k2: Seq<char>)
    requires
        str_key(prefix, k1) == str_key(prefix, k2),
        encode_utf8(k2).len() <= u64::MAX,
    ensures
        k1 == k2,
{
    let u1 = encode_utf8(k1);
    let u2 = encode_utf8(k2);
    assert(str_key(prefix, k1).len() == prefix.len() + 8 + u1.len());
    assert(str_key(prefix, k2).len() == prefix.len() + 8 + u2.len());
    assert(u1.len() == u2.len());
    lemma_be8_roundtrip(u1.len() as u64);
    lemma_be8_roundtrip(u2.len() as u64);
    assert(prefix + be8_of(u1.len() as u64) + u1 == (prefix + be8_of(u1.len() as u64)) + u1);
    assert(prefix + be8_of(u2.len() as u64) + u2 == (prefix + be8_of(u2.len() as u64)) + u2);
    lemma_concat_parts(prefix + be8_of(u1.len() as u64), u1, prefix + be8_of(u2.len() as u64), u2);
    lemma_concat_parts(prefix, be8_of(u1.len() as u64), prefix, be8_of(u2.len() as u64));
    lemma_be8_injective(u1.len() as u64, u2.len() as u64);
    broadcast use encode_utf8_decode_utf8;

    assert(decode_utf8(u1) == k1);
    assert(decode_utf8(u2) == k2);
}

/// A collection's own prefix (its metadata key) is never an element key.
pub proof fn lemma_meta_key_distinct(prefix: Seq<u8>, i: u64, k: Seq<char>)
    ensures
        prefix != index_key(prefix, i),
        prefix != str_key(prefix, k),
{
    lemma_be8_roundtrip(i);
    assert(index_key(prefix, i).len() == prefix.len() + 8);
    assert(str_key(prefix, k).len() >= prefix.len() + 8);
}

/// A map entry key and an element key of a nested list never coincide, even
/// when the nested list belongs to the same or another key of the same map.
pub proof fn lemma_str_key_not_child_index(prefix: Seq<u8>, k1: Seq<char>, k2: Seq<char>, i: u64)
    requires
        encode_utf8(k1).len() <= u64::MAX,
        encode_utf8(k2).len() <= u64::MAX,
    ensures
        str_key(prefix, k1) != index_key(str_key(prefix, k2), i),
{
    let u1 = encode_utf8(k1);
    let u2 = encode_utf8(k2);
    lemma_be8_roundtrip(u1.len() as u64);
    lemma_be8_roundtrip(u2.len() as u64);
    lemma_be8_roundtrip(i);
    if str_key(prefix, k1) == index_key(str_key(prefix, k2), i) {
        assert(str_key(prefix, k1).len() == prefix.len() + 8 + u1.len());
        assert(index_key(str_key(prefix, k2), i).len() == prefix.len() + 8 + u2.len() + 8);
        assert(u1.len() == u2.len() + 8);
        assert(str_key(prefix, k1) == (prefix + be8_of(u1.len() as u64)) + u1);
        assert(index_key(str_key(prefix, k2), i) == (prefix + be8_of(u2.len() as u64)) + (u2
            + be8_of(i)));
        lemma_concat_parts(
            prefix + be8_of(u1.len() as u64),
            u1,
            prefix + be8_of(u2.len() as u64),
            u2 + be8_of(i),
        );
        lemma_concat_parts(prefix, be8_of(u1.len() as u64), prefix, be8_of(u2.len() as u64));
        lemma_be8_injective(u1.len() as u64, u2.len() as u64);
        assert((u2.len() + 8) as u64 == u2.len() as u64);
        assert(false);
    }
}

/// Element keys of the nested lists of one map: equal only at equal map key
/// and equal index.
pub proof fn lemma_child_index_injective(
    prefix: Seq<u8>,
    k1: Seq<char>,
    i1: u64,
    k2: Seq<char>,
    i2: u64,
)
    requires
        index_key(str_key(prefix, k1), i1) == index_key(str_key(prefix, k2), i2),
        encode_utf8(k2).len() <= u64::MAX,
    ensures
        k1 == k2,
        i1 == i2,
{
    let u1 = encode_utf8(k1);
    let u2 = encode_utf8(k2);
    lemma_be8_roundtrip(u1.len() as u64);
    lemma_be8_roundtrip(u2.len() as u64);
    lemma_be8_roundtrip(i1);
    lemma_be8_roundtrip(i2);
    assert(index_key(str_key(prefix, k1), i1).len() == prefix.len() + 8 + u1.len() + 8);
    assert(index_key(str_key(prefix, k2), i2).len() == prefix.len() + 8 + u2.len() + 8);
    assert(u1.len() == u2.len());
    assert(index_key(str_key(prefix, k1), i1) == (prefix + be8_of(u1.len() as u64)) + (u1 + be8_of(
        i1,
    )));
    assert(index_key(str_key(prefix, k2), i2) == (prefix + be8_of(u2.len() as u64)) + (u2 + be8_of(
        i2,
    )));
    lemma_concat_parts(
        prefix + be8_of(u1.len() as u64),
        u1 + be8_of(i1),
        prefix + be8_of(u2.len() as u64),
        u2 + be8_of(i2),
    );
    lemma_concat_parts(u1, be8_of(i1), u2, be8_of(i2));
    lemma_be8_injective(i1, i2);
    broadcast use encode_utf8_decode_utf8;

    assert(decode_utf8(u1) == k1);
    assert(decode_utf8(u2) == k2);
}

/// Every key a collection writes stands under its prefix.
pub proof fn lemma_keys_under_prefix(prefix: Seq<u8>, i: u64, k: Seq<char>)
    ensures
        is_prefix_of(prefix, index_key(prefix, i)),
        is_prefix_of(prefix, str_key(prefix, k)),
        is_prefix_of(prefix, prefix),
{
    lemma_be8_roundtrip(i);
    assert(index_key(prefix, i).subrange(0, prefix.len() as int) =~= prefix);
    assert(str_key(prefix, k).subrange(0, prefix.len() as int) =~= prefix);
    assert(prefix.subrange(0, prefix.len() as int) =~= prefix);
}

/// Standing under a prefix carries through a derived prefix.
pub proof fn lemma_prefix_transitive(a: Seq<u8>, b: Seq<u8>, c: Seq<u8>)
    requires
        is_prefix_of(a, b),
        is_prefix_of(b, c),
    ensures
        is_prefix_of(a, c),
{
    assert(c.subrange(0, a.len() as int) =~= b.subrange(0, a.len() as int));
    assert(b.subrange(0, a.len() as int) =~= a);
}

/// A key under one of two prefix-free prefixes is not under the other.
pub proof fn lemma_under_disjoint(p: Seq<u8>, q: Seq<u8>, k: Seq<u8>)
    requires
        !is_prefix_of(p, q),
        !is_prefix_of(q, p),
        is_prefix_of(p, k),
    ensures
        !is_prefix_of(q, k),
{
    if is_prefix_of(q, k) {
        if p.len() <= q.len() {
            assert forall|i: int| 0 <= i < p.len() implies p[i] == q[i] by {
                assert(k.subrange(0, p.len() as int)[i] == k[i]);
                assert(k.subrange(0, q.len() as int)[i] == k[i]);
                assert(p[i] == k.subrange(0, p.len() as int)[i]);
                assert(q[i] == k.subrange(0, q.len() as int)[i]);
            }
            assert(q.subrange(0, p.len() as int) =~= p);
            assert(is_prefix_of(p, q));
        } else {
            assert forall|i: int| 0 <= i < q.len() implies p[i] == q[i] by {
                assert(k.subrange(0, p.len() as int)[i] == k[i]);
                assert(k.subrange(0, q.len() as int)[i] == k[i]);
                assert(p[i] == k.subrange(0, p.len() as int)[i]);
                assert(q[i] == k.subrange(0, q.len() as int)[i]);
            }
            assert(p.subrange(0, q.len() as int) =~= q);
            assert(is_prefix_of(q, p));
        }
    }
}

/// Keys under prefixes that are free of one another never collide.
pub proof fn lemma_prefix_free_disjoint(p1: Seq<u8>, p2: Seq<u8>, k1: Seq<u8>, k2: Seq<u8>)
    requires
        !is_prefix_of(p1, p2),
        !is_prefix_of(p2, p1),
        is_prefix_of(p1, k1),
        is_prefix_of(p2, k2),
    ensures
        k1 != k2,
{
    if k1 == k2 {
        if p1.len() <= p2.len() {
            assert(p2.subrange(0, p1.len() as int) =~= k2.subrange(0, p2.len() as int).subrange(
                0,
                p1.len() as int,
            ));
            assert(k2.subrange(0, p2.len() as int).subrange(0, p1.len() as int) =~= k2.subrange(
                0,
                p1.len() as int,
            ));
            assert(k1.subrange(0, p1.len() as int) == p1);
            assert(is_prefix_of(p1, p2));
        } else {
            assert(p1.subrange(0, p2.len() as int) =~= k1.subrange(0, p1.len() as int).subrange(
                0,
                p2.len() as int,
            ));
            assert(k1.subrange(0, p1.len() as int).subrange(0, p2.len() as int) =~= k1.subrange(
                0,
                p2.len() as int,
            ));
            assert(k2.subrange(0, p2.len() as int) == p2);
            assert(is_prefix_of(p2, p1));
        }
    }
}

/// An owned copy of a byte vector.
pub fn clone_bytes(src: &Vec<u8>) -> (r: Vec<u8>)
    ensures
        r@ == src@,
{
    let r = src.clone();
    proof {
        assert(r@ =~= src@);
    }
    r
}

/// Byte-for-byte equality of two byte vectors.
pub fn bytes_eq(a: &Vec<u8>, b: &Vec<u8>) -> (r: bool)
    ensures
        r == (a@ == b@),
{
    if a.len() != b.len() {
        proof {
            assert(a@ != b@);
        }
        return false;
    }
    let mut i: usize = 0;
    while i < a.len()
        invariant
            i <= a@.len(),
            a@.len() == b@.len(),
            forall|j: int| 0 <= j < i ==> a@[j] == b@[j],
        decreases a@.len() - i,
    {
        if a[i] != b[i] {
            return false;
        }
        i += 1;
    }
    proof {
        assert(a@ =~= b@);
    }
    true
}

/// The eight big-endian bytes of `n`, as a vector.
pub fn be8(n: u64) -> (r: Vec<u8>)
    ensures
        r@ == be8_of(n),
{
    let mut r: Vec<u8> = Vec::new();
    r.push(((n >> 56) & 0xff) as u8);
    r.push(((n >> 48) & 0xff) as u8);
    r.push(((n >> 40) & 0xff) as u8);
    r.push(((n >> 32) & 0xff) as u8);
    r.push(((n >> 24) & 0xff) as u8);
    r.push(((n >> 16) & 0xff) as u8);
    r.push(((n >> 8) & 0xff) as u8);
    r.push((n & 0xff) as u8);
    proof {
        assert(r@ =~= be8_of(n));
    }
    r
}

/// Reads an integer out of exactly eight big-endian bytes.
pub fn parse_be8(b: &Vec<u8>) -> (r: Option<u64>)
    ensures
        b@.len() == 8 ==> r == Some(be8_val(b@)),
        b@.len() != 8 ==> r is None,
{
    if b.len() != 8 {
        return None;
    }
    let v: u64 = ((b[0] as u64) << 56) | ((b[1] as u64) << 48) | ((b[2] as u64) << 40) | ((b[3]
        as u64) << 32) | ((b[4] as u64) << 24) | ((b[5] as u64) << 16) | ((b[6] as u64) << 8) | (
    b[7] as u64);
    Some(v)
}

/// The UTF-8 bytes of a string.
pub fn str_to_bytes(s: &str) -> (r: Vec<u8>)
    ensures
        r@ == encode_utf8(s@),
{
    vstd::slice::slice_to_vec(s.as_bytes())
}

/// The error type of String::from_utf8, declared so that the result of the
/// call can be matched; nothing is assumed of its contents.
#[verifier::external_type_specification]
#[verifier::external_body]
pub struct ExFromUtf8Error(std::string::FromUtf8Error);

/// Relies on String::from_utf8: it succeeds exactly on valid UTF-8 input and
/// returns the string those bytes encode.
pub assume_specification[ String::from_utf8 ](v: Vec<u8>) -> (r: Result<
    String,
    std::string::FromUtf8Error,
>)
    ensures
        valid_utf8(v@) <==> r is Ok,
        r matches Ok(s) ==> s@ == decode_utf8(v@),
;

/// Relies on String::push: it appends the one character to the string.
pub assume_specification[ String::push ](s: &mut String, c: char)
    ensures
        final(s)@ == old(s)@.push(c),
;

/// Decodes UTF-8 bytes back into a string; `None` on invalid bytes.
pub fn bytes_to_string(b: &Vec<u8>) -> (r: Option<String>)
    ensures
        valid_utf8(b@) ==> (r matches Some(s) && s@ == decode_utf8(b@)),
        !valid_utf8(b@) ==> r is None,
{
    match String::from_utf8(clone_bytes(b)) {
        Ok(s) => Some(s),
        Err(_) => None,
    }
}

/// The store key of element `i` under `prefix`, as a vector.
pub fn make_index_key(prefix: &Vec<u8>, i: u64) -> (r: Vec<u8>)
    ensures
        r@ == index_key(prefix@, i),
{
    let mut r = clone_bytes(prefix);
    let mut tail = be8(i);
    r.append(&mut tail);
    r
}

/// The store key of map entry `k` under `prefix`, as a vector; also the
/// derived prefix of the nested list that `k` owns.
pub fn make_str_key(prefix: &Vec<u8>, k: &str) -> (r: Vec<u8>)
    ensures
        r@ == str_key(prefix@, k@),
        encode_utf8(k@).len() <= usize::MAX,
        small_key(k@),
{
    let kb = k.as_bytes();
    let mut tail = vstd::slice::slice_to_vec(kb);
    let mut r = clone_bytes(prefix);
    let mut lenb = be8(tail.len() as u64);
    r.append(&mut lenb);
    r.append(&mut tail);
    proof {
        assert(r@ =~= str_key(prefix@, k@));
    }
    r
}

} // verus!
