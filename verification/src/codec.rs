//! Encoding of typed values into prefix-safe store keys.
//!
//! Fixed-width big-endian integers preserve numeric order under lexicographic
//! byte comparison, and every variable-length part of a composite key carries
//! a two-byte length prefix, so that no encoded key is a strict byte-prefix
//! of a different logical key.

use vstd::prelude::*;
use crate::order::{lex_lt, is_prefix, lemma_lex_from_first_difference, lemma_lex_trichotomy,
    lemma_lex_asymmetric, lemma_lex_prepend};

verus! {

/// Largest byte length a length-prefixed key part can carry.
pub const MAX_PART_LEN: usize = 0xFFFF;

/// Two-byte big-endian encoding of a 16-bit length.
pub open spec fn u16_be(n: u16) -> Seq<u8> {
    seq![(n / 256) as u8, (n % 256) as u8]
}

/// The length a two-byte big-endian prefix denotes.
pub open spec fn be16_len(s: Seq<u8>) -> int
    recommends
        s.len() >= 2,
{
    (s[0] as int) * 256 + (s[1] as int)
}

/// Reading back a two-byte big-endian length returns the encoded number.
pub proof fn lemma_u16_be_inverse(n: u16)
    ensures
        be16_len(u16_be(n)) == n,
        u16_be(n).len() == 2,
{
    assert((n / 256) * 256 + n % 256 == n) by (nonlinear_arith);
}

/// Eight-byte big-endian encoding of a 64-bit integer.
pub open spec fn u64_be(x: u64) -> Seq<u8> {
    seq![
        ((x >> 56u64) & 0xFF) as u8,
        ((x >> 48u64) & 0xFF) as u8,
        ((x >> 40u64) & 0xFF) as u8,
        ((x >> 32u64) & 0xFF) as u8,
        ((x >> 24u64) & 0xFF) as u8,
        ((x >> 16u64) & 0xFF) as u8,
        ((x >> 8u64) & 0xFF) as u8,
        (x & 0xFF) as u8,
    ]
}

/// The number an eight-byte big-endian sequence denotes.
pub open spec fn be64_val(s: Seq<u8>) -> u64
    recommends
        s.len() == 8,
{
    ((s[0] as u64) << 56u64) | ((s[1] as u64) << 48u64) | ((s[2] as u64) << 40u64) | ((
    s[3] as u64) << 32u64) | ((s[4] as u64) << 24u64) | ((s[5] as u64) << 16u64) | ((s[6] as u64)
        << 8u64) | (s[7] as u64)
}

/// Reading back an eight-byte big-endian encoding returns the encoded number.
pub proof fn lemma_u64_be_inverse(x: u64)
    ensures
        be64_val(u64_be(x)) == x,
{
    assert(((((x >> 56u64) & 0xFF) as u8 as u64) << 56u64) | ((((x >> 48u64) & 0xFF) as u8 as u64)
        << 48u64) | ((((x >> 40u64) & 0xFF) as u8 as u64) << 40u64) | ((((x >> 32u64)
        & 0xFF) as u8 as u64) << 32u64) | ((((x >> 24u64) & 0xFF) as u8 as u64) << 24u64) | ((((x
        >> 16u64) & 0xFF) as u8 as u64) << 16u64) | ((((x >> 8u64) & 0xFF) as u8 as u64) << 8u64)
        | (((x & 0xFF) as u8 as u64)) == x) by (bit_vector);
}

/// Two numbers with the same big-endian encoding are equal.
pub proof fn lemma_u64_be_injective(x: u64, y: u64)
    requires
        u64_be(x) == u64_be(y),
    ensures
        x == y,
{
    lemma_u64_be_inverse(x);
    lemma_u64_be_inverse(y);
}

/// Every eight-byte sequence is the big-endian encoding of the number it
/// denotes.
pub proof fn lemma_be64_val_inverse(s: Seq<u8>)
    requires
        s.len() == 8,
    ensures
        u64_be(be64_val(s)) == s,
{
    let b0 = s[0];
    let b1 = s[1];
    let b2 = s[2];
    let b3 = s[3];
    let b4 = s[4];
    let b5 = s[5];
    let b6 = s[6];
    let b7 = s[7];
    let v = be64_val(s);
    assert((((v >> 56u64) & 0xFF) as u8 == b0) && (((v >> 48u64) & 0xFF) as u8 == b1) && (((v
        >> 40u64) & 0xFF) as u8 == b2) && (((v >> 32u64) & 0xFF) as u8 == b3) && (((v >> 24u64)
        & 0xFF) as u8 == b4) && (((v >> 16u64) & 0xFF) as u8 == b5) && (((v >> 8u64) & 0xFF) as u8
        == b6) && ((v & 0xFF) as u8 == b7)) by (bit_vector)
        requires
            v == ((b0 as u64) << 56u64) | ((b1 as u64) << 48u64) | ((b2 as u64) << 40u64) | ((
            b3 as u64) << 32u64) | ((b4 as u64) << 24u64) | ((b5 as u64) << 16u64) | ((b6 as u64)
                << 8u64) | (b7 as u64),
    ;
    assert(u64_be(v) =~= s);
}

/// Big-endian encoding preserves numeric order under lexicographic
/// comparison.
pub proof fn lemma_u64_be_order(x: u64, y: u64)
    requires
        x < y,
    ensures
        lex_lt(u64_be(x), u64_be(y)),
{
    let a = u64_be(x);
    let b = u64_be(y);
    assert((((((x >> 56u64) & 0xFF) as u8)) < ((((y >> 56u64) & 0xFF) as u8))) || (((((x >> 56u64) & 0xFF) as u8)) == ((((y >> 56u64) & 0xFF) as u8)) && ((((((x >> 48u64) & 0xFF) as u8)) < ((((y >> 48u64) & 0xFF) as u8))) || (((((x >> 48u64) & 0xFF) as u8)) == ((((y >> 48u64) & 0xFF) as u8)) && ((((((x >> 40u64) & 0xFF) as u8)) < ((((y >> 40u64) & 0xFF) as u8))) || (((((x >> 40u64) & 0xFF) as u8)) == ((((y >> 40u64) & 0xFF) as u8)) && ((((((x >> 32u64) & 0xFF) as u8)) < ((((y >> 32u64) & 0xFF) as u8))) || (((((x >> 32u64) & 0xFF) as u8)) == ((((y >> 32u64) & 0xFF) as u8)) && ((((((x >> 24u64) & 0xFF) as u8)) < ((((y >> 24u64) & 0xFF) as u8))) || (((((x >> 24u64) & 0xFF) as u8)) == ((((y >> 24u64) & 0xFF) as u8)) && ((((((x >> 16u64) & 0xFF) as u8)) < ((((y >> 16u64) & 0xFF) as u8))) || (((((x >> 16u64) & 0xFF) as u8)) == ((((y >> 16u64) & 0xFF) as u8)) && ((((((x >> 8u64) & 0xFF) as u8)) < ((((y >> 8u64) & 0xFF) as u8))) || (((((x >> 8u64) & 0xFF) as u8)) == ((((y >> 8u64) & 0xFF) as u8)) && ((((x & 0xFF) as u8)) < (((y & 0xFF) as u8))))))))))))))))) by (bit_vector)
        requires
            x < y,
    ;
    let j: int = if a[0] != b[0] {
        0
    } else if a[1] != b[1] {
        1
    } else if a[2] != b[2] {
        2
    } else if a[3] != b[3] {
        3
    } else if a[4] != b[4] {
        4
    } else if a[5] != b[5] {
        5
    } else if a[6] != b[6] {
        6
    } else {
        7
    };
    assert(forall|k: int| 0 <= k < j ==> a[k] == b[k]);
    assert(a[j] < b[j]);
    lemma_lex_from_first_difference(a, b, j);
}

/// Numeric order and lexicographic order of big-endian encodings agree.
pub proof fn lemma_u64_be_order_iff(x: u64, y: u64)
    ensures
        lex_lt(u64_be(x), u64_be(y)) == (x < y),
{
    if x < y {
        lemma_u64_be_order(x, y);
    } else if y < x {
        lemma_u64_be_order(y, x);
        lemma_lex_asymmetric(u64_be(y), u64_be(x));
    } else {
        lemma_lex_trichotomy(u64_be(x), u64_be(x));
        if lex_lt(u64_be(x), u64_be(x)) {
            lemma_lex_asymmetric(u64_be(x), u64_be(x));
        }
    }
}

/// Every two-byte sequence is the big-endian encoding of the length it
/// denotes.
pub proof fn lemma_be16_len_inverse(s: Seq<u8>)
    requires
        s.len() == 2,
    ensures
        0 <= be16_len(s) <= MAX_PART_LEN,
        u16_be(be16_len(s) as u16) == s,
{
    let a = s[0] as int;
    let b = s[1] as int;
    let v = be16_len(s);
    assert((a * 256 + b) / 256 == a && (a * 256 + b) % 256 == b) by (nonlinear_arith)
        requires
            0 <= a < 256,
            0 <= b < 256,
    ;
    assert(u16_be(v as u16) =~= s);
}

/// A byte part prefixed with its own two-byte big-endian length.
pub open spec fn length_prefixed(a: Seq<u8>) -> Seq<u8>
    recommends
        a.len() <= MAX_PART_LEN,
{
    u16_be(a.len() as u16) + a
}

/// The key of one secondary-index entry: the encoded attribute value, then
/// the encoded primary key, each length-prefixed.
pub open spec fn entry_key(attr: Seq<u8>, pk: Seq<u8>) -> Seq<u8> {
    length_prefixed(attr) + length_prefixed(pk)
}

/// A length-prefixed part is a prefix of an index-entry key exactly when the
/// entry was made for that attribute value: composition is prefix-safe.
pub proof fn lemma_entry_key_prefix(attr: Seq<u8>, attr2: Seq<u8>, pk2: Seq<u8>)
    requires
        attr.len() <= MAX_PART_LEN,
        attr2.len() <= MAX_PART_LEN,
        pk2.len() <= MAX_PART_LEN,
    ensures
        is_prefix(length_prefixed(attr), entry_key(attr2, pk2)) == (attr == attr2),
{
    let lp = length_prefixed(attr);
    let k = entry_key(attr2, pk2);
    lemma_u16_be_inverse(attr.len() as u16);
    lemma_u16_be_inverse(attr2.len() as u16);
    if attr == attr2 {
        assert(k.subrange(0, lp.len() as int) =~= lp);
    }
    if is_prefix(lp, k) && attr != attr2 {
        assert(k[0] == lp[0] && k[1] == lp[1]);
        assert(be16_len(lp) == attr.len());
        assert(be16_len(k) == attr2.len());
        assert(attr.len() == attr2.len());
        assert forall|i: int| 0 <= i < attr.len() implies attr[i] == attr2[i] by {
            assert(lp[2 + i] == attr[i]);
            assert(k[2 + i] == attr2[i]);
        }
        assert(attr =~= attr2);
    }
}

/// Index-entry keys are injective in the pair of their parts.
pub proof fn lemma_entry_key_injective(a1: Seq<u8>, p1: Seq<u8>, a2: Seq<u8>, p2: Seq<u8>)
    requires
        a1.len() <= MAX_PART_LEN,
        p1.len() <= MAX_PART_LEN,
        a2.len() <= MAX_PART_LEN,
        p2.len() <= MAX_PART_LEN,
        entry_key(a1, p1) == entry_key(a2, p2),
    ensures
        a1 == a2,
        p1 == p2,
{
    lemma_entry_key_parse(a1, p1);
    lemma_entry_key_parse(a2, p2);
}

/// Whether a byte sequence is a well-formed index-entry key: two
/// length-prefixed parts filling it exactly.
pub open spec fn entry_key_wf(k: Seq<u8>) -> bool {
    &&& k.len() >= 4
    &&& k.len() >= 4 + be16_len(k.subrange(0, 2))
    &&& k.len() == 4 + be16_len(k.subrange(0, 2)) + be16_len(
        k.subrange(
            2 + be16_len(k.subrange(0, 2)),
            4 + be16_len(k.subrange(0, 2)),
        ),
    )
}

/// The attribute-value part of a well-formed index-entry key.
pub open spec fn entry_key_attr(k: Seq<u8>) -> Seq<u8>
    recommends
        entry_key_wf(k),
{
    k.subrange(2, 2 + be16_len(k.subrange(0, 2)))
}

/// The primary-key part of a well-formed index-entry key.
pub open spec fn entry_key_pk(k: Seq<u8>) -> Seq<u8>
    recommends
        entry_key_wf(k),
{
    k.subrange(4 + be16_len(k.subrange(0, 2)), k.len() as int)
}

/// Composed index-entry keys are well formed and parse back into the parts
/// they were composed from.
pub proof fn lemma_entry_key_parse(attr: Seq<u8>, pk: Seq<u8>)
    requires
        attr.len() <= MAX_PART_LEN,
        pk.len() <= MAX_PART_LEN,
    ensures
        entry_key_wf(entry_key(attr, pk)),
        entry_key_attr(entry_key(attr, pk)) == attr,
        entry_key_pk(entry_key(attr, pk)) == pk,
{
    let k = entry_key(attr, pk);
    lemma_u16_be_inverse(attr.len() as u16);
    lemma_u16_be_inverse(pk.len() as u16);
    assert(k.subrange(0, 2) =~= u16_be(attr.len() as u16));
    assert(be16_len(k.subrange(0, 2)) == attr.len());
    assert(k.subrange(2 + attr.len() as int, 4 + attr.len() as int) =~= u16_be(pk.len() as u16));
    assert(be16_len(k.subrange(2 + attr.len() as int, 4 + attr.len() as int)) == pk.len());
    assert(k.subrange(2, 2 + attr.len() as int) =~= attr);
    assert(k.subrange(4 + attr.len() as int, k.len() as int) =~= pk);
}

/// A well-formed index-entry key is the composition of its parts.
pub proof fn lemma_entry_key_reconstruct(k: Seq<u8>)
    requires
        entry_key_wf(k),
    ensures
        entry_key_attr(k).len() <= MAX_PART_LEN,
        entry_key_pk(k).len() <= MAX_PART_LEN,
        entry_key(entry_key_attr(k), entry_key_pk(k)) == k,
{
    let alen = be16_len(k.subrange(0, 2));
    let attr = entry_key_attr(k);
    let pk = entry_key_pk(k);
    lemma_be16_len_inverse(k.subrange(0, 2));
    lemma_be16_len_inverse(k.subrange(2 + alen, 4 + alen));
    assert(attr.len() == alen);
    assert(pk.len() == be16_len(k.subrange(2 + alen, 4 + alen)));
    assert(u16_be(attr.len() as u16) == k.subrange(0, 2));
    assert(u16_be(pk.len() as u16) == k.subrange(2 + alen, 4 + alen));
    assert(entry_key(attr, pk) =~= k);
}

/// Any well-formed index-entry key that a length-prefixed attribute value
/// begins was composed for that attribute value.
pub proof fn lemma_entry_key_prefix_attr(attr: Seq<u8>, k: Seq<u8>)
    requires
        attr.len() <= MAX_PART_LEN,
        entry_key_wf(k),
        is_prefix(length_prefixed(attr), k),
    ensures
        entry_key_attr(k) == attr,
{
    lemma_u16_be_inverse(attr.len() as u16);
    let lp = length_prefixed(attr);
    assert(lp.len() == 2 + attr.len());
    assert forall|i: int| 0 <= i < lp.len() implies k[i] == #[trigger] lp[i] by {
        assert(k.subrange(0, lp.len() as int)[i] == lp[i]);
    }
    assert(k.subrange(0, 2) =~= u16_be(attr.len() as u16));
    assert(be16_len(k.subrange(0, 2)) == attr.len());
    assert forall|i: int| 0 <= i < attr.len() implies entry_key_attr(k)[i] == attr[i] by {
        assert(k[2 + i] == lp[2 + i]);
        assert(lp[2 + i] == attr[i]);
    }
    assert(entry_key_attr(k) =~= attr);
}

/// Length-prefixed eight-byte primary keys are ordered as the numbers they
/// encode.
pub proof fn lemma_lp_u64_order(id1: u64, id2: u64)
    ensures
        lex_lt(length_prefixed(u64_be(id1)), length_prefixed(u64_be(id2))) == (id1 < id2),
{
    lemma_lex_prepend(u16_be(8u16), u64_be(id1), u64_be(id2));
    lemma_u64_be_order_iff(id1, id2);
    assert(length_prefixed(u64_be(id1)) =~= u16_be(8u16) + u64_be(id1));
    assert(length_prefixed(u64_be(id2)) =~= u16_be(8u16) + u64_be(id2));
}

/// Encode a 64-bit integer as eight big-endian bytes.
pub fn u64_to_be(x: u64) -> (r: Vec<u8>)
    ensures
        r@ == u64_be(x),
{
    proof {
        assert(((x >> 56u64) & 0xFF) < 256 && ((x >> 48u64) & 0xFF) < 256 && ((x >> 40u64) & 0xFF)
            < 256 && ((x >> 32u64) & 0xFF) < 256 && ((x >> 24u64) & 0xFF) < 256 && ((x >> 16u64)
            & 0xFF) < 256 && ((x >> 8u64) & 0xFF) < 256 && (x & 0xFF) < 256) by (bit_vector);
    }
    let mut r: Vec<u8> = Vec::new();
    r.push(((x >> 56u64) & 0xFF) as u8);
    r.push(((x >> 48u64) & 0xFF) as u8);
    r.push(((x >> 40u64) & 0xFF) as u8);
    r.push(((x >> 32u64) & 0xFF) as u8);
    r.push(((x >> 24u64) & 0xFF) as u8);
    r.push(((x >> 16u64) & 0xFF) as u8);
    r.push(((x >> 8u64) & 0xFF) as u8);
    r.push((x & 0xFF) as u8);
    proof {
        assert(r@ =~= u64_be(x));
    }
    r
}

/// Read back a 64-bit integer from its eight big-endian bytes.
pub fn u64_from_be(s: &[u8]) -> (r: u64)
    requires
        s@.len() == 8,
    ensures
        r == be64_val(s@),
        u64_be(r) == s@,
{
    let r = ((s[0] as u64) << 56u64) | ((s[1] as u64) << 48u64) | ((s[2] as u64) << 40u64) | ((
    s[3] as u64) << 32u64) | ((s[4] as u64) << 24u64) | ((s[5] as u64) << 16u64) | ((s[6] as u64)
        << 8u64) | (s[7] as u64);
    proof {
        lemma_be64_val_inverse(s@);
    }
    r
}

/// Prefix a key part with its two-byte big-endian length.
pub fn prefix_with_length(a: &[u8]) -> (r: Vec<u8>)
    requires
        a@.len() <= MAX_PART_LEN,
    ensures
        r@ == length_prefixed(a@),
{
    let n = a.len() as u16;
    let mut r: Vec<u8> = Vec::new();
    r.push((n / 256) as u8);
    r.push((n % 256) as u8);
    r.extend_from_slice(a);
    proof {
        assert(r@ =~= length_prefixed(a@));
    }
    r
}

/// Compose the key of one secondary-index entry from an encoded attribute
/// value and an encoded primary key.
pub fn compose_entry_key(attr: &[u8], pk: &[u8]) -> (r: Vec<u8>)
    requires
        attr@.len() <= MAX_PART_LEN,
        pk@.len() <= MAX_PART_LEN,
    ensures
        r@ == entry_key(attr@, pk@),
{
    let mut r = prefix_with_length(attr);
    let mut tail = prefix_with_length(pk);
    r.append(&mut tail);
    proof {
        assert(r@ =~= entry_key(attr@, pk@));
    }
    r
}

} // verus!
