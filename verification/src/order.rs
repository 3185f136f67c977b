//! Lexicographic order and prefix relations on byte sequences.
//!
//! Keys of the flat store are byte vectors compared lexicographically; a
//! prefix scan selects exactly the keys that a given sequence begins.

use vstd::prelude::*;

verus! {

/// Strict lexicographic order on byte sequences: `a` comes before `b`.
pub open spec fn lex_lt(a: Seq<u8>, b: Seq<u8>) -> bool
    decreases a.len(),
{
    if b.len() == 0 {
        false
    } else if a.len() == 0 {
        true
    } else if a[0] < b[0] {
        true
    } else if a[0] > b[0] {
        false
    } else {
        lex_lt(a.drop_first(), b.drop_first())
    }
}

/// `p` is a prefix of `k`.
pub open spec fn is_prefix(p: Seq<u8>, k: Seq<u8>) -> bool {
    p.len() <= k.len() && k.subrange(0, p.len() as int) == p
}

/// Exactly one of `lex_lt(a, b)`, `lex_lt(b, a)`, `a == b` holds.
pub proof fn lemma_lex_trichotomy(a: Seq<u8>, b: Seq<u8>)
    ensures
        lex_lt(a, b) || lex_lt(b, a) || a == b,
    decreases a.len(),
{
    if b.len() == 0 {
        if a.len() == 0 {
            assert(a =~= b);
        }
    } else if a.len() == 0 {
    } else if a[0] < b[0] {
    } else if a[0] > b[0] {
    } else {
        lemma_lex_trichotomy(a.drop_first(), b.drop_first());
        if a.drop_first() == b.drop_first() {
            assert(a.drop_first().len() == b.drop_first().len());
            assert(a.len() == b.len());
            assert forall|k: int| 0 <= k < a.len() implies a[k] == b[k] by {
                if k > 0 {
                    assert(a[k] == a.drop_first()[k - 1]);
                    assert(b[k] == b.drop_first()[k - 1]);
                }
            }
            assert(a =~= b);
        }
    }
}

/// Lexicographic order is asymmetric, hence also irreflexive.
pub proof fn lemma_lex_asymmetric(a: Seq<u8>, b: Seq<u8>)
    requires
        lex_lt(a, b),
    ensures
        !lex_lt(b, a),
        a != b,
    decreases a.len(),
{
    if a.len() == 0 {
        assert(b.len() > 0);
    } else if a[0] == b[0] {
        lemma_lex_asymmetric(a.drop_first(), b.drop_first());
        if a == b {
            assert(a.drop_first() =~= b.drop_first());
        }
    }
}

/// Lexicographic order is transitive.
pub proof fn lemma_lex_transitive(a: Seq<u8>, b: Seq<u8>, c: Seq<u8>)
    requires
        lex_lt(a, b),
        lex_lt(b, c),
    ensures
        lex_lt(a, c),
    decreases a.len(),
{
    if a.len() == 0 {
    } else if b.len() == 0 {
    } else if c.len() == 0 {
    } else {
        if a[0] == b[0] && b[0] == c[0] {
            lemma_lex_transitive(a.drop_first(), b.drop_first(), c.drop_first());
        }
    }
}

/// Prepending one shared sequence to both sides leaves the order unchanged.
pub proof fn lemma_lex_prepend(x: Seq<u8>, a: Seq<u8>, b: Seq<u8>)
    ensures
        lex_lt(x + a, x + b) == lex_lt(a, b),
    decreases x.len(),
{
    if x.len() == 0 {
        assert(x + a =~= a);
        assert(x + b =~= b);
    } else {
        assert((x + a)[0] == x[0]);
        assert((x + b)[0] == x[0]);
        assert((x + a).drop_first() =~= x.drop_first() + a);
        assert((x + b).drop_first() =~= x.drop_first() + b);
        lemma_lex_prepend(x.drop_first(), a, b);
    }
}

/// A sequence whose byte at position `j` is smaller, all earlier bytes being
/// equal, comes lexicographically first.
pub proof fn lemma_lex_from_first_difference(a: Seq<u8>, b: Seq<u8>, j: int)
    requires
        0 <= j < a.len(),
        j < b.len(),
        forall|k: int| 0 <= k < j ==> a[k] == b[k],
        a[j] < b[j],
    ensures
        lex_lt(a, b),
    decreases j,
{
    if j == 0 {
    } else {
        assert(a[0] == b[0]);
        lemma_lex_from_first_difference(a.drop_first(), b.drop_first(), j - 1);
    }
}

/// Whether `a` comes strictly before `b` in lexicographic byte order.
pub fn lex_lt_bytes(a: &[u8], b: &[u8]) -> (r: bool)
    ensures
        r == lex_lt(a@, b@),
{
    let mut i: usize = 0;
    proof {
        assert(a@.skip(0) =~= a@);
        assert(b@.skip(0) =~= b@);
    }
    loop
        invariant
            i <= a@.len(),
            i <= b@.len(),
            lex_lt(a@, b@) == lex_lt(a@.skip(i as int), b@.skip(i as int)),
        decreases a@.len() - i,
    {
        if i == b.len() {
            return false;
        }
        if i == a.len() {
            return true;
        }
        let x = a[i];
        let y = b[i];
        if x < y {
            return true;
        }
        if x > y {
            return false;
        }
        proof {
            assert(a@.skip(i as int).drop_first() =~= a@.skip(i as int + 1));
            assert(b@.skip(i as int).drop_first() =~= b@.skip(i as int + 1));
        }
        i = i + 1;
    }
}

/// Whether two byte slices hold the same bytes.
pub fn bytes_eq(a: &[u8], b: &[u8]) -> (r: bool)
    ensures
        r == (a@ == b@),
{
    if a.len() != b.len() {
        return false;
    }
    let mut i: usize = 0;
    while i < a.len()
        invariant
            a@.len() == b@.len(),
            i <= a@.len(),
            forall|k: int| 0 <= k < i ==> a@[k] == b@[k],
        decreases a@.len() - i,
    {
        if a[i] != b[i] {
            return false;
        }
        i = i + 1;
    }
    proof {
        assert(a@ =~= b@);
    }
    true
}

/// Whether `k` begins with the bytes of `p`.
pub fn starts_with_bytes(k: &[u8], p: &[u8]) -> (r: bool)
    ensures
        r == is_prefix(p@, k@),
{
    if p.len() > k.len() {
        return false;
    }
    let head = vstd::slice::slice_subrange(k, 0, p.len());
    bytes_eq(head, p)
}

} // verus!
