//! A non-unique secondary index: one maintained mapping from encoded
//! attribute values to the primary keys of the records holding them.
//!
//! Each pairing is stored as one entry of its own, keyed by the
//! length-prefixed attribute value followed by the length-prefixed primary
//! key, so that records sharing an attribute value produce distinct,
//! independently removable entries and a prefix scan over one attribute value
//! is exact.

use vstd::prelude::*;
use crate::codec::{MAX_PART_LEN, entry_key, entry_key_wf, entry_key_attr, entry_key_pk,
    length_prefixed, lemma_entry_key_parse, lemma_entry_key_reconstruct, lemma_entry_key_prefix,
    lemma_entry_key_prefix_attr, compose_entry_key, prefix_with_length};
use crate::order::{lex_lt, is_prefix};
use crate::table::Table;

verus! {

/// One secondary index over one attribute-extraction rule, within one
/// namespace of the store.
pub struct SecondaryIndex {
    entries: Table<()>,
}

impl SecondaryIndex {
    /// The index's internal invariant: its table is well formed and every
    /// stored key parses as an index-entry key.
    pub closed spec fn wf(self) -> bool {
        &&& self.entries.wf()
        &&& forall|k: Seq<u8>| #[trigger] self.entries@.contains_key(k) ==> entry_key_wf(k)
    }

    /// Whether the index pairs the attribute value `attr` with the primary
    /// key `pk`.
    pub closed spec fn has_entry(self, attr: Seq<u8>, pk: Seq<u8>) -> bool {
        self.entries@.contains_key(entry_key(attr, pk))
    }

    /// An empty index standing for the namespace `namespace` of the store.
    pub fn new(namespace: &str) -> (s: SecondaryIndex)
        ensures
            s.wf(),
            forall|a: Seq<u8>, p: Seq<u8>| !(#[trigger] s.has_entry(a, p)),
    {
        SecondaryIndex { entries: Table::new(namespace) }
    }

    /// Record that the record under `pk` currently holds the attribute value
    /// `attr`.
    pub fn insert_entry(&mut self, attr: &[u8], pk: &[u8])
        requires
            old(self).wf(),
            attr@.len() <= MAX_PART_LEN,
            pk@.len() <= MAX_PART_LEN,
        ensures
            final(self).wf(),
            forall|a: Seq<u8>, p: Seq<u8>|
                a.len() <= MAX_PART_LEN && p.len() <= MAX_PART_LEN
                    ==> #[trigger] final(self).has_entry(a, p) == (old(self).has_entry(a, p) || (
                a == attr@ && p == pk@)),
    {
        let key = compose_entry_key(attr, pk);
        self.entries.put(key, ());
        proof {
            lemma_entry_key_parse(attr@, pk@);
            assert forall|k: Seq<u8>| #[trigger] self.entries@.contains_key(k) implies
                entry_key_wf(k) by {
                if k != entry_key(attr@, pk@) {
                    assert(old(self).entries@.contains_key(k));
                }
            }
            assert forall|a: Seq<u8>, p: Seq<u8>|
                a.len() <= MAX_PART_LEN && p.len() <= MAX_PART_LEN implies #[trigger] self
                .has_entry(a, p) == (old(self).has_entry(a, p) || (a == attr@ && p
                == pk@)) by {
                if entry_key(a, p) == entry_key(attr@, pk@) {
                    crate::codec::lemma_entry_key_injective(a, p, attr@, pk@);
                }
            }
        }
    }

    /// Remove the pairing of the attribute value `attr` with the primary key
    /// `pk`, if it is there.
    pub fn remove_entry(&mut self, attr: &[u8], pk: &[u8])
        requires
            old(self).wf(),
            attr@.len() <= MAX_PART_LEN,
            pk@.len() <= MAX_PART_LEN,
        ensures
            final(self).wf(),
            forall|a: Seq<u8>, p: Seq<u8>|
                a.len() <= MAX_PART_LEN && p.len() <= MAX_PART_LEN
                    ==> #[trigger] final(self).has_entry(a, p) == (old(self).has_entry(a, p) && !(
                a == attr@ && p == pk@)),
    {
        let key = compose_entry_key(attr, pk);
        self.entries.delete(key.as_slice());
        proof {
            lemma_entry_key_parse(attr@, pk@);
            assert forall|k: Seq<u8>| #[trigger] self.entries@.contains_key(k) implies
                entry_key_wf(k) by {
                assert(old(self).entries@.contains_key(k));
            }
            assert forall|a: Seq<u8>, p: Seq<u8>|
                a.len() <= MAX_PART_LEN && p.len() <= MAX_PART_LEN implies #[trigger] self
                .has_entry(a, p) == (old(self).has_entry(a, p) && !(a == attr@ && p
                == pk@)) by {
                if entry_key(a, p) == entry_key(attr@, pk@) {
                    crate::codec::lemma_entry_key_injective(a, p, attr@, pk@);
                }
            }
        }
    }

    /// All primary keys currently paired with the attribute value `attr`,
    /// ascending in the lexicographic order of their length-prefixed
    /// encodings.
    ///
    /// Each call is an independent, fresh prefix scan.
    pub fn scan_by(&self, attr: &[u8]) -> (r: Vec<Vec<u8>>)
        requires
            self.wf(),
            attr@.len() <= MAX_PART_LEN,
        ensures
            forall|t: int|
                0 <= t < r@.len() ==> (#[trigger] r@[t])@.len() <= MAX_PART_LEN
                    && self.has_entry(attr@, r@[t]@),
            forall|p: Seq<u8>|
                p.len() <= MAX_PART_LEN && #[trigger] self.has_entry(attr@, p) ==> exists|t: int|
                    0 <= t < r@.len() && (#[trigger] r@[t])@ == p,
            forall|t1: int, t2: int|
                0 <= t1 < t2 < r@.len() ==> lex_lt(
                    length_prefixed(#[trigger] r@[t1]@),
                    length_prefixed(#[trigger] r@[t2]@),
                ),
    {
        let prefix = prefix_with_length(attr);
        let keys = self.entries.scan_prefix(prefix.as_slice());
        let mut r: Vec<Vec<u8>> = Vec::new();
        let n = keys.len();
        proof {
            assert forall|t: int| 0 <= t < n implies entry_key_wf(#[trigger] keys@[t]@)
                && entry_key_attr(keys@[t]@) == attr@ && entry_key_pk(keys@[t]@).len()
                <= MAX_PART_LEN && keys@[t]@ == entry_key(attr@, entry_key_pk(keys@[t]@)) by {
                assert(self.entries@.contains_key(keys@[t]@));
                lemma_entry_key_prefix_attr(attr@, keys@[t]@);
                lemma_entry_key_reconstruct(keys@[t]@);
            }
        }
        let mut i: usize = 0;
        while i < n
            invariant
                n == keys@.len(),
                i <= n,
                r@.len() == i,
                attr@.len() <= MAX_PART_LEN,
                forall|t: int|
                    0 <= t < n ==> entry_key_wf(#[trigger] keys@[t]@) && entry_key_attr(keys@[t]@)
                        == attr@ && entry_key_pk(keys@[t]@).len() <= MAX_PART_LEN && keys@[t]@
                        == entry_key(attr@, entry_key_pk(keys@[t]@)),
                forall|t: int| 0 <= t < i ==> (#[trigger] r@[t])@ == entry_key_pk(keys@[t]@),
            decreases n - i,
        {
            let k = &keys[i];
            proof {
                assert(entry_key_wf(k@));
                assert(k@.len() == 4 + attr@.len() + entry_key_pk(k@).len());
            }
            let pk = vstd::slice::slice_to_vec(
                vstd::slice::slice_subrange(k.as_slice(), 4 + attr.len(), k.len()),
            );
            proof {
                assert(pk@ =~= entry_key_pk(keys@[i as int]@));
            }
            r.push(pk);
            i = i + 1;
        }
        proof {
            assert forall|t: int| 0 <= t < r@.len() implies (#[trigger] r@[t])@.len()
                <= MAX_PART_LEN && self.has_entry(attr@, r@[t]@) by {
                assert(keys@[t]@ == entry_key(attr@, r@[t]@));
                assert(self.entries@.contains_key(keys@[t]@));
            }
            assert forall|p: Seq<u8>|
                p.len() <= MAX_PART_LEN && #[trigger] self.has_entry(attr@, p) implies exists|
                t: int,
            | 0 <= t < r@.len() && (#[trigger] r@[t])@ == p by {
                let k0 = entry_key(attr@, p);
                lemma_entry_key_prefix(attr@, attr@, p);
                assert(self.entries@.contains_key(k0) && is_prefix(prefix@, k0));
                let t = choose|t: int| 0 <= t < keys@.len() && (#[trigger] keys@[t])@ == k0;
                lemma_entry_key_parse(attr@, p);
                assert(entry_key_pk(k0) == p);
                assert(r@[t]@ == p);
            }
            assert forall|t1: int, t2: int| 0 <= t1 < t2 < r@.len() implies lex_lt(
                length_prefixed(#[trigger] r@[t1]@),
                length_prefixed(#[trigger] r@[t2]@),
            ) by {
                assert(lex_lt(keys@[t1]@, keys@[t2]@));
                assert(keys@[t1]@ == entry_key(attr@, r@[t1]@));
                assert(keys@[t2]@ == entry_key(attr@, r@[t2]@));
                crate::order::lemma_lex_prepend(
                    length_prefixed(attr@),
                    length_prefixed(r@[t1]@),
                    length_prefixed(r@[t2]@),
                );
            }
        }
        r
    }
}

} // verus!
