//! One namespace of the flat, ordered, byte-keyed store.
//!
//! A table holds records of one type under opaque byte keys, kept in strictly
//! ascending lexicographic key order, and stands for one named region of the
//! shared key-value address space. Its mathematical model is a map from byte
//! sequences to records.

use vstd::prelude::*;
use crate::order::{lex_lt, is_prefix, lemma_lex_asymmetric, lemma_lex_trichotomy, bytes_eq,
    lex_lt_bytes, starts_with_bytes};

verus! {

/// CRUD within one namespace of the store, keyed by opaque bytes.
pub struct Table<R> {
    namespace: String,
    entries: Vec<(Vec<u8>, R)>,
}

/// The entries' keys are strictly ascending in lexicographic order.
spec fn entries_sorted<R>(s: Seq<(Vec<u8>, R)>) -> bool {
    forall|i: int, j: int| 0 <= i < j < s.len() ==> lex_lt(#[trigger] s[i].0@, #[trigger] s[j].0@)
}

/// Some entry holds the key `k`.
spec fn entries_contain<R>(s: Seq<(Vec<u8>, R)>, k: Seq<u8>) -> bool {
    exists|i: int| 0 <= i < s.len() && (#[trigger] s[i].0@) == k
}

/// The position of the entry holding the key `k`.
spec fn entry_position<R>(s: Seq<(Vec<u8>, R)>, k: Seq<u8>) -> int {
    choose|i: int| 0 <= i < s.len() && (#[trigger] s[i].0@) == k
}

/// The map an entry sequence denotes.
spec fn entries_view<R>(s: Seq<(Vec<u8>, R)>) -> Map<Seq<u8>, R> {
    Map::new(|k: Seq<u8>| entries_contain(s, k), |k: Seq<u8>| s[entry_position(s, k)].1)
}

/// In a sorted entry sequence, each key appears at one position only.
proof fn lemma_entry_position<R>(s: Seq<(Vec<u8>, R)>, i: int)
    requires
        entries_sorted(s),
        0 <= i < s.len(),
    ensures
        entries_contain(s, s[i].0@),
        entry_position(s, s[i].0@) == i,
        entries_view(s)[s[i].0@] == s[i].1,
{
    let k = s[i].0@;
    assert(entries_contain(s, k));
    let j = entry_position(s, k);
    if j < i {
        lemma_lex_asymmetric(s[j].0@, s[i].0@);
    } else if i < j {
        lemma_lex_asymmetric(s[i].0@, s[j].0@);
    }
}

/// Inserting an entry between its lexicographic neighbours keeps the
/// sequence sorted and inserts its key into the denoted map.
proof fn lemma_view_insert<R>(s: Seq<(Vec<u8>, R)>, i: int, e: (Vec<u8>, R))
    requires
        entries_sorted(s),
        0 <= i <= s.len(),
        forall|k: int| 0 <= k < i ==> lex_lt(#[trigger] s[k].0@, e.0@),
        forall|k: int| i <= k < s.len() ==> lex_lt(e.0@, #[trigger] s[k].0@),
    ensures
        entries_sorted(s.insert(i, e)),
        entries_view(s.insert(i, e)) == entries_view(s).insert(e.0@, e.1),
{
    let t = s.insert(i, e);
    assert(forall|j: int| 0 <= j < i ==> t[j] == s[j]);
    assert(t[i] == e);
    assert(forall|j: int| i < j < t.len() ==> t[j] == s[j - 1]);
    assert forall|a: int, b: int| 0 <= a < b < t.len() implies lex_lt(
        #[trigger] t[a].0@,
        #[trigger] t[b].0@,
    ) by {
        if a < i && b < i {
        } else if a == i {
            assert(t[b] == s[b - 1]);
        } else if b == i {
            assert(t[a] == s[a]);
        } else if a > i && b > i {
            assert(t[a] == s[a - 1] && t[b] == s[b - 1]);
        }
    }
    let vt = entries_view(t);
    let vs = entries_view(s).insert(e.0@, e.1);
    assert forall|k: Seq<u8>| vt.contains_key(k) == vs.contains_key(k) by {
        if entries_contain(t, k) {
            let j = entry_position(t, k);
            if j != i {
                let j0: int = if j < i {
                    j
                } else {
                    j - 1
                };
                assert(s[j0] == t[j]);
                assert(entries_contain(s, k));
            }
        }
        if entries_contain(s, k) {
            let j = entry_position(s, k);
            let j1: int = if j < i {
                j
            } else {
                j + 1
            };
            assert(t[j1] == s[j]);
            assert(entries_contain(t, k));
        }
    }
    assert forall|k: Seq<u8>| vt.contains_key(k) implies vt[k] == vs[k] by {
        if k == e.0@ {
            lemma_entry_position(t, i);
        } else {
            let j = entry_position(s, k);
            assert(entries_contain(s, k));
            assert(0 <= j < s.len() && s[j].0@ == k);
            lemma_entry_position(s, j);
            let j1: int = if j < i {
                j
            } else {
                j + 1
            };
            assert(t[j1] == s[j]);
            lemma_entry_position(t, j1);
        }
    }
    assert(vt =~= vs);
}

/// Removing an entry keeps the sequence sorted and removes its key from the
/// denoted map.
proof fn lemma_view_remove<R>(s: Seq<(Vec<u8>, R)>, i: int)
    requires
        entries_sorted(s),
        0 <= i < s.len(),
    ensures
        entries_sorted(s.remove(i)),
        entries_view(s.remove(i)) == entries_view(s).remove(s[i].0@),
{
    let t = s.remove(i);
    assert(forall|j: int| 0 <= j < i ==> t[j] == s[j]);
    assert(forall|j: int| i <= j < t.len() ==> t[j] == s[j + 1]);
    let vt = entries_view(t);
    let vs = entries_view(s).remove(s[i].0@);
    assert forall|k: Seq<u8>| vt.contains_key(k) == vs.contains_key(k) by {
        if entries_contain(t, k) {
            let j = entry_position(t, k);
            let j0: int = if j < i {
                j
            } else {
                j + 1
            };
            assert(s[j0] == t[j]);
            assert(entries_contain(s, k));
            if k == s[i].0@ {
                lemma_entry_position(s, j0);
                lemma_entry_position(s, i);
            }
        }
        if entries_contain(s, k) && k != s[i].0@ {
            let j = entry_position(s, k);
            if j != i {
                let j1: int = if j < i {
                    j
                } else {
                    j - 1
                };
                assert(t[j1] == s[j]);
                assert(entries_contain(t, k));
            }
        }
    }
    assert forall|k: Seq<u8>| vt.contains_key(k) implies vt[k] == vs[k] by {
        let j = entry_position(t, k);
        assert(0 <= j < t.len() && t[j].0@ == k);
        lemma_entry_position(t, j);
        let j0: int = if j < i {
            j
        } else {
            j + 1
        };
        assert(s[j0] == t[j]);
        lemma_entry_position(s, j0);
    }
    assert(vt =~= vs);
}

impl<R> View for Table<R> {
    type V = Map<Seq<u8>, R>;

    closed spec fn view(&self) -> Map<Seq<u8>, R> {
        entries_view(self.entries@)
    }
}

impl<R> Table<R> {
    /// The table's internal ordering invariant.
    pub closed spec fn wf(self) -> bool {
        entries_sorted(self.entries@)
    }

    /// The name of the store region this table stands for.
    pub closed spec fn spec_namespace(self) -> Seq<char> {
        self.namespace@
    }

    /// The name of the store region this table stands for.
    pub fn namespace(&self) -> (r: &str)
        ensures
            r@ == self.spec_namespace(),
    {
        self.namespace.as_str()
    }

    /// An empty table standing for the namespace `namespace` of the store.
    pub fn new(namespace: &str) -> (t: Table<R>)
        ensures
            t.wf(),
            t.spec_namespace() == namespace@,
            t@ == Map::<Seq<u8>, R>::empty(),
    {
        let t = Table { namespace: namespace.to_owned(), entries: Vec::new() };
        proof {
            assert(t@ =~= Map::<Seq<u8>, R>::empty());
        }
        t
    }

    /// Read the record stored under `key`, if any.
    pub fn get(&self, key: &[u8]) -> (r: Option<&R>)
        requires
            self.wf(),
        ensures
            match r {
                Some(v) => self@.contains_key(key@) && *v == self@[key@],
                None => !self@.contains_key(key@),
            },
    {
        let n = self.entries.len();
        let mut i: usize = 0;
        while i < n
            invariant
                self.wf(),
                n == self.entries@.len(),
                i <= n,
                forall|k: int| 0 <= k < i ==> (#[trigger] self.entries@[k].0@) != key@,
            decreases n - i,
        {
            let e = &self.entries[i];
            if bytes_eq(e.0.as_slice(), key) {
                proof {
                    lemma_entry_position(self.entries@, i as int);
                }
                return Some(&e.1);
            }
            i = i + 1;
        }
        proof {
            assert(!entries_contain(self.entries@, key@));
        }
        None
    }

    /// The first position whose key is not lexicographically before `key`.
    fn find_at_or_after(&self, key: &[u8]) -> (i: usize)
        requires
            self.wf(),
        ensures
            i <= self.entries@.len(),
            forall|k: int| 0 <= k < i ==> lex_lt(#[trigger] self.entries@[k].0@, key@),
            i < self.entries@.len() ==> !lex_lt(self.entries@[i as int].0@, key@),
    {
        let n = self.entries.len();
        let mut i: usize = 0;
        while i < n
            invariant
                self.wf(),
                n == self.entries@.len(),
                i <= n,
                forall|k: int| 0 <= k < i ==> lex_lt(#[trigger] self.entries@[k].0@, key@),
            decreases n - i,
        {
            if !lex_lt_bytes(self.entries[i].0.as_slice(), key) {
                return i;
            }
            i = i + 1;
        }
        i
    }

    /// Store `value` under `key`, overwriting any record already there.
    pub fn put(&mut self, key: Vec<u8>, value: R)
        requires
            old(self).wf(),
        ensures
            final(self).wf(),
            final(self)@ == old(self)@.insert(key@, value),
    {
        let ghost s = self.entries@;
        let i = self.find_at_or_after(key.as_slice());
        if i < self.entries.len() && bytes_eq(self.entries[i].0.as_slice(), key.as_slice()) {
            proof {
                lemma_view_remove(s, i as int);
            }
            self.entries.remove(i);
            proof {
                let s1 = s.remove(i as int);
                assert(forall|k: int| 0 <= k < i ==> s1[k] == s[k]);
                assert(forall|k: int| i <= k < s1.len() ==> s1[k] == s[k + 1]);
                lemma_view_insert(s1, i as int, (key, value));
            }
            self.entries.insert(i, (key, value));
            proof {
                assert(self@ =~= old(self)@.insert(key@, value));
            }
        } else {
            proof {
                assert forall|k: int| i <= k < s.len() implies lex_lt(key@, #[trigger] s[k].0@) by {
                    lemma_lex_trichotomy(key@, s[i as int].0@);
                    if i < k {
                        crate::order::lemma_lex_transitive(key@, s[i as int].0@, s[k].0@);
                    }
                }
                lemma_view_insert(s, i as int, (key, value));
            }
            self.entries.insert(i, (key, value));
        }
    }

    /// Remove the record stored under `key`; report whether one was there.
    pub fn delete(&mut self, key: &[u8]) -> (r: bool)
        requires
            old(self).wf(),
        ensures
            final(self).wf(),
            final(self)@ == old(self)@.remove(key@),
            r == old(self)@.contains_key(key@),
    {
        let n = self.entries.len();
        let mut i: usize = 0;
        while i < n
            invariant
                self.wf(),
                self.entries@ == old(self).entries@,
                n == self.entries@.len(),
                i <= n,
                forall|k: int| 0 <= k < i ==> (#[trigger] self.entries@[k].0@) != key@,
            decreases n - i,
        {
            if bytes_eq(self.entries[i].0.as_slice(), key) {
                proof {
                    lemma_entry_position(self.entries@, i as int);
                    lemma_view_remove(self.entries@, i as int);
                }
                self.entries.remove(i);
                return true;
            }
            i = i + 1;
        }
        proof {
            assert(!entries_contain(self.entries@, key@));
            assert(self@ =~= self@.remove(key@));
        }
        false
    }

    /// All keys that begin with `prefix`, in ascending lexicographic order.
    ///
    /// Each call is an independent, fresh scan over the table.
    pub fn scan_prefix(&self, prefix: &[u8]) -> (r: Vec<Vec<u8>>)
        requires
            self.wf(),
        ensures
            forall|t: int|
                0 <= t < r@.len() ==> is_prefix(prefix@, (#[trigger] r@[t])@)
                    && self@.contains_key(r@[t]@),
            forall|k: Seq<u8>|
                #[trigger] self@.contains_key(k) && is_prefix(prefix@, k) ==> exists|t: int|
                    0 <= t < r@.len() && (#[trigger] r@[t])@ == k,
            forall|t1: int, t2: int|
                0 <= t1 < t2 < r@.len() ==> lex_lt(#[trigger] r@[t1]@, #[trigger] r@[t2]@),
    {
        let n = self.entries.len();
        let mut r: Vec<Vec<u8>> = Vec::new();
        let ghost mut src: Seq<int> = Seq::empty();
        let mut i: usize = 0;
        while i < n
            invariant
                self.wf(),
                n == self.entries@.len(),
                i <= n,
                src.len() == r@.len(),
                forall|t: int| 0 <= t < src.len() ==> 0 <= #[trigger] src[t] < i,
                forall|t: int|
                    0 <= t < src.len() ==> (#[trigger] r@[t])@ == self.entries@[src[t]].0@,
                forall|t1: int, t2: int| 0 <= t1 < t2 < src.len() ==> src[t1] < src[t2],
                forall|t: int|
                    0 <= t < src.len() ==> is_prefix(
                        prefix@,
                        self.entries@[#[trigger] src[t]].0@,
                    ),
                forall|k: int|
                    0 <= k < i && is_prefix(prefix@, #[trigger] self.entries@[k].0@)
                        ==> exists|t: int| 0 <= t < src.len() && #[trigger] src[t] == k,
            decreases n - i,
        {
            let e = &self.entries[i];
            if starts_with_bytes(e.0.as_slice(), prefix) {
                let kcopy = vstd::slice::slice_to_vec(e.0.as_slice());
                r.push(kcopy);
                proof {
                    let src_old = src;
                    src = src.push(i as int);
                    assert(src[src.len() - 1] == i as int);
                    assert(forall|t: int| 0 <= t < src_old.len() ==> src[t] == src_old[t]);
                    assert forall|k: int|
                        0 <= k < i + 1 && is_prefix(
                            prefix@,
                            #[trigger] self.entries@[k].0@,
                        ) implies exists|t: int| 0 <= t < src.len() && #[trigger] src[t] == k by {
                        if k < i {
                            let t0 = choose|t: int|
                                0 <= t < src_old.len() && #[trigger] src_old[t] == k;
                            assert(src[t0] == k);
                        } else {
                            assert(src[src.len() - 1] == k);
                        }
                    }
                }
            }
            i = i + 1;
        }
        proof {
            assert forall|t: int| 0 <= t < r@.len() implies is_prefix(prefix@, (#[trigger] r@[t])@)
                && self@.contains_key(r@[t]@) by {
                assert(self.entries@[src[t]].0@ == r@[t]@);
                assert(is_prefix(prefix@, self.entries@[src[t]].0@));
                assert(entries_contain(self.entries@, r@[t]@));
            }
            assert forall|k: Seq<u8>|
                #[trigger] self@.contains_key(k) && is_prefix(prefix@, k) implies exists|t: int|
                0 <= t < r@.len() && (#[trigger] r@[t])@ == k by {
                let j = entry_position(self.entries@, k);
                assert(0 <= j < n && self.entries@[j].0@ == k);
                assert(is_prefix(prefix@, self.entries@[j].0@));
                let t = choose|t: int| 0 <= t < src.len() && #[trigger] src[t] == j;
                assert((r@[t])@ == k);
            }
            assert forall|t1: int, t2: int| 0 <= t1 < t2 < r@.len() implies lex_lt(
                #[trigger] r@[t1]@,
                #[trigger] r@[t2]@,
            ) by {
                assert(src[t1] < src[t2]);
                assert(lex_lt(self.entries@[src[t1]].0@, self.entries@[src[t2]].0@));
            }
        }
        r
    }

    /// All keys that begin with `prefix`, in descending lexicographic order.
    ///
    /// Each call is an independent, fresh scan over the table.
    pub fn scan_prefix_desc(&self, prefix: &[u8]) -> (r: Vec<Vec<u8>>)
        requires
            self.wf(),
        ensures
            forall|t: int|
                0 <= t < r@.len() ==> is_prefix(prefix@, (#[trigger] r@[t])@)
                    && self@.contains_key(r@[t]@),
            forall|k: Seq<u8>|
                #[trigger] self@.contains_key(k) && is_prefix(prefix@, k) ==> exists|t: int|
                    0 <= t < r@.len() && (#[trigger] r@[t])@ == k,
            forall|t1: int, t2: int|
                0 <= t1 < t2 < r@.len() ==> lex_lt(#[trigger] r@[t2]@, #[trigger] r@[t1]@),
    {
        let mut asc = self.scan_prefix(prefix);
        let ghost asc0 = asc@;
        let n = asc.len();
        let mut r: Vec<Vec<u8>> = Vec::new();
        while asc.len() > 0
            invariant
                asc0.len() == n,
                asc@.len() + r@.len() == n,
                forall|t: int| 0 <= t < asc@.len() ==> #[trigger] asc@[t] == asc0[t],
                forall|t: int| 0 <= t < r@.len() ==> #[trigger] r@[t] == asc0[n - 1 - t],
            decreases asc@.len(),
        {
            if let Some(k) = asc.pop() {
                r.push(k);
            }
        }
        proof {
            assert forall|k: Seq<u8>|
                #[trigger] self@.contains_key(k) && is_prefix(prefix@, k) implies exists|t: int|
                0 <= t < r@.len() && (#[trigger] r@[t])@ == k by {
                let t0 = choose|t: int| 0 <= t < asc0.len() && (#[trigger] asc0[t])@ == k;
                assert(r@[n - 1 - t0]@ == k);
            }
            assert forall|t: int| 0 <= t < r@.len() implies is_prefix(
                prefix@,
                (#[trigger] r@[t])@,
            ) && self@.contains_key(r@[t]@) by {
                assert(r@[t] == asc0[n - 1 - t]);
            }
        }
        r
    }
}

} // verus!
