//! The membership domain: people, groups and memberships, with the
//! memberships held in an indexed store that keeps one primary table and
//! three secondary indexes (by person, by group, by role) mutually consistent
//! on every write and delete.

use vstd::prelude::*;
use crate::codec::{MAX_PART_LEN, u64_be, u64_to_be, u64_from_be, length_prefixed,
    lemma_u64_be_injective, lemma_lp_u64_order};
use crate::counter::IdAllocator;
use crate::index::SecondaryIndex;
use crate::order::{lex_lt, bytes_eq};
use crate::table::Table;
use crate::StoreError;
use vstd::utf8::encode_utf8;

verus! {

/// The UTF-8 bytes of a string, as used for store keys and attribute values.
pub open spec fn str_key(s: Seq<char>) -> Seq<u8> {
    encode_utf8(s)
}

/// The UTF-8 bytes of a string identifier.
pub fn str_key_bytes(s: &str) -> (r: Vec<u8>)
    ensures
        r@ == str_key(s@),
{
    s.as_bytes_vec()
}

/// A person: externally chosen, globally unique string identity.
#[derive(Clone, Debug, PartialEq)]
pub struct NewPerson {
    pub name: String,
    pub age: u8,
}

/// A group: generated numeric identity.
#[derive(Clone, Debug, PartialEq)]
pub struct NewGroup {
    pub name: String,
}

/// The closed set of membership roles. Each variant's single-byte
/// discriminant is part of the persisted format and must never be
/// reassigned.
#[derive(Clone, Copy, Debug, PartialEq, Eq, Structural)]
pub enum Role {
    User,
    Admin,
    SuperAdmin,
}

impl Role {
    /// The fixed byte identifying this variant in the persisted format.
    pub open spec fn discriminant(self) -> u8 {
        match self {
            Role::User => 0,
            Role::Admin => 1,
            Role::SuperAdmin => 2,
        }
    }

    /// The one-byte index key of this role.
    pub open spec fn key_bytes(self) -> Seq<u8> {
        seq![self.discriminant()]
    }

    /// Encode this role as its index key.
    pub fn key(&self) -> (k: Vec<u8>)
        ensures
            k@ == self.key_bytes(),
    {
        let mut k: Vec<u8> = Vec::new();
        match self {
            Role::User => k.push(0u8),
            Role::Admin => k.push(1u8),
            Role::SuperAdmin => k.push(2u8),
        }
        proof {
            assert(k@ =~= self.key_bytes());
        }
        k
    }
}

/// A membership ties one person to one group in one role.
#[derive(Clone, Debug, PartialEq)]
pub struct NewMembership {
    pub person: String,
    pub group_id: u64,
    pub role: Role,
}

/// The person-index attribute value of a membership record.
pub open spec fn person_attr_of(m: NewMembership) -> Seq<u8> {
    str_key(m.person@)
}

/// The group-index attribute value of a membership record.
pub open spec fn group_attr_of(m: NewMembership) -> Seq<u8> {
    u64_be(m.group_id)
}

/// The role-index attribute value of a membership record.
pub open spec fn role_attr_of(m: NewMembership) -> Seq<u8> {
    m.role.key_bytes()
}

impl NewMembership {
    /// An equal record built from freshly copied fields.
    pub fn duplicate(&self) -> (r: NewMembership)
        ensures
            r == *self,
    {
        NewMembership { person: self.person.clone(), group_id: self.group_id, role: self.role }
    }
}

/// One secondary index maps attribute values to primary keys exactly as one
/// extraction rule reads them off the records of the primary table.
pub open spec fn index_consistent(
    idx: SecondaryIndex,
    primary: Map<Seq<u8>, NewMembership>,
    attr_of: spec_fn(NewMembership) -> Seq<u8>,
) -> bool {
    forall|a: Seq<u8>, p: Seq<u8>|
        a.len() <= MAX_PART_LEN && p.len() <= MAX_PART_LEN ==> #[trigger] idx.has_entry(a, p) == (
        primary.contains_key(p) && a == attr_of(primary[p]))
}

/// The fixed set of secondary indexes maintained for memberships.
pub struct MembershipIndexes {
    person: SecondaryIndex,
    group: SecondaryIndex,
    role: SecondaryIndex,
}

/// The indexed membership store: one primary table and three secondary
/// indexes, kept mutually consistent by every mutation.
pub struct MembershipStore {
    primary: Table<NewMembership>,
    idx: MembershipIndexes,
}

impl View for MembershipStore {
    type V = Map<u64, NewMembership>;

    closed spec fn view(&self) -> Map<u64, NewMembership> {
        Map::new(
            |id: u64| self.primary@.contains_key(u64_be(id)),
            |id: u64| self.primary@[u64_be(id)],
        )
    }
}

impl MembershipStore {
    /// The central invariant: the primary table holds records under their
    /// eight-byte identifiers, and each index holds exactly one entry per
    /// record, under that record's current attribute value.
    pub closed spec fn wf(self) -> bool {
        &&& self.primary.wf()
        &&& self.idx.person.wf()
        &&& self.idx.group.wf()
        &&& self.idx.role.wf()
        &&& forall|k: Seq<u8>|
            #[trigger] self.primary@.contains_key(k) ==> k.len() == 8 && person_attr_of(
                self.primary@[k],
            ).len() <= MAX_PART_LEN
        &&& index_consistent(self.idx.person, self.primary@, |m: NewMembership| person_attr_of(m))
        &&& index_consistent(self.idx.group, self.primary@, |m: NewMembership| group_attr_of(m))
        &&& index_consistent(self.idx.role, self.primary@, |m: NewMembership| role_attr_of(m))
    }

    /// Read the membership stored under the identifier `id`, if any.
    pub fn load(&self, id: u64) -> (r: Option<&NewMembership>)
        requires
            self.wf(),
        ensures
            match r {
                Some(m) => self@.contains_key(id) && *m == self@[id],
                None => !self@.contains_key(id),
            },
    {
        let pk = u64_to_be(id);
        self.primary.get(pk.as_slice())
    }

    /// Store `record` under the identifier `id`, overwriting any record
    /// already there and re-deriving every index entry for it.
    pub fn save(&mut self, id: u64, record: NewMembership)
        requires
            old(self).wf(),
            person_attr_of(record).len() <= MAX_PART_LEN,
        ensures
            final(self).wf(),
            final(self)@ == old(self)@.insert(id, record),
    {
        let pk = u64_to_be(id);
        let new_person = str_key_bytes(record.person.as_str());
        let new_group = u64_to_be(record.group_id);
        let new_role = record.role.key();
        let ghost rec_ghost = record;
        let ghost pkb = pk@;
        let ghost old_primary = self.primary@;

        let old_info: Option<(Vec<u8>, Vec<u8>, Vec<u8>)> = match self.primary.get(pk.as_slice()) {
            Some(r) => Some((str_key_bytes(r.person.as_str()), u64_to_be(r.group_id), r.role.key())),
            None => None,
        };

        let pk_store = u64_to_be(id);
        self.primary.put(pk_store, record);

        match old_info {
            Some((old_person, old_group, old_role)) => {
                if !bytes_eq(old_person.as_slice(), new_person.as_slice()) {
                    self.idx.person.remove_entry(old_person.as_slice(), pk.as_slice());
                    self.idx.person.insert_entry(new_person.as_slice(), pk.as_slice());
                }
                if !bytes_eq(old_group.as_slice(), new_group.as_slice()) {
                    self.idx.group.remove_entry(old_group.as_slice(), pk.as_slice());
                    self.idx.group.insert_entry(new_group.as_slice(), pk.as_slice());
                }
                if !bytes_eq(old_role.as_slice(), new_role.as_slice()) {
                    self.idx.role.remove_entry(old_role.as_slice(), pk.as_slice());
                    self.idx.role.insert_entry(new_role.as_slice(), pk.as_slice());
                }
            },
            None => {
                self.idx.person.insert_entry(new_person.as_slice(), pk.as_slice());
                self.idx.group.insert_entry(new_group.as_slice(), pk.as_slice());
                self.idx.role.insert_entry(new_role.as_slice(), pk.as_slice());
            },
        }

        proof {
            assert(self.primary@ == old_primary.insert(pkb, rec_ghost));
            assert forall|k: Seq<u8>| #[trigger] self.primary@.contains_key(k) implies k.len() == 8
                && person_attr_of(self.primary@[k]).len() <= MAX_PART_LEN by {
                if k != pkb {
                    assert(old_primary.contains_key(k));
                    assert(old(self).primary@.contains_key(k));
                }
            }
            assert forall|a: Seq<u8>, p: Seq<u8>|
                a.len() <= MAX_PART_LEN && p.len() <= MAX_PART_LEN implies #[trigger] self
                .idx.person.has_entry(a, p) == (self.primary@.contains_key(p) && a
                == person_attr_of(self.primary@[p])) by {
                assert(old(self).idx.person.has_entry(a, p) == (old_primary.contains_key(p) && a
                    == person_attr_of(old_primary[p])));
            }
            assert forall|a: Seq<u8>, p: Seq<u8>|
                a.len() <= MAX_PART_LEN && p.len() <= MAX_PART_LEN implies #[trigger] self
                .idx.group.has_entry(a, p) == (self.primary@.contains_key(p) && a
                == group_attr_of(self.primary@[p])) by {
                assert(old(self).idx.group.has_entry(a, p) == (old_primary.contains_key(p) && a
                    == group_attr_of(old_primary[p])));
            }
            assert forall|a: Seq<u8>, p: Seq<u8>|
                a.len() <= MAX_PART_LEN && p.len() <= MAX_PART_LEN implies #[trigger] self
                .idx.role.has_entry(a, p) == (self.primary@.contains_key(p) && a
                == role_attr_of(self.primary@[p])) by {
                assert(old(self).idx.role.has_entry(a, p) == (old_primary.contains_key(p) && a
                    == role_attr_of(old_primary[p])));
            }
            assert forall|i: u64| #[trigger] self@.contains_key(i) == old(self)@.insert(
                id,
                rec_ghost,
            ).contains_key(i) && (self@.contains_key(i) ==> self@[i] == old(self)@.insert(
                id,
                rec_ghost,
            )[i]) by {
                if u64_be(i) == pkb {
                    lemma_u64_be_injective(i, id);
                }
            }
            assert(self@ =~= old(self)@.insert(id, rec_ghost));
        }
    }

    /// Remove the membership stored under `id` and every index entry made
    /// for it; `NotFound` exactly when no record is there.
    pub fn delete(&mut self, id: u64) -> (r: Result<(), StoreError>)
        requires
            old(self).wf(),
        ensures
            final(self).wf(),
            old(self)@.contains_key(id) ==> r == Ok::<(), StoreError>(()) && final(self)@ == old(
                self,
            )@.remove(id),
            !old(self)@.contains_key(id) ==> r == Err::<(), StoreError>(StoreError::NotFound)
                && final(self)@ == old(self)@,
    {
        let pk = u64_to_be(id);
        let ghost pkb = pk@;
        let ghost old_primary = self.primary@;
        let old_info: Option<(Vec<u8>, Vec<u8>, Vec<u8>)> = match self.primary.get(pk.as_slice()) {
            Some(r) => Some(
                (str_key_bytes(r.person.as_str()), u64_to_be(r.group_id), r.role.key()),
            ),
            None => None,
        };
        match old_info {
            None => Err(StoreError::NotFound),
            Some((old_person, old_group, old_role)) => {
                self.primary.delete(pk.as_slice());
                self.idx.person.remove_entry(old_person.as_slice(), pk.as_slice());
                self.idx.group.remove_entry(old_group.as_slice(), pk.as_slice());
                self.idx.role.remove_entry(old_role.as_slice(), pk.as_slice());
                proof {
                    assert(self.primary@ == old_primary.remove(pkb));
                    assert forall|k: Seq<u8>| #[trigger] self.primary@.contains_key(k) implies
                        k.len() == 8 && person_attr_of(self.primary@[k]).len()
                        <= MAX_PART_LEN by {
                        assert(old(self).primary@.contains_key(k));
                    }
                    assert forall|a: Seq<u8>, p: Seq<u8>|
                        a.len() <= MAX_PART_LEN && p.len() <= MAX_PART_LEN implies #[trigger] self
                        .idx.person.has_entry(a, p) == (self.primary@.contains_key(p) && a
                        == person_attr_of(self.primary@[p])) by {
                        assert(old(self).idx.person.has_entry(a, p) == (old_primary.contains_key(p)
                            && a == person_attr_of(old_primary[p])));
                    }
                    assert forall|a: Seq<u8>, p: Seq<u8>|
                        a.len() <= MAX_PART_LEN && p.len() <= MAX_PART_LEN implies #[trigger] self
                        .idx.group.has_entry(a, p) == (self.primary@.contains_key(p) && a
                        == group_attr_of(self.primary@[p])) by {
                        assert(old(self).idx.group.has_entry(a, p) == (old_primary.contains_key(p)
                            && a == group_attr_of(old_primary[p])));
                    }
                    assert forall|a: Seq<u8>, p: Seq<u8>|
                        a.len() <= MAX_PART_LEN && p.len() <= MAX_PART_LEN implies #[trigger] self
                        .idx.role.has_entry(a, p) == (self.primary@.contains_key(p) && a
                        == role_attr_of(self.primary@[p])) by {
                        assert(old(self).idx.role.has_entry(a, p) == (old_primary.contains_key(p)
                            && a == role_attr_of(old_primary[p])));
                    }
                    assert forall|i: u64| #[trigger] self@.contains_key(i) == old(self)@.remove(
                        id,
                    ).contains_key(i) && (self@.contains_key(i) ==> self@[i] == old(self)@.remove(
                        id,
                    )[i]) by {
                        if u64_be(i) == pkb {
                            lemma_u64_be_injective(i, id);
                        }
                    }
                    assert(self@ =~= old(self)@.remove(id));
                }
                Ok(())
            },
        }
    }

    /// `r@[t]` is a pair of an identifier and the record the store holds
    /// under it.
    pub open spec fn entry_ok(self, e: (u64, NewMembership)) -> bool {
        self@.contains_key(e.0) && self@[e.0] == e.1
    }

    /// Turn the primary keys one index scan returned into pairs of
    /// identifier and record.
    fn resolve(&self, pks: &Vec<Vec<u8>>) -> (r: Vec<(u64, NewMembership)>)
        requires
            self.wf(),
            forall|t: int|
                0 <= t < pks@.len() ==> self.primary@.contains_key((#[trigger] pks@[t])@),
        ensures
            r@.len() == pks@.len(),
            forall|t: int|
                0 <= t < r@.len() ==> u64_be((#[trigger] r@[t]).0) == pks@[t]@ && r@[t].1
                    == self.primary@[pks@[t]@],
    {
        let n = pks.len();
        let mut r: Vec<(u64, NewMembership)> = Vec::new();
        let mut i: usize = 0;
        while i < n
            invariant
                self.wf(),
                n == pks@.len(),
                i <= n,
                r@.len() == i,
                forall|t: int|
                    0 <= t < pks@.len() ==> self.primary@.contains_key((#[trigger] pks@[t])@),
                forall|t: int|
                    0 <= t < i ==> u64_be((#[trigger] r@[t]).0) == pks@[t]@ && r@[t].1
                        == self.primary@[pks@[t]@],
            decreases n - i,
        {
            let pk = &pks[i];
            let id = u64_from_be(pk.as_slice());
            if let Some(rec) = self.primary.get(pk.as_slice()) {
                r.push((id, rec.duplicate()));
            } else {
                proof {
                    assert(false);
                }
            }
            i = i + 1;
        }
        r
    }

    /// All memberships whose role is `role`, as pairs of identifier and
    /// record, in ascending identifier order.
    pub fn query_by_role(&self, role: Role) -> (r: Vec<(u64, NewMembership)>)
        requires
            self.wf(),
        ensures
            forall|t: int|
                0 <= t < r@.len() ==> self.entry_ok(#[trigger] r@[t]) && r@[t].1.role == role,
            forall|i: u64|
                #[trigger] self@.contains_key(i) && self@[i].role == role ==> exists|t: int|
                    0 <= t < r@.len() && (#[trigger] r@[t]).0 == i,
            forall|t1: int, t2: int| 0 <= t1 < t2 < r@.len() ==> r@[t1].0 < r@[t2].0,
    {
        let key = role.key();
        let pks = self.idx.role.scan_by(key.as_slice());
        proof {
            assert forall|t: int|
                0 <= t < pks@.len() implies self.primary@.contains_key(
                (#[trigger] pks@[t])@) && role_attr_of(self.primary@[pks@[t]@])
                == role.key_bytes() by {
                assert(self.idx.role.has_entry(role.key_bytes(), pks@[t]@));
            }
        }
        let r = self.resolve(&pks);
        proof {
            self.lemma_query_shape(pks@, r@, role.key_bytes());
            assert forall|t: int| 0 <= t < r@.len() implies self.entry_ok(#[trigger] r@[t])
                && r@[t].1.role == role by {
                assert(role_attr_of(self.primary@[pks@[t]@]) == role.key_bytes());
                assert(r@[t].1.role.key_bytes()[0] == role.key_bytes()[0]);
                assert(r@[t].1.role.discriminant() == role.discriminant());
            }
            assert forall|i: u64|
                #[trigger] self@.contains_key(i) && self@[i].role == role implies exists|t: int|
                0 <= t < r@.len() && (#[trigger] r@[t]).0 == i by {
                assert(self.idx.role.has_entry(role.key_bytes(), u64_be(i)) == (
                self.primary@.contains_key(u64_be(i)) && role.key_bytes() == role_attr_of(
                    self.primary@[u64_be(i)],
                )));
                assert(self.idx.role.has_entry(role.key_bytes(), u64_be(i)));
                let t = choose|t: int| 0 <= t < pks@.len() && (#[trigger] pks@[t])@ == u64_be(i);
                lemma_u64_be_injective(r@[t].0, i);
            }
        }
        r
    }

    /// Identifier order of resolved pairs follows the scan order of the
    /// eight-byte primary keys an index scan returned.
    proof fn lemma_query_shape(
        self,
        pks: Seq<Vec<u8>>,
        r: Seq<(u64, NewMembership)>,
        attr: Seq<u8>,
    )
        requires
            self.wf(),
            r.len() == pks.len(),
            forall|t: int|
                0 <= t < r.len() ==> u64_be((#[trigger] r[t]).0) == pks[t]@ && r[t].1
                    == self.primary@[pks[t]@],
            forall|t: int| 0 <= t < pks.len() ==> self.primary@.contains_key((#[trigger] pks[t])@),
            forall|t1: int, t2: int|
                0 <= t1 < t2 < pks.len() ==> lex_lt(
                    length_prefixed(#[trigger] pks[t1]@),
                    length_prefixed(#[trigger] pks[t2]@),
                ),
        ensures
            forall|t1: int, t2: int| 0 <= t1 < t2 < r.len() ==> r[t1].0 < r[t2].0,
            forall|t: int|
                0 <= t < r.len() ==> self.entry_ok(#[trigger] r[t]),
    {
        assert forall|t1: int, t2: int| 0 <= t1 < t2 < r.len() implies r[t1].0 < r[t2].0 by {
            lemma_lp_u64_order(r[t1].0, r[t2].0);
        }
        assert forall|t: int| 0 <= t < r.len() implies self.entry_ok(#[trigger] r[t]) by {
            assert(self.primary@.contains_key(u64_be(r[t].0)));
        }
    }

    /// All memberships of the group `group_id`, as pairs of identifier and
    /// record, in ascending identifier order.
    pub fn query_by_group(&self, group_id: u64) -> (r: Vec<(u64, NewMembership)>)
        requires
            self.wf(),
        ensures
            forall|t: int|
                0 <= t < r@.len() ==> self.entry_ok(#[trigger] r@[t]) && r@[t].1.group_id
                    == group_id,
            forall|i: u64|
                #[trigger] self@.contains_key(i) && self@[i].group_id == group_id ==> exists|
                    t: int,
                | 0 <= t < r@.len() && (#[trigger] r@[t]).0 == i,
            forall|t1: int, t2: int| 0 <= t1 < t2 < r@.len() ==> r@[t1].0 < r@[t2].0,
    {
        let key = u64_to_be(group_id);
        let pks = self.idx.group.scan_by(key.as_slice());
        proof {
            assert forall|t: int|
                0 <= t < pks@.len() implies self.primary@.contains_key((#[trigger] pks@[t])@)
                && group_attr_of(self.primary@[pks@[t]@]) == u64_be(group_id) by {
                assert(self.idx.group.has_entry(u64_be(group_id), pks@[t]@));
            }
        }
        let r = self.resolve(&pks);
        proof {
            self.lemma_query_shape(pks@, r@, u64_be(group_id));
            assert forall|t: int| 0 <= t < r@.len() implies self.entry_ok(#[trigger] r@[t])
                && r@[t].1.group_id == group_id by {
                assert(group_attr_of(self.primary@[pks@[t]@]) == u64_be(group_id));
                lemma_u64_be_injective(r@[t].1.group_id, group_id);
            }
            assert forall|i: u64|
                #[trigger] self@.contains_key(i) && self@[i].group_id == group_id implies exists|
                t: int,
            | 0 <= t < r@.len() && (#[trigger] r@[t]).0 == i by {
                assert(self.idx.group.has_entry(u64_be(group_id), u64_be(i)) == (
                self.primary@.contains_key(u64_be(i)) && u64_be(group_id) == group_attr_of(
                    self.primary@[u64_be(i)],
                )));
                assert(self.idx.group.has_entry(u64_be(group_id), u64_be(i)));
                let t = choose|t: int| 0 <= t < pks@.len() && (#[trigger] pks@[t])@ == u64_be(i);
                lemma_u64_be_injective(r@[t].0, i);
            }
        }
        r
    }

    /// All memberships of the person `person`, as pairs of identifier and
    /// record, in ascending identifier order.
    pub fn query_by_person(&self, person: &str) -> (r: Vec<(u64, NewMembership)>)
        requires
            self.wf(),
            str_key(person@).len() <= MAX_PART_LEN,
        ensures
            forall|t: int|
                0 <= t < r@.len() ==> self.entry_ok(#[trigger] r@[t]) && r@[t].1.person@
                    == person@,
            forall|i: u64|
                #[trigger] self@.contains_key(i) && self@[i].person@ == person@ ==> exists|t: int|
                    0 <= t < r@.len() && (#[trigger] r@[t]).0 == i,
            forall|t1: int, t2: int| 0 <= t1 < t2 < r@.len() ==> r@[t1].0 < r@[t2].0,
    {
        let key = str_key_bytes(person);
        let pks = self.idx.person.scan_by(key.as_slice());
        proof {
            assert forall|t: int|
                0 <= t < pks@.len() implies self.primary@.contains_key((#[trigger] pks@[t])@)
                && person_attr_of(self.primary@[pks@[t]@]) == str_key(person@) by {
                assert(self.idx.person.has_entry(str_key(person@), pks@[t]@));
            }
        }
        let r = self.resolve(&pks);
        proof {
            self.lemma_query_shape(pks@, r@, str_key(person@));
            assert forall|t: int| 0 <= t < r@.len() implies self.entry_ok(#[trigger] r@[t])
                && r@[t].1.person@ == person@ by {
                assert(person_attr_of(self.primary@[pks@[t]@]) == str_key(person@));
                vstd::utf8::encode_utf8_decode_utf8(r@[t].1.person@);
                vstd::utf8::encode_utf8_decode_utf8(person@);
            }
            assert forall|i: u64|
                #[trigger] self@.contains_key(i) && self@[i].person@ == person@ implies exists|
                t: int,
            | 0 <= t < r@.len() && (#[trigger] r@[t]).0 == i by {
                assert(self.idx.person.has_entry(str_key(person@), u64_be(i)) == (
                self.primary@.contains_key(u64_be(i)) && str_key(person@) == person_attr_of(
                    self.primary@[u64_be(i)],
                )));
                assert(self.idx.person.has_entry(str_key(person@), u64_be(i)));
                let t = choose|t: int| 0 <= t < pks@.len() && (#[trigger] pks@[t])@ == u64_be(i);
                lemma_u64_be_injective(r@[t].0, i);
            }
        }
        r
    }

    /// All memberships whose role is any of `roles`: the concatenation of
    /// one scan per role. Distinct attribute values yield disjoint scans, so
    /// when the given roles are distinct no identifier appears twice and the
    /// result is exactly the union of the single-role queries.
    pub fn query_any_roles(&self, roles: &Vec<Role>) -> (r: Vec<(u64, NewMembership)>)
        requires
            self.wf(),
        ensures
            forall|t: int|
                0 <= t < r@.len() ==> self.entry_ok(#[trigger] r@[t]) && roles@.contains(
                    r@[t].1.role,
                ),
            forall|i: u64|
                #[trigger] self@.contains_key(i) && roles@.contains(self@[i].role) ==> exists|
                    t: int,
                | 0 <= t < r@.len() && (#[trigger] r@[t]).0 == i,
            (forall|b1: int, b2: int|
                0 <= b1 < b2 < roles@.len() ==> roles@[b1] != roles@[b2]) ==> forall|
                t1: int,
                t2: int,
            | 0 <= t1 < t2 < r@.len() ==> (#[trigger] r@[t1]).0 != (#[trigger] r@[t2]).0,
    {
        let n = roles.len();
        let mut r: Vec<(u64, NewMembership)> = Vec::new();
        let mut b: usize = 0;
        while b < n
            invariant
                self.wf(),
                n == roles@.len(),
                b <= n,
                forall|t: int|
                    0 <= t < r@.len() ==> self.entry_ok(#[trigger] r@[t]) && exists|bi: int|
                        0 <= bi < b && r@[t].1.role == roles@[bi],
                forall|i: u64, bi: int|
                    #[trigger] self@.contains_key(i) && 0 <= bi < b && self@[i].role == #[trigger]
                    roles@[bi] ==> exists|t: int| 0 <= t < r@.len() && (#[trigger] r@[t]).0 == i,
                (forall|b1: int, b2: int|
                    0 <= b1 < b2 < roles@.len() ==> roles@[b1] != roles@[b2]) ==> forall|
                    t1: int,
                    t2: int,
                | 0 <= t1 < t2 < r@.len() ==> (#[trigger] r@[t1]).0 != (#[trigger] r@[t2]).0,
            decreases n - b,
        {
            let ghost r_old = r@;
            let mut part = self.query_by_role(roles[b]);
            let ghost part_ghost = part@;
            r.append(&mut part);
            proof {
                assert(r@ == r_old + part_ghost);
                assert(forall|t: int| 0 <= t < r_old.len() ==> r@[t] == r_old[t]);
                assert(forall|t: int|
                    r_old.len() <= t < r@.len() ==> r@[t] == part_ghost[t - r_old.len()]);
                assert forall|t: int| 0 <= t < r@.len() implies self.entry_ok(#[trigger] r@[t])
                    && exists|bi: int| 0 <= bi < b + 1 && r@[t].1.role == roles@[bi] by {
                    if t >= r_old.len() {
                        assert(r@[t].1.role == roles@[b as int]);
                    }
                }
                assert forall|i: u64, bi: int|
                    #[trigger] self@.contains_key(i) && 0 <= bi < b + 1 && self@[i].role
                    == #[trigger] roles@[bi] implies exists|t: int|
                    0 <= t < r@.len() && (#[trigger] r@[t]).0 == i by {
                    if bi == b as int {
                        let t0 = choose|t: int|
                            0 <= t < part_ghost.len() && (#[trigger] part_ghost[t]).0 == i;
                        assert(r@[t0 + r_old.len()].0 == i);
                    } else {
                        let t0 = choose|t: int|
                            0 <= t < r_old.len() && (#[trigger] r_old[t]).0 == i;
                        assert(r@[t0].0 == i);
                    }
                }
                if forall|b1: int, b2: int|
                    0 <= b1 < b2 < roles@.len() ==> roles@[b1] != roles@[b2] {
                    assert forall|t1: int, t2: int|
                        0 <= t1 < t2 < r@.len() implies (#[trigger] r@[t1]).0 != (#[trigger] r@[
                        t2]).0 by {
                        if t1 < r_old.len() && t2 >= r_old.len() {
                            if r@[t1].0 == r@[t2].0 {
                                let bi = choose|bi: int|
                                    0 <= bi < b && r_old[t1].1.role == roles@[bi];
                                assert(r@[t1].1 == self@[r@[t1].0]);
                                assert(r@[t2].1 == self@[r@[t2].0]);
                                assert(roles@[bi] == roles@[b as int]);
                            }
                        }
                    }
                }
            }
            b = b + 1;
        }
        r
    }
}

/// The indexed membership store over its fixed namespaces, empty.
pub fn memberships() -> (s: MembershipStore)
    ensures
        s.wf(),
        s@ == Map::<u64, NewMembership>::empty(),
{
    let s = MembershipStore {
        primary: Table::new("membership"),
        idx: MembershipIndexes {
            person: SecondaryIndex::new("membership__person"),
            group: SecondaryIndex::new("membership__group"),
            role: SecondaryIndex::new("membership__role"),
        },
    };
    proof {
        assert(s@ =~= Map::<u64, NewMembership>::empty());
    }
    s
}

/// The store of groups: an identifier allocator and one primary table.
pub struct GroupStore {
    counter: IdAllocator,
    groups: Table<NewGroup>,
}

impl View for GroupStore {
    type V = Map<u64, NewGroup>;

    closed spec fn view(&self) -> Map<u64, NewGroup> {
        Map::new(
            |id: u64| self.groups@.contains_key(u64_be(id)),
            |id: u64| self.groups@[u64_be(id)],
        )
    }
}

impl GroupStore {
    /// The group table's internal invariant: well formed, and every stored
    /// group sits under an identifier the allocator has already issued, so a
    /// fresh identifier never lands on an existing record.
    pub closed spec fn wf(self) -> bool {
        &&& self.groups.wf()
        &&& forall|id: u64| #[trigger] self@.contains_key(id) ==> 1 <= id <= self.issued()
    }

    /// The group identifier issued last.
    pub closed spec fn issued(self) -> u64 {
        self.counter.last_issued()
    }

    /// An empty group store over its fixed namespaces.
    pub fn new() -> (s: GroupStore)
        ensures
            s.wf(),
            s.issued() == 0,
            s@ == Map::<u64, NewGroup>::empty(),
    {
        let s = GroupStore { counter: IdAllocator::new(), groups: Table::new("groups") };
        proof {
            assert(s@ =~= Map::<u64, NewGroup>::empty());
        }
        s
    }

    /// Read the group stored under the identifier `id`, if any.
    pub fn load(&self, id: u64) -> (r: Option<&NewGroup>)
        requires
            self.wf(),
        ensures
            match r {
                Some(g) => self@.contains_key(id) && *g == self@[id],
                None => !self@.contains_key(id),
            },
    {
        let pk = u64_to_be(id);
        self.groups.get(pk.as_slice())
    }
}

/// Issue the next group identifier: one more than the last, never reused.
pub fn next_group_counter(store: &mut GroupStore) -> (id: u64)
    requires
        old(store).issued() < u64::MAX,
    ensures
        id == old(store).issued() + 1,
        final(store).issued() == id,
        old(store).wf() ==> final(store).wf(),
        final(store)@ == old(store)@,
{
    let id = store.counter.next_id();
    proof {
        assert(store@ =~= old(store)@);
    }
    id
}

/// Save `group` under a freshly issued identifier and return it. The
/// identifier was never used before, so no record is overwritten.
pub fn save_group(store: &mut GroupStore, group: &NewGroup) -> (id: u64)
    requires
        old(store).wf(),
        old(store).issued() < u64::MAX,
    ensures
        final(store).wf(),
        id == old(store).issued() + 1,
        final(store).issued() == id,
        !old(store)@.contains_key(id),
        final(store)@ == old(store)@.insert(id, *group),
{
    let id = next_group_counter(store);
    let key = u64_to_be(id);
    let ghost old_view = store@;
    store.groups.put(key, NewGroup { name: group.name.clone() });
    proof {
        assert forall|i: u64| #[trigger] store@.contains_key(i) == old_view.insert(
            id,
            *group,
        ).contains_key(i) && (store@.contains_key(i) ==> store@[i] == old_view.insert(
            id,
            *group,
        )[i]) by {
            if u64_be(i) == u64_be(id) {
                lemma_u64_be_injective(i, id);
            }
        }
        assert(store@ =~= old_view.insert(id, *group));
    }
    id
}

} // verus!
