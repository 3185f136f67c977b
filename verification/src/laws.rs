//! The library's general guarantees, stated over the map model that the
//! membership store's contracts speak of: `save` ensures the model gains the
//! record, `delete` ensures it loses it, `load` and the queries ensure their
//! answers read off the model exactly.

use vstd::prelude::*;
use crate::members::{NewMembership, Role};

verus! {

/// `query_by_role(role)` yields `id` exactly when this holds of the store's
/// model.
pub open spec fn role_matches(s: Map<u64, NewMembership>, id: u64, role: Role) -> bool {
    s.contains_key(id) && s[id].role == role
}

/// `query_by_group(group_id)` yields `id` exactly when this holds of the
/// store's model.
pub open spec fn group_matches(s: Map<u64, NewMembership>, id: u64, group_id: u64) -> bool {
    s.contains_key(id) && s[id].group_id == group_id
}

/// `query_by_person(person)` yields `id` exactly when this holds of the
/// store's model.
pub open spec fn person_matches(s: Map<u64, NewMembership>, id: u64, person: Seq<char>) -> bool {
    s.contains_key(id) && s[id].person@ == person
}

/// Round trip: loading under an identifier right after saving a record there
/// returns that record, whatever the store held before.
pub proof fn lemma_save_then_load(s: Map<u64, NewMembership>, id: u64, m: NewMembership)
    ensures
        s.insert(id, m).contains_key(id),
        s.insert(id, m)[id] == m,
{
}

/// Updating a membership's role moves its entry: after the save, a role
/// query for the old value no longer yields the identifier, one for the new
/// value does, and the answers for every other identifier are unchanged.
pub proof fn lemma_update_moves_role(s: Map<u64, NewMembership>, id: u64, m_new: NewMembership)
    requires
        s.contains_key(id),
        s[id].role != m_new.role,
    ensures
        !role_matches(s.insert(id, m_new), id, s[id].role),
        role_matches(s.insert(id, m_new), id, m_new.role),
        forall|i: u64, role: Role|
            i != id ==> #[trigger] role_matches(s.insert(id, m_new), i, role) == role_matches(
                s,
                i,
                role,
            ),
{
}

/// After a delete, no scan of any of the three indexes yields the deleted
/// identifier, and the answers for every other identifier are unchanged.
pub proof fn lemma_delete_removes(s: Map<u64, NewMembership>, id: u64)
    ensures
        forall|role: Role| !(#[trigger] role_matches(s.remove(id), id, role)),
        forall|g: u64| !(#[trigger] group_matches(s.remove(id), id, g)),
        forall|p: Seq<char>| !(#[trigger] person_matches(s.remove(id), id, p)),
        forall|i: u64, role: Role|
            i != id ==> #[trigger] role_matches(s.remove(id), i, role) == role_matches(s, i, role),
{
}

} // verus!
