//! Flat record types stored by primary key alone, and the counter state with
//! its pure decision rules. The hosting layer owns message handling and only
//! calls in with plain values.

use vstd::prelude::*;
use crate::order::bytes_eq;
use vstd::utf8::encode_utf8;

verus! {

/// The counter contract's persisted state.
#[derive(Clone, Debug, PartialEq)]
pub struct State {
    pub count: i32,
    pub owner: String,
}

/// The state after one increment: the count one higher, the owner kept.
pub fn increment_count(state: State) -> (r: State)
    requires
        state.count < i32::MAX,
    ensures
        r.count == state.count + 1,
        r.owner == state.owner,
{
    State { count: state.count + 1, owner: state.owner }
}

/// Whether `sender` is the owner recorded in `state`, and so may reset it.
pub fn can_reset(state: &State, sender: &str) -> (r: bool)
    ensures
        r == (state.owner@ == sender@),
{
    let r = bytes_eq(state.owner.as_str().as_bytes(), sender.as_bytes());
    proof {
        if encode_utf8(state.owner@) == encode_utf8(sender@) {
            vstd::utf8::encode_utf8_decode_utf8(state.owner@);
            vstd::utf8::encode_utf8_decode_utf8(sender@);
        }
    }
    r
}

/// The state after a reset: the count replaced, the owner kept.
pub fn reset_count(state: State, count: i32) -> (r: State)
    ensures
        r.count == count,
        r.owner == state.owner,
{
    State { count, owner: state.owner }
}

/// A person record of the flat data model, holding its memberships inline.
#[derive(Clone, Debug, PartialEq)]
pub struct Person {
    pub name: String,
    pub age: i32,
    pub membership_ids: Vec<String>,
}

/// A group record of the flat data model, holding its memberships inline.
#[derive(Clone, Debug, PartialEq)]
pub struct Group {
    pub name: String,
    pub membership_ids: Vec<String>,
}

/// A membership status of the flat data model.
#[derive(Clone, Debug, PartialEq)]
pub struct MembershipStatus {
    pub status: String,
    pub membership_ids: Vec<String>,
}

/// A membership of the flat data model, naming its person, group and status
/// by identifier.
#[derive(Clone, Debug, PartialEq)]
pub struct Membership {
    pub person_id: String,
    pub group_id: String,
    pub membership_status_id: String,
}

} // verus!
