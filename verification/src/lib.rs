//! A verified secondary-indexing layer over an ordered, byte-keyed store.
//!
//! Records are stored under opaque byte keys in one flat, ordered address
//! space and can be retrieved both by primary key and, through maintained
//! secondary indexes, by the values of chosen attributes.

use vstd::prelude::*;

pub mod codec;
pub mod counter;
pub mod index;
pub mod laws;
pub mod members;
pub mod order;
pub mod records;
pub mod table;

verus! {

/// Errors returned by the storage layer. Records are held typed, so decode
/// failures cannot arise here, and index inconsistencies are ruled out by the
/// stores' invariants; what remains is the one recoverable failure.
#[derive(Clone, Copy, Debug, PartialEq, Eq, Structural)]
pub enum StoreError {
    /// A load or delete named a primary key that holds no record.
    NotFound,
}

} // verus!
