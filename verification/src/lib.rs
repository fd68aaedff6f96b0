//! A minimal version-control client core: content-addressed object storage,
//! working-tree materialization, reference handling and branch listing, and
//! the state machine of a clone operation.

pub mod order;
pub mod name;
pub mod branches;
pub mod oid;
pub mod object;
pub mod errors;
pub mod store;
pub mod checkout;
pub mod repo;
pub mod clone;

use vstd::prelude::*;

verus! {

} // verus!
