//! The ways a marketplace transition can fail.
use vstd::prelude::*;

verus! {

/// Why a transition or a store operation was refused. A refused call leaves
/// every piece of state as it was.
#[derive(Clone, Copy, Debug, PartialEq, Eq, Structural)]
pub enum ContractError {
    /// No listing is stored under the requested id.
    NotFound,
    /// A listing is already stored under the id being created.
    DuplicateKey,
    /// The amount tendered is below the asking price.
    InsufficientFunds,
    /// The caller may not perform this operation.
    Unauthorized,
    /// A counter has reached the largest value it can hold.
    Overflow,
    /// A stored listing id was not issued by the listing counter.
    InvalidId,
}

} // verus!
