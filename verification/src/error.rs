//! The ways in which a request can fail.

use vstd::prelude::*;

verus! {

/// Why an allocation was refused.
#[derive(Clone, Copy, Debug, PartialEq, Eq, Structural)]
pub enum AllocErr {
    /// The stack or chain that was asked has no room for the request.
    OutOfCapacity,
    /// The size is zero or larger than any size category.
    OutOfCategory,
    /// No chain can serve the request and no chain could be extended.
    OutOfMemory,
}

/// An allocation cannot change its size where it stands.
#[derive(Clone, Copy, Debug, PartialEq, Eq, Structural)]
pub struct CannotReallocInPlace;

} // verus!
