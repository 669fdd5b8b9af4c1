//! Failures of a plan rewrite.

use vstd::prelude::*;

verus! {

/// Why a rewrite was abandoned. A rewrite that fails yields no plan at all.
#[derive(Clone, Copy, Debug, PartialEq, Eq, Structural)]
pub enum PlanError {
    /// A node expected to be of a specific operator kind is of another one.
    KindMismatch,
    /// An operator could not be rebuilt over the children it was given.
    Reconstruction,
    /// The execution engine reported a failure. The calls that the rewrite
    /// makes into the engine have no failing path, so that no function of
    /// this library returns this error.
    Engine,
}

} // verus!
