//! The failures that the engine reports.

use vstd::prelude::*;

verus! {

/// Why a tree operation, a path resolution or a migration run failed.
#[derive(Debug, PartialEq, Eq)]
pub enum MigrationError {
    /// A path names a value where a prefix was asked for, or a prefix where a
    /// value was asked for.
    PathKindMismatch,
    /// No steps of the registry join the two versions.
    NoPathFound,
    /// Two edges leave one version in the same direction towards different
    /// versions.
    AmbiguousPath,
    /// The requested direction disagrees with the order of the two versions,
    /// or the two are joined only by steps of both directions; also, a step
    /// that leads from a version to the same version.
    InvalidDirection,
    /// The operation of the step with the given index failed for the given
    /// reason.
    OperationFailed(usize, Box<MigrationError>),
}

} // verus!
