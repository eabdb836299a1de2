//! Error kinds surfaced by the store and the controller.
//!
//! Every failure is a recoverable result; nothing in the library panics.

use vstd::prelude::*;

verus! {

/// The failure categories of the document store.
#[derive(Clone, Copy, Debug, PartialEq, Eq, Structural)]
pub enum Error {
    /// A store lookup missed: no blob or named sequence under that key.
    NotFound,
    /// A branch of the given name is not registered.
    BranchNotFound,
    /// The branch exists but has never received a version.
    NoVersions,
    /// A commit was issued against a version that is no longer the head.
    StaleVersion,
    /// A fork targeted a branch name that is already taken.
    BranchAlreadyExists,
    /// No page with the requested id is reachable in the version's tree.
    PageNotFound,
    /// The current page has no child under the requested id.
    ChildNotFound,
    /// A stored blob did not have the shape the caller expected.
    CorruptPage,
    /// A location's path is empty where a version or end address is needed.
    EmptyLocation,
    /// A path derivation was applied to a location that cannot support it.
    InvalidPath,
    /// Two distinct payloads hashed to one address; the store refuses to
    /// overwrite immutable history and reports the clash instead.
    AddressCollision,
}

} // verus!
