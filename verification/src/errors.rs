//! The failure taxonomy of an update run. Every variant but the lock step's
//! (which is observed, never escalated) aborts the run.

use vstd::prelude::*;

verus! {

#[derive(Clone, Copy, Debug, PartialEq, Eq, Structural)]
pub enum UpdateError {
    /// The workspace metadata provider failed or produced undecodable output.
    MetadataUnavailable,
    /// A member-location string did not carry the expected `file://...)` shape.
    MalformedMemberLocation,
    /// A manifest file could not be read.
    ManifestUnreadable,
    /// A manifest file could not be written back.
    ManifestUnwritable,
}

} // verus!
