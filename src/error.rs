//! Errors reported by the path source and its enumerators.
use vstd::prelude::*;

verus! {

/// Why an operation of the path source failed.
#[derive(Debug, PartialEq, Eq)]
pub enum SourceError {
    /// The source was queried before `update` ran; a fault of the caller.
    NotUpdated,
    /// No discovered package has the source's own directory as its root.
    NoRootPackage,
    /// An include or exclude glob did not compile.
    InvalidPattern { pattern: String, message: String },
    /// A path of a repository's index cannot be represented on this host; the
    /// path as recorded, undecodable bytes replaced.
    InvalidPath { path: String },
    /// The repository has no working tree to list files from.
    BareRepository,
    /// The repository's index could not be read.
    Index { message: String },
    /// A directory entry is not a declared submodule of its repository.
    Submodule { message: String },
    /// A directory could not be read.
    Io { message: String },
}

} // verus!
