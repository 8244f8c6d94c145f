//! Errors surfaced at the manifest boundary.

use vstd::prelude::*;
use crate::meta::NodeId;
use crate::path::RepoPathBuf;

verus! {

/// Everything a manifest operation can fail with.
#[derive(Debug)]
pub enum Error {
    /// A file sat on the path where a directory was required.
    FileWhereDirectoryExpected(RepoPathBuf),
    /// A directory sat where a file was required.
    DirectoryWhereFileExpected(RepoPathBuf),
    /// File metadata cannot be attached to the repository root.
    CannotInsertRoot,
    /// `remove` was pointed at a directory.
    RemoveDirectory(RepoPathBuf),
    /// The store has no entry under this `(path, node)` key.
    StoreNotFound(RepoPathBuf, NodeId),
    /// The store already holds a different entry under this `(path, node)` key.
    StoreConflict(RepoPathBuf, NodeId),
    /// A component name was empty or held a NUL or `/` byte.
    InvalidPathComponent,
    /// Entry elements were not strictly sorted by name.
    InvalidEntry,
    /// A chain of durable directories exceeded the traversal depth bound;
    /// only a cyclic or corrupt store can produce one.
    DepthLimitExceeded,
}

} // verus!
