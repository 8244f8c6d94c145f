//! A content-addressed tree manifest: the state of a repository's file tree
//! at one revision, mapping repository-relative paths to file identities.
//!
//! The tree is a trie whose interior nodes are either live (ephemeral,
//! editable) or opaque (durable, known by content hash, fetched from a
//! backing store on demand). It supports point lookup, insertion, removal,
//! ordered enumeration, flushing to the store, and two-tree difference.

pub mod cursor;
pub mod error;
pub mod hash;
pub mod link;
pub mod meta;
pub mod path;
pub mod store;
pub mod tree;

pub use cursor::{Cursor, Step};
pub use error::Error;
pub use link::Link;
pub use meta::{FileMetadata, FileType, NodeId};
pub use path::{PathComponentBuf, RepoPathBuf};
pub use store::{Element, Entry, Flag, Store, TestStore};
pub use tree::{diff, DiffEntry, DiffType, Tree};
