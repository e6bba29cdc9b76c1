//! MiniGit: a small content-addressed version control system.
//!
//! The library holds the repository logic: the object model and its on-disk
//! encoding, content hashing, the index, branches, history walks and
//! three-way merges. The repository's files are handed to it as a
//! [`repo::Store`]; every change it makes is recorded as an [`repo::Effect`]
//! that the caller carries out on disk.

pub mod branch;
pub mod digest;
pub mod pathmap;
pub mod history;
pub mod json;
pub mod laws;
pub mod merge;
pub mod mergeop;
pub mod object;
pub mod path;
pub mod repo;
pub mod setup;
pub mod staging;
pub mod text;
pub mod worktree;

pub use digest::{hash_bytes, ObjectHash};
pub use mergeop::MergeOutcome;
pub use object::{Blob, Commit, Object, Tree, TreeEntry};
pub use repo::Repository;
pub use staging::RepositoryStatus;
