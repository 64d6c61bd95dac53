//! The errors of the cache. Paths are carried as strings for diagnostics;
//! operating-system failures are carried as `std::io::Error`.
use vstd::prelude::*;

verus! {

#[verifier::external_type_specification]
#[verifier::external_body]
pub struct ExIoError(std::io::Error);

/// A failure while looking up an entry.
#[derive(Debug)]
pub enum EntryError {
    /// The key is empty, starts with `.`, or holds a character that is
    /// neither alphanumeric nor `.`.
    InvalidKey,
    ReadDir { path: String, source: std::io::Error },
    Open { path: String, source: std::io::Error },
    FileTime { source: std::io::Error },
    /// The entry's directory exists on disk but the index does not know it.
    Unexpected { key: String },
}

/// A failure while adding a file to an entry.
#[derive(Debug)]
pub enum InsertError {
    /// The file name breaks the same rule as keys.
    InvalidName,
    Create { path: String, source: std::io::Error },
    Write { path: String, source: std::io::Error },
    Metadata { path: String, source: std::io::Error },
    Reopen { path: String, source: std::io::Error },
    /// Making room failed: an evicted entry could not be deleted, or the
    /// byte count would not fit.
    Reserve { source: std::io::Error },
}

/// A failure of the directory walk.
#[derive(Debug)]
pub enum WalkError {
    ReadDir { source: std::io::Error, path: String },
    Canonicalize { source: std::io::Error, path: String },
    Metadata { source: std::io::Error, path: String },
}

impl WalkError {
    /// The path that the failed operation was applied to.
    pub fn path(&self) -> (r: &String)
        ensures
            r == match self {
                WalkError::ReadDir { path, .. } => path,
                WalkError::Canonicalize { path, .. } => path,
                WalkError::Metadata { path, .. } => path,
            },
    {
        match self {
            WalkError::ReadDir { path, .. } => path,
            WalkError::Canonicalize { path, .. } => path,
            WalkError::Metadata { path, .. } => path,
        }
    }
}

/// A failure to take the lock on a cache root.
#[derive(Debug)]
pub enum LockError {
    /// Another live instance holds the lock.
    AlreadyLocked,
    Create { source: std::io::Error },
    Other,
}

/// A failure to open a cache.
#[derive(Debug)]
#[allow(inconsistent_fields)]
pub enum Error {
    WalkDir { source: WalkError },
    Canonicalize { source: std::io::Error },
    /// A file under the root is not of the form `<key>/<name>`.
    Structure { path: String },
    Size { source: std::io::Error, path: String },
    Lock { source: LockError },
    /// Another live instance holds the root.
    AlreadyLocked,
}

} // verus!
