//! Descriptors of what a scan finds: files, and directories still to read.

use vstd::prelude::*;
use std::path::PathBuf;
use crate::digest::{seahash, seahash_of};

verus! {

/// `std::path::PathBuf`, carried through unread: nothing here looks inside a path.
#[verifier::external_type_specification]
#[verifier::external_body]
pub struct ExPathBuf(std::path::PathBuf);

/// `PathBuf::clone`.
///
/// Trusted: the copy is the same path as the one it was made from.
pub assume_specification[ <std::path::PathBuf as Clone>::clone ](path: &std::path::PathBuf) -> (copy:
    std::path::PathBuf)
    ensures
        copy == *path,
;

/// One regular, non-empty file that a scan came across.
#[derive(Debug, Clone, PartialEq, Eq)]
pub struct File {
    /// Where the file is.
    pub path: PathBuf,
    /// Its length in bytes, as read when it was found.
    pub size: u64,
    /// The digest of its content, once that has been read.
    pub digest: Option<u64>,
}

impl File {
    /// A descriptor of the file at `path` with `size` bytes, not yet hashed.
    pub fn new(path: &PathBuf, size: u64) -> (file: File)
        ensures
            file == (File { path: *path, size, digest: None }),
    {
        File { path: path.clone(), size, digest: None }
    }

    /// The same file with its digest set.
    pub fn with_digest(self, digest: u64) -> (file: File)
        ensures
            file == (File { digest: Some(digest), ..self }),
    {
        File { path: self.path, size: self.size, digest: Some(digest) }
    }

    /// The same file with the digest of `content` set, as a specification.
    pub open spec fn spec_hashed(self, content: Seq<u8>) -> File {
        File { digest: Some(seahash_of(content)), ..self }
    }

    /// The same file with the digest of `content` set.
    pub fn hashed(self, content: &[u8]) -> (file: File)
        ensures
            file == self.spec_hashed(content@),
    {
        let digest = seahash(content);
        self.with_digest(digest)
    }
}

/// One directory that is waiting to be read.
#[derive(Debug, Clone, PartialEq, Eq)]
pub struct Dir {
    /// Where the directory is.
    pub path: PathBuf,
    /// How many more levels may be entered below it, under a limited mode.
    pub depth: u8,
}

} // verus!
