//! What can go wrong during a scan.

use vstd::prelude::*;
use std::path::PathBuf;

verus! {

/// A failure met while setting up or running a scan.
///
/// Only `InvalidRecursionDepth` stops a scan, before it starts. The others
/// concern one directory, entry or file: it is left out and the scan goes on.
#[derive(Debug, Clone, PartialEq, Eq)]
pub enum ScanError {
    /// The entries of the directory at `path` could not be listed.
    DirectoryReadError { path: PathBuf },
    /// The metadata of the entry at `path` could not be read.
    MetadataError { path: PathBuf },
    /// The content of the file at `path` could not be read.
    FileReadError { path: PathBuf },
    /// The text given for the recursion depth is none of the accepted forms.
    InvalidRecursionDepth,
}

} // verus!
