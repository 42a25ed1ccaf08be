//! Content digests.

use vstd::prelude::*;
use crate::error::ScanError;
use crate::file::File;

verus! {

/// The SeaHash digest of a byte string.
///
/// The digest is a function of the bytes alone, the same on every machine;
/// its definition is the one of the `seahash` crate and is not restated here.
pub uninterp spec fn seahash_of(bytes: Seq<u8>) -> u64;

/// Calls `seahash::hash`.
///
/// Trusted: the result is the SeaHash digest of the given bytes, which
/// `seahash_of` names. The call reads the buffer and nothing else, and it
/// returns for every buffer.
#[verifier::external_body]
pub(crate) fn seahash(bytes: &[u8]) -> (digest: u64)
    ensures
        digest == seahash_of(bytes@),
{
    seahash::hash(bytes)
}

/// The second pass on one file, given what reading it gave: the file with
/// the digest of its content, or, where it could not be read, the error that
/// leaves it out.
pub fn hash_file(file: File, content: Option<Vec<u8>>) -> (hashed: Result<File, ScanError>)
    ensures
        hashed == match content {
            Some(bytes) => Ok::<File, ScanError>(file.spec_hashed(bytes@)),
            None => Err(ScanError::FileReadError { path: file.path }),
        },
{
    match content {
        Some(bytes) => Ok(file.hashed(bytes.as_slice())),
        None => Err(ScanError::FileReadError { path: file.path }),
    }
}

} // verus!
