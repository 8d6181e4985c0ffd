//! What can go wrong.

use vstd::prelude::*;

verus! {

/// The error of a file operation.
#[verifier::external_type_specification]
#[verifier::external_body]
pub struct ExIoError(std::io::Error);

/// Why an operation failed.
#[derive(Debug)]
pub enum DecSyncError {
    /// A file operation failed.
    IOError(std::io::Error),
    /// A line is not an entry.
    InvalidEntry(serde_json::Error),
    /// The information about the directory cannot be read.
    InvalidInfo,
    /// The directory has a format that is not supported.
    UnsupportedVersion {
        /// The supported version.
        supported: i64,
        /// The version of the directory.
        found: i64,
    },
    /// Anything else.
    Unknown,
}

} // verus!
