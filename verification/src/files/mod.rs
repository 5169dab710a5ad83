//! The virtual file system: logical locations resolved through mount points.

use vstd::prelude::*;

pub mod file_manager;
pub mod path;

verus! {

/// The error type of the standard library's input and output, carried
/// through untouched.
#[verifier::external_type_specification]
#[verifier::external_body]
pub struct ExIoError(std::io::Error);

/// Errors returned by the virtual file system.
pub enum FileError {
    /// The resolved path does not exist.
    NotFound,
    /// The mount point is not registered.
    InvalidMount,
    /// A required directory or file is missing.
    MissingRequired,
    /// An underlying I/O error.
    Io(std::io::Error),
}

} // verus!
