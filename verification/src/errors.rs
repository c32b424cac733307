//! What went wrong outside the library, as it is reported to it.

use vstd::prelude::*;

verus! {

/// The package manifests of the monorepo could not be enumerated.
#[derive(Clone, Debug, PartialEq, Eq)]
pub struct EnumeratePackageManifestsError {
    /// What the manifest source reported.
    pub message: String,
}

/// A configuration file could not be read or understood.
#[derive(Clone, Debug, PartialEq, Eq)]
pub struct FromFileError {
    /// The file in question.
    pub path: String,
    /// What the reader reported.
    pub message: String,
}

/// A configuration file could not be written.
#[derive(Clone, Debug, PartialEq, Eq)]
pub struct WriteError {
    /// The file in question.
    pub path: String,
    /// What the writer reported.
    pub message: String,
}

} // verus!
