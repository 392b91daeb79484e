use vstd::prelude::*;

verus! {

#[verifier::external_type_specification]
#[verifier::external_body]
pub struct ExPathBuf(std::path::PathBuf);

#[verifier::external_type_specification]
#[verifier::external_body]
pub struct ExIoError(std::io::Error);

/// Why a directory-based IFCCAD package could not be opened.
#[derive(Debug)]
pub enum PackageOpenError {
    /// The package root is not a directory.
    RootNotDirectory { path: std::path::PathBuf },
    /// A package path could not be accessed.
    Io { path: std::path::PathBuf, source: std::io::Error },
}

} // verus!
