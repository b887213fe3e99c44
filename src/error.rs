use vstd::prelude::*;

verus! {

/// `std::io::Error` is carried through the library without being inspected.
#[verifier::external_type_specification]
#[verifier::external_body]
pub struct ExIoError(std::io::Error);

/// Why a sandbox could not be opened or closed.
#[derive(Debug)]
pub enum JailError {
    /// The ephemeral directory could not be created.
    TempDirCreationFailed(std::io::Error),
    /// The working directory could not be read or changed.
    DirectoryChangeFailed(std::io::Error),
    /// The ephemeral directory could not be deleted.
    DirectoryDeletionFailed(std::io::Error),
}

impl JailError {
    /// The underlying I/O error.
    pub fn into_source(self) -> (r: std::io::Error)
        ensures
            r == match self {
                JailError::TempDirCreationFailed(e) => e,
                JailError::DirectoryChangeFailed(e) => e,
                JailError::DirectoryDeletionFailed(e) => e,
            },
    {
        match self {
            JailError::TempDirCreationFailed(e) => e,
            JailError::DirectoryChangeFailed(e) => e,
            JailError::DirectoryDeletionFailed(e) => e,
        }
    }
}

} // verus!
