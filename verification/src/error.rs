use vstd::prelude::*;

verus! {

/// Every way an operation of this library can fail.
#[derive(Debug, Clone, Copy, PartialEq, Eq, Structural)]
pub enum CoreError {
    /// A repository of that name is already registered.
    DuplicateName,
    /// No repository of that name is registered.
    NotFound,
    /// The repository holds no template of that name.
    TemplateNotFound,
    /// The repository holds no template at all.
    NoTemplates,
    /// A local repository has no directory on disk.
    LocalPathMissing,
    /// Fetching or refreshing a remote repository failed.
    SyncFailed,
    /// The workspace path exists and is not a directory.
    TargetObstructed,
    /// A template entry could not be read or written.
    CopyFailed,
    /// The registry could not be saved.
    PersistenceFailed,
}

} // verus!
