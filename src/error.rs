use vstd::prelude::*;

verus! {

/// Why a checkout was refused.
#[derive(Debug, Clone, Copy, PartialEq, Eq, Structural)]
pub enum UnsafeReason {
    /// A file that is not tracked would be overwritten by the target.
    WouldOverwriteUntracked,
    /// A locally modified tracked file would lose its changes.
    WouldLoseLocalChanges,
}

/// The errors of the engine.
#[derive(Debug, Clone, PartialEq, Eq)]
pub enum VcsError {
    /// The repository metadata is missing.
    RepositoryNotFound,
    /// An object's bytes are malformed.
    CorruptObject,
    /// A referenced hash is absent from the object store.
    ObjectNotFound,
    /// A commit was attempted while HEAD is detached.
    DetachedHead,
    /// The branch to create already exists.
    BranchExists,
    /// A checkout target is neither a branch nor an existing commit hash.
    AmbiguousOrInvalidTarget,
    /// A checkout was refused: the offending path, and why.
    UnsafeCheckout { path: Vec<u8>, reason: UnsafeReason },
    /// HEAD names something that cannot be resolved.
    UnresolvedHead,
    /// A tree is nested deeper than the walk allows.
    TooDeep,
}

} // verus!
