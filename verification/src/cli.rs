//! The arguments of the command-line subcommands.

use vstd::prelude::*;

verus! {

/// Arguments for `chunklog init`.
pub struct InitArgs {
    /// Directory to initialize (defaults to the current directory).
    pub path: Option<std::path::PathBuf>,
}

/// Arguments for `chunklog commit`.
pub struct CommitArgs {
    /// Commit message.
    pub message: String,
}

/// Arguments for `chunklog branch`.
pub struct BranchArgs {
    /// Name of the branch to create.
    pub name: Option<String>,
    /// Delete the named branch.
    pub delete: bool,
}

/// Arguments for `chunklog checkout`.
pub struct CheckoutArgs {
    /// Branch name or commit hash to switch to.
    pub target: String,
    /// Create a new branch at the current HEAD and switch to it.
    pub create: bool,
}

/// Arguments for `chunklog diff`.
pub struct DiffArgs {
    /// Commit or branch to diff from (defaults to the empty world).
    pub from: Option<String>,
    /// Commit or branch to diff to (defaults to HEAD).
    pub to: Option<String>,
}

} // verus!
