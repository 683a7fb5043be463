//! The errors that stop a run.
use vstd::prelude::*;

verus! {

/// Why a run stopped. Each variant carries plain values only.
pub enum RipitError {
    /// The configuration file could not be opened.
    FailedOpenCfg { path: String },
    /// The configuration file could not be parsed.
    FailedParseCfg { path: String },
    /// A configured value is not valid; `field` names it.
    InvalidConfig { field: String },
    /// The local repository could not be opened.
    RepoOpen { path: String },
    /// The configured remote does not exist.
    RemoteMissing { name: String },
    /// The remote-tracking branch does not exist.
    BranchMissing { name: String },
    /// The working tree differs from `HEAD`.
    LocalChanges { paths: Vec<String> },
    /// No commit of the remote branch is known locally: bootstrap first.
    MissingBootstrap,
    /// `commit` has the parent `parent`, which is not known locally.
    UnknownParent { commit: String, parent: String },
    /// These remote commits could not be replayed without conflicts.
    Conflicts { commits: Vec<String> },
    /// The cache file lists `id`, which is missing or carries no marker.
    CacheCorrupt { id: String },
}

} // verus!
