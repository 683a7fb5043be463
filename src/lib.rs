//! Replication of a remote commit graph into a local repository: message
//! rewriting, the provenance marker, the correspondence cache, the walk over
//! the remote graph and the per-commit replay plan.
pub mod text;
pub mod patterns;
pub mod message;
pub mod error;
pub mod options;
pub mod cache;
pub mod commit_map;
pub mod graph;
pub mod walker;
pub mod planner;
pub mod replay;
pub mod prompt;
pub mod orchestrator;
