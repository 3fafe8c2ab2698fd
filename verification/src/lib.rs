//! Workspace dependency updater: locates the manifest files of a workspace,
//! rewrites a pinned dependency's version string in place wherever a
//! declaration line mentions it, and reports which manifests changed.
//!
//! The transform is line-oriented: every line that matches neither
//! recognition pattern is preserved byte for byte, and a matching line has
//! exactly its quoted old-version occurrences substituted.

pub mod errors;
pub mod laws;
pub mod lines;
pub mod locate;
pub mod patch;
pub mod text;
pub mod update;
