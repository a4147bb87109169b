//! Core of an interactive terminal file manager: a lazily loaded directory
//! tree flattened into a display list, a path-keyed mark set and clipboard,
//! and the edit workflows (copy/cut/paste/delete/rename/create) that keep
//! cursor and tree consistent across structural changes.
//!
//! All filesystem access happens outside this crate: directory contents come
//! in as [`fs::FsSnapshot`] values, and mutating workflows hand back the
//! operations to perform as plain data.

use vstd::prelude::*;

pub mod app;
pub mod file_ops;
pub mod file_tree;
pub mod fs;
pub mod git_status;
pub mod paths;

verus! {

/// Everything that can go wrong in a core operation: an unexpected
/// filesystem-level failure, a target name that already exists, or a lookup
/// by a stale index or path.
#[derive(Debug, Clone, Copy, PartialEq, Eq, Structural)]
pub enum OpError {
    IoError,
    NameCollision,
    NotFound,
}

} // verus!
