//! `radicle_surf` models a file system as it appears at one snapshot of a
//! version-control history: labels and paths, a sorted directory tree, the
//! difference between two snapshots, histories of artifacts, and the names
//! of git references and branches.
use vstd::prelude::*;

pub mod diff;
pub mod file_system;
pub mod nonempty;
pub mod smallcheck;
pub mod strings;
pub mod traits;
pub mod tree;
pub mod types;
pub mod vcs;

pub use crate::nonempty::split_last;

verus! {

} // verus!
