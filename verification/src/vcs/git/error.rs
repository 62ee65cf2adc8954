//! The errors of the operations on git repositories.
use vstd::prelude::*;

use git2::Error as GitError;
use std::str::Utf8Error;

use crate::diff;
use crate::file_system;
use crate::vcs::git::{branch, tag, Namespace};

verus! {

/// The errors that can occur in the operations on git repositories.
#[derive(Debug)]
pub enum Error {
    /// A branch could not be read.
    Branch(branch::Error),
    /// A tag could not be read.
    Tag(tag::Error),
    /// A revision could not be read as a branch, tag, or commit.
    RevParseFailure {
        /// The revision that could not be read.
        rev: String,
    },
    /// A revision could not be found in the namespace.
    NamespaceRevParseFailure {
        /// The namespace we are in when attempting to fetch the `rev`.
        namespace: Namespace,
        /// The revision that could not be read.
        rev: String,
    },
    /// A namespace was read that is empty.
    EmptyNamespace,
    /// A name of a git object is not UTF-8.
    Utf8Error(Utf8Error),
    /// A commit has no summary.
    MissingSummary,
    /// A file system operation failed.
    FileSystem(file_system::Error),
    /// The path of the last commit of a file is missing.
    LastCommitException,
    /// The requested file was not found.
    PathNotFound(file_system::Path),
    /// A diff could not be read.
    Diff(diff::git::Error),
    /// Git failed.
    Git(GitError),
}

} // verus!
