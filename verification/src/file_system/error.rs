//! Errors that can occur within the file system logic: they come from
//! parsing a [`Label`](super::Label) or a [`Path`](super::Path).
use vstd::prelude::*;

verus! {

/// Error type for all file system errors that can occur.
#[derive(Debug, Clone, PartialEq, Eq)]
pub enum Error {
    /// A `LabelError` specific error for parsing a label.
    Label(LabelError),
    /// A `PathError` specific error for parsing a path.
    Path(PathError),
}

/// Parse errors for when parsing a string to a path.
#[derive(Debug, Clone, PartialEq, Eq)]
pub enum PathError {
    /// The path is empty.
    Empty,
}

/// Parse errors for when parsing a string to a label.
#[derive(Debug, Clone, PartialEq, Eq)]
pub enum LabelError {
    /// The label contains invalid UTF-8.
    InvalidUTF8(String),
    /// The label contains a `/`.
    ContainsSlash(String),
    /// The label is empty.
    Empty,
}

/// The error for an empty label.
pub fn empty_label() -> (e: Error)
    ensures
        e == Error::Label(LabelError::Empty),
{
    Error::Label(LabelError::Empty)
}

/// The error for a label that holds a `/`, carrying the offending text.
pub fn label_has_slash(item: &str) -> (e: Error)
    ensures
        e matches Error::Label(LabelError::ContainsSlash(s)) && s@ == item@,
{
    Error::Label(LabelError::ContainsSlash(item.to_owned()))
}

} // verus!
