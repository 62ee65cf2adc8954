//! A model of a non-empty directory data structure that can be searched,
//! queried, and rendered. The concept is to represent a VCS directory, but it
//! is not tied to one.
pub mod directory;
pub mod error;
pub(crate) mod path;


pub use self::error::{Error, LabelError, PathError};
pub use self::path::{unsound, Label, Path};
