//! Git namespaces, repository statistics, authors, commit signatures,
//! branches, tags, references and reference globs.
pub mod branch;
pub mod error;
pub mod ext;
pub mod object;
pub mod reference;
pub mod revision;
pub mod tag;

pub use self::branch::{Branch, BranchType};
pub use self::object::{Author, Commit, Namespace, Signature, Stats};
pub use self::reference::glob::RefGlob;
pub use self::reference::{ParseError, Ref, Rev};
pub use self::tag::Tag;
