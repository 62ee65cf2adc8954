//! Creation of labels and paths from text that is known to be valid, such
//! as literals in tests. These functions require the text to parse; the
//! checked `try_from` functions of [`Label`](super::Label) and
//! [`Path`](super::Path) handle text that is not under control.
pub mod label;
pub mod path;
