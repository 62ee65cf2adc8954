//! Types of the history model.
pub mod change_map;
pub mod commit;
pub mod commit_history;
pub mod directory;
pub mod file;
pub mod repo;
