//! The commit data model and the reading of a repository's log.

pub mod run_command;
pub mod tree;
pub mod types;
