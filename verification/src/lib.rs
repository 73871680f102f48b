//! Merging the commit histories of several repositories into one.

pub mod git;
pub mod merger;
pub mod order;
pub mod text;
