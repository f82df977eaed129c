//! Producers of a [`crate::ChangeLog`]: the markdown parser, the commit-message
//! classifier and the history importer.

pub mod commit_msg;
pub mod from_changelog;
pub mod from_git_repo;
