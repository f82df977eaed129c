//! Changesets and their headers.

pub use crate::changelog::{ChangeSet, ChangesetHeader};
