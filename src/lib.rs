//! A changelog toolkit: a structural model of "changes grouped by release",
//! a parser and renderer for its markdown form, a commit-message classifier,
//! an importer for first-parent commit history and a synchronization engine
//! that merges a freshly imported history into a manually curated changelog.

pub mod builder;
pub mod changelog;
pub mod changeset;
pub mod cli;
pub mod config;
pub mod error;
pub mod imports;
pub mod render;
pub mod sync;
pub mod text;

pub use changelog::{ChangeItem, ChangeLog, ChangeType, Date, ReleaseHeader};
pub use changeset::{ChangeSet, ChangesetHeader};
pub use config::ChangeLogConfig;
pub use error::ChgError;
pub mod round_trip;
