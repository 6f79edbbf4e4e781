//! Text files for an application, in three Areas (config, data and cache). Writes happen only
//! through all-or-nothing Commits of a [`Staging`], and every Change is announced on the Store's
//! change feed.
//!
//! This crate holds the rules every Backend shares: which names are Paths and Prefixes, how a
//! Commit is planned and applied, the memory Backend, and the Change feed's merging. For the
//! filesystem it holds the journal's text, the steps of a Commit and of finishing one, what a walk
//! of an Area keeps, and what the watcher makes of events; for SQLite, the change log's reading
//! and the schema's steps.

pub mod area;
pub mod area_revisions;
pub mod as_finished;
pub mod change;
pub mod change_log;
pub mod commit;
pub mod database;
pub mod error;
pub mod file;
pub mod fs_commit;
pub mod fs_walk;
pub mod journal;
pub mod links;
pub mod memory;
pub mod options;
pub mod order;
pub mod path;
pub mod path_map;
pub mod precondition;
pub mod prefix;
pub mod recording;
pub mod reported;
pub mod revision;
pub mod sorted;
pub mod staging;
pub mod watch;
mod text;

pub use area::{Area, PerArea};
pub use error::Error;
pub use file::{Committed, File, Stat};
pub use precondition::Precondition;
pub use path::{IntoPath, InvalidPathReason, Path};
pub use prefix::{IntoPrefix, Prefix};
pub use revision::{PrefixRevision, Revision};
pub use staging::Staging;
pub use change::{Change, ChangeKind, FeedItem, Origin};
pub use memory::{MemoryBackend, MemorySnapshot};
pub use options::{AppIdentity, FailurePoint, FsOptions, SqliteOptions, TimedOut};
