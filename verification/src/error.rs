//! Everything that can go wrong.

use vstd::prelude::*;

use crate::path::{InvalidPathReason, Path};

verus! {

/// Everything that can go wrong in tidings.
///
/// A missing File is not an error: reading one gives `None`.
#[derive(Debug)]
#[non_exhaustive]
pub enum Error {
    /// A Path or Prefix is not allowed.
    InvalidPath {
        /// The Path or Prefix as it was given.
        path: String,
        /// Which rule it breaks.
        reason: InvalidPathReason,
    },
    /// A Commit was refused because at least one of its Preconditions didn't hold. Nothing was
    /// written.
    Conflict {
        /// The Paths whose Precondition failed, in order. For a Prefix, the Paths under it that
        /// were added, removed or changed.
        paths: Vec<Path>,
    },
    /// The Store's Backend can't do this, as a Snapshot on the filesystem.
    Unsupported,
    /// A File on disk isn't valid UTF-8, so it can't be read as text.
    NotText {
        /// The File's Path.
        path: Path,
    },
    /// The Commit has happened, but a step after it keeps failing: it is finished later.
    Pending,
    /// The Backend failed, for this reason.
    Backend {
        /// What went wrong.
        message: String,
    },
}

impl Error {
    /// Whether this is [`Error::InvalidPath`] for `path`, breaking `reason`.
    pub open spec fn is_invalid_path(&self, path: Seq<char>, reason: InvalidPathReason) -> bool {
        match self {
            Error::InvalidPath { path: given, reason: broken } => given@ == path && *broken
                == reason,
            _ => false,
        }
    }
}

} // verus!
