//! Files as they are read, and what a Commit gives back.

use vstd::prelude::*;

use jiff::Timestamp;

use crate::path::Path;
use crate::revision::{Revision, content_revision};
use crate::sorted::{sorted_keys};
use crate::path_map::entries_view;

verus! {

/// A point in time, from `jiff`. The library carries it through unchanged: a Commit's timestamp
/// becomes the last-modified time of every File it writes.
#[verifier::external_type_specification]
#[verifier::external_body]
pub struct ExTimestamp(Timestamp);

/// When a File was last modified, and its Revision.
#[derive(Debug, Clone, Copy)]
pub struct Stat {
    modified: Timestamp,
    revision: Revision,
}

/// The Stat of a File last modified at `modified`, whose Revision is `revision`.
pub closed spec fn stat_of(modified: Timestamp, revision: Revision) -> Stat {
    Stat { modified, revision }
}

impl Stat {
    /// When the File was last modified.
    pub closed spec fn modified_spec(self) -> Timestamp {
        self.modified
    }

    /// The File's Revision.
    pub closed spec fn revision_spec(self) -> Revision {
        self.revision
    }

    /// The Stat of a File last modified at `modified`, whose Revision is `revision`.
    pub fn new(modified: Timestamp, revision: Revision) -> (stat: Stat)
        ensures
            stat.modified_spec() == modified,
            stat.revision_spec() == revision,
            stat == stat_of(modified, revision),
    {
        Stat { modified, revision }
    }

    /// When the File was last modified. Every File in a Commit gets the same time.
    pub fn modified(&self) -> (modified: Timestamp)
        ensures
            modified == self.modified_spec(),
    {
        self.modified
    }

    /// The Revision of the File.
    pub fn revision(&self) -> (revision: Revision)
        ensures
            revision == self.revision_spec(),
    {
        self.revision
    }
}

/// A Stat is its time and Revision.
pub proof fn lemma_stat_of(modified: Timestamp, revision: Revision)
    ensures
        stat_of(modified, revision).modified_spec() == modified,
        stat_of(modified, revision).revision_spec() == revision,
{
}

/// A File as it was read: its Path, its text contents, when it was last modified, and its
/// Revision.
#[derive(Debug, Clone)]
pub struct File {
    path: Path,
    contents: String,
    stat: Stat,
}

impl File {
    pub closed spec fn path_spec(&self) -> Seq<char> {
        self.path@
    }

    pub closed spec fn contents_spec(&self) -> Seq<char> {
        self.contents@
    }

    pub closed spec fn stat_spec(&self) -> Stat {
        self.stat
    }

    /// The File at `path`, with `contents`, last modified and with the Revision `stat` gives.
    pub fn new(path: Path, contents: String, stat: Stat) -> (file: File)
        ensures
            file.path_spec() == path@,
            file.contents_spec() == contents@,
            file.stat_spec() == stat,
    {
        File { path, contents, stat }
    }

    /// The File's Path within its Area.
    pub fn path(&self) -> (path: &Path)
        ensures
            path@ == self.path_spec(),
    {
        &self.path
    }

    /// The File's text contents.
    pub fn contents(&self) -> (contents: &str)
        ensures
            contents@ == self.contents_spec(),
    {
        self.contents.as_str()
    }

    /// When the File was last modified. Every File in a Commit gets the same time.
    pub fn modified(&self) -> (modified: Timestamp)
        ensures
            modified == self.stat_spec().modified_spec(),
    {
        self.stat.modified()
    }

    /// The Revision of the File as it was read.
    pub fn revision(&self) -> (revision: Revision)
        ensures
            revision == self.stat_spec().revision_spec(),
    {
        self.stat.revision()
    }

    /// When the File was last modified, and its Revision.
    pub fn stat(&self) -> (stat: Stat)
        ensures
            stat == self.stat_spec(),
    {
        self.stat
    }
}

/// What a successful Commit gives back: its timestamp, and the new Revision of each Path it
/// wrote, so those Files can be written again safely without reading them first.
#[derive(Debug)]
pub struct Committed {
    timestamp: Timestamp,
    revisions: Vec<(Path, Revision)>,
}

impl Committed {
    #[verifier::type_invariant]
    spec fn valid(self) -> bool {
        sorted_keys(entries_view(self.revisions@))
    }

    pub closed spec fn timestamp_spec(&self) -> Timestamp {
        self.timestamp
    }

    /// The Revision of each Path written, in order of Path.
    pub closed spec fn revisions_spec(&self) -> Seq<(Seq<char>, Revision)> {
        entries_view(self.revisions@)
    }

    /// What a Commit at `timestamp` that wrote `revisions`, in order of Path, gives back.
    pub fn new(timestamp: Timestamp, revisions: Vec<(Path, Revision)>) -> (committed: Committed)
        requires
            sorted_keys(entries_view(revisions@)),
        ensures
            committed.timestamp_spec() == timestamp,
            committed.revisions_spec() == entries_view(revisions@),
    {
        Committed { timestamp, revisions }
    }

    /// The Commit's timestamp: the last-modified time of every File it changed.
    pub fn timestamp(&self) -> (timestamp: Timestamp)
        ensures
            timestamp == self.timestamp_spec(),
    {
        self.timestamp
    }

    /// The Revision of each Path the Staging wrote, in order of Path. That includes writes left
    /// out because they wouldn't have changed the File. Deleted Paths aren't included.
    pub fn revisions(&self) -> (revisions: &Vec<(Path, Revision)>)
        ensures
            entries_view(revisions@) == self.revisions_spec(),
            sorted_keys(self.revisions_spec()),
    {
        proof {
            use_type_invariant(self);
        }
        &self.revisions
    }
}

} // verus!
