//! Who an app is, and how a Store is opened on the filesystem or on SQLite.

use vstd::prelude::*;
use vstd::std_specs::convert::IntoSpec;

use std::path::PathBuf;
use std::time::Duration;

use crate::error::Error;
use crate::journal::{decimal, decimal_of};
use crate::text::{chars_of, string_of};

verus! {

/// A directory on disk, as the standard library holds it. The library only carries it from the
/// options to the Backend.
#[verifier::external_type_specification]
#[verifier::external_body]
pub struct ExPathBuf(PathBuf);

/// `Duration::clone` copies the Duration, as `Duration` is `Copy`.
pub assume_specification[ <Duration as Clone>::clone ](duration: &Duration) -> (copy: Duration)
    ensures
        copy == *duration,
;

/// `PathBuf::clone` gives a new `PathBuf` with the same path; nothing about it is stated.
pub assume_specification[ <PathBuf as Clone>::clone ](path: &PathBuf) -> PathBuf;

/// How long `Duration::from_millis` says `millis` milliseconds are.
pub uninterp spec fn millis_of(millis: u64) -> Duration;

/// How long `Duration::from_secs` says `secs` seconds are.
pub uninterp spec fn secs_of(secs: u64) -> Duration;

/// `millis` milliseconds, by `Duration::from_millis`.
#[verifier::external_body]
fn from_millis(millis: u64) -> (duration: Duration)
    ensures
        duration == millis_of(millis),
{
    Duration::from_millis(millis)
}

/// `secs` seconds, by `Duration::from_secs`.
#[verifier::external_body]
fn from_secs(secs: u64) -> (duration: Duration)
    ensures
        duration == secs_of(secs),
{
    Duration::from_secs(secs)
}

/// Who an app is: its name, its author and its top-level domain. Together they decide where a
/// Store's Areas are on this platform: in the platform's standard config, data and cache
/// directories for the app, as the `etcetera` crate's `choose_app_strategy` finds them.
#[derive(Debug, Clone, PartialEq, Eq)]
pub struct AppIdentity {
    app_name: String,
    author: String,
    top_level_domain: String,
}

impl AppIdentity {
    /// The app's name.
    pub closed spec fn app_name_spec(&self) -> Seq<char> {
        self.app_name@
    }

    /// The app's author.
    pub closed spec fn author_spec(&self) -> Seq<char> {
        self.author@
    }

    /// The app's top-level domain.
    pub closed spec fn top_level_domain_spec(&self) -> Seq<char> {
        self.top_level_domain@
    }

    /// The App identity of the app called `app_name`, by `author`, under `top_level_domain`, as in
    /// `AppIdentity::new("Frobnicator", "Acme Corp", "org")`.
    pub fn new(app_name: &str, author: &str, top_level_domain: &str) -> (identity: AppIdentity)
        ensures
            identity.app_name_spec() == app_name@,
            identity.author_spec() == author@,
            identity.top_level_domain_spec() == top_level_domain@,
    {
        AppIdentity {
            app_name: String::from_str(app_name),
            author: String::from_str(author),
            top_level_domain: String::from_str(top_level_domain),
        }
    }

    /// The app's name.
    pub fn app_name(&self) -> (app_name: &str)
        ensures
            app_name@ == self.app_name_spec(),
    {
        self.app_name.as_str()
    }

    /// The app's author.
    pub fn author(&self) -> (author: &str)
        ensures
            author@ == self.author_spec(),
    {
        self.author.as_str()
    }

    /// The app's top-level domain.
    pub fn top_level_domain(&self) -> (top_level_domain: &str)
        ensures
            top_level_domain@ == self.top_level_domain_spec(),
    {
        self.top_level_domain.as_str()
    }
}

/// A named point in a filesystem Commit, or in watching, where [`FsOptions::fail_at`] makes it
/// fail. For tidings' own tests of how an interrupted Commit is recovered.
#[derive(Debug, Clone, Copy, PartialEq, Eq, Structural)]
#[non_exhaustive]
pub enum FailurePoint {
    /// Once the journal is written as `prepared`, before any temporary file is.
    AfterPreparedJournal,
    /// Once the temporary file for the Commit's `n`th write is written and forced to disk,
    /// counting from 0 in order of Path.
    AfterTemporaryFile(usize),
    /// Writing the journal as `committed` fails, so the Commit never happens.
    CommittedJournalFails,
    /// Once the journal is written as `committed`, before anything is renamed or deleted.
    AfterCommittedJournal,
    /// Once the Commit's deletes are made, before anything is renamed.
    AfterDeletes,
    /// Once the temporary file of the Commit's `n`th write is renamed over its File.
    AfterRename(usize),
    /// Renaming the temporary file of the Commit's `n`th write fails, `times` times in a row.
    RenameFails { n: usize, times: usize },
    /// Watching for changes reports an error in place of the first events.
    WatchingFails,
    /// Watching an Area again, after its directory went, fails `times` times in a row.
    WatchingAnAreaFails { times: usize },
}

/// How `point` is written: as its variant's name, with what it holds, as `{point:?}` writes it.
pub open spec fn point_text(point: FailurePoint) -> Seq<char> {
    match point {
        FailurePoint::AfterPreparedJournal => "AfterPreparedJournal"@,
        FailurePoint::AfterTemporaryFile(n) => "AfterTemporaryFile("@ + decimal_of(n as nat) + ")"@,
        FailurePoint::CommittedJournalFails => "CommittedJournalFails"@,
        FailurePoint::AfterCommittedJournal => "AfterCommittedJournal"@,
        FailurePoint::AfterDeletes => "AfterDeletes"@,
        FailurePoint::AfterRename(n) => "AfterRename("@ + decimal_of(n as nat) + ")"@,
        FailurePoint::RenameFails { n, times } => "RenameFails { n: "@ + decimal_of(n as nat)
            + ", times: "@ + decimal_of(times as nat) + " }"@,
        FailurePoint::WatchingFails => "WatchingFails"@,
        FailurePoint::WatchingAnAreaFails { times } => "WatchingAnAreaFails { times: "@
            + decimal_of(times as nat) + " }"@,
    }
}

/// `text` with `more` added.
fn push_all(text: &mut Vec<char>, more: &Vec<char>)
    ensures
        final(text)@ == old(text)@ + more@,
{
    let ghost start = text@;
    let mut i: usize = 0;
    while i < more.len()
        invariant
            i <= more.len(),
            text@ == start + more@.subrange(0, i as int),
        decreases more.len() - i,
    {
        text.push(more[i]);
        i = i + 1;
        proof {
            assert(text@ =~= start + more@.subrange(0, i as int));
        }
    }
    proof {
        assert(more@.subrange(0, i as int) =~= more@);
    }
}

impl FailurePoint {
    /// The point as `{point:?}` writes it, as in `AfterTemporaryFile(0)`.
    pub fn text(&self) -> (text: Vec<char>)
        ensures
            text@ == point_text(*self),
    {
        let mut text: Vec<char> = Vec::new();
        match *self {
            FailurePoint::AfterPreparedJournal => push_all(&mut text, &chars_of("AfterPreparedJournal")),
            FailurePoint::AfterTemporaryFile(n) => {
                push_all(&mut text, &chars_of("AfterTemporaryFile("));
                push_all(&mut text, &decimal(n));
                push_all(&mut text, &chars_of(")"));
            },
            FailurePoint::CommittedJournalFails => push_all(&mut text, &chars_of("CommittedJournalFails")),
            FailurePoint::AfterCommittedJournal => push_all(&mut text, &chars_of("AfterCommittedJournal")),
            FailurePoint::AfterDeletes => push_all(&mut text, &chars_of("AfterDeletes")),
            FailurePoint::AfterRename(n) => {
                push_all(&mut text, &chars_of("AfterRename("));
                push_all(&mut text, &decimal(n));
                push_all(&mut text, &chars_of(")"));
            },
            FailurePoint::RenameFails { n, times } => {
                push_all(&mut text, &chars_of("RenameFails { n: "));
                push_all(&mut text, &decimal(n));
                push_all(&mut text, &chars_of(", times: "));
                push_all(&mut text, &decimal(times));
                push_all(&mut text, &chars_of(" }"));
            },
            FailurePoint::WatchingFails => push_all(&mut text, &chars_of("WatchingFails")),
            FailurePoint::WatchingAnAreaFails { times } => {
                push_all(&mut text, &chars_of("WatchingAnAreaFails { times: "));
                push_all(&mut text, &decimal(times));
                push_all(&mut text, &chars_of(" }"));
            },
        }
        proof {
            assert(text@ =~= point_text(*self));
        }
        text
    }
}

/// What a Commit stopped at `point` says went wrong.
pub open spec fn stopped_message(point: FailurePoint) -> Seq<char> {
    "the Commit stopped at the failure point "@ + point_text(point)
}

/// Gives the error that stops a Commit at `point`, if [`FsOptions::fail_at`] chose it.
pub fn stop_at(point: FailurePoint, fail_at: Option<FailurePoint>) -> (result: Result<(), Error>)
    ensures
        fail_at == Some(point) <==> result is Err,
        result matches Err(error) ==> (error matches Error::Backend { message } && message@
            == stopped_message(point)),
{
    let chosen = match fail_at {
        Some(chosen) => chosen == point,
        None => false,
    };
    if chosen {
        let mut message = chars_of("the Commit stopped at the failure point ");
        push_all(&mut message, &point.text());
        Err(Error::Backend { message: string_of(&message) })
    } else {
        Ok(())
    }
}

/// How to open a Store on the filesystem.
///
/// `FsOptions::default()` puts each Area in the platform's standard directory for the app.
#[derive(Debug, Clone)]
#[non_exhaustive]
pub struct FsOptions {
    root_override: Option<PathBuf>,
    fail_at: Option<FailurePoint>,
    debounce_window: Option<Duration>,
}

impl Default for FsOptions {
    fn default() -> (options: FsOptions)
        ensures
            options.root_spec() is None,
            options.fail_at_spec() is None,
            options.window_spec() is None,
    {
        FsOptions { root_override: None, fail_at: None, debounce_window: None }
    }
}

impl FsOptions {
    /// The Root override, if one was set.
    pub closed spec fn root_spec(&self) -> Option<PathBuf> {
        self.root_override
    }

    /// Where Commits stop, if anywhere.
    pub closed spec fn fail_at_spec(&self) -> Option<FailurePoint> {
        self.fail_at
    }

    /// The debounce window, if one was set.
    pub closed spec fn window_spec(&self) -> Option<Duration> {
        self.debounce_window
    }

    /// A Root override: the Areas go in `config`, `data` and `cache` directories under `root`,
    /// instead of the standard directories the App identity picks. It is an override, for tests
    /// and unusual installations: apps normally leave it unset.
    pub fn root_override<P: Into<PathBuf>>(self, root: P) -> (options: FsOptions)
        ensures
            options.root_spec() is Some,
            P::obeys_into_spec() ==> options.root_spec() == Some(root.into_spec()),
            options.fail_at_spec() == self.fail_at_spec(),
            options.window_spec() == self.window_spec(),
    {
        FsOptions { root_override: Some(root.into()), ..self }
    }

    /// Makes every Commit through the Store stop at `point`, as if the process had died there: the
    /// Commit gives [`Error::Backend`], and leaves everything on disk as it is.
    pub fn fail_at(self, point: FailurePoint) -> (options: FsOptions)
        ensures
            options.root_spec() == self.root_spec(),
            options.fail_at_spec() == Some(point),
            options.window_spec() == self.window_spec(),
    {
        FsOptions { fail_at: Some(point), ..self }
    }

    /// How long each name's events are held back, until none has come for that long, so that an
    /// editor's burst of events for one save becomes one.
    pub fn debounce_window(self, window: Duration) -> (options: FsOptions)
        ensures
            options.root_spec() == self.root_spec(),
            options.fail_at_spec() == self.fail_at_spec(),
            options.window_spec() == Some(window),
    {
        FsOptions { debounce_window: Some(window), ..self }
    }

    /// The Root override, if one was set.
    pub fn root(&self) -> (root: Option<&PathBuf>)
        ensures
            root matches Some(root) ==> self.root_spec() == Some(*root),
            root is None ==> self.root_spec() is None,
    {
        match &self.root_override {
            Some(root) => Some(root),
            None => None,
        }
    }

    /// Where Commits stop, if anywhere.
    pub fn failure_point(&self) -> (point: Option<FailurePoint>)
        ensures
            point == self.fail_at_spec(),
    {
        self.fail_at
    }

    /// The debounce window: the one set, or 150 ms.
    pub fn window(&self) -> (window: Duration)
        ensures
            window == match self.window_spec() {
                Some(window) => window,
                None => millis_of(150),
            },
    {
        match self.debounce_window {
            Some(window) => window,
            None => from_millis(150),
        }
    }
}

/// How to open a Store on SQLite.
///
/// `SqliteOptions::default()` puts each Area's database in the platform's standard directory for
/// the app, and checks for other processes' Commits every 100 ms.
#[derive(Debug, Clone)]
#[non_exhaustive]
pub struct SqliteOptions {
    root_override: Option<PathBuf>,
    poll_interval: Duration,
    change_log_retention: Duration,
}

impl Default for SqliteOptions {
    fn default() -> (options: SqliteOptions)
        ensures
            options.root_spec() is None,
            options.poll_interval_spec() == millis_of(100),
            options.retention_spec() == secs_of(600),
    {
        SqliteOptions { root_override: None, poll_interval: from_millis(100), change_log_retention: from_secs(600) }
    }
}

impl SqliteOptions {
    /// The Root override, if one was set.
    pub closed spec fn root_spec(&self) -> Option<PathBuf> {
        self.root_override
    }

    /// How often the Store checks for other processes' Commits.
    pub closed spec fn poll_interval_spec(&self) -> Duration {
        self.poll_interval
    }

    /// How long the Store's Commits keep other Stores' Commits in the change log.
    pub closed spec fn retention_spec(&self) -> Duration {
        self.change_log_retention
    }

    /// A Root override: the Areas go in `config`, `data` and `cache` directories under `root`,
    /// instead of the standard directories the App identity picks.
    pub fn root_override<P: Into<PathBuf>>(self, root: P) -> (options: SqliteOptions)
        ensures
            options.root_spec() is Some,
            P::obeys_into_spec() ==> options.root_spec() == Some(root.into_spec()),
            options.poll_interval_spec() == self.poll_interval_spec(),
            options.retention_spec() == self.retention_spec(),
    {
        SqliteOptions { root_override: Some(root.into()), ..self }
    }

    /// How often the Store checks for Commits that other processes made to its databases, which
    /// arrive on its Change feed as external Changes.
    pub fn poll_interval(self, interval: Duration) -> (options: SqliteOptions)
        ensures
            options.root_spec() == self.root_spec(),
            options.poll_interval_spec() == interval,
            options.retention_spec() == self.retention_spec(),
    {
        SqliteOptions { poll_interval: interval, ..self }
    }

    /// How long this Store's Commits keep other Stores' Commits in the change log, for Stores
    /// that haven't read them yet.
    pub fn change_log_retention(self, retention: Duration) -> (options: SqliteOptions)
        ensures
            options.root_spec() == self.root_spec(),
            options.poll_interval_spec() == self.poll_interval_spec(),
            options.retention_spec() == retention,
    {
        SqliteOptions { change_log_retention: retention, ..self }
    }

    /// The Root override, if one was set.
    pub fn root(&self) -> (root: Option<&PathBuf>)
        ensures
            root matches Some(root) ==> self.root_spec() == Some(*root),
            root is None ==> self.root_spec() is None,
    {
        match &self.root_override {
            Some(root) => Some(root),
            None => None,
        }
    }

    /// How often the Store checks for other processes' Commits.
    pub fn interval(&self) -> (interval: Duration)
        ensures
            interval == self.poll_interval_spec(),
    {
        self.poll_interval
    }

    /// How long the Store's Commits keep other Stores' Commits in the change log.
    pub fn retention(&self) -> (retention: Duration)
        ensures
            retention == self.retention_spec(),
    {
        self.change_log_retention
    }
}

/// What [`next_timeout`](crate) gives when nothing arrived on the Change feed in time.
#[derive(Debug, Clone, Copy, PartialEq, Eq)]
pub struct TimedOut;

impl TimedOut {
    /// What went wrong, in words.
    pub fn message(&self) -> (message: &'static str)
        ensures
            message@ == "nothing arrived on the Change feed in time"@,
    {
        "nothing arrived on the Change feed in time"
    }
}

} // verus!
