//! How a Store is opened: the App identity and the options of each Backend.

use std::path::PathBuf;
use std::time::Duration;

use tidings::options::stop_at;
use tidings::{AppIdentity, Error, FailurePoint, FsOptions, SqliteOptions, TimedOut};

#[test]
fn an_app_identity_keeps_what_it_was_given() {
    let app = AppIdentity::new("Frobnicator", "Acme Corp", "org");
    assert_eq!(app.app_name(), "Frobnicator");
    assert_eq!(app.author(), "Acme Corp");
    assert_eq!(app.top_level_domain(), "org");
    assert_eq!(app.clone(), AppIdentity::new("Frobnicator", "Acme Corp", "org"));
    assert_ne!(app, AppIdentity::new("Frobnicator", "Acme Corp", "com"));
}

#[test]
fn fs_options_start_with_nothing_overridden() {
    let options = FsOptions::default();
    assert!(options.root().is_none());
    assert!(options.failure_point().is_none());
    assert_eq!(options.window(), Duration::from_millis(150));
}

#[test]
fn fs_options_keep_each_setting() {
    let options = FsOptions::default()
        .root_override("/tmp/tidings-root")
        .fail_at(FailurePoint::AfterRename(2))
        .debounce_window(Duration::from_millis(20));
    assert_eq!(options.root(), Some(&PathBuf::from("/tmp/tidings-root")));
    assert_eq!(options.failure_point(), Some(FailurePoint::AfterRename(2)));
    assert_eq!(options.window(), Duration::from_millis(20));
}

#[test]
fn sqlite_options_default_to_checking_every_100_ms_and_keeping_10_minutes() {
    let options = SqliteOptions::default();
    assert!(options.root().is_none());
    assert_eq!(options.interval(), Duration::from_millis(100));
    assert_eq!(options.retention(), Duration::from_secs(600));
    let options = options
        .root_override(PathBuf::from("/tmp/other"))
        .poll_interval(Duration::from_millis(10))
        .change_log_retention(Duration::ZERO);
    assert_eq!(options.root(), Some(&PathBuf::from("/tmp/other")));
    assert_eq!(options.interval(), Duration::from_millis(10));
    assert_eq!(options.retention(), Duration::ZERO);
}

#[test]
fn a_commit_stops_only_at_the_failure_point_chosen() {
    assert!(stop_at(FailurePoint::AfterDeletes, None).is_ok());
    assert!(stop_at(FailurePoint::AfterRename(1), Some(FailurePoint::AfterRename(0))).is_ok());
    let points = [
        (FailurePoint::AfterPreparedJournal, "AfterPreparedJournal"),
        (FailurePoint::AfterTemporaryFile(3), "AfterTemporaryFile(3)"),
        (FailurePoint::CommittedJournalFails, "CommittedJournalFails"),
        (FailurePoint::AfterCommittedJournal, "AfterCommittedJournal"),
        (FailurePoint::AfterDeletes, "AfterDeletes"),
        (FailurePoint::AfterRename(0), "AfterRename(0)"),
        (FailurePoint::RenameFails { n: 1, times: usize::MAX }, "RenameFails { n: 1, times: 18446744073709551615 }"),
        (FailurePoint::WatchingFails, "WatchingFails"),
        (FailurePoint::WatchingAnAreaFails { times: 4 }, "WatchingAnAreaFails { times: 4 }"),
    ];
    for (point, written) in points {
        assert_eq!(format!("{point:?}"), written);
        match stop_at(point, Some(point)) {
            Err(Error::Backend { message }) => {
                assert_eq!(message, format!("the Commit stopped at the failure point {point:?}"));
            }
            other => panic!("{point:?} should stop the Commit, got {other:?}"),
        }
    }
}

#[test]
fn timing_out_says_so() {
    assert_eq!(TimedOut.message(), "nothing arrived on the Change feed in time");
}
