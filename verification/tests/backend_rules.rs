//! The rules the filesystem and SQLite Backends follow, and what a Store records of its Commits.

use jiff::Timestamp;
use tidings::area_revisions::AreaRevisions;
use tidings::as_finished::read_from;
use tidings::change::{RawChange, Unread};
use tidings::change_log::{LogRow, group_log};
use tidings::commit::{AreaState, CommitOutcome, CommitRequest, Observed, Planned};
use tidings::database::{LogReader, first_step, kept_from, refold};
use tidings::fs_walk::{EntryKind, Walked, sorted_paths, walk_entry};
use tidings::journal::{Journal, Remove, Replace, Target};
use tidings::path_map::PathMap;
use tidings::recording::{BackendKind, record_commit};
use tidings::{Area, ChangeKind, Error, Origin, Path, Prefix, Revision, Staging};

fn path(text: &str) -> Path {
    Path::new(text).unwrap()
}

fn text(chars: &[char]) -> String {
    chars.iter().collect()
}

#[test]
fn a_walk_keeps_the_names_that_are_paths_and_prefixes() {
    let notes = Prefix::new("notes/").unwrap();
    match walk_entry(&notes, Some("a.txt"), Some(EntryKind::File)) {
        Walked::File(found) => assert_eq!(found.as_str(), "notes/a.txt"),
        other => panic!("expected a File, got {other:?}"),
    }
    match walk_entry(&notes, Some("sub"), Some(EntryKind::Directory)) {
        Walked::Directory(under) => assert_eq!(under.as_str(), "notes/sub/"),
        other => panic!("expected a directory, got {other:?}"),
    }
    let root = Prefix::everything();
    assert!(matches!(walk_entry(&root, Some(".tidings"), Some(EntryKind::Directory)), Walked::Dropped));
    let temporary = ".a.txt.tidings-0123456789abcdef0123456789abcdef-0";
    assert!(matches!(walk_entry(&root, Some(temporary), Some(EntryKind::File)), Walked::Dropped));
    assert!(matches!(walk_entry(&root, None, Some(EntryKind::File)), Walked::Dropped));
    assert!(matches!(walk_entry(&root, Some("a.txt"), None), Walked::Dropped));
}

#[test]
fn what_a_walk_found_is_sorted_once_each() {
    let found = vec![path("b.txt"), path("a/c.txt"), path("b.txt"), path("a.txt")];
    let sorted = sorted_paths(found);
    let names: Vec<&str> = sorted.iter().map(Path::as_str).collect();
    assert_eq!(names, ["a.txt", "a/c.txt", "b.txt"]);
}

#[test]
fn the_paths_under_a_prefix_are_a_range() {
    let (start, end) = Prefix::new("notes/").unwrap().range().unwrap();
    let (start, end) = (text(&start), text(&end));
    assert_eq!((start.as_str(), end.as_str()), ("notes/", "notes0"));
    for (key, under) in [("notes/a", true), ("notes/", true), ("notes-a", false), ("notes0", false), ("notes", false)]
    {
        let in_range = start.as_str() <= key && key < end.as_str();
        assert_eq!(in_range, under, "{key}");
        assert_eq!(key.starts_with("notes/"), under, "{key}");
    }
    assert!(Prefix::everything().range().is_none());
}

#[test]
fn a_schema_from_a_later_version_is_refused() {
    assert_eq!(first_step(0, 2).unwrap(), 0);
    assert_eq!(first_step(2, 2).unwrap(), 2);
    match first_step(3, 2) {
        Err(Error::Backend { message }) => {
            assert_eq!(message, "the database's schema is version 3, from a later version of tidings")
        }
        other => panic!("expected a refusal, got {other:?}"),
    }
}

#[test]
fn a_stale_fold_is_made_again() {
    let again = refold("Themes/Dark.toml", "stale").unwrap();
    assert_ne!(again, "stale");
    assert_eq!(refold("Themes/Dark.toml", &again), None);
    assert_eq!(refold("themes/dark.toml", &again), None);
}

#[test]
fn the_change_log_is_kept_for_its_retention() {
    assert_eq!(kept_from(1_000_000, 600_000_000), -599_000_000);
    assert_eq!(kept_from(i64::MIN + 5, 10), i64::MIN);
    assert_eq!(kept_from(0, u128::MAX), -i64::MAX);
}

#[test]
fn a_database_another_connection_committed_to_is_read_again() {
    let mut log = LogReader { store: 1, seen: 0, data_version: 7 };
    assert!(!log.polled(Some(7)));
    assert!(log.polled(Some(8)));
    assert_eq!(log.data_version, 8);
    assert!(log.polled(None));
    assert_eq!(log.data_version, 8);
}

#[test]
fn the_change_log_is_read_commit_by_commit() {
    let row = |id: i64, store: i64, name: &str, removed: bool| LogRow { id, store, path: path(name), removed };
    let rows = vec![row(3, 1, "a.txt", false), row(3, 1, "b.txt", true), row(4, 2, "c.txt", false)];
    let mut seen = 2;
    let observed = group_log(rows, 1, &mut seen, 0);
    assert_eq!(seen, 4);
    let described: Vec<String> = observed.iter().map(|item| format!("{item:?}")).collect();
    assert_eq!(described.len(), 2);
    match (&observed[0], &observed[1]) {
        (
            Observed::Changes { origin: Origin::Local, changes: first },
            Observed::Changes { origin: Origin::External, changes: second },
        ) => {
            assert_eq!(first.len(), 2);
            assert_eq!((first[1].path.as_str(), first[1].kind), ("b.txt", ChangeKind::Removed));
            assert_eq!((second[0].path.as_str(), second[0].kind), ("c.txt", ChangeKind::Changed));
        }
        other => panic!("expected a local Commit then an external one, got {other:?}"),
    }

    let mut seen = 2;
    let observed = group_log(Vec::new(), 1, &mut seen, 5);
    assert!(matches!(observed.as_slice(), [Observed::Missed]));
    assert_eq!(seen, 5);
}

fn change(name: &str) -> RawChange {
    RawChange { path: path(name), kind: ChangeKind::Changed }
}

#[test]
fn other_stores_commits_are_recorded_before_the_stores_own() {
    let mut unread = Unread::new();
    let outcome = CommitOutcome {
        revisions: PathMap::new(),
        changes: vec![change("mine.txt")],
        observed_before: vec![Observed::Changes { origin: Origin::External, changes: vec![change("theirs.txt")] }],
        pending: false,
    };
    record_commit(&mut unread, Area::Data, outcome).unwrap();
    let batch = unread.take().unwrap();
    let seen: Vec<(&str, Origin)> = batch.iter().map(|change| (change.path.as_str(), change.origin)).collect();
    assert_eq!(seen, [("mine.txt", Origin::Local), ("theirs.txt", Origin::External)]);
}

#[test]
fn a_pending_commit_is_recorded_and_gives_pending() {
    let mut unread = Unread::new();
    let outcome = CommitOutcome {
        revisions: PathMap::new(),
        changes: vec![change("a.txt")],
        observed_before: Vec::new(),
        pending: true,
    };
    assert!(matches!(record_commit(&mut unread, Area::Config, outcome), Err(Error::Pending)));
    assert_eq!(unread.take().unwrap().len(), 1);
}

#[test]
fn memory_supports_snapshots() {
    assert!(BackendKind::Memory.supports_snapshots());
    assert!(BackendKind::Memory.check_snapshots().is_ok());
}

#[test]
fn only_the_filesystem_refuses_snapshots() {
    assert!(!BackendKind::Fs.supports_snapshots());
    assert!(BackendKind::Memory.supports_snapshots());
    assert!(BackendKind::Sqlite.supports_snapshots());
    assert!(matches!(BackendKind::Fs.check_snapshots(), Err(Error::Unsupported)));
    assert!(BackendKind::Sqlite.check_snapshots().is_ok());
}

#[test]
fn a_plan_against_revisions_gives_its_changes_in_order() {
    let mut area = AreaRevisions::new();
    area.add(path("a.txt"), Revision::of("old"));
    area.add(path("b.txt"), Revision::of("b"));
    assert_eq!(area.revision(&path("b.txt")).unwrap(), Some(Revision::of("b")));
    let mut staging = Staging::new(Area::Data);
    staging.write("b.txt", "b").unwrap();
    staging.write("c.txt", "c").unwrap();
    staging.delete("a.txt").unwrap();
    let request = CommitRequest { timestamp: Timestamp::UNIX_EPOCH, staged: staging.into_staged() };
    let plan = request.plan(&area).unwrap();
    let (changes, outcome) = plan.into_changes();
    let names: Vec<(&str, bool)> =
        changes.iter().map(|(path, planned)| (path.as_str(), matches!(planned, Planned::Write { .. }))).collect();
    assert_eq!(names, [("a.txt", false), ("c.txt", true)]);
    let kinds: Vec<(&str, ChangeKind)> = outcome.changes.iter().map(|change| (change.path.as_str(), change.kind)).collect();
    assert_eq!(kinds, [("a.txt", ChangeKind::Removed), ("c.txt", ChangeKind::Changed)]);
    assert_eq!(outcome.revisions.len(), 2);
    assert!(!outcome.pending && outcome.observed_before.is_empty());
}

#[test]
fn reads_come_from_the_temporary_file_of_a_committed_commit() {
    let replace = Replace { path: path("a.txt"), temporary: "/area/.a.txt.tmp".to_owned(), target: Target::AtPath };
    let remove = Remove { path: path("gone.txt"), revision: Revision::of("gone") };
    let mut journal = Journal::prepared(vec![replace], vec![remove]);
    let prepared = read_from(Some(&journal), &path("a.txt"));
    assert!(prepared.temporary.is_none() && prepared.deleted.is_none());
    journal.commit();
    let written = read_from(Some(&journal), &path("a.txt"));
    assert_eq!(written.temporary.as_deref(), Some("/area/.a.txt.tmp"));
    assert_eq!(written.deleted, None);
    let deleted = read_from(Some(&journal), &path("gone.txt"));
    assert_eq!((deleted.temporary, deleted.deleted), (None, Some(Revision::of("gone"))));
    let neither = read_from(None, &path("a.txt"));
    assert!(neither.temporary.is_none() && neither.deleted.is_none());
}

#[test]
fn a_revision_of_bytes_is_that_of_the_text_they_encode() {
    assert_eq!(Revision::of_bytes("héllo".as_bytes()), Revision::of("héllo"));
    assert_ne!(Revision::of_bytes(&[0xff, 0xfe]), Revision::of(""));
}

