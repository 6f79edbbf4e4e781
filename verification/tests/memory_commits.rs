//! Commits through the memory Backend: what they leave in an Area, what they report, and what
//! they refuse.

use jiff::Timestamp;
use tidings::change::RawChange;
use tidings::commit::{CommitOutcome, CommitRequest};
use tidings::{
    Area, ChangeKind, Error, InvalidPathReason, MemoryBackend, Path, Precondition, Prefix, Revision,
    Staging,
};

fn path(text: &str) -> Path {
    Path::new(text).unwrap()
}

fn at(seconds: i64) -> Timestamp {
    Timestamp::from_second(seconds).unwrap()
}

fn commit(backend: &mut MemoryBackend, staging: Staging) -> Result<CommitOutcome, Error> {
    backend.commit(CommitRequest { timestamp: at(1_700_000_000), staged: staging.into_staged() })
}

fn write(backend: &mut MemoryBackend, area: Area, files: &[(&str, &str)]) -> CommitOutcome {
    let mut staging = Staging::new(area);
    for (name, contents) in files {
        staging.write(*name, contents).unwrap();
    }
    commit(backend, staging).unwrap()
}

fn list(backend: &MemoryBackend, area: Area, prefix: &str) -> Vec<String> {
    let prefix = Prefix::new(prefix).unwrap();
    backend.list(area, &prefix).iter().map(|path| path.as_str().to_owned()).collect()
}

fn contents(backend: &MemoryBackend, area: Area, name: &str) -> Option<String> {
    backend.read(area, &path(name)).map(|file| file.contents().to_owned())
}

fn changes(outcome: &CommitOutcome) -> Vec<(String, ChangeKind)> {
    outcome
        .changes
        .iter()
        .map(|RawChange { path, kind }| (path.as_str().to_owned(), *kind))
        .collect()
}

fn revisions(outcome: &CommitOutcome) -> Vec<(String, Revision)> {
    (0..outcome.revisions.len())
        .map(|i| {
            let (path, revision) = outcome.revisions.entry(i);
            (path.as_str().to_owned(), *revision)
        })
        .collect()
}

#[test]
fn a_file_written_reads_back_with_its_contents_revision_and_time() {
    let mut backend = MemoryBackend::new();
    let outcome = write(&mut backend, Area::Config, &[("settings.toml", "a = 1\n")]);
    let file = backend.read(Area::Config, &path("settings.toml")).unwrap();
    assert_eq!(file.path().as_str(), "settings.toml");
    assert_eq!(file.contents(), "a = 1\n");
    assert_eq!(file.revision(), Revision::of("a = 1\n"));
    assert_eq!(file.modified(), at(1_700_000_000));
    assert_eq!(changes(&outcome), [("settings.toml".to_owned(), ChangeKind::Changed)]);
    assert_eq!(revisions(&outcome), [("settings.toml".to_owned(), Revision::of("a = 1\n"))]);
    assert!(outcome.observed_before.is_empty());
    assert!(!outcome.pending);
}

#[test]
fn each_area_is_separate() {
    let mut backend = MemoryBackend::new();
    write(&mut backend, Area::Data, &[("notes.md", "data")]);
    assert_eq!(contents(&backend, Area::Data, "notes.md").as_deref(), Some("data"));
    assert_eq!(contents(&backend, Area::Config, "notes.md"), None);
    assert_eq!(contents(&backend, Area::Cache, "notes.md"), None);
}

#[test]
fn a_file_deleted_is_gone_and_reported_removed() {
    let mut backend = MemoryBackend::new();
    write(&mut backend, Area::Data, &[("a.txt", "a"), ("b.txt", "b")]);
    let mut staging = Staging::new(Area::Data);
    staging.delete("a.txt").unwrap();
    let outcome = commit(&mut backend, staging).unwrap();
    assert_eq!(contents(&backend, Area::Data, "a.txt"), None);
    assert_eq!(list(&backend, Area::Data, ""), ["b.txt"]);
    assert_eq!(changes(&outcome), [("a.txt".to_owned(), ChangeKind::Removed)]);
    assert!(revisions(&outcome).is_empty());
}

#[test]
fn a_prefix_delete_removes_every_file_under_it_but_not_what_was_staged_after_it() {
    let mut backend = MemoryBackend::new();
    write(
        &mut backend,
        Area::Data,
        &[("themes/a.toml", "a"), ("themes/dark/b.toml", "b"), ("themes.toml", "t")],
    );
    let mut staging = Staging::new(Area::Data);
    staging.delete_prefix("themes/").unwrap();
    staging.write("themes/c.toml", "c").unwrap();
    let outcome = commit(&mut backend, staging).unwrap();
    assert_eq!(list(&backend, Area::Data, ""), ["themes.toml", "themes/c.toml"]);
    assert_eq!(
        changes(&outcome),
        [
            ("themes/a.toml".to_owned(), ChangeKind::Removed),
            ("themes/c.toml".to_owned(), ChangeKind::Changed),
            ("themes/dark/b.toml".to_owned(), ChangeKind::Removed),
        ],
    );
}

#[test]
fn a_write_that_changes_nothing_is_left_out_but_its_revision_is_given() {
    let mut backend = MemoryBackend::new();
    write(&mut backend, Area::Config, &[("settings.toml", "same")]);
    let outcome = write(&mut backend, Area::Config, &[("settings.toml", "same")]);
    assert!(changes(&outcome).is_empty());
    assert_eq!(revisions(&outcome), [("settings.toml".to_owned(), Revision::of("same"))]);
}

#[test]
fn deleting_a_path_with_no_file_reports_nothing() {
    let mut backend = MemoryBackend::new();
    let mut staging = Staging::new(Area::Cache);
    staging.delete("missing.txt").unwrap();
    let outcome = commit(&mut backend, staging).unwrap();
    assert!(changes(&outcome).is_empty());
}

#[test]
fn the_latest_thing_staged_for_a_path_wins() {
    let mut backend = MemoryBackend::new();
    let mut staging = Staging::new(Area::Data);
    staging.write("a.txt", "first").unwrap();
    staging.write("a.txt", "second").unwrap();
    staging.write("b.txt", "b").unwrap();
    staging.delete("b.txt").unwrap();
    commit(&mut backend, staging).unwrap();
    assert_eq!(contents(&backend, Area::Data, "a.txt").as_deref(), Some("second"));
    assert_eq!(contents(&backend, Area::Data, "b.txt"), None);
}

#[test]
fn a_precondition_that_fails_is_a_conflict_naming_its_path_and_nothing_is_written() {
    let mut backend = MemoryBackend::new();
    write(&mut backend, Area::Data, &[("taken.txt", "old")]);
    let mut staging = Staging::new(Area::Data);
    staging.require("taken.txt", Precondition::Absent).unwrap();
    staging.require("free.txt", Precondition::Absent).unwrap();
    staging.write("taken.txt", "new").unwrap();
    staging.write("other.txt", "other").unwrap();
    match commit(&mut backend, staging) {
        Err(Error::Conflict { paths }) => {
            let names: Vec<&str> = paths.iter().map(|path| path.as_str()).collect();
            assert_eq!(names, ["taken.txt"]);
        }
        other => panic!("expected a Conflict, got {other:?}"),
    }
    assert_eq!(contents(&backend, Area::Data, "taken.txt").as_deref(), Some("old"));
    assert_eq!(contents(&backend, Area::Data, "other.txt"), None);
}

#[test]
fn writing_back_a_file_read_before_succeeds_only_if_it_is_unchanged() {
    let mut backend = MemoryBackend::new();
    write(&mut backend, Area::Config, &[("counter", "1")]);
    let file = backend.read(Area::Config, &path("counter")).unwrap();
    let mut staging = Staging::new(Area::Config);
    staging.write_back(&file, "2");
    commit(&mut backend, staging).unwrap();
    assert_eq!(contents(&backend, Area::Config, "counter").as_deref(), Some("2"));

    let mut stale = Staging::new(Area::Config);
    stale.write_back(&file, "3");
    assert!(matches!(commit(&mut backend, stale), Err(Error::Conflict { .. })));
    assert_eq!(contents(&backend, Area::Config, "counter").as_deref(), Some("2"));
}

#[test]
fn a_stale_prefix_revision_names_the_paths_added_removed_or_changed_under_it() {
    let mut backend = MemoryBackend::new();
    write(&mut backend, Area::Data, &[("d/a", "a"), ("d/b", "b"), ("d/c", "c"), ("e", "e")]);
    let prefix = Prefix::new("d/").unwrap();
    let taken = backend.stat_prefix(Area::Data, &prefix).unwrap();

    let mut staging = Staging::new(Area::Data);
    staging.write("d/a", "changed").unwrap();
    staging.delete("d/b").unwrap();
    staging.write("d/z", "new").unwrap();
    staging.write("e", "outside").unwrap();
    commit(&mut backend, staging).unwrap();

    let now = backend.stat_prefix(Area::Data, &prefix).unwrap();
    let differences = taken.differences(&now);
    let differing: Vec<&str> = differences.iter().map(|p| p.as_str()).collect();
    assert_eq!(differing, ["d/a", "d/b", "d/z"]);

    let mut staging = Staging::new(Area::Data);
    staging.require_prefix("d/", taken).unwrap();
    staging.write("f", "f").unwrap();
    match commit(&mut backend, staging) {
        Err(Error::Conflict { paths }) => {
            let names: Vec<&str> = paths.iter().map(|path| path.as_str()).collect();
            assert_eq!(names, ["d/a", "d/b", "d/z"]);
        }
        other => panic!("expected a Conflict, got {other:?}"),
    }
    assert_eq!(contents(&backend, Area::Data, "f"), None);
}

#[test]
fn a_prefix_revision_taken_again_without_changes_holds() {
    let mut backend = MemoryBackend::new();
    write(&mut backend, Area::Data, &[("d/a", "a")]);
    let prefix = Prefix::new("d/").unwrap();
    let taken = backend.stat_prefix(Area::Data, &prefix).unwrap();
    let again = backend.stat_prefix(Area::Data, &prefix).unwrap();
    assert_eq!(taken, again);
    assert!(taken.differences(&again).is_empty());
    let mut staging = Staging::new(Area::Data);
    staging.require_prefix("d/", taken).unwrap();
    staging.write("d/b", "b").unwrap();
    commit(&mut backend, staging).unwrap();
    assert_eq!(list(&backend, Area::Data, "d/"), ["d/a", "d/b"]);
}

#[test]
fn a_prefix_revision_of_another_area_or_prefix_never_holds() {
    let mut backend = MemoryBackend::new();
    let taken = backend.stat_prefix(Area::Cache, &Prefix::new("").unwrap()).unwrap();
    let mut staging = Staging::new(Area::Data);
    staging.require_prefix("", taken).unwrap();
    staging.write("a", "a").unwrap();
    assert!(matches!(commit(&mut backend, staging), Err(Error::Conflict { .. })));
}

#[test]
fn a_path_differing_only_in_letter_case_from_another_is_refused() {
    let mut backend = MemoryBackend::new();
    write(&mut backend, Area::Config, &[("Themes/a.toml", "a")]);
    let mut staging = Staging::new(Area::Config);
    staging.write("themes/b.toml", "b").unwrap();
    staging.write("fine.toml", "fine").unwrap();
    match commit(&mut backend, staging) {
        Err(Error::InvalidPath { path, reason: InvalidPathReason::LetterCaseClash }) => {
            assert_eq!(path, "themes/b.toml");
        }
        other => panic!("expected a letter-case clash, got {other:?}"),
    }
    assert_eq!(list(&backend, Area::Config, ""), ["Themes/a.toml"]);
}

#[test]
fn two_paths_of_one_commit_that_clash_are_refused() {
    let mut backend = MemoryBackend::new();
    let mut staging = Staging::new(Area::Data);
    staging.write("Readme.md", "a").unwrap();
    staging.write("README.md", "b").unwrap();
    match commit(&mut backend, staging) {
        Err(Error::InvalidPath { path, reason: InvalidPathReason::LetterCaseClash }) => {
            assert_eq!(path, "README.md");
        }
        other => panic!("expected a letter-case clash, got {other:?}"),
    }
}

#[test]
fn a_file_can_t_be_under_another_file() {
    let mut backend = MemoryBackend::new();
    write(&mut backend, Area::Data, &[("a", "file")]);
    let mut staging = Staging::new(Area::Data);
    staging.write("a/b", "under").unwrap();
    match commit(&mut backend, staging) {
        Err(Error::InvalidPath { path, reason: InvalidPathReason::FileUnderFile }) => {
            assert_eq!(path, "a/b");
        }
        other => panic!("expected a File under a File, got {other:?}"),
    }
    let mut staging = Staging::new(Area::Data);
    staging.write("x/y", "y").unwrap();
    staging.write("x", "x").unwrap();
    match commit(&mut backend, staging) {
        Err(Error::InvalidPath { path, reason: InvalidPathReason::FileUnderFile }) => {
            assert_eq!(path, "x");
        }
        other => panic!("expected a File under a File, got {other:?}"),
    }
}

#[test]
fn a_file_can_move_under_its_own_name_in_one_commit() {
    let mut backend = MemoryBackend::new();
    write(&mut backend, Area::Data, &[("a", "file")]);
    let mut staging = Staging::new(Area::Data);
    staging.delete("a").unwrap();
    staging.write("a/b", "moved").unwrap();
    commit(&mut backend, staging).unwrap();
    assert_eq!(list(&backend, Area::Data, ""), ["a/b"]);
}

#[test]
fn a_conflict_comes_before_a_clash() {
    let mut backend = MemoryBackend::new();
    write(&mut backend, Area::Data, &[("A", "a")]);
    let mut staging = Staging::new(Area::Data);
    staging.require("A", Precondition::Absent).unwrap();
    staging.write("a", "clash").unwrap();
    assert!(matches!(commit(&mut backend, staging), Err(Error::Conflict { .. })));
}

#[test]
fn a_snapshot_keeps_what_was_there_when_it_was_taken() {
    let mut backend = MemoryBackend::new();
    write(&mut backend, Area::Data, &[("a", "before"), ("b", "b")]);
    let snapshot = backend.snapshot(Area::Data);
    let mut staging = Staging::new(Area::Data);
    staging.write("a", "after").unwrap();
    staging.delete("b").unwrap();
    staging.write("c", "c").unwrap();
    commit(&mut backend, staging).unwrap();
    assert_eq!(snapshot.read(&path("a")).unwrap().contents(), "before");
    assert_eq!(snapshot.stat(&path("b")).unwrap().revision(), Revision::of("b"));
    let listed: Vec<String> =
        snapshot.list(&Prefix::new("").unwrap()).iter().map(|p| p.as_str().to_owned()).collect();
    assert_eq!(listed, ["a", "b"]);
    assert_eq!(contents(&backend, Area::Data, "a").as_deref(), Some("after"));
}

#[test]
fn listing_a_prefix_gives_only_the_files_under_it_in_order() {
    let mut backend = MemoryBackend::new();
    write(&mut backend, Area::Data, &[("b/2", ""), ("a", ""), ("b/1", ""), ("b0", ""), ("c/b/1", "")]);
    assert_eq!(list(&backend, Area::Data, ""), ["a", "b/1", "b/2", "b0", "c/b/1"]);
    assert_eq!(list(&backend, Area::Data, "b/"), ["b/1", "b/2"]);
    assert_eq!(list(&backend, Area::Data, "z/"), Vec::<String>::new());
}

#[test]
fn a_revision_is_the_xxh3_hash_of_the_contents() {
    assert_eq!(Revision::of("hello").to_number(), xxhash_rust::xxh3::xxh3_128(b"hello"));
    assert_ne!(Revision::of("hello"), Revision::of("hello!"));
    assert_eq!(Revision::of("same"), Revision::of("same"));
}

#[test]
fn a_stat_gives_the_revision_and_time_of_the_last_write() {
    let mut backend = MemoryBackend::new();
    write(&mut backend, Area::Cache, &[("c", "1")]);
    let stat = backend.stat(Area::Cache, &path("c")).unwrap();
    assert_eq!(stat.revision(), Revision::of("1"));
    assert_eq!(stat.modified(), at(1_700_000_000));
    assert!(backend.stat(Area::Cache, &path("d")).is_none());
}
