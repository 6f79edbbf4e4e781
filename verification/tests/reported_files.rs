//! What the Change feed was told of an Area, and what looking at a name again finds.

use jiff::Timestamp;
use tidings::commit::{ChangeTarget, CommitRequest, Planned};
use tidings::memory::{AreaInMemory, ChangingArea};
use tidings::path_map::PathMap;
use tidings::reported::Reported;
use tidings::{Area, ChangeKind, MemoryBackend, Path, Revision, Stat, Staging};

fn path(text: &str) -> Path {
    Path::new(text).unwrap()
}

fn area_with(files: &[(&str, &str)]) -> AreaInMemory {
    let mut area = ChangingArea::new(AreaInMemory::new());
    for (name, contents) in files {
        let stat = Stat::new(Timestamp::UNIX_EPOCH, Revision::of(contents));
        area.change(&path(name), Planned::Write { contents: (*contents).to_owned(), stat }).unwrap();
    }
    area.into_area()
}

fn changed(changes: &PathMap<ChangeKind>) -> Vec<(String, ChangeKind)> {
    (0..changes.len())
        .map(|i| {
            let (path, kind) = changes.entry(i);
            (path.as_str().to_owned(), *kind)
        })
        .collect()
}

fn names(paths: &[Path]) -> Vec<&str> {
    let mut names: Vec<&str> = paths.iter().map(|path| path.as_str()).collect();
    names.sort();
    names
}

#[test]
fn a_commit_is_taken_as_reported() {
    let mut backend = MemoryBackend::new();
    let mut reported = Reported::new();
    let mut staging = Staging::new(Area::Data);
    staging.write("a", "a").unwrap();
    staging.write("b", "b").unwrap();
    let outcome = backend
        .commit(CommitRequest { timestamp: Timestamp::UNIX_EPOCH, staged: staging.into_staged() })
        .unwrap();
    reported.committed(&outcome);
    assert_eq!(reported.get(&path("a")), Some(Some(Revision::of("a"))));
    assert_eq!(reported.get(&path("b")), Some(Some(Revision::of("b"))));

    let mut staging = Staging::new(Area::Data);
    staging.delete("a").unwrap();
    let outcome = backend
        .commit(CommitRequest { timestamp: Timestamp::UNIX_EPOCH, staged: staging.into_staged() })
        .unwrap();
    reported.committed(&outcome);
    assert_eq!(reported.get(&path("a")), None);
    assert_eq!(reported.get(&path("b")), Some(Some(Revision::of("b"))));
}

#[test]
fn a_file_as_reported_gives_no_change() {
    let area = area_with(&[("a.txt", "same")]);
    let mut reported = Reported::new();
    let mut known = PathMap::new();
    known.insert(path("a.txt"), Some(Revision::of("same")));
    reported.set(known);
    let (mut changes, mut looked_at) = (PathMap::new(), Vec::new());
    reported.catch_up(&area, &path("a.txt"), &mut changes, &mut looked_at).unwrap();
    assert!(changed(&changes).is_empty());
    assert_eq!(names(&looked_at), ["a.txt"]);
}

#[test]
fn a_file_edited_or_new_is_changed_and_one_gone_is_removed() {
    let area = area_with(&[("edited", "new"), ("created", "c")]);
    let mut reported = Reported::new();
    let mut known = PathMap::new();
    known.insert(path("edited"), Some(Revision::of("old")));
    known.insert(path("gone"), None);
    reported.set(known);
    let (mut changes, mut looked_at) = (PathMap::new(), Vec::new());
    for name in ["edited", "created", "gone", "never"] {
        reported.catch_up(&area, &path(name), &mut changes, &mut looked_at).unwrap();
    }
    assert_eq!(
        changed(&changes),
        [
            ("created".to_owned(), ChangeKind::Changed),
            ("edited".to_owned(), ChangeKind::Changed),
            ("gone".to_owned(), ChangeKind::Removed),
        ],
    );
    assert_eq!(reported.get(&path("edited")), Some(Some(Revision::of("new"))));
    assert_eq!(reported.get(&path("gone")), None);
    assert_eq!(reported.get(&path("never")), None);
    assert_eq!(names(&looked_at), ["created", "edited", "gone", "never"]);
}

#[test]
fn a_directory_looked_at_gives_a_change_for_each_file_in_it() {
    let area = area_with(&[("dir/kept", "k"), ("dir/new", "n"), ("dir/sub/deep", "d"), ("dirt", "t")]);
    let mut reported = Reported::new();
    let mut known = PathMap::new();
    known.insert(path("dir/kept"), None);
    known.insert(path("dir/old"), Some(Revision::of("o")));
    known.insert(path("dirt"), None);
    reported.set(known);
    let (mut changes, mut looked_at) = (PathMap::new(), Vec::new());
    reported.catch_up(&area, &path("dir"), &mut changes, &mut looked_at).unwrap();
    assert_eq!(
        changed(&changes),
        [
            ("dir/new".to_owned(), ChangeKind::Changed),
            ("dir/old".to_owned(), ChangeKind::Removed),
            ("dir/sub/deep".to_owned(), ChangeKind::Changed),
        ],
    );
    // A File under the directory that was reported stays as it was, and one beside it isn't
    // looked at.
    assert_eq!(reported.get(&path("dir/kept")), Some(None));
    assert_eq!(reported.get(&path("dirt")), Some(None));
    assert_eq!(reported.get(&path("dir/new")), Some(Some(Revision::of("n"))));
    assert_eq!(names(&looked_at), ["dir", "dir/new", "dir/old", "dir/sub/deep"]);
}

#[test]
fn forgetting_everything_makes_each_file_new_again() {
    let area = area_with(&[("a", "a")]);
    let mut reported = Reported::new();
    let mut known = PathMap::new();
    known.insert(path("a"), Some(Revision::of("a")));
    reported.set(known);
    reported.clear();
    let (mut changes, mut looked_at) = (PathMap::new(), Vec::new());
    reported.catch_up(&area, &path("a"), &mut changes, &mut looked_at).unwrap();
    assert_eq!(changed(&changes), [("a".to_owned(), ChangeKind::Changed)]);
}
