//! What the filesystem watcher decides, and how an Area reads with a Commit in its journal.

use jiff::Timestamp;
use tidings::as_finished::AsFinished;
use tidings::change::RawChange;
use tidings::commit::{AreaState, ChangeTarget, Observed, Planned};
use tidings::journal::{Journal, JournalState, Remove, Replace, Target};
use tidings::links::{Link, LinkAction, Links};
use tidings::memory::{AreaInMemory, ChangingArea};
use tidings::path_map::PathMap;
use tidings::reported::Reported;
use tidings::watch::{
    Arrival, EventSort, Located, Look, Seen, Settle, Settling, compare, listing, mark_missed,
    may_be_gone, may_change_contents, names_a_slow_commit, observed_of,
};
use tidings::{Area, ChangeKind, Error, Origin, Path, PerArea, Prefix, Revision, Stat};

fn path(text: &str) -> Path {
    Path::new(text).unwrap()
}

fn area_with(files: &[(&str, &str)]) -> AreaInMemory {
    let mut area = ChangingArea::new(AreaInMemory::new());
    for (name, contents) in files {
        let stat = Stat::new(Timestamp::UNIX_EPOCH, Revision::of(contents));
        area.change(&path(name), Planned::Write { contents: (*contents).to_owned(), stat }).unwrap();
    }
    area.into_area()
}

fn set_of(names: &[&str]) -> PathMap<()> {
    let mut set = PathMap::new();
    for name in names {
        set.insert(path(name), ());
    }
    set
}

fn keys(set: &PathMap<()>) -> Vec<String> {
    (0..set.len()).map(|i| set.entry(i).0.as_str().to_owned()).collect()
}

fn changes_of(changes: &[RawChange]) -> Vec<(String, ChangeKind)> {
    changes.iter().map(|change| (change.path.as_str().to_owned(), change.kind)).collect()
}

#[test]
fn an_event_for_a_path_is_looked_at_and_others_are_dropped() {
    let mut seen = Seen::new();
    seen.locate(&Located::Elsewhere, true);
    assert!(!seen.touched);
    seen.locate(&Located::Name("notes/a.txt".to_owned()), false);
    seen.locate(&Located::Name(".tidings/lock".to_owned()), false);
    seen.locate(&Located::Name(".a.txt.tidings-0123456789abcdef0123456789abcdef-0".to_owned()), false);
    seen.locate(&Located::Unreadable, false);
    assert!(seen.touched);
    assert_eq!(keys(&seen.names), ["notes/a.txt"]);
    assert!(!seen.journal && !seen.root_gone && !seen.missed);
    seen.locate(&Located::Name(".tidings/journal".to_owned()), false);
    assert!(seen.journal);
    assert_eq!(seen.look(), Look::Compare);
    seen.locate(&Located::Root, false);
    assert!(!seen.root_gone);
    seen.locate(&Located::Root, true);
    assert!(seen.root_gone);
    assert_eq!(seen.look(), Look::WatchAgain);
    seen.linked(path("settings.toml"));
    assert_eq!(keys(&seen.names), ["notes/a.txt", "settings.toml"]);
}

#[test]
fn an_area_is_watched_again_listed_again_compared_or_left() {
    let mut seen = Seen::new();
    assert_eq!(seen.look(), Look::Nothing);
    seen.touched = true;
    assert_eq!(seen.look(), Look::Compare);
    seen.missed = true;
    assert_eq!(seen.look(), Look::ListAgain);
    seen.root_gone = true;
    assert_eq!(seen.look(), Look::WatchAgain);
}

#[test]
fn missed_events_resync_the_areas_they_name_or_every_area() {
    let fresh = || PerArea { config: Seen::new(), data: Seen::new(), cache: Seen::new() };
    let mut seen = fresh();
    let mut located = fresh();
    located.data.locate(&Located::Name("a.txt".to_owned()), false);
    mark_missed(&mut seen, &located);
    assert!(!seen.config.missed && seen.data.missed && !seen.cache.missed);

    let mut seen = fresh();
    mark_missed(&mut seen, &fresh());
    assert!(seen.config.missed && seen.data.missed && seen.cache.missed);
}

#[test]
fn what_comparing_found_is_external_or_a_resync() {
    assert!(matches!(observed_of(Ok(Vec::new())), (None, false)));
    let change = RawChange { path: path("a.txt"), kind: ChangeKind::Changed };
    match observed_of(Ok(vec![change])) {
        (Some(Observed::Changes { origin, changes }), false) => {
            assert_eq!(origin, Origin::External);
            assert_eq!(changes_of(&changes), [("a.txt".to_owned(), ChangeKind::Changed)]);
        }
        other => panic!("expected external Changes, got {other:?}"),
    }
    let failed = Error::Backend { message: "gone".to_owned() };
    assert!(matches!(observed_of(Err(failed)), (Some(Observed::Missed), true)));
}

#[test]
fn comparing_reports_a_commit_in_the_journal_whole() {
    let area = area_with(&[("a.txt", "new"), ("b.txt", "b")]);
    let mut files = PathMap::new();
    files.insert(path("a.txt"), Some(Revision::of("old")));
    let mut reported = Reported::new();
    reported.set(files);

    let (changes, looked_at) =
        compare(&mut reported, &area, &set_of(&["a.txt"]), &set_of(&["b.txt"]), false).unwrap();
    assert_eq!(changes_of(&changes), [("a.txt".to_owned(), ChangeKind::Changed)]);
    assert_eq!(looked_at.iter().map(Path::as_str).collect::<Vec<_>>(), ["a.txt"]);

    let mut reported = Reported::new();
    let (changes, _) =
        compare(&mut reported, &area, &set_of(&["a.txt"]), &set_of(&["b.txt"]), true).unwrap();
    assert_eq!(
        changes_of(&changes),
        [("a.txt".to_owned(), ChangeKind::Changed), ("b.txt".to_owned(), ChangeKind::Changed)],
    );

    let mut reported = Reported::new();
    let (changes, _) =
        compare(&mut reported, &area, &set_of(&["b.txt"]), &set_of(&["a.txt", "b.txt"]), false)
            .unwrap();
    assert_eq!(
        changes_of(&changes),
        [("a.txt".to_owned(), ChangeKind::Changed), ("b.txt".to_owned(), ChangeKind::Changed)],
    );
    assert_eq!(reported.get(&path("b.txt")), Some(Some(Revision::of("b"))));
}

#[test]
fn looking_again_with_nothing_changed_finds_nothing() {
    let area = area_with(&[("a.txt", "a"), ("d/e.txt", "e")]);
    let mut reported = Reported::new();
    let names = set_of(&["a.txt", "d"]);
    let (first, _) = compare(&mut reported, &area, &names, &PathMap::new(), false).unwrap();
    assert_eq!(first.len(), 2);
    let (again, _) = compare(&mut reported, &area, &names, &PathMap::new(), false).unwrap();
    assert!(again.is_empty());
}

#[test]
fn listing_reads_only_the_files_of_the_commit_in_the_journal() {
    let area = area_with(&[("a.txt", "a"), ("b.txt", "b")]);
    let files = listing(&area, &set_of(&["b.txt", "gone.txt"])).unwrap();
    let mut reported = Reported::new();
    reported.set(files);
    assert_eq!(reported.get(&path("a.txt")), Some(None));
    assert_eq!(reported.get(&path("b.txt")), Some(Some(Revision::of("b"))));
    assert_eq!(reported.get(&path("gone.txt")), None);
}

#[test]
fn a_burst_ends_once_it_has_settled() {
    let mut settling = Settling::start(100, 1_000, Arrival::Events);
    assert_eq!((settling.until, settling.latest), (1_050, 1_400));
    assert_eq!(settling.next(1_010, false), Settle::WaitUntil(1_050));
    settling.events(1_030);
    assert_eq!(settling.until, 1_080);
    settling.removal(1_040);
    assert_eq!(settling.until, 1_165);
    assert_eq!(settling.next(1_165, false), Settle::Ended);
    assert_eq!(Settling::start(100, 7, Arrival::RemovalSettled).until, 7);
    assert_eq!(Settling::start(100, 7, Arrival::Removal).until, 132);
}

#[test]
fn a_burst_of_a_slow_commit_waits_for_it_once_it_is_late() {
    let mut settling = Settling::start(100, 0, Arrival::Events);
    assert_eq!(settling.next(50, true), Settle::WaitForCommits);
    assert!(!settling.waited_late);
    settling.waited(300);
    assert_eq!((settling.until, settling.latest), (425, 425));
    assert_eq!(settling.next(425, true), Settle::WaitForCommits);
    assert!(settling.waited_late);
    settling.waited(500);
    assert_eq!((settling.until, settling.latest), (625, 625));
    assert_eq!(settling.next(700, true), Settle::Ended);
}

#[test]
fn events_of_temporary_files_or_the_journal_are_of_a_slow_commit() {
    assert!(names_a_slow_commit(".a.txt.tidings-0123456789abcdef0123456789abcdef-12", false));
    assert!(names_a_slow_commit("journal", true));
    assert!(!names_a_slow_commit("a.txt", false));
}

fn journal(state: JournalState, revision_gone: Revision) -> Journal {
    let replace = Replace {
        path: path("a.txt"),
        temporary: "/area/.a.txt.tidings-0123456789abcdef0123456789abcdef-0".to_owned(),
        target: Target::AtPath,
    };
    let remove = Remove { path: path("gone.txt"), revision: revision_gone };
    let mut journal = Journal::prepared(vec![replace], vec![remove]);
    if state == JournalState::Committed {
        journal.commit();
    }
    journal
}

#[test]
fn an_area_with_a_committed_journal_reads_as_finished() {
    let area = area_with(&[("a.txt", "old"), ("gone.txt", "gone"), ("kept.txt", "kept")]);
    let temporaries = vec![Some(Revision::of("new"))];
    let committed = journal(JournalState::Committed, Revision::of("gone"));
    let finished = AsFinished::of(&area, Some(&committed), &temporaries);
    assert_eq!(finished.revision(&path("a.txt")).unwrap(), Some(Revision::of("new")));
    assert_eq!(finished.revision(&path("gone.txt")).unwrap(), None);
    let listed = finished.paths_under(&Prefix::everything()).unwrap();
    assert_eq!(listed.iter().map(Path::as_str).collect::<Vec<_>>(), ["a.txt", "kept.txt"]);
    let revisions = finished.revisions_under(&Prefix::everything()).unwrap();
    assert_eq!(revisions.len(), 2);
    assert_eq!((revisions[0].0.as_str(), revisions[0].1), ("a.txt", Revision::of("new")));

    let prepared = journal(JournalState::Prepared, Revision::of("gone"));
    let as_it_is = AsFinished::of(&area, Some(&prepared), &temporaries);
    assert_eq!(as_it_is.revision(&path("a.txt")).unwrap(), Some(Revision::of("old")));
    assert_eq!(as_it_is.revision(&path("gone.txt")).unwrap(), Some(Revision::of("gone")));

    // A File moved onto a deleted Path since isn't the one the Commit deletes, and stays.
    let moved_onto = journal(JournalState::Committed, Revision::of("something else"));
    let finished = AsFinished::of(&area, Some(&moved_onto), &vec![None]);
    assert_eq!(finished.revision(&path("gone.txt")).unwrap(), Some(Revision::of("gone")));
    assert_eq!(finished.revision(&path("a.txt")).unwrap(), Some(Revision::of("old")));
}

fn chars(text: &str) -> Vec<char> {
    text.chars().collect()
}

fn link(target: &str, directory: Option<&str>) -> Link {
    Link { target: chars(target), directory: directory.map(chars) }
}

fn described(actions: &[LinkAction]) -> Vec<String> {
    actions
        .iter()
        .map(|action| match action {
            LinkAction::Watch(directory) => format!("watch {}", directory.iter().collect::<String>()),
            LinkAction::Unwatch(directory) => format!("unwatch {}", directory.iter().collect::<String>()),
        })
        .collect()
}

#[test]
fn a_directory_outside_the_areas_is_watched_while_a_link_points_into_it() {
    let mut links = Links::new();
    let first = links.relink(Area::Config, path("settings.toml"), Some(link("/dots/settings.toml", Some("/dots"))));
    assert_eq!(described(&first), ["watch /dots"]);
    let second = links.relink(Area::Data, path("theme.toml"), Some(link("/dots/theme.toml", Some("/dots"))));
    assert!(second.is_empty());
    let same = links.relink(Area::Data, path("theme.toml"), Some(link("/dots/theme.toml", Some("/dots"))));
    assert!(same.is_empty());
    let found = links.linking(&chars("/dots/theme.toml"));
    assert_eq!(found.len(), 1);
    assert_eq!((found[0].0, found[0].1.as_str()), (Area::Data, "theme.toml"));

    let unlinked = links.relink(Area::Config, path("settings.toml"), None);
    assert!(unlinked.is_empty());
    let forgotten = links.forget(Area::Data);
    assert_eq!(described(&forgotten), ["unwatch /dots"]);
    assert!(links.linking(&chars("/dots/theme.toml")).is_empty());
}

#[test]
fn a_link_moved_to_another_directory_watches_that_one_instead() {
    let mut links = Links::new();
    links.relink(Area::Cache, path("a"), Some(link("/x/a", Some("/x"))));
    let moved = links.relink(Area::Cache, path("a"), Some(link("/y/a", Some("/y"))));
    assert_eq!(described(&moved), ["unwatch /x", "watch /y"]);
    let inside = links.relink(Area::Cache, path("a"), Some(link("/area/b", None)));
    assert_eq!(described(&inside), ["unwatch /y"]);
}

#[test]
fn only_events_that_can_change_contents_are_looked_at() {
    assert!(!may_change_contents(EventSort::Access));
    assert!(!may_change_contents(EventSort::Metadata));
    assert!(may_change_contents(EventSort::Other));
    assert!(may_be_gone(EventSort::Removed) && may_be_gone(EventSort::Renamed));
    assert!(!may_be_gone(EventSort::Other));
}
