//! How unread Changes are merged until the Change feed reads them.

use jiff::Timestamp;
use tidings::change::{Next, RawChange, Unread};
use tidings::commit::CommitRequest;
use tidings::{Area, Change, ChangeKind, FeedItem, MemoryBackend, Origin, Path, Staging};

fn raw(name: &str, kind: ChangeKind) -> RawChange {
    RawChange { path: Path::new(name).unwrap(), kind }
}

fn in_full(changes: &[Change]) -> Vec<(Area, String, ChangeKind, Origin)> {
    changes
        .iter()
        .map(|change| (change.area, change.path.as_str().to_owned(), change.kind, change.origin))
        .collect()
}

fn next_batch(unread: &mut Unread) -> Vec<(Area, String, ChangeKind, Origin)> {
    match unread.next() {
        Next::Item(FeedItem::Changes(batch)) => in_full(&batch),
        Next::Item(other) => panic!("expected a batch, got {other:?}"),
        Next::Ended => panic!("expected a batch, the feed ended"),
        Next::Wait => panic!("expected a batch, nothing was unread"),
    }
}

#[test]
fn changes_to_one_path_merge_into_one_with_the_latest_kind() {
    let mut unread = Unread::new();
    unread.record(Area::Data, vec![raw("a.txt", ChangeKind::Changed)], Origin::Local);
    unread.record(Area::Data, vec![raw("a.txt", ChangeKind::Removed)], Origin::Local);
    unread.record(Area::Data, vec![raw("b.txt", ChangeKind::Removed), raw("b.txt", ChangeKind::Changed)], Origin::Local);
    assert_eq!(
        next_batch(&mut unread),
        [
            (Area::Data, "a.txt".to_owned(), ChangeKind::Removed, Origin::Local),
            (Area::Data, "b.txt".to_owned(), ChangeKind::Changed, Origin::Local),
        ],
    );
    assert!(matches!(unread.next(), Next::Wait));
}

#[test]
fn a_merged_change_is_external_if_any_change_merged_into_it_is() {
    let mut unread = Unread::new();
    // External, then local: the local kind is the latest, but it stays external.
    unread.record(Area::Config, vec![raw("external-first.toml", ChangeKind::Changed)], Origin::External);
    unread.record(Area::Config, vec![raw("external-first.toml", ChangeKind::Changed)], Origin::Local);
    unread.record(Area::Config, vec![raw("external-first.toml", ChangeKind::Removed)], Origin::Local);
    // Local, then external.
    unread.record(Area::Config, vec![raw("local-first.toml", ChangeKind::Changed)], Origin::Local);
    unread.record(Area::Config, vec![raw("local-first.toml", ChangeKind::Changed)], Origin::External);
    // Only local, beside them.
    unread.record(Area::Config, vec![raw("only-local.toml", ChangeKind::Changed)], Origin::Local);
    // The same Path in another Area is merged apart.
    unread.record(Area::Data, vec![raw("local-first.toml", ChangeKind::Changed)], Origin::Local);
    assert_eq!(
        next_batch(&mut unread),
        [
            (Area::Config, "external-first.toml".to_owned(), ChangeKind::Removed, Origin::External),
            (Area::Config, "local-first.toml".to_owned(), ChangeKind::Changed, Origin::External),
            (Area::Config, "only-local.toml".to_owned(), ChangeKind::Changed, Origin::Local),
            (Area::Data, "local-first.toml".to_owned(), ChangeKind::Changed, Origin::Local),
        ],
    );
    // Once read, a Path starts again: a new local Change to it is local.
    unread.record(Area::Config, vec![raw("local-first.toml", ChangeKind::Removed)], Origin::Local);
    assert_eq!(
        next_batch(&mut unread),
        [(Area::Config, "local-first.toml".to_owned(), ChangeKind::Removed, Origin::Local)],
    );
    assert!(matches!(unread.next(), Next::Wait));
}

#[test]
fn a_resync_takes_the_place_of_the_areas_changes_and_comes_first() {
    let mut unread = Unread::new();
    unread.record(Area::Data, vec![raw("a", ChangeKind::Changed)], Origin::Local);
    unread.record(Area::Config, vec![raw("c", ChangeKind::Changed)], Origin::Local);
    unread.resync(Area::Data);
    // Recorded while the Resync is unread, it adds nothing.
    unread.record(Area::Data, vec![raw("b", ChangeKind::Changed)], Origin::External);
    assert!(matches!(unread.next(), Next::Item(FeedItem::Resync(Area::Data))));
    assert_eq!(next_batch(&mut unread), [(Area::Config, "c".to_owned(), ChangeKind::Changed, Origin::Local)]);
    // Once it is read, Changes to the Area are recorded again.
    unread.record(Area::Data, vec![raw("d", ChangeKind::Removed)], Origin::External);
    assert_eq!(next_batch(&mut unread), [(Area::Data, "d".to_owned(), ChangeKind::Removed, Origin::External)]);
}

#[test]
fn a_resync_of_every_area_gives_one_for_each_in_order() {
    let mut unread = Unread::new();
    unread.record(Area::Cache, vec![raw("x", ChangeKind::Changed)], Origin::Local);
    unread.resync_every_area();
    let mut resynced = Vec::new();
    while let Next::Item(FeedItem::Resync(area)) = unread.next() {
        resynced.push(area);
        if resynced.len() == 3 {
            break;
        }
    }
    assert_eq!(resynced, [Area::Config, Area::Data, Area::Cache]);
    assert!(matches!(unread.next(), Next::Wait));
}

#[test]
fn the_feed_ends_once_the_store_is_gone_and_everything_is_read() {
    let mut unread = Unread::new();
    unread.record(Area::Data, vec![raw("a", ChangeKind::Changed)], Origin::Local);
    unread.end();
    // Nothing recorded after the end reaches the feed.
    unread.record(Area::Data, vec![raw("b", ChangeKind::Changed)], Origin::Local);
    unread.resync(Area::Config);
    assert_eq!(next_batch(&mut unread), [(Area::Data, "a".to_owned(), ChangeKind::Changed, Origin::Local)]);
    assert!(matches!(unread.next(), Next::Ended));
    assert!(matches!(unread.next(), Next::Ended));
}

#[test]
fn nothing_is_recorded_once_the_feed_is_dropped() {
    let mut unread = Unread::new();
    unread.record(Area::Data, vec![raw("a", ChangeKind::Changed)], Origin::Local);
    unread.drop_feed();
    unread.record(Area::Data, vec![raw("b", ChangeKind::Changed)], Origin::Local);
    unread.resync(Area::Data);
    assert!(unread.take().is_none());
    assert!(matches!(unread.next(), Next::Wait));
}

#[test]
fn the_changes_of_one_commit_arrive_in_one_batch() {
    let mut backend = MemoryBackend::new();
    let mut unread = Unread::new();
    let mut staging = Staging::new(Area::Data);
    staging.write("b.txt", "b").unwrap();
    staging.write("a.txt", "a").unwrap();
    staging.write("c/d.txt", "d").unwrap();
    let outcome = backend
        .commit(CommitRequest { timestamp: Timestamp::UNIX_EPOCH, staged: staging.into_staged() })
        .unwrap();
    unread.record(Area::Data, outcome.changes, Origin::Local);
    assert_eq!(
        next_batch(&mut unread),
        [
            (Area::Data, "a.txt".to_owned(), ChangeKind::Changed, Origin::Local),
            (Area::Data, "b.txt".to_owned(), ChangeKind::Changed, Origin::Local),
            (Area::Data, "c/d.txt".to_owned(), ChangeKind::Changed, Origin::Local),
        ],
    );
}

#[test]
fn taking_gives_every_area_in_order_and_leaves_nothing() {
    let mut unread = Unread::new();
    assert!(unread.take().is_none());
    unread.record(Area::Cache, vec![raw("z", ChangeKind::Changed)], Origin::Local);
    unread.record(Area::Config, vec![raw("y", ChangeKind::Removed)], Origin::External);
    let batch = unread.take().unwrap();
    assert_eq!(
        in_full(&batch),
        [
            (Area::Config, "y".to_owned(), ChangeKind::Removed, Origin::External),
            (Area::Cache, "z".to_owned(), ChangeKind::Changed, Origin::Local),
        ],
    );
    assert!(unread.take().is_none());
}
