//! Changes: what the Change feed tells the application, and how unread Changes are merged until
//! the application reads them.

use vstd::prelude::*;

use crate::area::{Area, PerArea};
use crate::commit::{raw_view, sorted_of};
use crate::path::Path;
use crate::path_map::{PathMap, entries_view, to_map};
use crate::sorted::{lemma_lookup_at, sorted_keys};

verus! {

/// What happened to a File.
#[derive(Debug, Clone, Copy, PartialEq, Eq, Structural, Hash)]
pub enum ChangeKind {
    /// The File was created or its contents changed.
    Changed,
    /// The File was removed.
    Removed,
}

/// Who made a Change.
#[derive(Debug, Clone, Copy, PartialEq, Eq, Structural, Hash)]
pub enum Origin {
    /// A Commit through this Store.
    Local,
    /// Anything else: another process, or a person editing the File.
    External,
}

/// A change a Backend made or observed, without its Area and Origin. The Store layer adds the
/// Area, and the Origin.
#[derive(Debug)]
pub struct RawChange {
    pub path: Path,
    pub kind: ChangeKind,
}

/// A notice that one Path in one Area was changed or removed, and by whom.
///
/// It never carries the contents: read the File again to see them.
#[derive(Debug, Clone, PartialEq, Eq)]
#[non_exhaustive]
pub struct Change {
    /// The Area the Path is in.
    pub area: Area,
    /// The Path that changed.
    pub path: Path,
    /// Whether the File was changed or removed.
    pub kind: ChangeKind,
    /// Who made the Change.
    pub origin: Origin,
}

/// A Change as values.
pub open spec fn change_view(change: Change) -> (Area, Seq<char>, ChangeKind, Origin) {
    (change.area, change.path@, change.kind, change.origin)
}

/// Changes as values.
pub open spec fn changes_view(changes: Seq<Change>) -> Seq<(Area, Seq<char>, ChangeKind, Origin)> {
    changes.map_values(|change: Change| change_view(change))
}

/// One item on the Change feed.
#[derive(Debug, Clone, PartialEq, Eq)]
pub enum FeedItem {
    /// Every Change recorded since the last item, merged per Area and Path. The Changes of a
    /// Commit through this Store always arrive in the same batch. A batch may hold several
    /// Commits' Changes.
    Changes(Vec<Change>),
    /// Changes to this Area may have been missed: read everything you rely on in it again.
    Resync(Area),
}

/// What is left of every unread Change to one Path, merged.
#[derive(Debug, Clone, Copy, PartialEq, Eq, Structural)]
pub struct Merged {
    /// The latest kind.
    pub kind: ChangeKind,
    /// External if any of the Changes merged was, so an app that skips its own Changes never
    /// misses someone else's.
    pub origin: Origin,
}

/// The kind of the last of `changes` to `key`, if any is.
pub open spec fn last_change(changes: Seq<(Seq<char>, ChangeKind)>, key: Seq<char>) -> Option<ChangeKind>
    decreases changes.len(),
{
    if changes.len() == 0 {
        None
    } else if changes.last().0 == key {
        Some(changes.last().1)
    } else {
        last_change(changes.drop_last(), key)
    }
}

/// `unread` with `changes`, all made by `origin`, merged in: each Path keeps the kind of its last
/// Change, and is External if any Change to it was.
pub open spec fn merged(
    unread: Map<Seq<char>, Merged>,
    changes: Seq<(Seq<char>, ChangeKind)>,
    origin: Origin,
) -> Map<Seq<char>, Merged> {
    Map::new(
        |key: Seq<char>| unread.contains_key(key) || last_change(changes, key) is Some,
        |key: Seq<char>|
            match last_change(changes, key) {
                Some(kind) => Merged {
                    kind,
                    origin: if origin == Origin::External || (unread.contains_key(key)
                        && unread[key].origin == Origin::External) {
                        Origin::External
                    } else {
                        Origin::Local
                    },
                },
                None => unread[key],
            },
    )
}

/// Unread Changes to the same Path, recorded in two batches, are merged into one: the latest kind
/// wins, and it counts as external if any of them was.
pub proof fn law_unread_changes_merge(
    unread: Map<Seq<char>, Merged>,
    first: Seq<(Seq<char>, ChangeKind)>,
    first_origin: Origin,
    second: Seq<(Seq<char>, ChangeKind)>,
    second_origin: Origin,
    key: Seq<char>,
)
    requires
        merged(merged(unread, first, first_origin), second, second_origin).contains_key(key),
    ensures
        merged(merged(unread, first, first_origin), second, second_origin)[key].kind == match last_change(
            second,
            key,
        ) {
            Some(kind) => kind,
            None => match last_change(first, key) {
                Some(kind) => kind,
                None => unread[key].kind,
            },
        },
        (merged(merged(unread, first, first_origin), second, second_origin)[key].origin == Origin::External) == (
        (unread.contains_key(key) && unread[key].origin == Origin::External) || (last_change(first, key) is Some
            && first_origin == Origin::External) || (last_change(second, key) is Some && second_origin
            == Origin::External)),
{
}

/// Merging one more Change is merging it into what was merged before.
proof fn lemma_merged_push(
    unread: Map<Seq<char>, Merged>,
    changes: Seq<(Seq<char>, ChangeKind)>,
    origin: Origin,
    change: (Seq<char>, ChangeKind),
)
    ensures
        merged(unread, changes.push(change), origin) == merged(unread, changes, origin).insert(
            change.0,
            Merged {
                kind: change.1,
                origin: if origin == Origin::External || (merged(unread, changes, origin).contains_key(
                    change.0,
                ) && merged(unread, changes, origin)[change.0].origin == Origin::External) {
                    Origin::External
                } else {
                    Origin::Local
                },
            },
        ),
{
    let longer = changes.push(change);
    assert(longer.drop_last() =~= changes);
    assert forall|key: Seq<char>| key != change.0 implies last_change(longer, key) == last_change(changes, key) by {
    }
    assert(merged(unread, longer, origin) =~= merged(unread, changes, origin).insert(
        change.0,
        Merged {
            kind: change.1,
            origin: if origin == Origin::External || (merged(unread, changes, origin).contains_key(
                change.0,
            ) && merged(unread, changes, origin)[change.0].origin == Origin::External) {
                Origin::External
            } else {
                Origin::Local
            },
        },
    ));
}

/// What is unread for one Area.
#[derive(Debug)]
pub enum UnreadInArea {
    /// The merged Changes to each Path.
    Changes(PathMap<Merged>),
    /// A Resync. It took the place of the Area's unread Changes, and Changes recorded for the
    /// Area until it is read add nothing to it: reading the Area again after it covers them.
    Resync,
}

/// What is unread for one Area, as values.
pub enum AreaUnread {
    Changes(Map<Seq<char>, Merged>),
    Resync,
}

impl View for UnreadInArea {
    type V = AreaUnread;

    open spec fn view(&self) -> AreaUnread {
        match self {
            UnreadInArea::Changes(merged) => AreaUnread::Changes(merged.map()),
            UnreadInArea::Resync => AreaUnread::Resync,
        }
    }
}

/// Nothing unread in an Area.
pub open spec fn nothing_unread() -> AreaUnread {
    AreaUnread::Changes(Map::empty())
}

/// Everything unread, as values.
pub struct UnreadView {
    pub config: AreaUnread,
    pub data: AreaUnread,
    pub cache: AreaUnread,
    pub store_dropped: bool,
    pub feed_dropped: bool,
}

impl UnreadView {
    /// What is unread for `area`.
    pub open spec fn at(self, area: Area) -> AreaUnread {
        match area {
            Area::Config => self.config,
            Area::Data => self.data,
            Area::Cache => self.cache,
        }
    }

    /// `self` with `unread` for `area`.
    pub open spec fn with(self, area: Area, unread: AreaUnread) -> UnreadView {
        match area {
            Area::Config => UnreadView { config: unread, ..self },
            Area::Data => UnreadView { data: unread, ..self },
            Area::Cache => UnreadView { cache: unread, ..self },
        }
    }

    /// Whether nothing more can be recorded: the Store or the Change feed has been dropped.
    pub open spec fn closed(self) -> bool {
        self.store_dropped || self.feed_dropped
    }
}

/// Every Change recorded and not yet read, merged. It holds at most one entry per Area and Path,
/// however many Changes were recorded.
#[derive(Debug)]
pub struct Unread {
    /// What is unread for each Area.
    areas: PerArea<UnreadInArea>,
    /// Every Store handle has been dropped: once what is unread has been read, the Change feed
    /// ends.
    store_dropped: bool,
    /// The Change feed has been dropped, so nothing is recorded.
    feed_dropped: bool,
}

impl View for Unread {
    type V = UnreadView;

    closed spec fn view(&self) -> UnreadView {
        UnreadView {
            config: self.areas.config@,
            data: self.areas.data@,
            cache: self.areas.cache@,
            store_dropped: self.store_dropped,
            feed_dropped: self.feed_dropped,
        }
    }
}

/// The unread Changes of `area`, in order of Path.
pub open spec fn area_batch(area: Area, unread: AreaUnread) -> Seq<(Area, Seq<char>, ChangeKind, Origin)> {
    match unread {
        AreaUnread::Changes(merged) => sorted_of(merged).map_values(
            |entry: (Seq<char>, Merged)| (area, entry.0, entry.1.kind, entry.1.origin),
        ),
        AreaUnread::Resync => Seq::empty(),
    }
}

/// Every unread Change, Area by Area, each in order of Path.
pub open spec fn batch_of(unread: UnreadView) -> Seq<(Area, Seq<char>, ChangeKind, Origin)> {
    area_batch(Area::Config, unread.config) + area_batch(Area::Data, unread.data) + area_batch(
        Area::Cache,
        unread.cache,
    )
}

/// What is unread for an Area once its Changes are taken: a Resync stays.
pub open spec fn emptied(unread: AreaUnread) -> AreaUnread {
    match unread {
        AreaUnread::Changes(_) => nothing_unread(),
        AreaUnread::Resync => AreaUnread::Resync,
    }
}

/// `unread` once every unread Change is taken.
pub open spec fn taken(unread: UnreadView) -> UnreadView {
    UnreadView {
        config: emptied(unread.config),
        data: emptied(unread.data),
        cache: emptied(unread.cache),
        ..unread
    }
}

/// The first Area, in order, with a Resync unread.
pub open spec fn first_resync(unread: UnreadView) -> Option<Area> {
    if unread.config is Resync {
        Some(Area::Config)
    } else if unread.data is Resync {
        Some(Area::Data)
    } else if unread.cache is Resync {
        Some(Area::Cache)
    } else {
        None
    }
}

/// What the Change feed does now.
pub enum Next {
    /// Gives this item.
    Item(FeedItem),
    /// Gives `None`: the Store is gone and everything recorded has been read.
    Ended,
    /// Waits for something to be recorded.
    Wait,
}

/// Two views that agree on every Area and on what was dropped are the same.
proof fn lemma_same_view(a: UnreadView, b: UnreadView)
    requires
        forall|area: Area| #[trigger] a.at(area) == b.at(area),
        a.store_dropped == b.store_dropped,
        a.feed_dropped == b.feed_dropped,
    ensures
        a == b,
{
    assert(a.at(Area::Config) == b.at(Area::Config));
    assert(a.at(Area::Data) == b.at(Area::Data));
    assert(a.at(Area::Cache) == b.at(Area::Cache));
}

impl Unread {
    /// What is unread for each Area is what the view gives for it.
    proof fn lemma_at(&self)
        ensures
            forall|area: Area| #[trigger] self@.at(area) == self.areas.at(area)@,
    {
        assert forall|area: Area| #[trigger] self@.at(area) == self.areas.at(area)@ by {
            match area {
                Area::Config => {},
                Area::Data => {},
                Area::Cache => {},
            }
        }
    }

    /// Nothing unread, for a Store and Change feed both open.
    pub fn new() -> (unread: Unread)
        ensures
            unread@ == (UnreadView {
                config: nothing_unread(),
                data: nothing_unread(),
                cache: nothing_unread(),
                store_dropped: false,
                feed_dropped: false,
            }),
    {
        let unread = Unread {
            areas: PerArea {
                config: UnreadInArea::Changes(PathMap::new()),
                data: UnreadInArea::Changes(PathMap::new()),
                cache: UnreadInArea::Changes(PathMap::new()),
            },
            store_dropped: false,
            feed_dropped: false,
        };
        proof {
            assert(to_map(Seq::<(Seq<char>, Merged)>::empty()) =~= Map::<Seq<char>, Merged>::empty());
        }
        unread
    }

    /// Records `changes` to `area`, all made by `origin`, merging them into what is unread, all
    /// at once. Nothing is recorded once the Store or the Change feed is gone, nor while a Resync
    /// of the Area is unread.
    pub fn record(&mut self, area: Area, changes: Vec<RawChange>, origin: Origin)
        ensures
            final(self)@ == if old(self)@.closed() || old(self)@.at(area) is Resync {
                old(self)@
            } else {
                old(self)@.with(
                    area,
                    AreaUnread::Changes(merged(old(self)@.at(area)->Changes_0, raw_view(changes@), origin)),
                )
            },
    {
        if self.store_dropped || self.feed_dropped {
            return;
        }
        let ghost before = self@;
        proof {
            self.lemma_at();
        }
        let unread = self.areas.replace(area, UnreadInArea::Resync);
        proof {
            assert(unread@ == before.at(area));
        }
        let mut merged_now = match unread {
            UnreadInArea::Resync => {
                self.areas.set(area, UnreadInArea::Resync);
                proof {
                    self.lemma_at();
                    lemma_same_view(self@, before);
                }
                return;
            },
            UnreadInArea::Changes(merged_now) => merged_now,
        };
        let ghost start = merged_now.map();
        let ghost all = raw_view(changes@);
        let mut i: usize = 0;
        while i < changes.len()
            invariant
                i <= changes.len(),
                all == raw_view(changes@),
                merged_now.map() == merged(start, all.subrange(0, i as int), origin),
            decreases changes.len() - i,
        {
            let change = &changes[i];
            let kind = change.kind;
            let kept = match merged_now.get(&change.path) {
                Some(previous) => if origin == Origin::External {
                    Origin::External
                } else {
                    previous.origin
                },
                None => origin,
            };
            proof {
                lemma_merged_push(start, all.subrange(0, i as int), origin, all[i as int]);
                assert(all.subrange(0, i + 1) =~= all.subrange(0, i as int).push(all[i as int]));
            }
            merged_now.insert(change.path.duplicate(), Merged { kind, origin: kept });
            i = i + 1;
        }
        proof {
            assert(all.subrange(0, i as int) =~= all);
        }
        self.areas.set(area, UnreadInArea::Changes(merged_now));
        proof {
            self.lemma_at();
            lemma_same_view(self@, before.with(area, AreaUnread::Changes(merged(start, all, origin))));
        }
    }

    /// Records that Changes to `area` may have been missed. The Resync takes the place of the
    /// Area's unread Changes, and of those recorded for it until the Resync is read.
    pub fn resync(&mut self, area: Area)
        ensures
            final(self)@ == if old(self)@.closed() {
                old(self)@
            } else {
                old(self)@.with(area, AreaUnread::Resync)
            },
    {
        if self.store_dropped || self.feed_dropped {
            return;
        }
        let ghost before = self@;
        proof {
            self.lemma_at();
        }
        self.areas.set(area, UnreadInArea::Resync);
        proof {
            self.lemma_at();
            lemma_same_view(self@, before.with(area, AreaUnread::Resync));
        }
    }

    /// Records a Resync for every Area, as [`resync`](Self::resync) does for one.
    pub fn resync_every_area(&mut self)
        ensures
            final(self)@ == if old(self)@.closed() {
                old(self)@
            } else {
                UnreadView {
                    config: AreaUnread::Resync,
                    data: AreaUnread::Resync,
                    cache: AreaUnread::Resync,
                    ..old(self)@
                }
            },
    {
        if self.store_dropped || self.feed_dropped {
            return;
        }
        self.areas.set(Area::Config, UnreadInArea::Resync);
        self.areas.set(Area::Data, UnreadInArea::Resync);
        self.areas.set(Area::Cache, UnreadInArea::Resync);
    }

    /// Takes the unread Changes of `area`, adding them to `batch` in order of Path.
    fn take_area(&mut self, area: Area, batch: &mut Vec<Change>)
        ensures
            changes_view(final(batch)@) == changes_view(old(batch)@) + area_batch(area, old(self)@.at(area)),
            final(self)@ == old(self)@.with(area, emptied(old(self)@.at(area))),
    {
        let ghost before = self@;
        let ghost start = changes_view(batch@);
        proof {
            self.lemma_at();
        }
        let unread = self.areas.replace(area, UnreadInArea::Changes(PathMap::new()));
        match unread {
            UnreadInArea::Resync => {
                self.areas.set(area, UnreadInArea::Resync);
                proof {
                    assert(changes_view(batch@) =~= start + area_batch(area, before.at(area)));
                    self.lemma_at();
                    lemma_same_view(self@, before.with(area, emptied(before.at(area))));
                }
            },
            UnreadInArea::Changes(merged_then) => {
                proof {
                    assert(to_map(Seq::<(Seq<char>, Merged)>::empty()) =~= Map::<Seq<char>, Merged>::empty());
                    self.lemma_at();
                    lemma_same_view(self@, before.with(area, emptied(before.at(area))));
                }
                let ghost shown = merged_then@;
                proof {
                    crate::commit::lemma_sorted_of(shown);
                }
                let entries = merged_then.into_entries();
                let mut i: usize = 0;
                while i < entries.len()
                    invariant
                        i <= entries.len(),
                        entries_view(entries@) == shown,
                        sorted_of(to_map(shown)) == shown,
                        changes_view(batch@) == start + area_batch(area, AreaUnread::Changes(to_map(shown))).subrange(0, i as int),
                        area_batch(area, AreaUnread::Changes(to_map(shown))).len() == shown.len(),
                    decreases entries.len() - i,
                {
                    let ghost earlier = batch@;
                    let entry = &entries[i];
                    batch.push(Change { area, path: entry.0.duplicate(), kind: entry.1.kind, origin: entry.1.origin });
                    proof {
                        let whole = area_batch(area, AreaUnread::Changes(to_map(shown)));
                        assert(whole[i as int] == (area, shown[i as int].0, shown[i as int].1.kind, shown[i as int].1.origin));
                        assert(changes_view(batch@) =~= changes_view(earlier).push(change_view(batch@.last())));
                        assert(whole.subrange(0, i + 1) =~= whole.subrange(0, i as int).push(whole[i as int]));
                        assert(changes_view(batch@) =~= start + whole.subrange(0, i + 1));
                    }
                    i = i + 1;
                }
                proof {
                    let whole = area_batch(area, AreaUnread::Changes(to_map(shown)));
                    assert(whole.subrange(0, i as int) =~= whole);
                }
            },
        }
    }

    /// Every unread Change, as one batch, Area by Area, each in order of Path, or `None` if there
    /// is none.
    pub fn take(&mut self) -> (batch: Option<Vec<Change>>)
        ensures
            final(self)@ == taken(old(self)@),
            match batch {
                Some(batch) => changes_view(batch@) == batch_of(old(self)@) && batch@.len() > 0,
                None => batch_of(old(self)@).len() == 0,
            },
    {
        let ghost before = self@;
        let mut batch: Vec<Change> = Vec::new();
        self.take_area(Area::Config, &mut batch);
        self.take_area(Area::Data, &mut batch);
        self.take_area(Area::Cache, &mut batch);
        proof {
            assert(changes_view(Seq::<Change>::empty()) =~= Seq::<(Area, Seq<char>, ChangeKind, Origin)>::empty());
            assert(changes_view(batch@) =~= batch_of(before));
            assert(self@ == taken(before));
        }
        if batch.len() == 0 {
            None
        } else {
            Some(batch)
        }
    }

    /// What the Change feed gives now: a Resync first, one Area at a time, then a batch of every
    /// other unread Change; once the Store is gone and everything is read, the end.
    pub fn next(&mut self) -> (next: Next)
        ensures
            match first_resync(old(self)@) {
                Some(area) => {
                    &&& next matches Next::Item(FeedItem::Resync(resynced)) && resynced == area
                    &&& final(self)@ == old(self)@.with(area, nothing_unread())
                },
                None => {
                    &&& final(self)@ == taken(old(self)@)
                    &&& batch_of(old(self)@).len() > 0 ==> (next matches Next::Item(FeedItem::Changes(batch))
                        && changes_view(batch@) == batch_of(old(self)@))
                    &&& batch_of(old(self)@).len() == 0 ==> if old(self)@.store_dropped {
                        next is Ended
                    } else {
                        next is Wait
                    }
                },
            },
    {
        let ghost before = self@;
        let first = if self.areas.config.is_resync() {
            Some(Area::Config)
        } else if self.areas.data.is_resync() {
            Some(Area::Data)
        } else if self.areas.cache.is_resync() {
            Some(Area::Cache)
        } else {
            None
        };
        match first {
            Some(area) => {
                proof {
                    self.lemma_at();
                }
                self.areas.set(area, UnreadInArea::Changes(PathMap::new()));
                proof {
                    assert(to_map(Seq::<(Seq<char>, Merged)>::empty()) =~= Map::<Seq<char>, Merged>::empty());
                    self.lemma_at();
                    lemma_same_view(self@, before.with(area, nothing_unread()));
                }
                Next::Item(FeedItem::Resync(area))
            },
            None => match self.take() {
                Some(batch) => Next::Item(FeedItem::Changes(batch)),
                None => if self.store_dropped {
                    Next::Ended
                } else {
                    Next::Wait
                },
            },
        }
    }

    /// The Change feed has been dropped: nobody will read the Changes, so what is unread is
    /// dropped and nothing more is recorded.
    pub fn drop_feed(&mut self)
        ensures
            final(self)@ == (UnreadView {
                config: nothing_unread(),
                data: nothing_unread(),
                cache: nothing_unread(),
                feed_dropped: true,
                ..old(self)@
            }),
    {
        self.feed_dropped = true;
        self.areas.set(Area::Config, UnreadInArea::Changes(PathMap::new()));
        self.areas.set(Area::Data, UnreadInArea::Changes(PathMap::new()));
        self.areas.set(Area::Cache, UnreadInArea::Changes(PathMap::new()));
        proof {
            assert(to_map(Seq::<(Seq<char>, Merged)>::empty()) =~= Map::<Seq<char>, Merged>::empty());
        }
    }

    /// Every Store handle has been dropped: the Change feed ends once what is unread is read.
    pub fn end(&mut self)
        ensures
            final(self)@ == (UnreadView { store_dropped: true, ..old(self)@ }),
    {
        self.store_dropped = true;
    }
}

impl UnreadInArea {
    /// Whether it is a Resync.
    pub fn is_resync(&self) -> (resync: bool)
        ensures
            resync == self@ is Resync,
    {
        match self {
            UnreadInArea::Resync => true,
            UnreadInArea::Changes(_) => false,
        }
    }
}

} // verus!
