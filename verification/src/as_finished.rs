//! An Area on the filesystem as reads through tidings see it: as finishing the Commit in its
//! journal will leave it, if the journal is committed.

use vstd::prelude::*;

use crate::commit::{AreaState, entry_of, under_prefix};
use crate::error::Error;
use crate::journal::{Journal, JournalState, ReplaceView, remove_view, replace_view};
use crate::order::chars_lt;
use crate::path::Path;
use crate::path_map::{PathMap, entries_view, to_map};
use crate::prefix::{Prefix, starts_with};
use crate::revision::{Revision, names_of};
use crate::sorted::{has_key, keys_of, lemma_lookup_at, sorted_keys, sorted_names};

verus! {

/// What an Area holding `on_disk` holds once a Commit is finished that writes `written`, the
/// Revision of each temporary file not renamed yet, and deletes `removed`, each with the Revision
/// of the File it deletes: a File it deletes is gone only if it is still the one it deletes.
pub open spec fn finished_revisions(
    on_disk: Map<Seq<char>, Revision>,
    written: Map<Seq<char>, Revision>,
    removed: Map<Seq<char>, Revision>,
) -> Map<Seq<char>, Revision> {
    Map::new(
        |key: Seq<char>|
            written.contains_key(key) || (on_disk.contains_key(key) && !(removed.contains_key(key)
                && removed[key] == on_disk[key])),
        |key: Seq<char>|
            if written.contains_key(key) {
                written[key]
            } else {
                on_disk[key]
            },
    )
}

/// Whether no Path is both written and deleted: a Commit plans one Change for each Path.
pub open spec fn apart(written: Map<Seq<char>, Revision>, removed: Map<Seq<char>, Revision>) -> bool {
    forall|key: Seq<char>| #[trigger] written.contains_key(key) ==> !removed.contains_key(key)
}

/// Deleting a File the Commit deletes, while it is still the one it deletes, leaves the Area as
/// finishing the Commit will leave it.
pub proof fn law_delete_keeps_what_finishing_leaves(
    on_disk: Map<Seq<char>, Revision>,
    written: Map<Seq<char>, Revision>,
    removed: Map<Seq<char>, Revision>,
    key: Seq<char>,
)
    requires
        apart(written, removed),
        removed.contains_key(key),
        on_disk.contains_key(key),
        on_disk[key] == removed[key],
    ensures
        finished_revisions(on_disk.remove(key), written, removed) == finished_revisions(on_disk, written, removed),
{
    assert(!written.contains_key(key));
    assert(finished_revisions(on_disk.remove(key), written, removed) =~= finished_revisions(on_disk, written, removed));
}

/// Renaming a temporary file over the File it replaces leaves the Area as finishing the Commit
/// will leave it.
pub proof fn law_rename_keeps_what_finishing_leaves(
    on_disk: Map<Seq<char>, Revision>,
    written: Map<Seq<char>, Revision>,
    removed: Map<Seq<char>, Revision>,
    key: Seq<char>,
)
    requires
        apart(written, removed),
        written.contains_key(key),
    ensures
        finished_revisions(on_disk.insert(key, written[key]), written.remove(key), removed)
            == finished_revisions(on_disk, written, removed),
{
    assert(!removed.contains_key(key));
    assert(finished_revisions(on_disk.insert(key, written[key]), written.remove(key), removed)
        =~= finished_revisions(on_disk, written, removed));
}

/// Finishing a Commit again, once it is finished, leaves the Area as it is: each File it deletes
/// that is still there is one another program put there since, and stays.
pub proof fn law_finishing_again_changes_nothing(
    on_disk: Map<Seq<char>, Revision>,
    written: Map<Seq<char>, Revision>,
    removed: Map<Seq<char>, Revision>,
)
    requires
        apart(written, removed),
    ensures
        finished_revisions(finished_revisions(on_disk, written, removed), Map::empty(), removed)
            == finished_revisions(on_disk, written, removed),
{
    let once = finished_revisions(on_disk, written, removed);
    assert(finished_revisions(once, Map::empty(), removed) =~= once);
}

/// An Area as reads through tidings see it: as finishing the Commit in its journal will leave it,
/// if the journal is committed. Each Path the Commit writes is its temporary file, until that is
/// renamed, and each Path it deletes is absent, if the File there is the one it deletes.
pub struct AsFinished<'a, A: AreaState> {
    area: &'a A,
    /// The Revision of the temporary file of each Path the Commit writes, if it isn't renamed yet.
    written: PathMap<Revision>,
    /// Each Path the Commit deletes, with the Revision of the File it deletes.
    removed: PathMap<Revision>,
}

impl<'a, A: AreaState> AsFinished<'a, A> {
    /// The Revision of each temporary file not renamed yet, by the Path it writes.
    pub closed spec fn written_spec(&self) -> Map<Seq<char>, Revision> {
        self.written.map()
    }

    /// The Revision of each File the Commit deletes, by Path.
    pub closed spec fn removed_spec(&self) -> Map<Seq<char>, Revision> {
        self.removed.map()
    }

    /// The Area seen through it.
    pub closed spec fn area_spec(&self) -> &'a A {
        self.area
    }

    /// `area` as finishing the Commit in `journal` will leave it, if there is one and it is
    /// committed. `temporaries` gives, for each temporary file of the journal, in order, its
    /// Revision if it is still there.
    pub fn of(area: &'a A, journal: Option<&Journal>, temporaries: &Vec<Option<Revision>>) -> (finished: AsFinished<'a, A>)
        requires
            journal matches Some(journal) ==> temporaries.len() == journal.replaces.len(),
        ensures
            finished.area_spec() == area,
            match journal {
                Some(journal) if journal.state == JournalState::Committed => {
                    &&& forall|key: Seq<char>| #[trigger] finished.written_spec().contains_key(key) <==> exists|k: int|
                        0 <= k < journal.replaces.len() && journal.replaces@[k].path@ == key && temporaries@[k] is Some
                    &&& forall|key: Seq<char>| #[trigger] finished.written_spec().contains_key(key) ==> exists|k: int|
                        0 <= k < journal.replaces.len() && journal.replaces@[k].path@ == key
                            && temporaries@[k] == Some(finished.written_spec()[key])
                    &&& forall|key: Seq<char>| #[trigger] finished.removed_spec().contains_key(key) <==> exists|k: int|
                        0 <= k < journal.removes.len() && journal.removes@[k].path@ == key
                    &&& forall|key: Seq<char>| #[trigger] finished.removed_spec().contains_key(key) ==> exists|k: int|
                        0 <= k < journal.removes.len() && journal.removes@[k].path@ == key
                            && journal.removes@[k].revision == finished.removed_spec()[key]
                },
                _ => finished.written_spec().dom().is_empty() && finished.removed_spec().dom().is_empty(),
            },
    {
        let mut written: PathMap<Revision> = PathMap::new();
        let mut removed: PathMap<Revision> = PathMap::new();
        proof {
            assert(written.map().dom() =~= Set::<Seq<char>>::empty());
            assert(removed.map().dom() =~= Set::<Seq<char>>::empty());
        }
        let journal = match journal {
            Some(journal) if journal.state == JournalState::Committed => journal,
            _ => return AsFinished { area, written, removed },
        };
        let mut k: usize = 0;
        while k < journal.replaces.len()
            invariant
                k <= journal.replaces.len(),
                temporaries.len() == journal.replaces.len(),
                forall|key: Seq<char>| #[trigger] written.map().contains_key(key) <==> exists|x: int|
                    0 <= x < k && journal.replaces@[x].path@ == key && temporaries@[x] is Some,
                forall|key: Seq<char>| #[trigger] written.map().contains_key(key) ==> exists|x: int|
                    0 <= x < k && journal.replaces@[x].path@ == key && temporaries@[x] == Some(written.map()[key]),
            decreases journal.replaces.len() - k,
        {
            let ghost before = written.map();
            match temporaries[k] {
                Some(revision) => {
                    written.insert(journal.replaces[k].path.duplicate(), revision);
                },
                None => {},
            }
            proof {
                assert forall|key: Seq<char>| #[trigger] written.map().contains_key(key) implies exists|x: int|
                    0 <= x < k + 1 && journal.replaces@[x].path@ == key && temporaries@[x] == Some(written.map()[key]) by {
                    if key == journal.replaces@[k as int].path@ && temporaries@[k as int] is Some {
                        assert(0 <= k < k + 1 && journal.replaces@[k as int].path@ == key);
                    } else {
                        assert(before.contains_key(key));
                        let x = choose|x: int| 0 <= x < k && journal.replaces@[x].path@ == key && temporaries@[x] == Some(before[key]);
                        assert(0 <= x < k + 1);
                    }
                }
                assert forall|key: Seq<char>| #[trigger] written.map().contains_key(key) <==> exists|x: int|
                    0 <= x < k + 1 && journal.replaces@[x].path@ == key && temporaries@[x] is Some by {
                    if exists|x: int| 0 <= x < k + 1 && journal.replaces@[x].path@ == key && temporaries@[x] is Some {
                        let x = choose|x: int| 0 <= x < k + 1 && journal.replaces@[x].path@ == key && temporaries@[x] is Some;
                        if x < k {
                            assert(exists|x: int| 0 <= x < k && journal.replaces@[x].path@ == key && temporaries@[x] is Some);
                        }
                    }
                    if exists|x: int| 0 <= x < k && journal.replaces@[x].path@ == key && temporaries@[x] is Some {
                        let x = choose|x: int| 0 <= x < k && journal.replaces@[x].path@ == key && temporaries@[x] is Some;
                        assert(0 <= x < k + 1);
                    }
                }
            }
            k = k + 1;
        }
        let mut r: usize = 0;
        while r < journal.removes.len()
            invariant
                r <= journal.removes.len(),
                forall|key: Seq<char>| #[trigger] removed.map().contains_key(key) <==> exists|x: int|
                    0 <= x < r && journal.removes@[x].path@ == key,
                forall|key: Seq<char>| #[trigger] removed.map().contains_key(key) ==> exists|x: int|
                    0 <= x < r && journal.removes@[x].path@ == key && journal.removes@[x].revision == removed.map()[key],
                forall|key: Seq<char>| #[trigger] written.map().contains_key(key) <==> exists|x: int|
                    0 <= x < journal.replaces.len() && journal.replaces@[x].path@ == key && temporaries@[x] is Some,
                forall|key: Seq<char>| #[trigger] written.map().contains_key(key) ==> exists|x: int|
                    0 <= x < journal.replaces.len() && journal.replaces@[x].path@ == key
                        && temporaries@[x] == Some(written.map()[key]),
                temporaries.len() == journal.replaces.len(),
            decreases journal.removes.len() - r,
        {
            let ghost before = removed.map();
            removed.insert(journal.removes[r].path.duplicate(), journal.removes[r].revision);
            proof {
                assert forall|key: Seq<char>| #[trigger] removed.map().contains_key(key) implies exists|x: int|
                    0 <= x < r + 1 && journal.removes@[x].path@ == key && journal.removes@[x].revision == removed.map()[key] by {
                    if key == journal.removes@[r as int].path@ {
                        assert(0 <= r < r + 1 && journal.removes@[r as int].path@ == key);
                    } else {
                        assert(before.contains_key(key));
                        let x = choose|x: int| 0 <= x < r && journal.removes@[x].path@ == key && journal.removes@[x].revision == before[key];
                        assert(0 <= x < r + 1);
                    }
                }
                assert forall|key: Seq<char>| #[trigger] removed.map().contains_key(key) <==> exists|x: int|
                    0 <= x < r + 1 && journal.removes@[x].path@ == key by {
                    if exists|x: int| 0 <= x < r + 1 && journal.removes@[x].path@ == key {
                        let x = choose|x: int| 0 <= x < r + 1 && journal.removes@[x].path@ == key;
                        if x < r {
                            assert(exists|x: int| 0 <= x < r && journal.removes@[x].path@ == key);
                        }
                    }
                    if exists|x: int| 0 <= x < r && journal.removes@[x].path@ == key {
                        let x = choose|x: int| 0 <= x < r && journal.removes@[x].path@ == key;
                        assert(0 <= x < r + 1);
                    }
                }
            }
            r = r + 1;
        }
        AsFinished { area, written, removed }
    }

    /// Whether a File is taken as gone once the Commit is finished: the Commit deletes it, and
    /// it has the Revision it had when the Commit was planned.
    fn hidden(&self, path: &Path, revision: Revision) -> (hidden: bool)
        ensures
            hidden == (self.removed_spec().contains_key(path@) && self.removed_spec()[path@] == revision),
    {
        match self.removed.get(path) {
            Some(deleted) => *deleted == revision,
            None => false,
        }
    }
}

impl<'a, A: AreaState> AreaState for AsFinished<'a, A> {
    open spec fn revisions_spec(&self) -> Map<Seq<char>, Revision> {
        finished_revisions(self.area_spec().revisions_spec(), self.written_spec(), self.removed_spec())
    }

    open spec fn infallible(&self) -> bool {
        self.area_spec().infallible()
    }

    fn revision(&self, path: &Path) -> (found: Result<Option<Revision>, Error>) {
        if let Some(revision) = self.written.get(path) {
            return Ok(Some(*revision));
        }
        match self.area.revision(path) {
            Ok(Some(revision)) => if self.hidden(path, revision) {
                Ok(None)
            } else {
                Ok(Some(revision))
            },
            Ok(None) => Ok(None),
            Err(error) => Err(error),
        }
    }

    fn revisions_under(&self, prefix: &Prefix) -> (found: Result<Vec<(Path, Revision)>, Error>) {
        let ghost on_disk = self.area.revisions_spec();
        let ghost removed = self.removed_spec();
        let ghost written_map = self.written_spec();
        let disk = match self.area.revisions_under(prefix) {
            Ok(disk) => disk,
            Err(error) => return Err(error),
        };
        let ghost disk_entries = entries_view(disk@);
        let mut kept: PathMap<Revision> = PathMap::new();
        let ghost mut from: Seq<int> = Seq::empty();
        let mut i: usize = 0;
        while i < disk.len()
            invariant
                i <= disk.len(),
                disk_entries == entries_view(disk@),
                sorted_keys(disk_entries),
                to_map(disk_entries) == under_prefix(on_disk, prefix@),
                on_disk == self.area_spec().revisions_spec(),
                removed == self.removed_spec(),
                from.len() == kept@.len(),
                forall|y: int| 0 <= y < from.len() ==> 0 <= #[trigger] from[y] < i && kept@[y].0 == disk_entries[from[y]].0,
                forall|key: Seq<char>| #[trigger] kept.map().contains_key(key) <==> (has_key(disk_entries, key)
                    && crate::sorted::index_of_key(disk_entries, key) < i && !(removed.contains_key(key)
                    && removed[key] == on_disk[key])),
                forall|key: Seq<char>| kept.map().contains_key(key) ==> #[trigger] kept.map()[key] == on_disk[key],
            decreases disk.len() - i,
        {
            let entry = &disk[i];
            proof {
                lemma_lookup_at(disk_entries, i as int);
                assert(disk_entries[i as int] == (entry.0@, entry.1));
                assert(to_map(disk_entries).contains_key(entry.0@));
                assert(to_map(disk_entries)[entry.0@] == entry.1);
            }
            let ghost before = kept.map();
            if !self.hidden(&entry.0, entry.1) {
                kept.sorted();
                proof {
                    assert forall|y: int| 0 <= y < kept@.len() implies chars_lt(#[trigger] kept@[y].0, entry.0@) by {
                        assert(from[y] < i);
                        assert(chars_lt(disk_entries[from[y]].0, disk_entries[i as int].0));
                    }
                }
                kept.push_last(entry.0.duplicate(), entry.1);
                proof {
                    from = from.push(i as int);
                }
            }
            proof {
                assert forall|key: Seq<char>| #[trigger] kept.map().contains_key(key) <==> (has_key(disk_entries, key)
                    && crate::sorted::index_of_key(disk_entries, key) < i + 1 && !(removed.contains_key(key)
                    && removed[key] == on_disk[key])) by {
                    if has_key(disk_entries, key) && crate::sorted::index_of_key(disk_entries, key) == i {
                        assert(disk_entries[i as int].0 == key);
                    }
                }
            }
            i = i + 1;
        }
        let ghost base = kept.map();
        proof {
            assert forall|key: Seq<char>| #[trigger] base.contains_key(key) implies on_disk.contains_key(key)
                && starts_with(key, prefix@) && base[key] == on_disk[key] by {
                assert(to_map(disk_entries).contains_key(key));
            }
        }
        let written = &self.written;
        written.sorted();
        let ghost written_entries = written@;
        let mut w: usize = 0;
        while w < written.len()
            invariant
                w <= written_entries.len(),
                written_entries == written@,
                written_map == written.map(),
                sorted_keys(written_entries),
                forall|key: Seq<char>| #[trigger] base.contains_key(key) ==> on_disk.contains_key(key)
                    && starts_with(key, prefix@) && base[key] == on_disk[key],
                forall|key: Seq<char>| #[trigger] kept.map().contains_key(key) <==> (base.contains_key(key)
                    || (has_key(written_entries, key) && starts_with(key, prefix@)
                    && crate::sorted::index_of_key(written_entries, key) < w)),
                forall|key: Seq<char>| kept.map().contains_key(key) ==> #[trigger] kept.map()[key] == if has_key(
                    written_entries,
                    key,
                ) && starts_with(key, prefix@) && crate::sorted::index_of_key(written_entries, key) < w {
                    written_map[key]
                } else {
                    base[key]
                },
            decreases written_entries.len() - w,
        {
            let entry = written.entry(w);
            proof {
                lemma_lookup_at(written_entries, w as int);
            }
            if prefix.covers(&entry.0) {
                kept.insert(entry.0.duplicate(), entry.1);
            }
            proof {
                assert forall|key: Seq<char>| #[trigger] kept.map().contains_key(key) <==> (base.contains_key(key)
                    || (has_key(written_entries, key) && starts_with(key, prefix@)
                    && crate::sorted::index_of_key(written_entries, key) < w + 1)) by {
                    if has_key(written_entries, key) && crate::sorted::index_of_key(written_entries, key) == w {
                        assert(written_entries[w as int].0 == key);
                    }
                }
                assert forall|key: Seq<char>| kept.map().contains_key(key) implies #[trigger] kept.map()[key] == if has_key(
                    written_entries,
                    key,
                ) && starts_with(key, prefix@) && crate::sorted::index_of_key(written_entries, key) < w + 1 {
                    written_map[key]
                } else {
                    base[key]
                } by {
                    if has_key(written_entries, key) && crate::sorted::index_of_key(written_entries, key) == w {
                        assert(written_entries[w as int].0 == key);
                    }
                }
            }
            w = w + 1;
        }
        kept.sorted();
        proof {
            let target = under_prefix(self.revisions_spec(), prefix@);
            assert forall|key: Seq<char>| kept.map().contains_key(key) <==> target.contains_key(key) by {
                if has_key(written_entries, key) {
                    let x = crate::sorted::index_of_key(written_entries, key);
                    assert(0 <= x < written_entries.len());
                }
                if has_key(disk_entries, key) {
                    let x = crate::sorted::index_of_key(disk_entries, key);
                    assert(0 <= x < disk_entries.len());
                }
                if on_disk.contains_key(key) && starts_with(key, prefix@) {
                    assert(to_map(disk_entries).contains_key(key));
                }
                if written_map.contains_key(key) {
                    assert(has_key(written_entries, key));
                }
            }
            assert forall|key: Seq<char>| kept.map().contains_key(key) implies kept.map()[key] == target[key] by {
                if has_key(written_entries, key) {
                    let x = crate::sorted::index_of_key(written_entries, key);
                    assert(0 <= x < written_entries.len());
                }
                if written_map.contains_key(key) {
                    assert(has_key(written_entries, key));
                }
            }
            assert(kept.map() =~= target);
        }
        let entries = kept.into_entries();
        proof {
            assert(entries_view(entries@) == kept@);
        }
        Ok(entries)
    }

    fn paths_under(&self, prefix: &Prefix) -> (found: Result<Vec<Path>, Error>) {
        let files = match self.revisions_under(prefix) {
            Ok(files) => files,
            Err(error) => return Err(error),
        };
        let ghost shown = entries_view(files@);
        let mut paths: Vec<Path> = Vec::new();
        let mut i: usize = 0;
        while i < files.len()
            invariant
                i <= files.len(),
                paths@.len() == i,
                shown == entries_view(files@),
                names_of(paths@) == keys_of(shown).subrange(0, i as int),
            decreases files.len() - i,
        {
            let ghost earlier = paths@;
            paths.push(files[i].0.duplicate());
            proof {
                assert forall|k: int| 0 <= k < i + 1 implies #[trigger] names_of(paths@)[k] == keys_of(shown)[k] by {
                    if k < i {
                        assert(paths@[k] == earlier[k]);
                        assert(names_of(earlier)[k] == keys_of(shown).subrange(0, i as int)[k]);
                    }
                }
                assert(names_of(paths@) =~= keys_of(shown).subrange(0, i + 1));
            }
            i = i + 1;
        }
        proof {
            let names = names_of(paths@);
            assert(names =~= keys_of(shown));
            assert forall|x: int, y: int| 0 <= x < y < names.len() implies chars_lt(
                #[trigger] names[x],
                #[trigger] names[y],
            ) by {
                assert(names[x] == shown[x].0 && names[y] == shown[y].0);
            }
            assert forall|key: Seq<char>|
                names.contains(key) <==> under_prefix(self.revisions_spec(), prefix@).contains_key(key) by {
                if names.contains(key) {
                    let x = choose|x: int| 0 <= x < names.len() && names[x] == key;
                    assert(shown[x].0 == key);
                    assert(to_map(shown).contains_key(key));
                }
                if under_prefix(self.revisions_spec(), prefix@).contains_key(key) {
                    assert(to_map(shown).contains_key(key));
                    let x = choose|x: int| 0 <= x < shown.len() && #[trigger] shown[x].0 == key;
                    assert(names[x] == key);
                }
            }
        }
        Ok(paths)
    }
}

/// The temporary file that the last of `replaces` to write `key` writes it with, if one does.
pub open spec fn written_by(replaces: Seq<ReplaceView>, key: Seq<char>) -> Option<Seq<char>>
    decreases replaces.len(),
{
    if replaces.len() == 0 {
        None
    } else if replaces.last().path == key {
        Some(replaces.last().temporary)
    } else {
        written_by(replaces.drop_last(), key)
    }
}

/// The Revision of the File that the last of `removes` to delete `key` deletes, if one does.
pub open spec fn removed_by(removes: Seq<(Seq<char>, u128)>, key: Seq<char>) -> Option<u128>
    decreases removes.len(),
{
    if removes.len() == 0 {
        None
    } else if removes.last().0 == key {
        Some(removes.last().1)
    } else {
        removed_by(removes.drop_last(), key)
    }
}

/// Where a read of a Path through tidings comes from, with the Commit in the journal taken as
/// finished if the journal is committed.
#[derive(Debug)]
pub struct ReadFrom {
    /// The temporary file that replaces the File, if the Commit writes it. If that is gone, it
    /// was renamed over the File already, and the File itself is read.
    pub temporary: Option<String>,
    /// The Revision of the File the Commit deletes there, if it deletes one: the File is absent
    /// if it still has that Revision.
    pub deleted: Option<Revision>,
}

/// Where a read of `path` through tidings comes from, with the Commit in `journal`, if there is
/// one, taken as finished if it is committed.
pub fn read_from(journal: Option<&Journal>, path: &Path) -> (from: ReadFrom)
    ensures
        match journal {
            Some(journal) if journal.state == JournalState::Committed => {
                &&& match from.temporary {
                    Some(temporary) => written_by(journal@.replaces, path@) == Some(temporary@),
                    None => written_by(journal@.replaces, path@) is None,
                }
                &&& match from.deleted {
                    Some(revision) => removed_by(journal@.removes, path@) == Some(revision.number()),
                    None => removed_by(journal@.removes, path@) is None,
                }
            },
            _ => from.temporary is None && from.deleted is None,
        },
{
    let journal = match journal {
        Some(journal) if journal.state == JournalState::Committed => journal,
        _ => return ReadFrom { temporary: None, deleted: None },
    };
    let ghost replaces = journal@.replaces;
    let ghost removes = journal@.removes;
    let mut temporary: Option<String> = None;
    let mut k: usize = 0;
    while k < journal.replaces.len()
        invariant
            k <= journal.replaces@.len(),
            replaces == journal@.replaces,
            match temporary {
                Some(t) => written_by(replaces.subrange(0, k as int), path@) == Some(t@),
                None => written_by(replaces.subrange(0, k as int), path@) is None,
            },
        decreases journal.replaces@.len() - k,
    {
        let replace = &journal.replaces[k];
        proof {
            assert(replaces.subrange(0, k + 1).drop_last() =~= replaces.subrange(0, k as int));
            assert(replaces.subrange(0, k + 1).last() == replace_view(*replace));
        }
        if replace.path.same(path) {
            temporary = Some(String::from_str(replace.temporary.as_str()));
        }
        k = k + 1;
    }
    let mut deleted: Option<Revision> = None;
    let mut r: usize = 0;
    while r < journal.removes.len()
        invariant
            r <= journal.removes@.len(),
            removes == journal@.removes,
            match deleted {
                Some(revision) => removed_by(removes.subrange(0, r as int), path@) == Some(revision.number()),
                None => removed_by(removes.subrange(0, r as int), path@) is None,
            },
        decreases journal.removes@.len() - r,
    {
        let remove = &journal.removes[r];
        proof {
            assert(removes.subrange(0, r + 1).drop_last() =~= removes.subrange(0, r as int));
            assert(removes.subrange(0, r + 1).last() == remove_view(*remove));
        }
        if remove.path.same(path) {
            deleted = Some(remove.revision);
        }
        r = r + 1;
    }
    proof {
        assert(replaces.subrange(0, replaces.len() as int) =~= replaces);
        assert(removes.subrange(0, removes.len() as int) =~= removes);
    }
    ReadFrom { temporary, deleted }
}

} // verus!
