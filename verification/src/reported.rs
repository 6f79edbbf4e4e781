//! What the Change feed has been told of an Area's Files, so that watching the Area's directory
//! can tell which of the names an event gives really changed.

use vstd::prelude::*;

use crate::change::{ChangeKind, last_change};
use crate::commit::{AreaState, CommitOutcome, entry_of, raw_view, under_prefix};
use crate::error::Error;
use crate::order::{chars_lt, lemma_lt_irreflexive};
use crate::path::Path;
use crate::path_map::{PathMap, entries_view, to_map};
use crate::prefix::{Prefix, starts_with};
use crate::revision::{Revision, names_of};
use crate::sorted::{has_key, index_of_key, lemma_lookup_at, sorted_keys, sorted_names};

verus! {

/// What the Change feed was told of each File, once `changes` of a Commit whose new Revisions
/// are `revisions` are told: a File changed is there with its new Revision, one removed is gone.
pub open spec fn after_commit(
    files: Map<Seq<char>, Option<Revision>>,
    changes: Seq<(Seq<char>, ChangeKind)>,
    revisions: Map<Seq<char>, Revision>,
) -> Map<Seq<char>, Option<Revision>> {
    Map::new(
        |key: Seq<char>|
            match last_change(changes, key) {
                Some(ChangeKind::Changed) => true,
                Some(ChangeKind::Removed) => false,
                None => files.contains_key(key),
            },
        |key: Seq<char>|
            match last_change(changes, key) {
                Some(ChangeKind::Changed) => entry_of(revisions, key),
                _ => files[key],
            },
    )
}

/// Telling one more change is telling it after the others.
proof fn lemma_after_commit_push(
    files: Map<Seq<char>, Option<Revision>>,
    changes: Seq<(Seq<char>, ChangeKind)>,
    revisions: Map<Seq<char>, Revision>,
    change: (Seq<char>, ChangeKind),
)
    ensures
        after_commit(files, changes.push(change), revisions) == match change.1 {
            ChangeKind::Changed => after_commit(files, changes, revisions).insert(
                change.0,
                entry_of(revisions, change.0),
            ),
            ChangeKind::Removed => after_commit(files, changes, revisions).remove(change.0),
        },
{
    let longer = changes.push(change);
    assert(longer.drop_last() =~= changes);
    assert forall|key: Seq<char>| key != change.0 implies last_change(longer, key) == last_change(changes, key) by {
    }
    match change.1 {
        ChangeKind::Changed => {
            assert(after_commit(files, longer, revisions) =~= after_commit(files, changes, revisions).insert(
                change.0,
                entry_of(revisions, change.0),
            ));
        },
        ChangeKind::Removed => {
            assert(after_commit(files, longer, revisions) =~= after_commit(files, changes, revisions).remove(change.0));
        },
    }
}

/// Whether `key` is under the name `name`, as a File in the directory `name` is.
pub open spec fn under_name(key: Seq<char>, name: Seq<char>) -> bool {
    starts_with(key, name.push('/'))
}

/// What the Change feed is told of each File once `name`, and each File under it, is looked at
/// in an Area that now holds `now`: each is there with the Revision it has now, unless it is under
/// `name` and was reported already, when it stays as it was.
pub open spec fn caught_up(
    reported: Map<Seq<char>, Option<Revision>>,
    now: Map<Seq<char>, Revision>,
    name: Seq<char>,
) -> Map<Seq<char>, Option<Revision>> {
    Map::new(
        |key: Seq<char>|
            if key == name || under_name(key, name) {
                now.contains_key(key)
            } else {
                reported.contains_key(key)
            },
        |key: Seq<char>|
            if key == name {
                Some(now[key])
            } else if under_name(key, name) && !reported.contains_key(key) {
                Some(now[key])
            } else {
                reported[key]
            },
    )
}

/// Whether looking at `name` finds `key` changed: `name` itself, if it is there with another
/// Revision than was reported, or gone where it was reported; a File under it, if it was reported
/// and is gone, or is there and wasn't reported.
pub open spec fn seen_changed(
    reported: Map<Seq<char>, Option<Revision>>,
    now: Map<Seq<char>, Revision>,
    name: Seq<char>,
    key: Seq<char>,
) -> bool {
    if key == name {
        if now.contains_key(key) {
            !(reported.contains_key(key) && reported[key] == Some(now[key]))
        } else {
            reported.contains_key(key)
        }
    } else {
        under_name(key, name) && reported.contains_key(key) != now.contains_key(key)
    }
}

/// The Changes looking at `name` finds: each File it finds changed, changed if it is there now and
/// removed if it isn't.
pub open spec fn seen_changes(
    reported: Map<Seq<char>, Option<Revision>>,
    now: Map<Seq<char>, Revision>,
    name: Seq<char>,
) -> Map<Seq<char>, ChangeKind> {
    Map::new(
        |key: Seq<char>| seen_changed(reported, now, name, key),
        |key: Seq<char>|
            if now.contains_key(key) {
                ChangeKind::Changed
            } else {
                ChangeKind::Removed
            },
    )
}

/// Looking at `name` itself: a File there now is found changed unless it was reported with
/// exactly the Revision it has now, so also when it was reported with its Revision unknown; a
/// File gone now is found removed if it was reported at all. Afterwards it is taken as reported
/// with the Revision it has now, or as gone.
pub proof fn law_looking_at_a_name_compares_it_with_what_was_reported(
    reported: Map<Seq<char>, Option<Revision>>,
    now: Map<Seq<char>, Revision>,
    name: Seq<char>,
)
    ensures
        now.contains_key(name) ==> (seen_changes(reported, now, name).contains_key(name) <==> !(
        reported.contains_key(name) && reported[name] is Some && reported[name]->0 == now[name])),
        now.contains_key(name) && reported.contains_key(name) && reported[name] is None ==> seen_changes(
            reported,
            now,
            name,
        ).contains_key(name) && seen_changes(reported, now, name)[name] == ChangeKind::Changed,
        now.contains_key(name) && seen_changes(reported, now, name).contains_key(name) ==> seen_changes(
            reported,
            now,
            name,
        )[name] == ChangeKind::Changed,
        !now.contains_key(name) ==> (seen_changes(reported, now, name).contains_key(name)
            <==> reported.contains_key(name)),
        !now.contains_key(name) && reported.contains_key(name) ==> seen_changes(reported, now, name)[name]
            == ChangeKind::Removed,
        now.contains_key(name) ==> caught_up(reported, now, name).contains_key(name) && caught_up(
            reported,
            now,
            name,
        )[name] == Some(now[name]),
        !now.contains_key(name) ==> !caught_up(reported, now, name).contains_key(name),
{
}

/// Looking at `name` also looks at each File under it, as in a directory: one there now that
/// wasn't reported is found changed, and taken as reported with the Revision it has now; one
/// reported that is gone now is found removed, and taken as gone; one that was reported and is
/// still there is not compared, and stays as reported. Nothing else is found or touched.
pub proof fn law_looking_at_a_name_finds_files_added_or_gone_under_it(
    reported: Map<Seq<char>, Option<Revision>>,
    now: Map<Seq<char>, Revision>,
    name: Seq<char>,
    key: Seq<char>,
)
    requires
        key != name,
    ensures
        under_name(key, name) ==> (seen_changes(reported, now, name).contains_key(key) <==> reported.contains_key(
            key,
        ) != now.contains_key(key)),
        under_name(key, name) && now.contains_key(key) && !reported.contains_key(key) ==> seen_changes(
            reported,
            now,
            name,
        )[key] == ChangeKind::Changed && caught_up(reported, now, name).contains_key(key) && caught_up(
            reported,
            now,
            name,
        )[key] == Some(now[key]),
        under_name(key, name) && !now.contains_key(key) && reported.contains_key(key) ==> seen_changes(
            reported,
            now,
            name,
        )[key] == ChangeKind::Removed && !caught_up(reported, now, name).contains_key(key),
        under_name(key, name) && now.contains_key(key) && reported.contains_key(key) ==> caught_up(
            reported,
            now,
            name,
        ).contains_key(key) && caught_up(reported, now, name)[key] == reported[key],
        !under_name(key, name) ==> !seen_changes(reported, now, name).contains_key(key) && (caught_up(
            reported,
            now,
            name,
        ).contains_key(key) <==> reported.contains_key(key)),
        !under_name(key, name) && reported.contains_key(key) ==> caught_up(reported, now, name)[key]
            == reported[key],
{
}

/// Catching up on `name` again, with the Area as it was the first time, finds no Change, looks at
/// no File but `name` itself, and leaves what was reported as it is.
pub proof fn law_catching_up_again_finds_nothing(
    reported: Map<Seq<char>, Option<Revision>>,
    now: Map<Seq<char>, Revision>,
    name: Seq<char>,
)
    ensures
        caught_up(caught_up(reported, now, name), now, name) == caught_up(reported, now, name),
        seen_changes(caught_up(reported, now, name), now, name).dom() == Set::<Seq<char>>::empty(),
        forall|key: Seq<char>| #[trigger] looked_at_for(caught_up(reported, now, name), now, name, key) <==> key == name,
{
    let once = caught_up(reported, now, name);
    assert(caught_up(once, now, name) =~= once);
    assert(seen_changes(once, now, name).dom() =~= Set::<Seq<char>>::empty());
}

/// Whether looking at `name` looks at `key`: `name` itself, and each File under it that it finds
/// gone or new.
pub open spec fn looked_at_for(
    reported: Map<Seq<char>, Option<Revision>>,
    now: Map<Seq<char>, Revision>,
    name: Seq<char>,
    key: Seq<char>,
) -> bool {
    key == name || (under_name(key, name) && reported.contains_key(key) != now.contains_key(key))
}

/// The Paths among `paths` from `from` on.
pub open spec fn names_in(paths: Seq<Path>, from: int) -> Set<Seq<char>> {
    Set::new(|key: Seq<char>| exists|i: int| from <= i < paths.len() && #[trigger] paths[i]@ == key)
}

/// One more Path adds its name.
proof fn lemma_names_in_push(paths: Seq<Path>, from: int, path: Path)
    requires
        0 <= from <= paths.len(),
    ensures
        names_in(paths.push(path), from) == names_in(paths, from).insert(path@),
        paths.push(path).subrange(0, from) == paths.subrange(0, from),
{
    let longer = paths.push(path);
    assert forall|key: Seq<char>| names_in(longer, from).contains(key) <==> names_in(paths, from).insert(path@).contains(key) by {
        if names_in(longer, from).contains(key) {
            let i = choose|i: int| from <= i < longer.len() && #[trigger] longer[i]@ == key;
            if i < paths.len() {
                assert(paths[i]@ == key);
            }
        }
        if names_in(paths, from).contains(key) {
            let i = choose|i: int| from <= i < paths.len() && #[trigger] paths[i]@ == key;
            assert(longer[i]@ == key);
        }
        if key == path@ {
            assert(longer[paths.len() as int]@ == key);
        }
    }
    assert(names_in(longer, from) =~= names_in(paths, from).insert(path@));
    assert(longer.subrange(0, from) =~= paths.subrange(0, from));
}

/// What the Change feed has been told of an Area's Files: each File there, with its Revision if it
/// is known. The Store's Commits and the watcher keep it up to date as they report Changes.
#[derive(Debug)]
pub struct Reported {
    files: PathMap<Option<Revision>>,
}

impl View for Reported {
    type V = Map<Seq<char>, Option<Revision>>;

    closed spec fn view(&self) -> Map<Seq<char>, Option<Revision>> {
        self.files.map()
    }
}

impl Reported {
    /// Nothing reported.
    pub fn new() -> (reported: Reported)
        ensures
            reported@ == Map::<Seq<char>, Option<Revision>>::empty(),
    {
        let reported = Reported { files: PathMap::new() };
        assert(reported@ =~= Map::<Seq<char>, Option<Revision>>::empty());
        reported
    }

    /// Takes `files` as what was reported.
    pub fn set(&mut self, files: PathMap<Option<Revision>>)
        ensures
            final(self)@ == files.map(),
    {
        self.files = files;
    }

    /// Forgets everything reported: an event for a File then gives a Change.
    pub fn clear(&mut self)
        ensures
            final(self)@ == Map::<Seq<char>, Option<Revision>>::empty(),
    {
        self.files = PathMap::new();
        assert(self@ =~= Map::<Seq<char>, Option<Revision>>::empty());
    }

    /// What was reported of `path`: `None` if nothing, `Some(None)` if it is there with its
    /// Revision unknown.
    pub fn get(&self, path: &Path) -> (found: Option<Option<Revision>>)
        ensures
            found == entry_of(self@, path@),
    {
        match self.files.get(path) {
            Some(revision) => Some(*revision),
            None => None,
        }
    }

    /// Takes what a Commit through this Store changed as reported, since the Store reports it.
    pub fn committed(&mut self, outcome: &CommitOutcome)
        ensures
            final(self)@ == after_commit(old(self)@, raw_view(outcome.changes@), outcome.revisions.map()),
    {
        let ghost start = self@;
        let ghost all = raw_view(outcome.changes@);
        let ghost revisions = outcome.revisions.map();
        let mut i: usize = 0;
        proof {
            assert(all.subrange(0, 0) =~= Seq::<(Seq<char>, ChangeKind)>::empty());
            assert(after_commit(start, all.subrange(0, 0), revisions) =~= start);
        }
        while i < outcome.changes.len()
            invariant
                i <= outcome.changes.len(),
                all == raw_view(outcome.changes@),
                revisions == outcome.revisions.map(),
                self@ == after_commit(start, all.subrange(0, i as int), revisions),
            decreases outcome.changes.len() - i,
        {
            let change = &outcome.changes[i];
            proof {
                lemma_after_commit_push(start, all.subrange(0, i as int), revisions, all[i as int]);
                assert(all.subrange(0, i + 1) =~= all.subrange(0, i as int).push(all[i as int]));
            }
            match change.kind {
                ChangeKind::Changed => {
                    let revision = match outcome.revisions.get(&change.path) {
                        Some(revision) => Some(*revision),
                        None => None,
                    };
                    self.files.insert(change.path.duplicate(), revision);
                },
                ChangeKind::Removed => {
                    self.files.remove(&change.path);
                },
            }
            i = i + 1;
        }
        proof {
            assert(all.subrange(0, i as int) =~= all);
        }
    }

    /// Compares what was reported of `name`, and of the Files under it if it is or was a
    /// directory, with the Area as it is now (`finished`). Adds each difference to `changes`,
    /// takes it as reported, and adds each File it found or lost to `looked_at`.
    pub fn catch_up(
        &mut self,
        finished: &impl AreaState,
        name: &Path,
        changes: &mut PathMap<ChangeKind>,
        looked_at: &mut Vec<Path>,
    ) -> (result: Result<(), Error>)
        ensures
            result is Ok ==> {
                &&& final(self)@ == caught_up(old(self)@, finished.revisions_spec(), name@)
                &&& final(changes).map() == old(changes).map().union_prefer_right(
                    seen_changes(old(self)@, finished.revisions_spec(), name@),
                )
                &&& final(looked_at)@.len() >= old(looked_at)@.len()
                &&& final(looked_at)@.subrange(0, old(looked_at)@.len() as int) == old(looked_at)@
                &&& forall|key: Seq<char>|
                    names_in(final(looked_at)@, old(looked_at)@.len() as int).contains(key)
                        <==> looked_at_for(old(self)@, finished.revisions_spec(), name@, key)
            },
            result matches Err(error) ==> error is Backend,
            finished.infallible() ==> result is Ok,
    {
        let ghost reported = self@;
        let ghost now = finished.revisions_spec();
        let ghost key = name@;
        let ghost start_changes = changes.map();
        let ghost count: int = looked_at@.len() as int;
        let current = match finished.revision(name) {
            Ok(current) => current,
            Err(error) => return Err(error),
        };
        match current {
            Some(revision) => {
                let unchanged = match self.files.get(name) {
                    Some(Some(before)) => *before == revision,
                    _ => false,
                };
                if !unchanged {
                    self.files.insert(name.duplicate(), Some(revision));
                    changes.insert(name.duplicate(), ChangeKind::Changed);
                }
            },
            None => {
                if self.files.get(name).is_some() {
                    self.files.remove(name);
                    changes.insert(name.duplicate(), ChangeKind::Removed);
                }
            },
        }
        let ghost start_paths = looked_at@;
        let pushed_name = name.duplicate();
        let ghost shown_name = pushed_name;
        looked_at.push(pushed_name);
        proof {
            assert(start_paths.subrange(0, count) =~= start_paths);
            assert(names_in(start_paths, count) =~= Set::<Seq<char>>::empty());
            lemma_names_in_push(start_paths, count, shown_name);
        }
        let ghost first = self@;
        let ghost first_changes = changes.map();
        proof {
            assert forall|k: Seq<char>| k != key implies #[trigger] first.contains_key(k) == reported.contains_key(k)
                && (first.contains_key(k) ==> first[k] == reported[k]) by {
            }
            assert(first.contains_key(key) == now.contains_key(key));
            assert(first.contains_key(key) ==> first[key] == Some(now[key]));
            assert forall|k: Seq<char>| #[trigger] first_changes.contains_key(k) == (start_changes.contains_key(k)
                || (k == key && seen_changed(reported, now, key, k))) by {
            }
            assert forall|k: Seq<char>| first_changes.contains_key(k) implies #[trigger] first_changes[k]
                == if k == key && seen_changed(reported, now, key, k) {
                    if now.contains_key(k) {
                        ChangeKind::Changed
                    } else {
                        ChangeKind::Removed
                    }
                } else {
                    start_changes[k]
                } by {
            }
        }
        let prefix = Prefix::under(name);
        let there = match finished.paths_under(&prefix) {
            Ok(there) => there,
            Err(error) => return Err(error),
        };
        let ghost found = names_of(there@);
        proof {
            assert forall|k: Seq<char>| found.contains(k) <==> (now.contains_key(k) && under_name(k, key)) by {
                assert(under_prefix(now, prefix@).contains_key(k) == (now.contains_key(k) && starts_with(k, prefix@)));
            }
        }
        // The Files reported under `name` that are gone.
        let mut there_set: PathMap<()> = PathMap::new();
        let mut t: usize = 0;
        while t < there.len()
            invariant
                t <= there.len(),
                found == names_of(there@),
                sorted_names(found),
                there_set@.len() == t,
                forall|x: int| 0 <= x < t ==> (#[trigger] there_set@[x]).0 == found[x],
            decreases there.len() - t,
        {
            proof {
                assert forall|x: int| 0 <= x < there_set@.len() implies chars_lt(#[trigger] there_set@[x].0, there@[t as int]@) by {
                    assert(found[x] == there_set@[x].0);
                    assert(found[t as int] == there@[t as int]@);
                }
            }
            there_set.push_last(there[t].duplicate(), ());
            t = t + 1;
        }
        proof {
            assert forall|k: Seq<char>| there_set.map().contains_key(k) <==> found.contains(k) by {
                if has_key(there_set@, k) {
                    let x = choose|x: int| 0 <= x < there_set@.len() && #[trigger] there_set@[x].0 == k;
                    assert(found[x] == k);
                }
                if found.contains(k) {
                    let x = choose|x: int| 0 <= x < found.len() && found[x] == k;
                    assert(there_set@[x].0 == k);
                }
            }
        }
        self.files.sorted();
        let ghost entries = self.files@;
        let mut gone: PathMap<()> = PathMap::new();
        let mut e: usize = 0;
        while e < self.files.len()
            invariant
                e <= entries.len(),
                entries == self.files@,
                first == self.files.map(),
                sorted_keys(entries),
                prefix@ == key.push('/'),
                forall|k: Seq<char>| there_set.map().contains_key(k) <==> found.contains(k),
                forall|k: Seq<char>|
                    #[trigger] gone.map().contains_key(k) <==> (has_key(entries, k) && index_of_key(entries, k) < e
                        && under_name(k, key) && !found.contains(k)),
            decreases entries.len() - e,
        {
            let entry = self.files.entry(e);
            let ghost before = gone.map();
            proof {
                lemma_lookup_at(entries, e as int);
            }
            if prefix.covers(&entry.0) && there_set.get(&entry.0).is_none() {
                gone.sorted();
                proof {
                    assert forall|y: int| 0 <= y < gone@.len() implies chars_lt(#[trigger] gone@[y].0, entry.0@) by {
                        let k = gone@[y].0;
                        assert(has_key(gone@, k));
                        assert(gone.map().contains_key(k));
                        let x = index_of_key(entries, k);
                        assert(entries[x].0 == k);
                        assert(x < e);
                    }
                }
                gone.push_last(entry.0.duplicate(), ());
            }
            proof {
                assert forall|k: Seq<char>|
                    #[trigger] gone.map().contains_key(k) <==> (has_key(entries, k) && index_of_key(entries, k) < e + 1
                        && under_name(k, key) && !found.contains(k)) by {
                    if has_key(entries, k) && index_of_key(entries, k) == e {
                        assert(entries[e as int].0 == k);
                    }
                }
            }
            e = e + 1;
        }
        let ghost gone_keys = gone@;
        gone.sorted();
        proof {
            assert forall|k: Seq<char>| #[trigger] gone.map().contains_key(k) <==> (first.contains_key(k) && under_name(k, key)
                && !now.contains_key(k)) by {
                if has_key(entries, k) {
                    let x = index_of_key(entries, k);
                    assert(0 <= x < entries.len());
                }
            }
        }
        proof {
            assert forall|k: Seq<char>| has_key(gone_keys, k) <==> (first.contains_key(k) && under_name(k, key)
                && !now.contains_key(k)) by {
                assert(gone.map().contains_key(k) == has_key(gone_keys, k));
            }
        }
        let gone_entries = gone.into_entries();
        let mut g: usize = 0;
        while g < gone_entries.len()
            invariant
                g <= gone_entries.len(),
                entries_view(gone_entries@) == gone_keys,
                sorted_keys(gone_keys),
                forall|k: Seq<char>| has_key(gone_keys, k) <==> (first.contains_key(k) && under_name(k, key)
                    && !now.contains_key(k)),
                forall|k: Seq<char>| #[trigger] self@.contains_key(k) <==> (first.contains_key(k)
                    && !(has_key(gone_keys, k) && index_of_key(gone_keys, k) < g)),
                forall|k: Seq<char>| self@.contains_key(k) ==> #[trigger] self@[k] == first[k],
                forall|k: Seq<char>| #[trigger] changes.map().contains_key(k) <==> (first_changes.contains_key(k)
                    || (has_key(gone_keys, k) && index_of_key(gone_keys, k) < g)),
                forall|k: Seq<char>| changes.map().contains_key(k) ==> #[trigger] changes.map()[k]
                    == if has_key(gone_keys, k) && index_of_key(gone_keys, k) < g {
                        ChangeKind::Removed
                    } else {
                        first_changes[k]
                    },
                0 <= count <= looked_at@.len(),
                looked_at@.subrange(0, count) == start_paths,
                forall|k: Seq<char>| #[trigger] names_in(looked_at@, count).contains(k) <==> (k == key
                    || (has_key(gone_keys, k) && index_of_key(gone_keys, k) < g)),
            decreases gone_entries.len() - g,
        {
            let gone_path = &gone_entries[g].0;
            proof {
                lemma_lookup_at(gone_keys, g as int);
            }
            let ghost before_looked = looked_at@;
            let ghost before_self = self@;
            let ghost before_changes = changes.map();
            self.files.remove(gone_path);
            changes.insert(gone_path.duplicate(), ChangeKind::Removed);
            let pushed = gone_path.duplicate();
            let ghost shown = pushed;
            looked_at.push(pushed);
            proof {
                let kg = gone_keys[g as int].0;
                assert(self@ == before_self.remove(kg));
                assert(looked_at@ == before_looked.push(shown));
                assert forall|k: Seq<char>| #[trigger] self@.contains_key(k) <==> (first.contains_key(k)
                    && !(has_key(gone_keys, k) && index_of_key(gone_keys, k) < g + 1)) by {
                    if has_key(gone_keys, k) && index_of_key(gone_keys, k) == g {
                        assert(gone_keys[g as int].0 == k);
                    }
                    if k != kg {
                        assert(self@.contains_key(k) == before_self.contains_key(k));
                    }
                }
                assert forall|k: Seq<char>| self@.contains_key(k) implies #[trigger] self@[k] == first[k] by {
                    assert(before_self.contains_key(k));
                    assert(self@[k] == before_self[k]);
                }
                assert forall|k: Seq<char>| #[trigger] changes.map().contains_key(k) <==> (first_changes.contains_key(k)
                    || (has_key(gone_keys, k) && index_of_key(gone_keys, k) < g + 1)) by {
                    if has_key(gone_keys, k) && index_of_key(gone_keys, k) == g {
                        assert(gone_keys[g as int].0 == k);
                    }
                }
                assert forall|k: Seq<char>| changes.map().contains_key(k) implies #[trigger] changes.map()[k]
                    == if has_key(gone_keys, k) && index_of_key(gone_keys, k) < g + 1 {
                        ChangeKind::Removed
                    } else {
                        first_changes[k]
                    } by {
                    if has_key(gone_keys, k) && index_of_key(gone_keys, k) == g {
                        assert(gone_keys[g as int].0 == k);
                    }
                }
                lemma_names_in_push(before_looked, count, shown);
                assert forall|k: Seq<char>| #[trigger] names_in(looked_at@, count).contains(k) <==> (k == key
                    || (has_key(gone_keys, k) && index_of_key(gone_keys, k) < g + 1)) by {
                    if has_key(gone_keys, k) && index_of_key(gone_keys, k) == g {
                        assert(gone_keys[g as int].0 == k);
                    }
                }
            }
            g = g + 1;
        }
        let ghost second = self@;
        let ghost second_changes = changes.map();
        proof {
            assert forall|k: Seq<char>| #[trigger] second.contains_key(k) <==> (first.contains_key(k)
                && !has_key(gone_keys, k)) by {
                if has_key(gone_keys, k) {
                    let y = index_of_key(gone_keys, k);
                    assert(0 <= y < gone_keys.len());
                }
            }
            assert forall|k: Seq<char>| #[trigger] second_changes.contains_key(k) <==> (first_changes.contains_key(k)
                || has_key(gone_keys, k)) by {
                if has_key(gone_keys, k) {
                    let y = index_of_key(gone_keys, k);
                    assert(0 <= y < gone_keys.len());
                }
            }
            assert forall|k: Seq<char>| second_changes.contains_key(k) implies #[trigger] second_changes[k]
                == if has_key(gone_keys, k) {
                    ChangeKind::Removed
                } else {
                    first_changes[k]
                } by {
                if has_key(gone_keys, k) {
                    let y = index_of_key(gone_keys, k);
                    assert(0 <= y < gone_keys.len());
                }
            }
            assert forall|k: Seq<char>| #[trigger] names_in(looked_at@, count).contains(k) <==> (k == key
                || has_key(gone_keys, k)) by {
                if has_key(gone_keys, k) {
                    let y = index_of_key(gone_keys, k);
                    assert(0 <= y < gone_keys.len());
                }
            }
        }
        there_set.sorted();
        let ghost found_keys = there_set@;
        proof {
            assert forall|k: Seq<char>| has_key(found_keys, k) <==> (now.contains_key(k) && under_name(k, key)) by {
                assert(there_set.map().contains_key(k) == has_key(found_keys, k));
                assert(there_set.map().contains_key(k) <==> found.contains(k));
                assert(found.contains(k) <==> under_prefix(now, prefix@).contains_key(k));
                assert(under_prefix(now, prefix@).contains_key(k) == (now.contains_key(k) && starts_with(k, prefix@)));
            }
        }
        let mut t: usize = 0;
        while t < there_set.len()
            invariant
                t <= found_keys.len(),
                found_keys == there_set@,
                sorted_keys(found_keys),
                finished.revisions_spec() == now,
                forall|k: Seq<char>| has_key(found_keys, k) <==> (now.contains_key(k) && under_name(k, key)),
                forall|k: Seq<char>| #[trigger] self@.contains_key(k) <==> (second.contains_key(k)
                    || (has_key(found_keys, k) && index_of_key(found_keys, k) < t)),
                forall|k: Seq<char>| self@.contains_key(k) ==> #[trigger] self@[k] == if second.contains_key(k) {
                    second[k]
                } else {
                    Some(now[k])
                },
                forall|k: Seq<char>| #[trigger] changes.map().contains_key(k) <==> (second_changes.contains_key(k)
                    || (has_key(found_keys, k) && index_of_key(found_keys, k) < t && !second.contains_key(k))),
                forall|k: Seq<char>| changes.map().contains_key(k) ==> #[trigger] changes.map()[k]
                    == if has_key(found_keys, k) && index_of_key(found_keys, k) < t && !second.contains_key(k) {
                        ChangeKind::Changed
                    } else {
                        second_changes[k]
                    },
                0 <= count <= looked_at@.len(),
                looked_at@.subrange(0, count) == start_paths,
                forall|k: Seq<char>| #[trigger] names_in(looked_at@, count).contains(k) <==> (k == key || has_key(gone_keys, k)
                    || (has_key(found_keys, k) && index_of_key(found_keys, k) < t && !second.contains_key(k))),
            decreases found_keys.len() - t,
        {
            let path = &there_set.entry(t).0;
            proof {
                lemma_lookup_at(found_keys, t as int);
            }
            let ghost kt = found_keys[t as int].0;
            if self.files.get(path).is_none() {
                let revision = match finished.revision(path) {
                    Ok(revision) => revision,
                    Err(error) => return Err(error),
                };
                match revision {
                    Some(revision) => {
                        let ghost before_self = self@;
                        let ghost before_changes = changes.map();
                        let ghost before_looked = looked_at@;
                        self.files.insert(path.duplicate(), Some(revision));
                        changes.insert(path.duplicate(), ChangeKind::Changed);
                        let pushed = path.duplicate();
                        let ghost shown = pushed;
                        looked_at.push(pushed);
                        proof {
                            assert(looked_at@ == before_looked.push(shown));
                            lemma_names_in_push(before_looked, count, shown);
                            assert forall|k: Seq<char>| #[trigger] names_in(looked_at@, count).contains(k) <==> (k == key
                                || has_key(gone_keys, k) || (has_key(found_keys, k) && index_of_key(found_keys, k) < t + 1
                                && !second.contains_key(k))) by {
                                if has_key(found_keys, k) && index_of_key(found_keys, k) == t {
                                    assert(found_keys[t as int].0 == k);
                                }
                            }
                            assert forall|k: Seq<char>| #[trigger] self@.contains_key(k) <==> (second.contains_key(k)
                                || (has_key(found_keys, k) && index_of_key(found_keys, k) < t + 1)) by {
                                if has_key(found_keys, k) && index_of_key(found_keys, k) == t {
                                    assert(found_keys[t as int].0 == k);
                                }
                                if k != kt {
                                    assert(self@.contains_key(k) == before_self.contains_key(k));
                                }
                            }
                            assert forall|k: Seq<char>| self@.contains_key(k) implies #[trigger] self@[k] == if second.contains_key(k) {
                                second[k]
                            } else {
                                Some(now[k])
                            } by {
                                if k != kt {
                                    assert(self@[k] == before_self[k]);
                                }
                            }
                            assert forall|k: Seq<char>| #[trigger] changes.map().contains_key(k) <==> (second_changes.contains_key(k)
                                || (has_key(found_keys, k) && index_of_key(found_keys, k) < t + 1 && !second.contains_key(k))) by {
                                if has_key(found_keys, k) && index_of_key(found_keys, k) == t {
                                    assert(found_keys[t as int].0 == k);
                                }
                            }
                            assert forall|k: Seq<char>| changes.map().contains_key(k) implies #[trigger] changes.map()[k]
                                == if has_key(found_keys, k) && index_of_key(found_keys, k) < t + 1 && !second.contains_key(k) {
                                    ChangeKind::Changed
                                } else {
                                    second_changes[k]
                                } by {
                                if has_key(found_keys, k) && index_of_key(found_keys, k) == t {
                                    assert(found_keys[t as int].0 == k);
                                }
                            }
                        }
                    },
                    None => {
                        proof {
                            assert(now.contains_key(kt));
                        }
                    },
                }
            } else {
                proof {
                    assert(self@.contains_key(kt));
                    assert(second.contains_key(kt));
                    assert forall|k: Seq<char>| #[trigger] self@.contains_key(k) <==> (second.contains_key(k)
                        || (has_key(found_keys, k) && index_of_key(found_keys, k) < t + 1)) by {
                        if has_key(found_keys, k) && index_of_key(found_keys, k) == t {
                            assert(found_keys[t as int].0 == k);
                        }
                    }
                    assert forall|k: Seq<char>| #[trigger] changes.map().contains_key(k) <==> (second_changes.contains_key(k)
                        || (has_key(found_keys, k) && index_of_key(found_keys, k) < t + 1 && !second.contains_key(k))) by {
                        if has_key(found_keys, k) && index_of_key(found_keys, k) == t {
                            assert(found_keys[t as int].0 == k);
                        }
                    }
                    assert forall|k: Seq<char>| changes.map().contains_key(k) implies #[trigger] changes.map()[k]
                        == if has_key(found_keys, k) && index_of_key(found_keys, k) < t + 1 && !second.contains_key(k) {
                            ChangeKind::Changed
                        } else {
                            second_changes[k]
                        } by {
                        if has_key(found_keys, k) && index_of_key(found_keys, k) == t {
                            assert(found_keys[t as int].0 == k);
                        }
                    }
                    assert forall|k: Seq<char>| #[trigger] names_in(looked_at@, count).contains(k) <==> (k == key
                        || has_key(gone_keys, k) || (has_key(found_keys, k) && index_of_key(found_keys, k) < t + 1
                        && !second.contains_key(k))) by {
                        if has_key(found_keys, k) && index_of_key(found_keys, k) == t {
                            assert(found_keys[t as int].0 == k);
                        }
                    }
                }
            }
            t = t + 1;
        }
        Ok(())
    }
}

} // verus!
