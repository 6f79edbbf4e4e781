//! The rules every Backend shares when it commits a Staging: what is checked, what is left out,
//! and what is refused, worked out from the Area as it is under the Backend's lock.

use vstd::prelude::*;

use jiff::Timestamp;

use crate::area::Area;
use crate::change::{ChangeKind, Origin, RawChange};
use crate::error::Error;
use crate::file::{Stat, lemma_stat_of, stat_of};
use crate::order::{Rank, chars_lt, lemma_lt_asymmetric, lemma_lt_irreflexive, lemma_lt_total, lemma_lt_transitive, rank_chars};
use crate::path::{InvalidPathReason, Path, letter_case_fold, letter_case_fold_of, same_chars, sub_chars};
use crate::path_map::{PathMap, entries_view, lemma_sorted_unique, to_map};
use crate::precondition::{Precondition, holds_spec};
use crate::prefix::{Prefix, chars_start_with, starts_with};
use crate::revision::{PrefixRevision, PrefixRevisionView, Revision, content_revision, encode_files, names_of, xxh3_128_of};
use crate::sorted::{has_key, keys_of, lemma_lookup_at, lookup, sorted_keys, sorted_names};
use crate::staging::{Action, ActionView, Staged, StagedView};

verus! {

// ---------------------------------------------------------------------------------------------
// What an Area holds, as the checks see it.
/// What `files` holds under `prefix`.
pub open spec fn under_prefix<V>(files: Map<Seq<char>, V>, prefix: Seq<char>) -> Map<Seq<char>, V> {
    files.restrict(files.dom().filter(|key: Seq<char>| starts_with(key, prefix)))
}

/// What `files` holds for `key`, if anything.
pub open spec fn entry_of<V>(files: Map<Seq<char>, V>, key: Seq<char>) -> Option<V> {
    if files.contains_key(key) {
        Some(files[key])
    } else {
        None
    }
}

/// The entries of `files` in order of name.
pub open spec fn sorted_of<V>(files: Map<Seq<char>, V>) -> Seq<(Seq<char>, V)> {
    choose|entries: Seq<(Seq<char>, V)>| sorted_keys(entries) && to_map(entries) == files
}

/// Sorted entries of a map are the ones [`sorted_of`] gives.
pub proof fn lemma_sorted_of<V>(entries: Seq<(Seq<char>, V)>)
    ensures
        sorted_keys(entries) ==> sorted_of(to_map(entries)) == entries,
{
    if sorted_keys(entries) {
        let chosen = sorted_of(to_map(entries));
        assert(sorted_keys(chosen) && to_map(chosen) == to_map(entries));
        lemma_sorted_unique(chosen, entries);
    }
}

/// An Area as a Commit's checks see it, each Backend reading it its own way under its lock.
pub trait AreaState {
    /// The Revision of each File in the Area, by Path.
    spec fn revisions_spec(&self) -> Map<Seq<char>, Revision>;

    /// Whether reading it never fails.
    spec fn infallible(&self) -> bool;

    /// The Revision of the File at `path`, or `None` if there is none.
    fn revision(&self, path: &Path) -> (found: Result<Option<Revision>, Error>)
        ensures
            found matches Ok(revision) ==> revision == entry_of(self.revisions_spec(), path@),
            found matches Err(error) ==> error is Backend,
            self.infallible() ==> found is Ok,
    ;

    /// The Path and Revision of every File under `prefix`, in order of Path.
    fn revisions_under(&self, prefix: &Prefix) -> (found: Result<Vec<(Path, Revision)>, Error>)
        ensures
            found matches Ok(files) ==> sorted_keys(entries_view(files@)) && to_map(
                entries_view(files@),
            ) == under_prefix(self.revisions_spec(), prefix@),
            found matches Err(error) ==> error is Backend,
            self.infallible() ==> found is Ok,
    ;

    /// The Path of every File under `prefix`, in order.
    fn paths_under(&self, prefix: &Prefix) -> (found: Result<Vec<Path>, Error>)
        ensures
            found matches Ok(paths) ==> sorted_names(names_of(paths@)) && forall|key: Seq<char>|
                names_of(paths@).contains(key) <==> under_prefix(
                    self.revisions_spec(),
                    prefix@,
                ).contains_key(key),
            found matches Err(error) ==> error is Backend,
            self.infallible() ==> found is Ok,
    ;
}

// ---------------------------------------------------------------------------------------------
// Rule 1: every Precondition is checked.
/// Whether the Prefix Precondition `required`, staged for `prefix`, fails in `area` holding
/// `files`: it was taken for another Area or Prefix, or what is under the Prefix has changed.
pub open spec fn prefix_precondition_fails(
    area: Area,
    prefix: Seq<char>,
    required: PrefixRevisionView,
    files: Map<Seq<char>, Revision>,
) -> bool {
    !(required.area == area && required.prefix == prefix && required.hash == xxh3_128_of(
        encode_files(sorted_of(under_prefix(files, prefix))),
    ))
}

/// Whether the `i`th Precondition of `staged` fails.
pub open spec fn precondition_fails(staged: StagedView, files: Map<Seq<char>, Revision>, i: int) -> bool {
    !holds_spec(staged.preconditions[i].1, entry_of(files, staged.preconditions[i].0))
}

/// Whether the `i`th Prefix Precondition of `staged` fails.
pub open spec fn prefix_fails_at(staged: StagedView, files: Map<Seq<char>, Revision>, i: int) -> bool {
    prefix_precondition_fails(
        staged.area,
        staged.prefix_preconditions[i].0,
        staged.prefix_preconditions[i].1,
        files,
    )
}

/// Whether any Precondition of `staged` fails in an Area holding `files`.
pub open spec fn any_precondition_fails(staged: StagedView, files: Map<Seq<char>, Revision>) -> bool {
    (exists|i: int| 0 <= i < staged.preconditions.len() && #[trigger] precondition_fails(staged, files, i))
        || (exists|i: int|
        0 <= i < staged.prefix_preconditions.len() && #[trigger] prefix_fails_at(staged, files, i))
}

/// Whether a Conflict names `key`: a Precondition on it fails, or it is under the Prefix of a
/// Prefix Precondition that fails and was added, removed or changed since.
pub open spec fn conflicts_at(staged: StagedView, files: Map<Seq<char>, Revision>, key: Seq<char>) -> bool {
    (exists|i: int|
        0 <= i < staged.preconditions.len() && staged.preconditions[i].0 == key
            && #[trigger] precondition_fails(staged, files, i)) || (exists|i: int|
        0 <= i < staged.prefix_preconditions.len() && #[trigger] prefix_fails_at(staged, files, i)
            && lookup(staged.prefix_preconditions[i].1.files, key) != entry_of(
            under_prefix(files, staged.prefix_preconditions[i].0),
            key,
        ))
}

/// What [`check_preconditions`] gives.
pub open spec fn preconditions_checked(
    staged: StagedView,
    files: Map<Seq<char>, Revision>,
    result: Result<(), Error>,
) -> bool {
    match result {
        Ok(()) => !any_precondition_fails(staged, files),
        Err(Error::Conflict { paths }) => any_precondition_fails(staged, files) && sorted_names(
            names_of(paths@),
        ) && forall|key: Seq<char>|
            names_of(paths@).contains(key) <==> conflicts_at(staged, files, key),
        Err(error) => error is Backend,
    }
}

/// The Paths of a map used as a set, in order.
fn paths_of(set: PathMap<()>) -> (paths: Vec<Path>)
    ensures
        sorted_names(names_of(paths@)),
        forall|key: Seq<char>| names_of(paths@).contains(key) <==> set.map().contains_key(key),
{
    let ghost shown = set@;
    set.sorted();
    let entries = set.into_entries();
    let mut paths: Vec<Path> = Vec::new();
    let mut i: usize = 0;
    while i < entries.len()
        invariant
            i <= entries.len(),
            entries_view(entries@) == shown,
            sorted_keys(shown),
            paths.len() == i,
            names_of(paths@) == keys_of(shown.subrange(0, i as int)),
        decreases entries.len() - i,
    {
        paths.push(entries[i].0.duplicate());
        proof {
            assert(paths@[i as int]@ == shown[i as int].0);
            assert forall|k: int| 0 <= k < i + 1 implies #[trigger] names_of(paths@)[k] == keys_of(shown.subrange(0, i + 1))[k] by {
                if k < i {
                    assert(names_of(paths@)[k] == paths@[k]@);
                    assert(keys_of(shown.subrange(0, i as int))[k] == shown[k].0);
                }
            }
            assert(names_of(paths@) =~= keys_of(shown.subrange(0, i + 1)));
        }
        i = i + 1;
    }
    proof {
        assert(shown.subrange(0, i as int) =~= shown);
        let names = names_of(paths@);
        assert forall|x: int, y: int| 0 <= x < y < names.len() implies chars_lt(
            #[trigger] names[x],
            #[trigger] names[y],
        ) by {
            assert(names[x] == shown[x].0);
            assert(names[y] == shown[y].0);
        }
        assert forall|key: Seq<char>| names.contains(key) <==> set.map().contains_key(key) by {
            if names.contains(key) {
                let x = choose|x: int| 0 <= x < names.len() && names[x] == key;
                assert(shown[x].0 == key);
                assert(has_key(shown, key));
            }
            if set.map().contains_key(key) {
                assert(has_key(shown, key));
                let x = choose|x: int| 0 <= x < shown.len() && #[trigger] shown[x].0 == key;
                assert(names[x] == key);
            }
        }
    }
    paths
}

/// Checks every Precondition of `staged` against `current`: if any fails, the Commit is a
/// Conflict naming the Paths whose Precondition failed, and for a Prefix, the Paths under it that
/// were added, removed or changed.
pub fn check_preconditions(staged: &Staged, current: &impl AreaState) -> (result: Result<(), Error>)
    ensures
        preconditions_checked(staged@, current.revisions_spec(), result),
        current.infallible() ==> !(result matches Err(Error::Backend { .. })),
        current.infallible() ==> (result is Ok || result matches Err(Error::Conflict { .. })),
{
    let ghost files = current.revisions_spec();
    let ghost view = staged@;
    let mut failed: PathMap<()> = PathMap::new();
    let mut any = false;
    let mut i: usize = 0;
    while i < staged.preconditions.len()
        invariant
            i <= staged.preconditions.len(),
            view == staged@,
            files == current.revisions_spec(),
            any == exists|k: int| 0 <= k < i && #[trigger] precondition_fails(view, files, k),
            forall|key: Seq<char>|
                failed.map().contains_key(key) <==> exists|k: int|
                    0 <= k < i && view.preconditions[k].0 == key && #[trigger] precondition_fails(
                        view,
                        files,
                        k,
                    ),
        decreases staged.preconditions.len() - i,
    {
        let (path, precondition) = &staged.preconditions[i];
        assert(view.preconditions[i as int] == (path@, *precondition));
        let now = match current.revision(path) {
            Ok(now) => now,
            Err(error) => return Err(error),
        };
        let ghost before = failed.map();
        if !precondition.holds(now) {
            any = true;
            failed.insert(path.duplicate(), ());
        }
        proof {
            assert forall|key: Seq<char>|
                failed.map().contains_key(key) <==> exists|k: int|
                    0 <= k < i + 1 && view.preconditions[k].0 == key && #[trigger] precondition_fails(
                        view,
                        files,
                        k,
                    ) by {
                if failed.map().contains_key(key) && !before.contains_key(key) {
                    assert(precondition_fails(view, files, i as int));
                }
                if exists|k: int|
                    0 <= k < i + 1 && view.preconditions[k].0 == key && #[trigger] precondition_fails(
                        view,
                        files,
                        k,
                    ) {
                    let k = choose|k: int|
                        0 <= k < i + 1 && view.preconditions[k].0 == key && #[trigger] precondition_fails(
                            view,
                            files,
                            k,
                        );
                    if k < i {
                        assert(before.contains_key(key));
                    }
                }
            }
            if precondition_fails(view, files, i as int) {
                assert(exists|k: int| 0 <= k < i + 1 && #[trigger] precondition_fails(view, files, k));
            }
            if exists|k: int| 0 <= k < i + 1 && #[trigger] precondition_fails(view, files, k) {
                let k = choose|k: int| 0 <= k < i + 1 && #[trigger] precondition_fails(view, files, k);
                if k < i {
                    assert(exists|k: int| 0 <= k < i && #[trigger] precondition_fails(view, files, k));
                }
            }
        }
        i = i + 1;
    }
    let ghost any_single = any;
    let mut any_prefix = false;
    let mut i: usize = 0;
    while i < staged.prefix_preconditions.len()
        invariant
            i <= staged.prefix_preconditions.len(),
            view == staged@,
            files == current.revisions_spec(),
            any_single == exists|k: int| 0 <= k < view.preconditions.len() && #[trigger] precondition_fails(view, files, k),
            any_prefix == exists|k: int| 0 <= k < i && #[trigger] prefix_fails_at(view, files, k),
            forall|key: Seq<char>|
                failed.map().contains_key(key) <==> ((exists|k: int|
                    0 <= k < view.preconditions.len() && view.preconditions[k].0 == key
                        && #[trigger] precondition_fails(view, files, k)) || (exists|k: int|
                    0 <= k < i && #[trigger] prefix_fails_at(view, files, k) && lookup(
                        view.prefix_preconditions[k].1.files,
                        key,
                    ) != entry_of(under_prefix(files, view.prefix_preconditions[k].0), key))),
        decreases staged.prefix_preconditions.len() - i,
    {
        let (prefix, required) = &staged.prefix_preconditions[i];
        assert(view.prefix_preconditions[i as int] == (prefix@, required@));
        let under = match current.revisions_under(prefix) {
            Ok(under) => under,
            Err(error) => return Err(error),
        };
        let ghost under_view = entries_view(under@);
        proof {
            lemma_sorted_of(under_view);
        }
        let now = PrefixRevision::of(staged.area, prefix.duplicate(), under);
        let ghost before = failed.map();
        let holds = required.is_for(staged.area, prefix) && required.same(&now);
        assert(holds == !prefix_fails_at(view, files, i as int));
        let ghost mut added: Set<Seq<char>> = Set::empty();
        if !holds {
            any_prefix = true;
            let differing = required.differences(&now);
            let ghost names = names_of(differing@);
            let mut d: usize = 0;
            while d < differing.len()
                invariant
                    d <= differing.len(),
                    names == names_of(differing@),
                    forall|key: Seq<char>|
                        #[trigger] failed.map().contains_key(key) <==> (before.contains_key(key)
                            || names.subrange(0, d as int).contains(key)),
                decreases differing.len() - d,
            {
                let ghost inner = failed.map();
                failed.insert(differing[d].duplicate(), ());
                proof {
                    assert(names[d as int] == differing@[d as int]@);
                    let done = names.subrange(0, d as int);
                    let next = names.subrange(0, d + 1);
                    assert(next =~= done.push(names[d as int]));
                    assert forall|key: Seq<char>|
                        #[trigger] failed.map().contains_key(key) <==> (before.contains_key(key)
                            || next.contains(key)) by {
                        assert(inner.contains_key(key) <==> (before.contains_key(key)
                            || done.contains(key)));
                        if next.contains(key) {
                            let x = choose|x: int| 0 <= x < next.len() && next[x] == key;
                            if x < d {
                                assert(done[x] == key);
                            }
                        }
                        if done.contains(key) {
                            let x = choose|x: int| 0 <= x < done.len() && done[x] == key;
                            assert(next[x] == key);
                        }
                        if key == names[d as int] {
                            assert(next[d as int] == key);
                        }
                    }
                }
                d = d + 1;
            }
            proof {
                assert(names.subrange(0, d as int) =~= names);
                added = Set::new(|key: Seq<char>| names.contains(key));
                assert(!required.same_spec(&now));
            }
        }
        assert(forall|key: Seq<char>| failed.map().contains_key(key) <==> (before.contains_key(key) || added.contains(key)));
        assert(forall|key: Seq<char>| added.contains(key) <==> (!holds && lookup(required@.files, key) != lookup(now@.files, key)));
        proof {
            let entry = view.prefix_preconditions[i as int];
            assert forall|key: Seq<char>|
                lookup(now@.files, key) == entry_of(under_prefix(files, entry.0), key) by {
                if has_key(now@.files, key) {
                    assert(to_map(now@.files).contains_key(key));
                }
                if under_prefix(files, entry.0).contains_key(key) {
                    assert(to_map(under_view).contains_key(key));
                }
            }
            assert forall|key: Seq<char>|
                failed.map().contains_key(key) <==> ((exists|k: int|
                    0 <= k < view.preconditions.len() && view.preconditions[k].0 == key
                        && #[trigger] precondition_fails(view, files, k)) || (exists|k: int|
                    0 <= k < i + 1 && #[trigger] prefix_fails_at(view, files, k) && lookup(
                        view.prefix_preconditions[k].1.files,
                        key,
                    ) != entry_of(under_prefix(files, view.prefix_preconditions[k].0), key))) by {
                assert(failed.map().contains_key(key) <==> (before.contains_key(key) || added.contains(key)));
                assert(lookup(now@.files, key) == entry_of(under_prefix(files, entry.0), key));
                if added.contains(key) {
                    assert(prefix_fails_at(view, files, i as int));
                }
                if exists|k: int|
                    0 <= k < i + 1 && #[trigger] prefix_fails_at(view, files, k) && lookup(
                        view.prefix_preconditions[k].1.files,
                        key,
                    ) != entry_of(under_prefix(files, view.prefix_preconditions[k].0), key) {
                    let k = choose|k: int|
                        0 <= k < i + 1 && #[trigger] prefix_fails_at(view, files, k) && lookup(
                            view.prefix_preconditions[k].1.files,
                            key,
                        ) != entry_of(under_prefix(files, view.prefix_preconditions[k].0), key);
                    if k < i {
                        assert(before.contains_key(key));
                    }
                }
            }
            if prefix_fails_at(view, files, i as int) {
                assert(exists|k: int| 0 <= k < i + 1 && #[trigger] prefix_fails_at(view, files, k));
            }
            if exists|k: int| 0 <= k < i + 1 && #[trigger] prefix_fails_at(view, files, k) {
                let k = choose|k: int| 0 <= k < i + 1 && #[trigger] prefix_fails_at(view, files, k);
                if k < i {
                    assert(exists|k: int| 0 <= k < i && #[trigger] prefix_fails_at(view, files, k));
                }
            }
        }
        i = i + 1;
    }
    if any || any_prefix {
        let paths = paths_of(failed);
        proof {
            assert forall|key: Seq<char>|
                names_of(paths@).contains(key) <==> conflicts_at(view, files, key) by {
            }
        }
        return Err(Error::Conflict { paths });
    }
    Ok(())
}

// ---------------------------------------------------------------------------------------------
// Rule 2: the Prefix deletes are expanded.
/// Whether `key` is under one of the first `count` of `prefixes`.
pub open spec fn covered_by(key: Seq<char>, prefixes: Seq<Seq<char>>, count: int) -> bool {
    exists|i: int| 0 <= i < count && starts_with(key, #[trigger] prefixes[i])
}

/// `actions` with a delete for each File in `files` under one of `prefixes` that nothing else
/// is staged for: what the Prefix deletes stand for when the Commit runs.
pub open spec fn expanded(
    actions: Map<Seq<char>, ActionView>,
    prefixes: Seq<Seq<char>>,
    files: Map<Seq<char>, Revision>,
) -> Map<Seq<char>, ActionView> {
    Map::new(
        |key: Seq<char>|
            actions.contains_key(key) || (files.contains_key(key) && covered_by(
                key,
                prefixes,
                prefixes.len() as int,
            )),
        |key: Seq<char>|
            if actions.contains_key(key) {
                actions[key]
            } else {
                ActionView::Delete
            },
    )
}

/// The views of the actions in `actions`.
pub open spec fn actions_view(actions: &PathMap<Action>) -> Map<Seq<char>, ActionView> {
    actions.map().map_values(|action: Action| action@)
}

/// Turns the Prefix deletes into deletes of the Files under them, given `current`, the Area as
/// it is when the Commit runs. A Path with an action of its own keeps it.
pub fn expand_prefix_deletes(
    actions: PathMap<Action>,
    prefixes: &Vec<Prefix>,
    current: &impl AreaState,
) -> (result: Result<PathMap<Action>, Error>)
    ensures
        match result {
            Ok(expanded_actions) => actions_view(&expanded_actions) == expanded(
                actions_view(&actions),
                prefixes@.map_values(|prefix: Prefix| prefix@),
                current.revisions_spec(),
            ),
            Err(error) => error is Backend,
        },
        current.infallible() ==> result is Ok,
{
    let ghost files = current.revisions_spec();
    let ghost base = actions_view(&actions);
    let ghost shown = prefixes@.map_values(|prefix: Prefix| prefix@);
    let mut actions = actions;
    let mut i: usize = 0;
    while i < prefixes.len()
        invariant
            i <= prefixes.len(),
            files == current.revisions_spec(),
            shown == prefixes@.map_values(|prefix: Prefix| prefix@),
            actions_view(&actions) == expanded(base, shown.subrange(0, i as int), files),
        decreases prefixes.len() - i,
    {
        let ghost before = actions_view(&actions);
        let paths = match current.paths_under(&prefixes[i]) {
            Ok(paths) => paths,
            Err(error) => return Err(error),
        };
        let ghost names = names_of(paths@);
        let mut j: usize = 0;
        while j < paths.len()
            invariant
                j <= paths.len(),
                i < prefixes.len(),
                names == names_of(paths@),
                forall|key: Seq<char>|
                    names.contains(key) <==> under_prefix(files, shown[i as int]).contains_key(key),
                actions_view(&actions) == Map::new(
                    |key: Seq<char>| before.contains_key(key) || names.subrange(0, j as int).contains(key),
                    |key: Seq<char>|
                        if before.contains_key(key) {
                            before[key]
                        } else {
                            ActionView::Delete
                        },
                ),
            decreases paths.len() - j,
        {
            let ghost inner = actions_view(&actions);
            let staged = actions.get(&paths[j]).is_some();
            if !staged {
                actions.insert(paths[j].duplicate(), Action::Delete);
            }
            proof {
                assert(names[j as int] == paths@[j as int]@);
                let done = names.subrange(0, j as int);
                let next = names.subrange(0, j + 1);
                assert(next =~= done.push(names[j as int]));
                assert forall|key: Seq<char>| next.contains(key) <==> (done.contains(key) || key == names[j as int]) by {
                    if next.contains(key) {
                        let x = choose|x: int| 0 <= x < next.len() && next[x] == key;
                        if x < j {
                            assert(done[x] == key);
                        }
                    }
                    if done.contains(key) {
                        let x = choose|x: int| 0 <= x < done.len() && done[x] == key;
                        assert(next[x] == key);
                    }
                    if key == names[j as int] {
                        assert(next[j as int] == key);
                    }
                }
                let target = Map::new(
                    |key: Seq<char>| before.contains_key(key) || next.contains(key),
                    |key: Seq<char>|
                        if before.contains_key(key) {
                            before[key]
                        } else {
                            ActionView::Delete
                        },
                );
                let now = actions_view(&actions);
                let key_j = names[j as int];
                if staged {
                    assert(inner.contains_key(key_j));
                    assert(now == inner);
                } else {
                    assert(!inner.contains_key(key_j));
                    assert(now == inner.insert(key_j, ActionView::Delete));
                }
                assert forall|key: Seq<char>| now.contains_key(key) <==> target.contains_key(key) by {
                }
                assert forall|key: Seq<char>| now.contains_key(key) implies now[key] == target[key] by {
                    if key != key_j {
                        assert(now[key] == inner[key]);
                    }
                }
                assert(actions_view(&actions) =~= Map::new(
                    |key: Seq<char>| before.contains_key(key) || next.contains(key),
                    |key: Seq<char>|
                        if before.contains_key(key) {
                            before[key]
                        } else {
                            ActionView::Delete
                        },
                ));
            }
            j = j + 1;
        }
        proof {
            assert(names.subrange(0, j as int) =~= names);
            let next = shown.subrange(0, i + 1);
            assert forall|key: Seq<char>|
                covered_by(key, next, i + 1) <==> (covered_by(
                    key,
                    shown.subrange(0, i as int),
                    i as int,
                ) || starts_with(key, shown[i as int])) by {
                if covered_by(key, next, i + 1) {
                    let x = choose|x: int| 0 <= x < i + 1 && starts_with(key, #[trigger] next[x]);
                    if x < i {
                        assert(shown.subrange(0, i as int)[x] == next[x]);
                    }
                }
                if covered_by(key, shown.subrange(0, i as int), i as int) {
                    let x = choose|x: int|
                        0 <= x < i && starts_with(key, #[trigger] shown.subrange(0, i as int)[x]);
                    assert(next[x] == shown.subrange(0, i as int)[x]);
                }
                if starts_with(key, shown[i as int]) {
                    assert(next[i as int] == shown[i as int]);
                }
            }
            assert(actions_view(&actions) =~= expanded(base, next, files));
        }
        i = i + 1;
    }
    proof {
        assert(shown.subrange(0, i as int) =~= shown);
    }
    Ok(actions)
}

// ---------------------------------------------------------------------------------------------
// Rule 3: what changes nothing is left out.
/// Whether `action` changes the File, whose Revision is `now`, or `None` if there is none: a
/// write that gives it other contents, or a delete of a File that is there.
pub open spec fn changes_anything(action: ActionView, now: Option<Revision>) -> bool {
    match action {
        ActionView::Write(contents) => now != Some(content_revision(contents)),
        ActionView::Delete => now is Some,
    }
}

/// The actions of `actions` that change something in an Area holding `files`.
pub open spec fn kept_actions(
    actions: Map<Seq<char>, ActionView>,
    files: Map<Seq<char>, Revision>,
) -> Map<Seq<char>, ActionView> {
    actions.restrict(
        actions.dom().filter(|key: Seq<char>| changes_anything(actions[key], entry_of(files, key))),
    )
}

/// The new Revision of each Path `actions` writes.
pub open spec fn written_revisions(actions: Map<Seq<char>, ActionView>) -> Map<Seq<char>, Revision> {
    Map::new(
        |key: Seq<char>| actions.contains_key(key) && actions[key] is Write,
        |key: Seq<char>| content_revision(actions[key]->Write_0),
    )
}

/// What a Commit does to one Path.
#[derive(Debug)]
pub enum Planned {
    /// Writes the File with these contents and this Stat.
    Write { contents: String, stat: Stat },
    /// Removes the File, which has this Revision.
    Remove { revision: Revision },
}

/// What a [`Planned`] change does, as a value.
pub enum PlannedView {
    Write { contents: Seq<char>, stat: Stat },
    Remove { revision: Revision },
}

impl View for Planned {
    type V = PlannedView;

    open spec fn view(&self) -> PlannedView {
        match self {
            Planned::Write { contents, stat } => PlannedView::Write { contents: contents@, stat: *stat },
            Planned::Remove { revision } => PlannedView::Remove { revision: *revision },
        }
    }
}

/// What a Commit at `timestamp` does for `action` to a File whose Revision is `now`.
pub open spec fn planned_for(action: ActionView, timestamp: Timestamp, now: Option<Revision>) -> PlannedView {
    match action {
        ActionView::Write(contents) => PlannedView::Write {
            contents,
            stat: stat_of(timestamp, content_revision(contents)),
        },
        ActionView::Delete => PlannedView::Remove { revision: now->0 },
    }
}

/// The change a Commit at `timestamp` makes to each Path `actions` changes in an Area holding
/// `files`.
pub open spec fn planned_changes(
    actions: Map<Seq<char>, ActionView>,
    timestamp: Timestamp,
    files: Map<Seq<char>, Revision>,
) -> Map<Seq<char>, PlannedView> {
    Map::new(
        |key: Seq<char>| kept_actions(actions, files).contains_key(key),
        |key: Seq<char>| planned_for(actions[key], timestamp, entry_of(files, key)),
    )
}

/// Every File a Commit writes gets the Revision of its new contents.
pub proof fn lemma_planned_writes(
    actions: Map<Seq<char>, ActionView>,
    timestamp: Timestamp,
    files: Map<Seq<char>, Revision>,
)
    ensures
        forall|key: Seq<char>| #[trigger]
            writes(planned_changes(actions, timestamp, files), key) ==> planned_changes(
                actions,
                timestamp,
                files,
            )[key]->Write_stat.revision_spec() == content_revision(
                planned_changes(actions, timestamp, files)[key]->Write_contents,
            ),
{
    let changes = planned_changes(actions, timestamp, files);
    assert forall|key: Seq<char>| #[trigger] writes(changes, key) implies changes[key]->Write_stat.revision_spec()
        == content_revision(changes[key]->Write_contents) by {
        let contents = actions[key]->Write_0;
        lemma_stat_of(timestamp, content_revision(contents));
    }
}

/// The Paths a Commit creates: written, where there was no File.
pub open spec fn created_paths(
    actions: Map<Seq<char>, ActionView>,
    files: Map<Seq<char>, Revision>,
) -> Set<Seq<char>> {
    Set::new(
        |key: Seq<char>|
            actions.contains_key(key) && actions[key] is Write && !files.contains_key(key),
    )
}

/// The views of the changes in `changes`.
pub open spec fn planned_view(changes: &PathMap<Planned>) -> Map<Seq<char>, PlannedView> {
    changes.map().map_values(|planned: Planned| planned@)
}

/// The Paths of a map used as a set.
pub open spec fn set_view(set: &PathMap<()>) -> Set<Seq<char>> {
    set.map().dom()
}

/// Works out, for each action, what it changes given `current`, leaving out writes that wouldn't
/// change the contents and deletes of Paths with no File. Gives the changes, the new Revision of
/// every Path written, left out or not, and the Paths the Commit creates.
pub fn leave_out_what_changes_nothing(
    actions: PathMap<Action>,
    timestamp: Timestamp,
    current: &impl AreaState,
) -> (result: Result<(PathMap<Planned>, PathMap<Revision>, PathMap<()>), Error>)
    ensures
        match result {
            Ok((changes, revisions, created)) => {
                &&& planned_view(&changes) == planned_changes(
                    actions_view(&actions),
                    timestamp,
                    current.revisions_spec(),
                )
                &&& revisions.map() == written_revisions(actions_view(&actions))
                &&& set_view(&created) == created_paths(actions_view(&actions), current.revisions_spec())
            },
            Err(error) => error is Backend,
        },
        current.infallible() ==> result is Ok,
{
    let ghost files = current.revisions_spec();
    let ghost all = actions_view(&actions);
    let ghost entries = actions@;
    actions.sorted();
    let listed = actions.into_entries();
    // Reversed, so that popping gives them in order of Path.
    let mut pending = reversed(listed);
    let mut changes: PathMap<Planned> = PathMap::new();
    let mut revisions: PathMap<Revision> = PathMap::new();
    let mut created: PathMap<()> = PathMap::new();
    let ghost mut done: int = 0;
    proof {
        assert(planned_view(&changes) =~= Map::<Seq<char>, PlannedView>::empty());
        assert(revisions.map() =~= Map::<Seq<char>, Revision>::empty());
        assert(set_view(&created) =~= Set::<Seq<char>>::empty());
    }
    while pending.len() > 0
        invariant
            0 <= done <= entries.len(),
            files == current.revisions_spec(),
            sorted_keys(entries),
            to_map(entries).map_values(|action: Action| action@) == all,
            entries_view(pending@).reverse() == entries.subrange(done, entries.len() as int),
            planned_view(&changes) == Map::new(
                |key: Seq<char>| kept_actions(all, files).contains_key(key) && has_key(entries.subrange(0, done), key),
                |key: Seq<char>| planned_for(all[key], timestamp, entry_of(files, key)),
            ),
            revisions.map() == Map::new(
                |key: Seq<char>| written_revisions(all).contains_key(key) && has_key(entries.subrange(0, done), key),
                |key: Seq<char>| written_revisions(all)[key],
            ),
            set_view(&created) == created_paths(all, files).filter(
                |key: Seq<char>| has_key(entries.subrange(0, done), key),
            ),
        decreases pending.len(),
    {
        let ghost rest = entries_view(pending@);
        proof {
            assert(rest.reverse().len() == rest.len());
            assert(rest.reverse()[0] == rest.last());
            assert(rest.reverse()[0] == entries.subrange(done, entries.len() as int)[0]);
        }
        let (path, action) = pending.pop().unwrap();
        let ghost key = path@;
        proof {
            assert(entries_view(pending@) =~= rest.drop_last());
            assert(rest.drop_last().reverse() =~= rest.reverse().drop_first());
            assert(key == entries[done].0);
            assert(action == entries[done].1);
            lemma_lookup_at(entries, done);
            assert(all.contains_key(key) && all[key] == action@);
        }
        let now = match current.revision(&path) {
            Ok(now) => now,
            Err(error) => return Err(error),
        };
        let ghost before_changes = planned_view(&changes);
        let ghost before_revisions = revisions.map();
        let ghost before_created = set_view(&created);
        match action {
            Action::Write(contents) => {
                let revision = Revision::of(contents.as_str());
                revisions.insert(path.duplicate(), revision);
                if now.is_none() {
                    created.insert(path.duplicate(), ());
                }
                let unchanged = match now {
                    Some(was) => was == revision,
                    None => false,
                };
                if !unchanged {
                    let stat = Stat::new(timestamp, revision);
                    changes.insert(path, Planned::Write { contents, stat });
                }
            },
            Action::Delete => {
                match now {
                    Some(revision) => {
                        changes.insert(path, Planned::Remove { revision });
                    },
                    None => {},
                }
            },
        }
        proof {
            let prior = entries.subrange(0, done);
            let upto = entries.subrange(0, done + 1);
            assert(upto =~= prior.push(entries[done]));
            assert forall|k: Seq<char>| has_key(upto, k) <==> (has_key(prior, k) || k == key) by {
                if has_key(upto, k) {
                    let x = choose|x: int| 0 <= x < upto.len() && #[trigger] upto[x].0 == k;
                    if x < done {
                        assert(prior[x].0 == k);
                    }
                }
                if has_key(prior, k) {
                    let x = choose|x: int| 0 <= x < prior.len() && #[trigger] prior[x].0 == k;
                    assert(upto[x].0 == k);
                }
                if k == key {
                    assert(upto[done].0 == k);
                }
            }
            assert forall|k: int| 0 <= k < done implies #[trigger] prior[k].0 != key by {
                assert(chars_lt(entries[k].0, entries[done].0));
                lemma_lt_irreflexive(key);
            }
            assert(!has_key(prior, key));
            let target = Map::new(
                |k: Seq<char>| kept_actions(all, files).contains_key(k) && has_key(upto, k),
                |k: Seq<char>| planned_for(all[k], timestamp, entry_of(files, k)),
            );
            let now_view = planned_view(&changes);
            assert(now == entry_of(files, key));
            if kept_actions(all, files).contains_key(key) {
                assert(now_view == before_changes.insert(key, planned_for(all[key], timestamp, now)));
            } else {
                assert(now_view == before_changes);
            }
            assert forall|k: Seq<char>| now_view.contains_key(k) <==> target.contains_key(k) by {}
            assert forall|k: Seq<char>| now_view.contains_key(k) implies now_view[k] == target[k] by {}
            assert(planned_view(&changes) =~= Map::new(
                |k: Seq<char>| kept_actions(all, files).contains_key(k) && has_key(upto, k),
                |k: Seq<char>| planned_for(all[k], timestamp, entry_of(files, k)),
            ));
            assert(revisions.map() =~= Map::new(
                |k: Seq<char>| written_revisions(all).contains_key(k) && has_key(upto, k),
                |k: Seq<char>| written_revisions(all)[k],
            ));
            assert(set_view(&created) =~= created_paths(all, files).filter(
                |k: Seq<char>| has_key(upto, k),
            ));
            assert(entries_view(pending@).reverse() =~= entries.subrange(done + 1, entries.len() as int));
            done = done + 1;
        }
    }
    proof {
        assert(rest_is_empty(entries, done));
        assert(entries.subrange(0, done) =~= entries);
        assert forall|k: Seq<char>| kept_actions(all, files).contains_key(k) implies has_key(entries, k) by {
            assert(to_map(entries).contains_key(k));
        }
        assert forall|k: Seq<char>| written_revisions(all).contains_key(k) implies has_key(entries, k) by {
            assert(to_map(entries).contains_key(k));
        }
        assert forall|k: Seq<char>| created_paths(all, files).contains(k) implies has_key(entries, k) by {
            assert(to_map(entries).contains_key(k));
        }
        assert(planned_view(&changes) =~= planned_changes(all, timestamp, files));
        assert(revisions.map() =~= written_revisions(all));
        assert(set_view(&created) =~= created_paths(all, files));
    }
    Ok((changes, revisions, created))
}

/// Whether every entry has been taken.
spec fn rest_is_empty<V>(entries: Seq<(Seq<char>, V)>, done: int) -> bool {
    done == entries.len()
}

/// `items` in the opposite order.
pub fn reversed<T>(items: Vec<T>) -> (turned: Vec<T>)
    ensures
        turned@ == items@.reverse(),
{
    let ghost all = items@;
    let mut items = items;
    let mut turned: Vec<T> = Vec::new();
    while items.len() > 0
        invariant
            turned@ == all.subrange(items@.len() as int, all.len() as int).reverse(),
            items@ == all.subrange(0, items@.len() as int),
            items@.len() <= all.len(),
        decreases items.len(),
    {
        let ghost n = items@.len();
        let item = items.pop().unwrap();
        turned.push(item);
        proof {
            assert(items@ =~= all.subrange(0, n - 1));
            assert(item == all[n - 1]);
            assert(turned@ =~= all.subrange(n - 1, all.len() as int).reverse());
        }
    }
    assert(all.subrange(0, all.len() as int) =~= all);
    turned
}

// ---------------------------------------------------------------------------------------------
// Rule 4: names that some platform can't hold together are refused.
/// Whether `path` has a name that ends at `end`: each Prefix it is under, without its `/`, and
/// the Path itself.
pub open spec fn is_name_end(path: Seq<char>, end: int) -> bool {
    0 < end <= path.len() && (end == path.len() || path[end] == '/')
}

/// Whether `a` and `b` have names that differ only in letter case, as `Themes/a` and `themes/b`
/// do: some platform would take them for the same name.
pub open spec fn letter_case_clash(a: Seq<char>, b: Seq<char>) -> bool {
    exists|i: int, j: int|
        is_name_end(a, i) && is_name_end(b, j) && #[trigger] letter_case_fold_of(a.subrange(0, i))
            == #[trigger] letter_case_fold_of(b.subrange(0, j)) && a.subrange(0, i) != b.subrange(
            0,
            j,
        )
}

/// Whether one of `a` and `b` would be a File under the other, as `a/b` is under `a`.
pub open spec fn file_under_file(a: Seq<char>, b: Seq<char>) -> bool {
    starts_with(a, b.push('/')) || starts_with(b, a.push('/'))
}

/// What is wrong with having `path` beside the other Paths in `paths`, if anything.
pub open spec fn problem(path: Seq<char>, paths: Set<Seq<char>>) -> Option<InvalidPathReason> {
    if exists|other: Seq<char>| paths.contains(other) && other != path && file_under_file(path, other) {
        Some(InvalidPathReason::FileUnderFile)
    } else if exists|other: Seq<char>|
        paths.contains(other) && other != path && letter_case_clash(path, other) {
        Some(InvalidPathReason::LetterCaseClash)
    } else {
        None
    }
}

/// Whether `path` is the first of `created`, in order of Path, that has a problem among `paths`.
pub open spec fn is_first_problem(path: Seq<char>, created: Set<Seq<char>>, paths: Set<Seq<char>>) -> bool {
    &&& created.contains(path)
    &&& problem(path, paths) is Some
    &&& forall|earlier: Seq<char>|
        created.contains(earlier) && chars_lt(earlier, path) ==> problem(earlier, paths) is None
}

/// The first Path of `created`, in order, that can't be beside the others in `paths`, and why.
pub open spec fn first_problem(created: Set<Seq<char>>, paths: Set<Seq<char>>) -> Option<(Seq<char>, InvalidPathReason)> {
    if exists|path: Seq<char>| is_first_problem(path, created, paths) {
        let path = choose|path: Seq<char>| is_first_problem(path, created, paths);
        Some((path, problem(path, paths)->0))
    } else {
        None
    }
}

/// The first problem is the one found first.
proof fn lemma_first_problem(path: Seq<char>, created: Set<Seq<char>>, paths: Set<Seq<char>>)
    requires
        is_first_problem(path, created, paths),
    ensures
        first_problem(created, paths) == Some((path, problem(path, paths)->0)),
{
    let chosen = choose|path: Seq<char>| is_first_problem(path, created, paths);
    lemma_lt_total(chosen, path);
    if chosen != path {
        if chars_lt(chosen, path) {
        } else {
        }
    }
}

/// Whether none of `created` has a problem among `paths`.
pub open spec fn problem_free(created: Set<Seq<char>>, paths: Set<Seq<char>>) -> bool {
    forall|key: Seq<char>| created.contains(key) ==> #[trigger] problem(key, paths) is None
}

/// Whether no two of `paths` differ only in letter case, and none is a File under another.
pub open spec fn names_apart(paths: Set<Seq<char>>) -> bool {
    problem_free(paths, paths)
}

/// Two Paths that clash in letter case clash either way round.
proof fn lemma_clash_symmetric(a: Seq<char>, b: Seq<char>)
    ensures
        letter_case_clash(a, b) ==> letter_case_clash(b, a),
{
    if letter_case_clash(a, b) {
        let (i, j) = choose|i: int, j: int|
            is_name_end(a, i) && is_name_end(b, j) && #[trigger] letter_case_fold_of(a.subrange(0, i))
                == #[trigger] letter_case_fold_of(b.subrange(0, j)) && a.subrange(0, i) != b.subrange(0, j);
        assert(is_name_end(b, j) && is_name_end(a, i) && letter_case_fold_of(b.subrange(0, j))
            == letter_case_fold_of(a.subrange(0, i)) && b.subrange(0, j) != a.subrange(0, i));
    }
}

/// The names of `path`: where each ends, the name, and its letter-case fold.
pub struct Names {
    pub ends: Vec<usize>,
    pub names: Vec<Vec<char>>,
    pub folds: Vec<Vec<char>>,
}

/// Whether `names` holds every name of `path`, each with its fold.
pub open spec fn names_of_path(path: Seq<char>, names: &Names) -> bool {
    &&& names.names.len() == names.ends.len()
    &&& names.folds.len() == names.ends.len()
    &&& forall|k: int| 0 <= k < names.ends.len() ==> is_name_end(path, #[trigger] names.ends@[k] as int)
    &&& forall|k: int| 0 <= k < names.ends.len() ==> #[trigger] names.names@[k]@ == path.subrange(0, names.ends@[k] as int)
    &&& forall|k: int| 0 <= k < names.ends.len() ==> #[trigger] names.folds@[k]@ == letter_case_fold_of(names.names@[k]@)
    &&& forall|end: int| is_name_end(path, end) ==> exists|k: int|
        0 <= k < names.ends.len() && #[trigger] names.ends@[k] as int == end
}

/// The names of `path`, each with its letter-case fold.
pub fn names_with_folds(path: &Vec<char>) -> (names: Names)
    ensures
        names_of_path(path@, &names),
{
    let mut names = Names { ends: Vec::new(), names: Vec::new(), folds: Vec::new() };
    let mut done: usize = 0;
    while done < path.len()
        invariant
            done <= path.len(),
            names.names.len() == names.ends.len(),
            names.folds.len() == names.ends.len(),
            forall|k: int| 0 <= k < names.ends.len() ==> is_name_end(path@, #[trigger] names.ends@[k] as int),
            forall|k: int| 0 <= k < names.ends.len() ==> #[trigger] names.names@[k]@ == path@.subrange(0, names.ends@[k] as int),
            forall|k: int| 0 <= k < names.ends.len() ==> #[trigger] names.folds@[k]@ == letter_case_fold_of(names.names@[k]@),
            forall|e: int| 0 < e <= done && is_name_end(path@, e) ==> exists|k: int|
                0 <= k < names.ends.len() && #[trigger] names.ends@[k] as int == e,
        decreases path.len() - done,
    {
        let end = done + 1;
        if end == path.len() || path[end] == '/' {
            let name = sub_chars(path, 0, end);
            let fold = letter_case_fold(&name);
            let ghost old_ends = names.ends@;
            let ghost count = old_ends.len();
            names.ends.push(end);
            names.names.push(name);
            names.folds.push(fold);
            proof {
                assert forall|e: int| 0 < e < end + 1 && is_name_end(path@, e) implies exists|k: int|
                    0 <= k < names.ends.len() && #[trigger] names.ends@[k] as int == e by {
                    if e == end {
                        assert(names.ends@[count as int] as int == e);
                    } else {
                        let k = choose|k: int| 0 <= k < old_ends.len() && #[trigger] old_ends[k] as int == e;
                        assert(names.ends@[k] == old_ends[k]);
                    }
                }
            }
        }
        done = end;
    }
    names
}

/// Whether the Paths `a` and `b`, whose names are `a_names` and `b_names`, clash in letter case.
pub fn clash_in_letter_case(a: &Vec<char>, a_names: &Names, b: &Vec<char>, b_names: &Names) -> (clash: bool)
    requires
        names_of_path(a@, a_names),
        names_of_path(b@, b_names),
    ensures
        clash == letter_case_clash(a@, b@),
{
    let mut x: usize = 0;
    while x < a_names.names.len()
        invariant
            x <= a_names.names.len(),
            names_of_path(a@, a_names),
            names_of_path(b@, b_names),
            forall|k: int, l: int| 0 <= k < x && 0 <= l < b_names.names.len() ==> !(#[trigger] a_names.folds[k]@ == #[trigger] b_names.folds[l]@
                && a_names.names[k]@ != b_names.names[l]@),
        decreases a_names.names.len() - x,
    {
        let mut y: usize = 0;
        while y < b_names.names.len()
            invariant
                x < a_names.names.len(),
                y <= b_names.names.len(),
                names_of_path(a@, a_names),
                names_of_path(b@, b_names),
                forall|k: int, l: int| 0 <= k < x && 0 <= l < b_names.names.len() ==> !(#[trigger] a_names.folds[k]@ == #[trigger] b_names.folds[l]@
                    && a_names.names[k]@ != b_names.names[l]@),
                forall|l: int| 0 <= l < y ==> !(a_names.folds[x as int]@ == #[trigger] b_names.folds[l]@
                    && a_names.names[x as int]@ != b_names.names[l]@),
            decreases b_names.names.len() - y,
        {
            if same_chars(&a_names.folds[x], &b_names.folds[y]) && !same_chars(&a_names.names[x], &b_names.names[y]) {
                proof {
                    let i = a_names.ends@[x as int] as int;
                    let j = b_names.ends@[y as int] as int;
                    assert(a_names.names@[x as int]@ == a@.subrange(0, i));
                    assert(b_names.names@[y as int]@ == b@.subrange(0, j));
                    assert(a_names.folds@[x as int]@ == letter_case_fold_of(a_names.names@[x as int]@));
                    assert(b_names.folds@[y as int]@ == letter_case_fold_of(b_names.names@[y as int]@));
                    assert(is_name_end(a@, i) && is_name_end(b@, j));
                }
                return true;
            }
            y = y + 1;
        }
        x = x + 1;
    }
    proof {
        if letter_case_clash(a@, b@) {
            let (i, j) = choose|i: int, j: int|
                is_name_end(a@, i) && is_name_end(b@, j) && #[trigger] letter_case_fold_of(a@.subrange(0, i))
                    == #[trigger] letter_case_fold_of(b@.subrange(0, j)) && a@.subrange(0, i) != b@.subrange(0, j);
            let k = choose|k: int| 0 <= k < a_names.ends.len() && #[trigger] a_names.ends@[k] as int == i;
            let l = choose|l: int| 0 <= l < b_names.ends.len() && #[trigger] b_names.ends@[l] as int == j;
            assert(a_names.names@[k]@ == a@.subrange(0, i));
            assert(b_names.names@[l]@ == b@.subrange(0, j));
            assert(a_names.folds@[k]@ == letter_case_fold_of(a_names.names@[k]@));
            assert(b_names.folds@[l]@ == letter_case_fold_of(b_names.names@[l]@));
            assert(a_names.folds[k]@ == b_names.folds[l]@);
        }
    }
    false
}

/// Whether one of `a` and `b` would be a File under the other.
pub fn under_each_other(a: &Vec<char>, b: &Vec<char>) -> (under: bool)
    ensures
        under == file_under_file(a@, b@),
{
    let mut a_dir = a.clone();
    a_dir.push('/');
    let mut b_dir = b.clone();
    b_dir.push('/');
    assert(a_dir@ == a@.push('/'));
    assert(b_dir@ == b@.push('/'));
    chars_start_with(a, &b_dir) || chars_start_with(b, &a_dir)
}

/// A Path of the Area after the Commit, with its names.
pub struct Named {
    pub path: Path,
    pub names: Names,
}

/// The Paths of `all`.
pub open spec fn paths_of_named(all: Seq<Named>) -> Set<Seq<char>> {
    Set::new(|key: Seq<char>| exists|k: int| 0 <= k < all.len() && #[trigger] all[k].path@ == key)
}

/// Whether `path` would be a File under another Path of `all`, or have one under it.
fn any_under(path: &Path, all: &Vec<Named>) -> (found: bool)
    ensures
        found == exists|other: Seq<char>|
            paths_of_named(all@).contains(other) && other != path@ && file_under_file(path@, other),
{
    let mut k: usize = 0;
    while k < all.len()
        invariant
            k <= all.len(),
            forall|x: int| 0 <= x < k ==> !(#[trigger] all@[x].path@ != path@ && file_under_file(path@, all@[x].path@)),
        decreases all.len() - k,
    {
        if !all[k].path.same(path) && under_each_other(path.chars(), all[k].path.chars()) {
            proof {
                assert(all@[k as int].path@ == all@[k as int].path@);
                assert(paths_of_named(all@).contains(all@[k as int].path@));
            }
            return true;
        }
        k = k + 1;
    }
    proof {
        assert forall|other: Seq<char>| paths_of_named(all@).contains(other) && other != path@ implies !file_under_file(path@, other) by {
            let x = choose|x: int| 0 <= x < all.len() && #[trigger] all@[x].path@ == other;
        }
    }
    false
}

/// Whether `path`, whose names are `names`, clashes in letter case with another Path of `all`.
fn any_clash(path: &Path, names: &Names, all: &Vec<Named>) -> (found: bool)
    requires
        names_of_path(path@, names),
        forall|k: int| 0 <= k < all.len() ==> names_of_path(#[trigger] all@[k].path@, &all@[k].names),
    ensures
        found == exists|other: Seq<char>|
            paths_of_named(all@).contains(other) && other != path@ && letter_case_clash(path@, other),
{
    let mut k: usize = 0;
    while k < all.len()
        invariant
            k <= all.len(),
            names_of_path(path@, names),
            forall|x: int| 0 <= x < all.len() ==> names_of_path(#[trigger] all@[x].path@, &all@[x].names),
            forall|x: int| 0 <= x < k ==> !(#[trigger] all@[x].path@ != path@ && letter_case_clash(path@, all@[x].path@)),
        decreases all.len() - k,
    {
        let named = &all[k];
        assert(names_of_path(named.path@, &named.names));
        if !named.path.same(path) && clash_in_letter_case(path.chars(), names, named.path.chars(), &named.names) {
            proof {
                assert(paths_of_named(all@).contains(all@[k as int].path@));
            }
            return true;
        }
        k = k + 1;
    }
    proof {
        assert forall|other: Seq<char>| paths_of_named(all@).contains(other) && other != path@ implies !letter_case_clash(path@, other) by {
            let x = choose|x: int| 0 <= x < all.len() && #[trigger] all@[x].path@ == other;
        }
    }
    false
}

/// What is wrong with having `path`, whose names are `names`, beside the Paths of `all`.
pub fn problem_of(path: &Path, names: &Names, all: &Vec<Named>) -> (found: Option<InvalidPathReason>)
    requires
        names_of_path(path@, names),
        forall|k: int| 0 <= k < all.len() ==> names_of_path(#[trigger] all@[k].path@, &all@[k].names),
    ensures
        found == problem(path@, paths_of_named(all@)),
{
    if any_under(path, all) {
        Some(InvalidPathReason::FileUnderFile)
    } else if any_clash(path, names, all) {
        Some(InvalidPathReason::LetterCaseClash)
    } else {
        None
    }
}

/// Whether `changes` removes the File at `key`.
pub open spec fn removes(changes: Map<Seq<char>, PlannedView>, key: Seq<char>) -> bool {
    changes.contains_key(key) && changes[key] is Remove
}

/// Whether `changes` writes the File at `key`.
pub open spec fn writes(changes: Map<Seq<char>, PlannedView>, key: Seq<char>) -> bool {
    changes.contains_key(key) && changes[key] is Write
}

/// The Paths of an Area holding `files` once `changes` are made.
pub open spec fn paths_after(
    files: Map<Seq<char>, Revision>,
    changes: Map<Seq<char>, PlannedView>,
) -> Set<Seq<char>> {
    Set::new(
        |key: Seq<char>| (files.contains_key(key) && !removes(changes, key)) || writes(changes, key),
    )
}

/// One more Path with its names adds its Path.
proof fn lemma_named_push(all: Seq<Named>, named: Named)
    ensures
        paths_of_named(all.push(named)) == paths_of_named(all).insert(named.path@),
{
    let next = all.push(named);
    assert forall|key: Seq<char>|
        paths_of_named(next).contains(key) <==> paths_of_named(all).insert(named.path@).contains(
            key,
        ) by {
        if paths_of_named(next).contains(key) {
            let k = choose|k: int| 0 <= k < next.len() && #[trigger] next[k].path@ == key;
            if k < all.len() {
                assert(all[k].path@ == key);
            }
        }
        if paths_of_named(all).contains(key) {
            let k = choose|k: int| 0 <= k < all.len() && #[trigger] all[k].path@ == key;
            assert(next[k].path@ == key);
        }
        if key == named.path@ {
            assert(next[all.len() as int].path@ == key);
        }
    }
    assert(paths_of_named(next) =~= paths_of_named(all).insert(named.path@));
}

/// The Paths the Area has once `changes` are made, each with its names.
fn named_after(changes: &PathMap<Planned>, current: &impl AreaState) -> (result: Result<Vec<Named>, Error>)
    ensures
        match result {
            Ok(after) => {
                &&& paths_of_named(after@) == paths_after(current.revisions_spec(), planned_view(changes))
                &&& forall|k: int| 0 <= k < after.len() ==> names_of_path(#[trigger] after@[k].path@, &after@[k].names)
            },
            Err(error) => error is Backend,
        },
        current.infallible() ==> result is Ok,
{
    let ghost files = current.revisions_spec();
    let ghost pc = planned_view(changes);
    let everything = Prefix::everything();
    let all = match current.paths_under(&everything) {
        Ok(paths) => paths,
        Err(error) => return Err(error),
    };
    proof {
        assert forall|key: Seq<char>| names_of(all@).contains(key) <==> files.contains_key(key) by {
            assert(key.subrange(0, 0) =~= Seq::<char>::empty());
            assert(starts_with(key, everything@));
        }
    }
    let mut after: Vec<Named> = Vec::new();
    let mut i: usize = 0;
    while i < all.len()
        invariant
            i <= all.len(),
            files == current.revisions_spec(),
            pc == planned_view(changes),
            forall|key: Seq<char>| names_of(all@).contains(key) <==> files.contains_key(key),
            forall|key: Seq<char>|
                #[trigger] paths_of_named(after@).contains(key) <==> ((exists|x: int|
                    0 <= x < i && #[trigger] all@[x]@ == key) && !removes(pc, key)),
            forall|k: int| 0 <= k < after.len() ==> names_of_path(#[trigger] after@[k].path@, &after@[k].names),
        decreases all.len() - i,
    {
        let removed = match changes.get(&all[i]) {
            Some(Planned::Remove { .. }) => true,
            _ => false,
        };
        let ghost old_after = after@;
        let ghost key_i = all@[i as int]@;
        if !removed {
            let names = names_with_folds(all[i].chars());
            let named = Named { path: all[i].duplicate(), names };
            let ghost pushed = named;
            after.push(named);
            proof {
                lemma_named_push(old_after, pushed);
            }
        }
        proof {
            assert(removed == removes(pc, key_i));
            if removed {
                assert(after@ == old_after);
            }
            assert(paths_of_named(after@) == if removed {
                paths_of_named(old_after)
            } else {
                paths_of_named(old_after).insert(key_i)
            });
            assert forall|key: Seq<char>|
                paths_of_named(after@).contains(key) <==> ((exists|x: int|
                    0 <= x < i + 1 && #[trigger] all@[x]@ == key) && !removes(pc, key)) by {
                if paths_of_named(old_after).contains(key) {
                    let x = choose|x: int| 0 <= x < i && #[trigger] all@[x]@ == key;
                    assert(0 <= x < i + 1 && all@[x]@ == key);
                }
                if exists|x: int| 0 <= x < i + 1 && #[trigger] all@[x]@ == key {
                    let x = choose|x: int| 0 <= x < i + 1 && #[trigger] all@[x]@ == key;
                    if x < i {
                        assert(exists|x: int| 0 <= x < i && #[trigger] all@[x]@ == key);
                    }
                }
                if exists|x: int| 0 <= x < i && #[trigger] all@[x]@ == key {
                    let x = choose|x: int| 0 <= x < i && #[trigger] all@[x]@ == key;
                    assert(0 <= x < i + 1 && all@[x]@ == key);
                }
                if key == key_i {
                    assert(0 <= i < i + 1 && all@[i as int]@ == key);
                }
            }
        }
        i = i + 1;
    }
    proof {
        assert forall|key: Seq<char>|
            paths_of_named(after@).contains(key) <==> (files.contains_key(key) && !removes(pc, key)) by {
            if files.contains_key(key) {
                assert(names_of(all@).contains(key));
                let x = choose|x: int| 0 <= x < names_of(all@).len() && names_of(all@)[x] == key;
                assert(all@[x]@ == key);
            }
            if exists|x: int| 0 <= x < i && #[trigger] all@[x]@ == key {
                let x = choose|x: int| 0 <= x < i && #[trigger] all@[x]@ == key;
                assert(names_of(all@)[x] == key);
                assert(names_of(all@).contains(key));
            }
        }
    }
    changes.sorted();
    let mut j: usize = 0;
    while j < changes.len()
        invariant
            j <= changes@.len(),
            files == current.revisions_spec(),
            pc == planned_view(changes),
            sorted_keys(changes@),
            forall|key: Seq<char>|
                #[trigger] paths_of_named(after@).contains(key) <==> ((files.contains_key(key) && !removes(pc, key))
                    || (exists|y: int| 0 <= y < j && #[trigger] changes@[y].0 == key && changes@[y].1 is Write)),
            forall|k: int| 0 <= k < after.len() ==> names_of_path(#[trigger] after@[k].path@, &after@[k].names),
        decreases changes@.len() - j,
    {
        let entry = changes.entry(j);
        let written = match &entry.1 {
            Planned::Write { .. } => true,
            _ => false,
        };
        let ghost old_after = after@;
        let ghost key_j = changes@[j as int].0;
        if written {
            let names = names_with_folds(entry.0.chars());
            let named = Named { path: entry.0.duplicate(), names };
            let ghost pushed = named;
            after.push(named);
            proof {
                lemma_named_push(old_after, pushed);
            }
        }
        proof {
            if !written {
                assert(after@ == old_after);
            }
            assert(paths_of_named(after@) == if written {
                paths_of_named(old_after).insert(key_j)
            } else {
                paths_of_named(old_after)
            });
            assert forall|key: Seq<char>|
                paths_of_named(after@).contains(key) <==> ((files.contains_key(key) && !removes(pc, key))
                    || (exists|y: int| 0 <= y < j + 1 && #[trigger] changes@[y].0 == key && changes@[y].1 is Write)) by {
                if paths_of_named(old_after).contains(key) && !(files.contains_key(key) && !removes(pc, key)) {
                    let y = choose|y: int| 0 <= y < j && #[trigger] changes@[y].0 == key && changes@[y].1 is Write;
                    assert(0 <= y < j + 1 && changes@[y].0 == key);
                }
                if exists|y: int| 0 <= y < j + 1 && #[trigger] changes@[y].0 == key && changes@[y].1 is Write {
                    let y = choose|y: int| 0 <= y < j + 1 && #[trigger] changes@[y].0 == key && changes@[y].1 is Write;
                    if y < j {
                        assert(exists|y: int| 0 <= y < j && #[trigger] changes@[y].0 == key && changes@[y].1 is Write);
                    }
                }
                if exists|y: int| 0 <= y < j && #[trigger] changes@[y].0 == key && changes@[y].1 is Write {
                    let y = choose|y: int| 0 <= y < j && #[trigger] changes@[y].0 == key && changes@[y].1 is Write;
                    assert(0 <= y < j + 1 && changes@[y].0 == key);
                }
                if written && key == key_j {
                    assert(0 <= j < j + 1 && changes@[j as int].0 == key && changes@[j as int].1 is Write);
                }
            }
        }
        j = j + 1;
    }
    proof {
        let target = paths_after(files, pc);
        assert forall|key: Seq<char>| paths_of_named(after@).contains(key) <==> target.contains(key) by {
            if writes(pc, key) {
                assert(has_key(changes@, key));
                let y = choose|y: int| 0 <= y < changes@.len() && #[trigger] changes@[y].0 == key;
                lemma_lookup_at(changes@, y);
                assert(pc[key] == changes@[y].1@);
            }
            if exists|y: int| 0 <= y < j && #[trigger] changes@[y].0 == key && changes@[y].1 is Write {
                let y = choose|y: int| 0 <= y < j && #[trigger] changes@[y].0 == key && changes@[y].1 is Write;
                lemma_lookup_at(changes@, y);
                assert(pc[key] == changes@[y].1@);
            }
        }
        assert(paths_of_named(after@) =~= target);
    }
    Ok(after)
}

/// Refuses a Commit that would create a Path some platform can't hold beside the others the
/// Area would have: one that differs only in letter case from another, or one that would be under
/// another File or have Files under it. Only Paths the Commit creates are checked, so names that
/// clash already, made by another program, stay.
pub fn refuse_clashing_paths(
    changes: &PathMap<Planned>,
    created: &PathMap<()>,
    current: &impl AreaState,
) -> (result: Result<(), Error>)
    ensures
        match result {
            Ok(()) => first_problem(
                set_view(created),
                paths_after(current.revisions_spec(), planned_view(changes)),
            ) is None && problem_free(
                set_view(created),
                paths_after(current.revisions_spec(), planned_view(changes)),
            ),
            Err(Error::InvalidPath { path, reason }) => first_problem(
                set_view(created),
                paths_after(current.revisions_spec(), planned_view(changes)),
            ) == Some((path@, reason)),
            Err(error) => error is Backend,
        },
        current.infallible() ==> !(result matches Err(Error::Backend { .. })),
{
    let after = match named_after(changes, current) {
        Ok(after) => after,
        Err(error) => return Err(error),
    };
    let ghost paths = paths_of_named(after@);
    let ghost made = set_view(created);
    created.sorted();
    let mut j: usize = 0;
    while j < created.len()
        invariant
            j <= created@.len(),
            paths == paths_of_named(after@),
            paths == paths_after(current.revisions_spec(), planned_view(changes)),
            made == set_view(created),
            sorted_keys(created@),
            forall|k: int| 0 <= k < after.len() ==> names_of_path(#[trigger] after@[k].path@, &after@[k].names),
            forall|y: int| 0 <= y < j ==> problem(#[trigger] created@[y].0, paths) is None,
        decreases created@.len() - j,
    {
        let entry = created.entry(j);
        let names = names_with_folds(entry.0.chars());
        match problem_of(&entry.0, &names, &after) {
            Some(reason) => {
                proof {
                    let key = created@[j as int].0;
                    lemma_lookup_at(created@, j as int);
                    assert(made.contains(key));
                    assert forall|earlier: Seq<char>| made.contains(earlier) && chars_lt(earlier, key) implies problem(earlier, paths) is None by {
                        assert(has_key(created@, earlier));
                        let y = choose|y: int| 0 <= y < created@.len() && #[trigger] created@[y].0 == earlier;
                        if y == j {
                            lemma_lt_irreflexive(key);
                        } else if y > j {
                            assert(chars_lt(created@[j as int].0, created@[y].0));
                            lemma_lt_asymmetric(key, earlier);
                        }
                    }
                    lemma_first_problem(key, made, paths);
                }
                return Err(Error::InvalidPath { path: String::from_str(entry.0.as_str()), reason });
            },
            None => {},
        }
        j = j + 1;
    }
    proof {
        if exists|key: Seq<char>| is_first_problem(key, made, paths) {
            let key = choose|key: Seq<char>| is_first_problem(key, made, paths);
            assert(has_key(created@, key));
            let y = choose|y: int| 0 <= y < created@.len() && #[trigger] created@[y].0 == key;
            assert(problem(created@[y].0, paths) is None);
        }
        assert forall|key: Seq<char>| made.contains(key) implies #[trigger] problem(key, paths) is None by {
            assert(has_key(created@, key));
            let y = choose|y: int| 0 <= y < created@.len() && #[trigger] created@[y].0 == key;
            assert(problem(created@[y].0, paths) is None);
        }
    }
    Ok(())
}

/// A Commit that creates no Path with a problem, made to an Area whose names are apart, leaves
/// them apart.
pub proof fn lemma_names_stay_apart(
    files: Map<Seq<char>, Revision>,
    actions: Map<Seq<char>, ActionView>,
    timestamp: Timestamp,
)
    requires
        names_apart(files.dom()),
        problem_free(
            created_paths(actions, files),
            paths_after(files, planned_changes(actions, timestamp, files)),
        ),
    ensures
        names_apart(paths_after(files, planned_changes(actions, timestamp, files))),
{
    let changes = planned_changes(actions, timestamp, files);
    let after = paths_after(files, changes);
    let created = created_paths(actions, files);
    assert forall|key: Seq<char>| after.contains(key) implies #[trigger] problem(key, after) is None by {
        if !created.contains(key) {
            if writes(changes, key) {
                assert(files.contains_key(key));
            }
            assert(files.contains_key(key));
            if exists|other: Seq<char>| after.contains(other) && other != key && file_under_file(key, other) {
                let other = choose|other: Seq<char>| after.contains(other) && other != key && file_under_file(key, other);
                if created.contains(other) {
                    assert(file_under_file(other, key));
                    assert(problem(other, after) is Some);
                } else {
                    if writes(changes, other) {
                        assert(files.contains_key(other));
                    }
                    assert(files.dom().contains(other));
                    assert(problem(key, files.dom()) is Some);
                }
            } else if exists|other: Seq<char>| after.contains(other) && other != key && letter_case_clash(key, other) {
                let other = choose|other: Seq<char>| after.contains(other) && other != key && letter_case_clash(key, other);
                lemma_clash_symmetric(key, other);
                if created.contains(other) {
                    assert(problem(other, after) is Some);
                } else {
                    if writes(changes, other) {
                        assert(files.contains_key(other));
                    }
                    assert(files.dom().contains(other));
                    assert(problem(key, files.dom()) is Some);
                }
            }
        }
    }
}

// ---------------------------------------------------------------------------------------------
// The rules together, and the Commit they plan.
/// The actions a Commit of `staged` makes in an Area holding `files`: its own, and a delete of
/// each File under a Prefix it deletes that nothing else is staged for.
pub open spec fn expanded_actions(staged: StagedView, files: Map<Seq<char>, Revision>) -> Map<Seq<char>, ActionView> {
    expanded(staged.actions, staged.prefix_deletes, files)
}

/// What a Commit of `staged` at `timestamp` does to each Path it changes in an Area holding
/// `files`.
pub open spec fn commit_changes(
    staged: StagedView,
    timestamp: Timestamp,
    files: Map<Seq<char>, Revision>,
) -> Map<Seq<char>, PlannedView> {
    planned_changes(expanded_actions(staged, files), timestamp, files)
}

/// The first Path, in order, that a Commit of `staged` at `timestamp` would create where some
/// platform can't hold it beside the others, with why; `None` if there is none.
pub open spec fn commit_problem(
    staged: StagedView,
    timestamp: Timestamp,
    files: Map<Seq<char>, Revision>,
) -> Option<(Seq<char>, InvalidPathReason)> {
    first_problem(
        created_paths(expanded_actions(staged, files), files),
        paths_after(files, commit_changes(staged, timestamp, files)),
    )
}

/// A Staging, with its Paths validated, ready for a Backend to commit.
#[derive(Debug)]
pub struct CommitRequest {
    /// The last-modified time every File written gets. The Store layer chooses it.
    pub timestamp: Timestamp,
    /// What to commit. The Backend expands its Prefix deletes under its lock.
    pub staged: Staged,
}

/// What a Commit changes, worked out by [`CommitRequest::plan`].
#[derive(Debug)]
pub struct Plan {
    /// What to do to each Path the Commit changes, in order of Path.
    pub changes: PathMap<Planned>,
    /// The new Revision of each Path written, including writes left out because they would not
    /// have changed the contents.
    pub revisions: PathMap<Revision>,
}

impl CommitRequest {
    /// Works out what the Commit changes, given `current`, the Area as it is under the Backend's
    /// lock. These are the rules every Backend shares, in the order they apply:
    /// 1. every Precondition is checked, so a Commit that also breaks another rule is a Conflict;
    /// 2. the Prefix deletes are expanded;
    /// 3. writes that would not change the contents, and deletes of Paths with no File, are left
    ///    out;
    /// 4. names that some platform can't hold together are refused.
    pub fn plan(self, current: &impl AreaState) -> (result: Result<Plan, Error>)
        ensures
            match result {
                Ok(plan) => {
                    &&& !any_precondition_fails(self.staged@, current.revisions_spec())
                    &&& commit_problem(self.staged@, self.timestamp, current.revisions_spec()) is None
                    &&& problem_free(
                        created_paths(expanded_actions(self.staged@, current.revisions_spec()), current.revisions_spec()),
                        paths_after(current.revisions_spec(), commit_changes(self.staged@, self.timestamp, current.revisions_spec())),
                    )
                    &&& planned_view(&plan.changes) == commit_changes(
                        self.staged@,
                        self.timestamp,
                        current.revisions_spec(),
                    )
                    &&& plan.revisions.map() == written_revisions(
                        expanded_actions(self.staged@, current.revisions_spec()),
                    )
                },
                Err(Error::Conflict { paths }) => {
                    &&& any_precondition_fails(self.staged@, current.revisions_spec())
                    &&& sorted_names(names_of(paths@))
                    &&& forall|key: Seq<char>|
                        names_of(paths@).contains(key) <==> conflicts_at(
                            self.staged@,
                            current.revisions_spec(),
                            key,
                        )
                },
                Err(Error::InvalidPath { path, reason }) => {
                    &&& !any_precondition_fails(self.staged@, current.revisions_spec())
                    &&& commit_problem(self.staged@, self.timestamp, current.revisions_spec())
                        == Some((path@, reason))
                },
                Err(error) => error is Backend,
            },
            current.infallible() ==> !(result matches Err(Error::Backend { .. })),
    {
        let CommitRequest { timestamp, staged } = self;
        let ghost view = staged@;
        let ghost files = current.revisions_spec();
        match check_preconditions(&staged, current) {
            Ok(()) => {},
            Err(error) => return Err(error),
        }
        let Staged { area, actions, prefix_deletes, preconditions, prefix_preconditions } = staged;
        let actions = match expand_prefix_deletes(actions, &prefix_deletes, current) {
            Ok(actions) => actions,
            Err(error) => return Err(error),
        };
        proof {
            assert(actions_view(&actions) == expanded_actions(view, files));
        }
        let ghost all = actions_view(&actions);
        let (changes, revisions, created) = match leave_out_what_changes_nothing(actions, timestamp, current) {
            Ok(planned) => planned,
            Err(error) => return Err(error),
        };
        match refuse_clashing_paths(&changes, &created, current) {
            Ok(()) => {},
            Err(error) => return Err(error),
        }
        Ok(Plan { changes, revisions })
    }
}

/// What a File holds, as values: its contents and Stat.
pub type Held = (Seq<char>, Stat);

/// `files` after `planned` is made to the File at `key`.
pub open spec fn after_change(files: Map<Seq<char>, Held>, key: Seq<char>, planned: PlannedView) -> Map<Seq<char>, Held> {
    match planned {
        PlannedView::Write { contents, stat } => files.insert(key, (contents, stat)),
        PlannedView::Remove { .. } => files.remove(key),
    }
}

/// `files` after every change of `changes` is made.
pub open spec fn after_changes(
    files: Map<Seq<char>, Held>,
    changes: Map<Seq<char>, PlannedView>,
) -> Map<Seq<char>, Held> {
    Map::new(
        |key: Seq<char>| (files.contains_key(key) && !removes(changes, key)) || writes(changes, key),
        |key: Seq<char>|
            if writes(changes, key) {
                (changes[key]->Write_contents, changes[key]->Write_stat)
            } else {
                files[key]
            },
    )
}

/// The changes made through a [`ChangeTarget`] since its record of them was `before`, now that it
/// is `after`: each Path, what was planned for it, and how the change went.
pub open spec fn calls_since(
    before: Seq<(Seq<char>, PlannedView, Result<(), Error>)>,
    after: Seq<(Seq<char>, PlannedView, Result<(), Error>)>,
) -> Seq<(Seq<char>, PlannedView, Result<(), Error>)> {
    after.subrange(before.len() as int, after.len() as int)
}

/// Whether `made` are the changes of `changes` from the first on, in order, and went as `result`
/// says: all of them succeeded, or every one but the last did, and the last failed with the error
/// `result` gives, so that no change after it was made.
pub open spec fn made_in_order(
    made: Seq<(Seq<char>, PlannedView, Result<(), Error>)>,
    changes: Seq<(Seq<char>, Planned)>,
    result: Result<CommitOutcome, Error>,
) -> bool {
    &&& made.len() <= changes.len()
    &&& forall|i: int| 0 <= i < made.len() ==> (#[trigger] made[i]).0 == changes[i].0 && made[i].1 == changes[i].1@
    &&& forall|i: int| 0 <= i < made.len() - 1 ==> (#[trigger] made[i]).2 is Ok
    &&& match result {
        Ok(_) => made.len() == changes.len() && (made.len() > 0 ==> made.last().2 is Ok),
        Err(error) => made.len() > 0 && made.last().2 == Err::<(), Error>(error),
    }
}

/// What a Backend makes a Commit's changes to, one Path at a time, under its lock.
pub trait ChangeTarget {
    /// The contents and Stat of each File, by Path.
    spec fn held_spec(&self) -> Map<Seq<char>, Held>;

    /// Whether making a change never fails.
    spec fn never_fails(&self) -> bool;

    /// Each change made to it so far, in order: the Path, what was planned, and how it went.
    spec fn calls(&self) -> Seq<(Seq<char>, PlannedView, Result<(), Error>)>;

    /// Makes `planned` to the File at `path`.
    fn change(&mut self, path: &Path, planned: Planned) -> (result: Result<(), Error>)
        ensures
            final(self).calls() == old(self).calls().push((path@, planned@, result)),
            result is Ok ==> final(self).held_spec() == after_change(old(self).held_spec(), path@, planned@),
            old(self).never_fails() ==> result is Ok && final(self).never_fails(),
    ;
}

/// The kind of Change each change of `changes` makes.
pub open spec fn change_kinds(changes: Map<Seq<char>, PlannedView>) -> Map<Seq<char>, ChangeKind> {
    Map::new(|key: Seq<char>| changes.contains_key(key), |key: Seq<char>| kind_of(changes[key]))
}

/// Something a Backend observed in an Area, other than this Store's Commits as it makes them.
#[derive(Debug)]
pub enum Observed {
    /// Changes to the Area, all with the same Origin, to go in the same batch.
    Changes { origin: Origin, changes: Vec<RawChange> },
    /// Changes may have been missed.
    Missed,
}

/// What a Commit did.
#[derive(Debug)]
pub struct CommitOutcome {
    /// The new Revision of each Path written, including writes left out because they would not
    /// have changed the contents.
    pub revisions: PathMap<Revision>,
    /// Each Path the Commit changed or removed, in order.
    pub changes: Vec<RawChange>,
    /// What other Stores did to the Area before this Commit that this Store hasn't recorded on
    /// its Change feed yet, in the order they did it.
    pub observed_before: Vec<Observed>,
    /// Whether the Commit has happened but isn't finished yet.
    pub pending: bool,
}

/// The kind of Change `planned` makes.
pub open spec fn kind_of(planned: PlannedView) -> ChangeKind {
    match planned {
        PlannedView::Write { .. } => ChangeKind::Changed,
        PlannedView::Remove { .. } => ChangeKind::Removed,
    }
}

/// Each change of `changes` as its Path and the kind of Change it makes.
pub open spec fn kinds_of(changes: Seq<(Seq<char>, Planned)>) -> Seq<(Seq<char>, ChangeKind)> {
    changes.map_values(|change: (Seq<char>, Planned)| (change.0, kind_of(change.1@)))
}

/// Each raw Change as its Path and kind.
pub open spec fn raw_view(changes: Seq<RawChange>) -> Seq<(Seq<char>, ChangeKind)> {
    changes.map_values(|change: RawChange| (change.path@, change.kind))
}

impl Plan {
    /// The changes to make, in order of Path, and what the Commit does once they are all made: for
    /// a Backend that makes them itself, inside its own all-or-nothing step.
    pub fn into_changes(self) -> (split: (Vec<(Path, Planned)>, CommitOutcome))
        ensures
            entries_view(split.0@) == self.changes@,
            sorted_keys(self.changes@),
            split.1.revisions.map() == self.revisions.map(),
            raw_view(split.1.changes@) == kinds_of(self.changes@),
            split.1.observed_before@.len() == 0,
            !split.1.pending,
    {
        let Plan { changes, revisions } = self;
        let ghost all = changes@;
        changes.sorted();
        let entries = changes.into_entries();
        let mut made: Vec<RawChange> = Vec::new();
        let mut i: usize = 0;
        while i < entries.len()
            invariant
                i <= entries@.len(),
                entries_view(entries@) == all,
                raw_view(made@) == kinds_of(all.subrange(0, i as int)),
            decreases entries@.len() - i,
        {
            let kind = match &entries[i].1 {
                Planned::Write { .. } => ChangeKind::Changed,
                Planned::Remove { .. } => ChangeKind::Removed,
            };
            let ghost old_made = made@;
            made.push(RawChange { path: entries[i].0.duplicate(), kind });
            proof {
                assert(all[i as int] == (entries@[i as int].0@, entries@[i as int].1));
                assert(kinds_of(all.subrange(0, i + 1)) =~= kinds_of(all.subrange(0, i as int)).push(
                    (all[i as int].0, kind_of(all[i as int].1@)),
                ));
                assert(raw_view(made@) =~= raw_view(old_made).push((all[i as int].0, kind)));
            }
            i = i + 1;
        }
        proof {
            assert(all.subrange(0, entries@.len() as int) =~= all);
        }
        (entries, CommitOutcome { revisions, changes: made, observed_before: Vec::new(), pending: false })
    }

    /// Makes each change with `target`, in order of Path, stopping at the first that fails. The
    /// Backend makes them all under its lock, all-or-nothing.
    pub fn apply<T: ChangeTarget>(self, target: &mut T) -> (result: Result<CommitOutcome, Error>)
        ensures
            result matches Ok(outcome) ==> {
                &&& final(target).held_spec() == after_changes(
                    old(target).held_spec(),
                    planned_view(&self.changes),
                )
                &&& outcome.revisions.map() == self.revisions.map()
                &&& raw_view(outcome.changes@) == kinds_of(self.changes@)
                &&& sorted_keys(raw_view(outcome.changes@))
                &&& to_map(raw_view(outcome.changes@)) == change_kinds(planned_view(&self.changes))
                &&& outcome.observed_before@.len() == 0
                &&& !outcome.pending
            },
            old(target).never_fails() ==> result is Ok,
            final(target).calls().len() >= old(target).calls().len(),
            final(target).calls().subrange(0, old(target).calls().len() as int) == old(target).calls(),
            made_in_order(calls_since(old(target).calls(), final(target).calls()), self.changes@, result),
    {
        let ghost logged = target.calls();
        let Plan { changes, revisions } = self;
        let ghost base = target.held_spec();
        let ghost steady = target.never_fails();
        let ghost pc = planned_view(&changes);
        let ghost all = changes@;
        changes.sorted();
        proof {
            assert forall|y: int| 0 <= y < all.len() implies pc.contains_key(#[trigger] all[y].0)
                && pc[all[y].0] == all[y].1@ by {
                lemma_lookup_at(all, y);
            }
        }
        let entries = changes.into_entries();
        let n: usize = entries.len();
        let mut turned = reversed(entries);
        let mut made: Vec<RawChange> = Vec::new();
        let mut i: usize = 0;
        while turned.len() > 0
            invariant
                sorted_keys(all),
                steady ==> target.never_fails(),
                steady == old(target).never_fails(),
                n == all.len(),
                forall|key: Seq<char>| pc.contains_key(key) <==> has_key(all, key),
                forall|y: int| 0 <= y < all.len() ==> pc.contains_key(#[trigger] all[y].0) && pc[all[y].0] == all[y].1@,
                i + turned@.len() == n,
                forall|k: int| 0 <= k < turned@.len() ==> (#[trigger] turned@[k]).0@ == all[n - 1 - k].0
                    && turned@[k].1 == all[n - 1 - k].1,
                raw_view(made@) == kinds_of(all.subrange(0, i as int)),
                logged == old(target).calls(),
                all == self.changes@,
                target.calls().len() == logged.len() + i,
                target.calls().subrange(0, logged.len() as int) == logged,
                forall|j: int| 0 <= j < i ==> (#[trigger] calls_since(logged, target.calls())[j]).0 == all[j].0
                    && calls_since(logged, target.calls())[j].1 == all[j].1@ && calls_since(logged, target.calls())[j].2 is Ok,
                forall|key: Seq<char>| #[trigger] target.held_spec().contains_key(key) <==> (
                    (base.contains_key(key) && !(exists|y: int| 0 <= y < i && #[trigger] all[y].0 == key && all[y].1 is Remove))
                    || (exists|y: int| 0 <= y < i && #[trigger] all[y].0 == key && all[y].1 is Write)),
                forall|y: int| 0 <= y < i && (#[trigger] all[y]).1 is Write ==> target.held_spec()[all[y].0]
                    == (all[y].1->Write_contents@, all[y].1->Write_stat),
                forall|key: Seq<char>| target.held_spec().contains_key(key) && !(exists|y: int| 0 <= y < i && #[trigger] all[y].0 == key)
                    ==> #[trigger] target.held_spec()[key] == base[key],
            decreases turned@.len(),
        {
            let ghost before = target.held_spec();
            let ghost old_made = made@;
            let ghost count = turned@.len();
            let (path, planned) = turned.pop().unwrap();
            proof {
                assert(path@ == all[i as int].0);
                assert(planned == all[i as int].1);
            }
            let kind = match &planned {
                Planned::Write { .. } => ChangeKind::Changed,
                Planned::Remove { .. } => ChangeKind::Removed,
            };
            let ghost shown = planned@;
            let ghost calls_before = target.calls();
            let changed = target.change(&path, planned);
            proof {
                let now = target.calls();
                assert(now == calls_before.push((all[i as int].0, shown, changed)));
                assert(now.subrange(0, logged.len() as int) =~= logged);
                assert forall|j: int| 0 <= j < i implies (#[trigger] calls_since(logged, now)[j]).0 == all[j].0
                    && calls_since(logged, now)[j].1 == all[j].1@ && calls_since(logged, now)[j].2 is Ok by {
                    assert(calls_since(logged, now)[j] == calls_since(logged, calls_before)[j]);
                }
                assert(calls_since(logged, now)[i as int] == (all[i as int].0, shown, changed));
            }
            match changed {
                Ok(()) => {},
                Err(error) => {
                    proof {
                        let made_now = calls_since(logged, target.calls());
                        assert(made_now.len() == i + 1);
                        assert(made_now.last() == (all[i as int].0, shown, changed));
                    }
                    return Err(error);
                },
            }
            made.push(RawChange { path, kind });
            proof {
                let key_i = all[i as int].0;
                let now = target.held_spec();
                assert(now == after_change(before, key_i, shown));
                assert forall|y: int| 0 <= y < i implies #[trigger] all[y].0 != key_i by {
                    assert(chars_lt(all[y].0, all[i as int].0));
                    lemma_lt_irreflexive(key_i);
                }
                assert(kinds_of(all.subrange(0, i + 1)) =~= kinds_of(all.subrange(0, i as int)).push(
                    (key_i, kind_of(shown)),
                ));
                assert(raw_view(made@) =~= raw_view(old_made).push((key_i, kind)));
                assert forall|key: Seq<char>| #[trigger] now.contains_key(key) <==> (
                    (base.contains_key(key) && !(exists|y: int| 0 <= y < i + 1 && #[trigger] all[y].0 == key && all[y].1 is Remove))
                    || (exists|y: int| 0 <= y < i + 1 && #[trigger] all[y].0 == key && all[y].1 is Write)) by {
                    if key == key_i {
                        if exists|y: int| 0 <= y < i && #[trigger] all[y].0 == key {
                            let y = choose|y: int| 0 <= y < i && #[trigger] all[y].0 == key;
                            assert(all[y].0 != key_i);
                        }
                        assert(all[i as int].0 == key);
                    } else {
                        assert(before.contains_key(key) == now.contains_key(key));
                        if exists|y: int| 0 <= y < i + 1 && #[trigger] all[y].0 == key && all[y].1 is Remove {
                            let y = choose|y: int| 0 <= y < i + 1 && #[trigger] all[y].0 == key && all[y].1 is Remove;
                            assert(y < i);
                        }
                        if exists|y: int| 0 <= y < i + 1 && #[trigger] all[y].0 == key && all[y].1 is Write {
                            let y = choose|y: int| 0 <= y < i + 1 && #[trigger] all[y].0 == key && all[y].1 is Write;
                            assert(y < i);
                        }
                    }
                }
                assert forall|y: int| 0 <= y < i + 1 && (#[trigger] all[y]).1 is Write implies now[all[y].0]
                    == (all[y].1->Write_contents@, all[y].1->Write_stat) by {
                    if y < i {
                        assert(all[y].0 != key_i);
                        assert(before.contains_key(all[y].0));
                    }
                }
                assert forall|key: Seq<char>| now.contains_key(key) && !(exists|y: int| 0 <= y < i + 1 && #[trigger] all[y].0 == key)
                    implies #[trigger] now[key] == base[key] by {
                    assert(key != all[i as int].0);
                    if exists|y: int| 0 <= y < i && #[trigger] all[y].0 == key {
                        let y = choose|y: int| 0 <= y < i && #[trigger] all[y].0 == key;
                        assert(0 <= y < i + 1);
                    }
                }
            }
            i = i + 1;
        }
        proof {
            let now = target.held_spec();
            let target_map = after_changes(base, pc);
            assert forall|key: Seq<char>| now.contains_key(key) <==> target_map.contains_key(key) by {
                if has_key(all, key) {
                    let y = choose|y: int| 0 <= y < all.len() && #[trigger] all[y].0 == key;
                    assert(pc[key] == all[y].1@);
                    if exists|z: int| 0 <= z < i && #[trigger] all[z].0 == key && all[z].1 is Remove {
                        let z = choose|z: int| 0 <= z < i && #[trigger] all[z].0 == key && all[z].1 is Remove;
                        if z != y {
                            if z < y {
                                assert(chars_lt(all[z].0, all[y].0));
                            } else {
                                assert(chars_lt(all[y].0, all[z].0));
                            }
                            lemma_lt_irreflexive(key);
                        }
                    }
                    if exists|z: int| 0 <= z < i && #[trigger] all[z].0 == key && all[z].1 is Write {
                        let z = choose|z: int| 0 <= z < i && #[trigger] all[z].0 == key && all[z].1 is Write;
                        if z != y {
                            if z < y {
                                assert(chars_lt(all[z].0, all[y].0));
                            } else {
                                assert(chars_lt(all[y].0, all[z].0));
                            }
                            lemma_lt_irreflexive(key);
                        }
                    }
                } else {
                    assert(!pc.contains_key(key));
                }
            }
            assert forall|key: Seq<char>| now.contains_key(key) implies now[key] == target_map[key] by {
                if has_key(all, key) {
                    let y = choose|y: int| 0 <= y < all.len() && #[trigger] all[y].0 == key;
                    assert(pc[key] == all[y].1@);
                } else {
                    assert(!pc.contains_key(key));
                    if exists|y: int| 0 <= y < i && #[trigger] all[y].0 == key {
                        let y = choose|y: int| 0 <= y < i && #[trigger] all[y].0 == key;
                        assert(has_key(all, key));
                    }
                }
            }
            assert(now =~= target_map);
            assert(all.subrange(0, i as int) =~= all);
            let kinds = kinds_of(all);
            assert forall|x: int, y: int| 0 <= x < y < kinds.len() implies chars_lt(
                #[trigger] kinds[x].0,
                #[trigger] kinds[y].0,
            ) by {
                assert(kinds[x].0 == all[x].0 && kinds[y].0 == all[y].0);
            }
            assert forall|key: Seq<char>| to_map(kinds).contains_key(key) <==> change_kinds(pc).contains_key(key) by {
                if has_key(all, key) {
                    let y = choose|y: int| 0 <= y < all.len() && #[trigger] all[y].0 == key;
                    assert(kinds[y].0 == key);
                }
                if has_key(kinds, key) {
                    let y = choose|y: int| 0 <= y < kinds.len() && #[trigger] kinds[y].0 == key;
                    assert(all[y].0 == key);
                }
            }
            assert forall|key: Seq<char>| to_map(kinds).contains_key(key) implies to_map(kinds)[key] == change_kinds(pc)[key] by {
                let y = choose|y: int| 0 <= y < kinds.len() && #[trigger] kinds[y].0 == key;
                lemma_lookup_at(kinds, y);
                assert(all[y].0 == key);
                assert(pc[key] == all[y].1@);
            }
            assert(to_map(kinds) =~= change_kinds(pc));
        }
        Ok(CommitOutcome { revisions, changes: made, observed_before: Vec::new(), pending: false })
    }
}

} // verus!
