//! The memory Backend: every Area lives in process memory.
//!
//! A Snapshot is a copy of the Area's Files as they were, so Commits made afterwards don't
//! change it, and reading it never holds up a Commit.

use vstd::prelude::*;

use jiff::Timestamp;

use crate::area::{Area, PerArea};
use crate::commit::{
    AreaState, ChangeTarget, CommitOutcome, CommitRequest, Held, Planned, PlannedView,
    after_change, after_changes, any_precondition_fails, covered_by, change_kinds, commit_changes,
    commit_problem, conflicts_at, entry_of, lemma_names_stay_apart, names_apart, paths_after, expanded_actions, lemma_planned_writes, raw_view,
    sorted_of, lemma_sorted_of, under_prefix, writes, written_revisions,
};
use crate::error::Error;
use crate::staging::{ActionView, StagedView};
use crate::file::{File, Stat, lemma_stat_of, stat_of};
use crate::order::{chars_lt, lemma_lt_irreflexive};
use crate::path::Path;
use crate::path_map::{PathMap, entries_view, to_map};
use crate::prefix::{Prefix, chars_start_with, starts_with};
use crate::revision::{PrefixRevision, Revision, content_revision, encode_files, names_of, xxh3_128_of};
use crate::sorted::{has_key, keys_of, lemma_lookup_at, sorted_keys, sorted_names};

verus! {

/// A File as the memory Backend keeps it.
#[derive(Debug)]
pub struct Stored {
    pub contents: String,
    pub stat: Stat,
}

/// What `files` hold, by Path: each File's contents and Stat.
pub open spec fn held_in(files: &PathMap<Stored>) -> Map<Seq<char>, Held> {
    Map::new(
        |key: Seq<char>| files.map().contains_key(key),
        |key: Seq<char>| (files.map()[key].contents@, files.map()[key].stat),
    )
}

/// The Revision of each File in `held`.
pub open spec fn revisions_in(held: Map<Seq<char>, Held>) -> Map<Seq<char>, Revision> {
    Map::new(|key: Seq<char>| held.contains_key(key), |key: Seq<char>| held[key].1.revision_spec())
}

/// Whether each File in `held` has the Revision of its contents.
pub open spec fn consistent(held: Map<Seq<char>, Held>) -> bool {
    forall|key: Seq<char>|
        held.contains_key(key) ==> #[trigger] held[key].1.revision_spec() == content_revision(
            held[key].0,
        )
}

/// The File at `path` in `files`, if there is one.
fn read_in(files: &PathMap<Stored>, path: &Path) -> (file: Option<File>)
    ensures
        match file {
            Some(file) => {
                &&& held_in(files).contains_key(path@)
                &&& file.path_spec() == path@
                &&& file.contents_spec() == held_in(files)[path@].0
                &&& file.stat_spec() == held_in(files)[path@].1
            },
            None => !held_in(files).contains_key(path@),
        },
{
    match files.get(path) {
        Some(stored) => Some(
            File::new(path.duplicate(), String::from_str(stored.contents.as_str()), stored.stat),
        ),
        None => None,
    }
}

/// The Stat of the File at `path` in `files`, if there is one.
fn stat_in(files: &PathMap<Stored>, path: &Path) -> (stat: Option<Stat>)
    ensures
        match stat {
            Some(stat) => held_in(files).contains_key(path@) && stat == held_in(files)[path@].1,
            None => !held_in(files).contains_key(path@),
        },
{
    match files.get(path) {
        Some(stored) => Some(stored.stat),
        None => None,
    }
}

/// The Path and Revision of each File of `files` under `prefix`, in order of Path.
fn revisions_under_in(files: &PathMap<Stored>, prefix: &Prefix) -> (found: Vec<(Path, Revision)>)
    ensures
        sorted_keys(entries_view(found@)),
        to_map(entries_view(found@)) == under_prefix(revisions_in(held_in(files)), prefix@),
{
    files.sorted();
    let ghost all = files@;
    let ghost revisions = revisions_in(held_in(files));
    let mut found: Vec<(Path, Revision)> = Vec::new();
    let ghost mut from: Seq<int> = Seq::empty();
    let mut i: usize = 0;
    while i < files.len()
        invariant
            i <= all.len(),
            all == files@,
            sorted_keys(all),
            sorted_keys(entries_view(found@)),
            from.len() == found@.len(),
            forall|x: int| 0 <= x < from.len() ==> 0 <= #[trigger] from[x] < i && all[from[x]].0
                == entries_view(found@)[x].0 && starts_with(all[from[x]].0, prefix@)
                && entries_view(found@)[x].1 == all[from[x]].1.stat.revision_spec(),
            forall|y: int| 0 <= y < i && starts_with(#[trigger] all[y].0, prefix@) ==> has_key(
                entries_view(found@),
                all[y].0,
            ),
        decreases all.len() - i,
    {
        let ghost before = entries_view(found@);
        let ghost before_from = from;
        let entry = files.entry(i);
        if chars_start_with(entry.0.chars(), prefix.chars()) {
            found.push((entry.0.duplicate(), entry.1.stat.revision()));
            proof {
                from = from.push(i as int);
                let now = entries_view(found@);
                assert(now =~= before.push((all[i as int].0, all[i as int].1.stat.revision_spec())));
                assert forall|x: int, z: int| 0 <= x < z < now.len() implies chars_lt(
                    #[trigger] now[x].0,
                    #[trigger] now[z].0,
                ) by {
                    if z == before.len() {
                        assert(before_from[x] < i);
                        assert(chars_lt(all[before_from[x]].0, all[i as int].0));
                    }
                }
            }
        }
        proof {
            let now = entries_view(found@);
            assert forall|x: int| 0 <= x < from.len() implies 0 <= #[trigger] from[x] < i + 1 && all[from[x]].0
                == now[x].0 && starts_with(all[from[x]].0, prefix@)
                && now[x].1 == all[from[x]].1.stat.revision_spec() by {
                if x < before.len() {
                    assert(now[x] == before[x]);
                    assert(from[x] == before_from[x]);
                }
            }
            assert forall|y: int| 0 <= y < i + 1 && starts_with(#[trigger] all[y].0, prefix@) implies has_key(
                now,
                all[y].0,
            ) by {
                if y < i {
                    let x = choose|x: int| 0 <= x < before.len() && #[trigger] before[x].0 == all[y].0;
                    assert(now[x] == before[x]);
                } else {
                    assert(now[before.len() as int].0 == all[y].0);
                }
            }
        }
        i = i + 1;
    }
    proof {
        let shown = entries_view(found@);
        let target = under_prefix(revisions, prefix@);
        assert forall|key: Seq<char>| to_map(shown).contains_key(key) <==> target.contains_key(key) by {
            if has_key(shown, key) {
                let x = choose|x: int| 0 <= x < shown.len() && #[trigger] shown[x].0 == key;
                assert(0 <= from[x] < all.len() && all[from[x]].0 == key);
                assert(has_key(all, key));
            }
            if target.contains_key(key) {
                assert(has_key(all, key));
                let y = choose|y: int| 0 <= y < all.len() && #[trigger] all[y].0 == key;
                assert(starts_with(all[y].0, prefix@));
            }
        }
        assert forall|key: Seq<char>| to_map(shown).contains_key(key) implies to_map(shown)[key] == target[key] by {
            let x = choose|x: int| 0 <= x < shown.len() && #[trigger] shown[x].0 == key;
            lemma_lookup_at(shown, x);
            assert(0 <= from[x] < all.len() && all[from[x]].0 == key);
            lemma_lookup_at(all, from[x]);
        }
        assert(to_map(shown) =~= target);
    }
    found
}

/// The Paths of `files` under `prefix`, in order.
fn list_in(files: &PathMap<Stored>, prefix: &Prefix) -> (paths: Vec<Path>)
    ensures
        sorted_names(names_of(paths@)),
        forall|key: Seq<char>|
            #[trigger] names_of(paths@).contains(key) <==> (held_in(files).contains_key(key) && starts_with(
                key,
                prefix@,
            )),
{
    let found = revisions_under_in(files, prefix);
    let ghost shown = entries_view(found@);
    let mut paths: Vec<Path> = Vec::new();
    let mut i: usize = 0;
    while i < found.len()
        invariant
            i <= found.len(),
            paths@.len() == i,
            shown == entries_view(found@),
            names_of(paths@) == keys_of(shown).subrange(0, i as int),
        decreases found.len() - i,
    {
        let ghost earlier = paths@;
        paths.push(found[i].0.duplicate());
        proof {
            assert forall|k: int| 0 <= k < i + 1 implies #[trigger] names_of(paths@)[k] == keys_of(shown)[k] by {
                if k < i {
                    assert(paths@[k] == earlier[k]);
                    assert(names_of(earlier)[k] == keys_of(shown).subrange(0, i as int)[k]);
                }
            }
            assert(names_of(paths@) =~= keys_of(shown).subrange(0, i + 1));
        }
        i = i + 1;
    }
    proof {
        let names = names_of(paths@);
        assert(names =~= keys_of(shown));
        assert forall|x: int, y: int| 0 <= x < y < names.len() implies chars_lt(
            #[trigger] names[x],
            #[trigger] names[y],
        ) by {
            assert(names[x] == shown[x].0 && names[y] == shown[y].0);
        }
        assert forall|key: Seq<char>|
            names.contains(key) <==> (held_in(files).contains_key(key) && starts_with(key, prefix@)) by {
            if names.contains(key) {
                let x = choose|x: int| 0 <= x < names.len() && names[x] == key;
                assert(shown[x].0 == key);
                assert(to_map(shown).contains_key(key));
            }
            if held_in(files).contains_key(key) && starts_with(key, prefix@) {
                assert(to_map(shown).contains_key(key));
                let x = choose|x: int| 0 <= x < shown.len() && #[trigger] shown[x].0 == key;
                assert(names[x] == key);
            }
        }
    }
    paths
}

/// A copy of `files`.
fn copy_files(files: &PathMap<Stored>) -> (copy: PathMap<Stored>)
    ensures
        held_in(&copy) == held_in(files),
{
    files.sorted();
    let ghost all = files@;
    let mut copy: PathMap<Stored> = PathMap::new();
    let mut i: usize = 0;
    while i < files.len()
        invariant
            i <= all.len(),
            all == files@,
            sorted_keys(all),
            copy@.len() == i,
            forall|k: int| 0 <= k < i ==> (#[trigger] copy@[k]).0 == all[k].0 && copy@[k].1.contents@
                == all[k].1.contents@ && copy@[k].1.stat == all[k].1.stat,
        decreases all.len() - i,
    {
        let entry = files.entry(i);
        let stored = Stored { contents: String::from_str(entry.1.contents.as_str()), stat: entry.1.stat };
        proof {
            assert forall|k: int| 0 <= k < copy@.len() implies chars_lt(#[trigger] copy@[k].0, all[i as int].0) by {
                assert(copy@[k].0 == all[k].0);
            }
        }
        copy.push_last(entry.0.duplicate(), stored);
        i = i + 1;
    }
    copy.sorted();
    proof {
        assert forall|key: Seq<char>| held_in(&copy).contains_key(key) <==> held_in(files).contains_key(key) by {
            if has_key(copy@, key) {
                let k = choose|k: int| 0 <= k < copy@.len() && #[trigger] copy@[k].0 == key;
                assert(all[k].0 == key);
            }
            if has_key(all, key) {
                let k = choose|k: int| 0 <= k < all.len() && #[trigger] all[k].0 == key;
                assert(copy@[k].0 == key);
            }
        }
        assert forall|key: Seq<char>| held_in(&copy).contains_key(key) implies held_in(&copy)[key]
            == held_in(files)[key] by {
            let k = choose|k: int| 0 <= k < copy@.len() && #[trigger] copy@[k].0 == key;
            lemma_lookup_at(copy@, k);
            assert(all[k].0 == key);
            lemma_lookup_at(all, k);
        }
        assert(held_in(&copy) =~= held_in(files));
    }
    copy
}

/// Once `changes` are made to Files that each have the Revision of their contents, each still
/// does, when every File written gets the Revision of its new contents.
proof fn lemma_consistent_after(before: Map<Seq<char>, Held>, changes: Map<Seq<char>, PlannedView>)
    requires
        consistent(before),
        forall|key: Seq<char>| #[trigger]
            writes(changes, key) ==> changes[key]->Write_stat.revision_spec() == content_revision(
                changes[key]->Write_contents,
            ),
    ensures
        consistent(after_changes(before, changes)),
{
    let after = after_changes(before, changes);
    assert forall|key: Seq<char>| after.contains_key(key) implies #[trigger] after[key].1.revision_spec()
        == content_revision(after[key].0) by {
        if writes(changes, key) {
        } else {
            assert(before.contains_key(key));
        }
    }
}

/// One Area as the memory Backend holds it.
#[derive(Debug)]
pub struct AreaInMemory {
    files: PathMap<Stored>,
}

impl AreaInMemory {
    /// The contents and Stat of each File in the Area, by Path.
    pub closed spec fn held(&self) -> Map<Seq<char>, Held> {
        held_in(&self.files)
    }

    /// An empty Area.
    pub fn new() -> (area: AreaInMemory)
        ensures
            area.held() == Map::<Seq<char>, Held>::empty(),
    {
        let area = AreaInMemory { files: PathMap::new() };
        assert(area.held() =~= Map::<Seq<char>, Held>::empty());
        area
    }
}

impl AreaState for AreaInMemory {
    open spec fn revisions_spec(&self) -> Map<Seq<char>, Revision> {
        revisions_in(self.held())
    }

    open spec fn infallible(&self) -> bool {
        true
    }

    fn revision(&self, path: &Path) -> (found: Result<Option<Revision>, Error>) {
        match self.files.get(path) {
            Some(stored) => Ok(Some(stored.stat.revision())),
            None => Ok(None),
        }
    }

    fn revisions_under(&self, prefix: &Prefix) -> (found: Result<Vec<(Path, Revision)>, Error>) {
        Ok(revisions_under_in(&self.files, prefix))
    }

    fn paths_under(&self, prefix: &Prefix) -> (found: Result<Vec<Path>, Error>) {
        let paths = list_in(&self.files, prefix);
        proof {
            assert forall|key: Seq<char>|
                names_of(paths@).contains(key) <==> under_prefix(self.revisions_spec(), prefix@).contains_key(key) by {
            }
        }
        Ok(paths)
    }
}

/// An Area a Commit is changing, with each change made to it so far.
pub struct ChangingArea {
    area: AreaInMemory,
    calls: Ghost<Seq<(Seq<char>, PlannedView, Result<(), Error>)>>,
}

impl ChangingArea {
    /// `area`, to be changed, with no change made to it yet.
    pub fn new(area: AreaInMemory) -> (changing: ChangingArea)
        ensures
            changing.held_spec() == area.held(),
            changing.calls() == Seq::<(Seq<char>, PlannedView, Result<(), Error>)>::empty(),
    {
        ChangingArea { area, calls: Ghost(Seq::empty()) }
    }

    /// The Area, with every change made to it.
    pub fn into_area(self) -> (area: AreaInMemory)
        ensures
            area.held() == self.held_spec(),
    {
        self.area
    }
}

impl ChangeTarget for ChangingArea {
    closed spec fn held_spec(&self) -> Map<Seq<char>, Held> {
        self.area.held()
    }

    closed spec fn never_fails(&self) -> bool {
        true
    }

    closed spec fn calls(&self) -> Seq<(Seq<char>, PlannedView, Result<(), Error>)> {
        self.calls@
    }

    fn change(&mut self, path: &Path, planned: Planned) -> (result: Result<(), Error>) {
        let ghost before = self.area.held();
        let ghost shown = planned@;
        match planned {
            Planned::Write { contents, stat } => {
                self.area.files.insert(path.duplicate(), Stored { contents, stat });
            },
            Planned::Remove { .. } => {
                self.area.files.remove(path);
            },
        }
        proof {
            assert(self.area.held() =~= after_change(before, path@, shown));
        }
        self.calls = Ghost(self.calls@.push((path@, shown, Ok(()))));
        Ok(())
    }
}

/// The memory Backend: each Area's Files, in memory.
#[derive(Debug)]
pub struct MemoryBackend {
    areas: PerArea<AreaInMemory>,
}

impl MemoryBackend {
    /// Each File in each Area has the Revision of its contents.
    #[verifier::type_invariant]
    spec fn valid(self) -> bool {
        &&& consistent(self.areas.config.held())
        &&& consistent(self.areas.data.held())
        &&& consistent(self.areas.cache.held())
        &&& names_apart(self.areas.config.held().dom())
        &&& names_apart(self.areas.data.held().dom())
        &&& names_apart(self.areas.cache.held().dom())
    }

    /// The contents and Stat of each File in `area`, by Path.
    pub closed spec fn files(&self, area: Area) -> Map<Seq<char>, Held> {
        self.areas.at(area).held()
    }

    /// A Backend whose Areas are all empty.
    pub fn new() -> (backend: MemoryBackend)
        ensures
            forall|area: Area| #[trigger] backend.files(area) == Map::<Seq<char>, Held>::empty(),
    {
        proof {
            assert(Map::<Seq<char>, Held>::empty().dom() =~= Set::<Seq<char>>::empty());
        }
        MemoryBackend {
            areas: PerArea { config: AreaInMemory::new(), data: AreaInMemory::new(), cache: AreaInMemory::new() },
        }
    }

    /// The File at `path` in `area`, or `None` if there is none.
    pub fn read(&self, area: Area, path: &Path) -> (file: Option<File>)
        ensures
            match file {
                Some(file) => {
                    &&& self.files(area).contains_key(path@)
                    &&& file.path_spec() == path@
                    &&& file.contents_spec() == self.files(area)[path@].0
                    &&& file.stat_spec() == self.files(area)[path@].1
                    &&& file.stat_spec().revision_spec() == content_revision(file.contents_spec())
                },
                None => !self.files(area).contains_key(path@),
            },
    {
        proof {
            use_type_invariant(self);
            self.lemma_area_consistent(area);
        }
        read_in(&self.areas.get(area).files, path)
    }

    /// The Files of `area` each have the Revision of their contents, and their names are apart,
    /// when the Backend's are.
    proof fn lemma_area_consistent(&self, area: Area)
        requires
            self.valid(),
        ensures
            consistent(self.files(area)),
            names_apart(self.files(area).dom()),
    {
    }

    /// The Stat of the File at `path` in `area`, or `None` if there is none.
    pub fn stat(&self, area: Area, path: &Path) -> (stat: Option<Stat>)
        ensures
            match stat {
                Some(stat) => self.files(area).contains_key(path@) && stat == self.files(area)[path@].1,
                None => !self.files(area).contains_key(path@),
            },
    {
        stat_in(&self.areas.get(area).files, path)
    }

    /// The Paths under `prefix` in `area`, in order.
    pub fn list(&self, area: Area, prefix: &Prefix) -> (paths: Vec<Path>)
        ensures
            sorted_names(names_of(paths@)),
            forall|key: Seq<char>|
                #[trigger] names_of(paths@).contains(key) <==> (self.files(area).contains_key(key) && starts_with(
                    key,
                    prefix@,
                )),
    {
        list_in(&self.areas.get(area).files, prefix)
    }

    /// The Prefix Revision of everything under `prefix` in `area`.
    pub fn stat_prefix(&self, area: Area, prefix: &Prefix) -> (taken: Result<PrefixRevision, Error>)
        ensures
            match taken {
                Ok(taken) => {
                    &&& taken@.area == area
                    &&& taken@.prefix == prefix@
                    &&& taken@.files == sorted_of(under_prefix(revisions_in(self.files(area)), prefix@))
                    &&& taken@.hash == xxh3_128_of(encode_files(taken@.files))
                },
                Err(_) => false,
            },
    {
        let files = revisions_under_in(&self.areas.get(area).files, prefix);
        proof {
            lemma_sorted_of(entries_view(files@));
        }
        Ok(PrefixRevision::of(area, prefix.duplicate(), files))
    }

    /// A view of `area` as it stands now, which Commits made afterwards don't change.
    pub fn snapshot(&self, area: Area) -> (snapshot: MemorySnapshot)
        ensures
            snapshot.files() == self.files(area),
    {
        MemorySnapshot { files: copy_files(&self.areas.get(area).files) }
    }

    /// Works out what the Commit changes, then changes it, all at once: a Commit that is refused
    /// changes nothing.
    pub fn commit(&mut self, request: CommitRequest) -> (result: Result<CommitOutcome, Error>)
        ensures
            match result {
                Ok(outcome) => {
                    &&& !any_precondition_fails(request.staged@, revisions_in(old(self).files(request.staged.area)))
                    &&& commit_problem(request.staged@, request.timestamp, revisions_in(old(self).files(request.staged.area))) is None
                    &&& final(self).files(request.staged.area) == after_changes(
                        old(self).files(request.staged.area),
                        commit_changes(request.staged@, request.timestamp, revisions_in(old(self).files(request.staged.area))),
                    )
                    &&& outcome.revisions.map() == written_revisions(
                        expanded_actions(request.staged@, revisions_in(old(self).files(request.staged.area))),
                    )
                    &&& sorted_keys(raw_view(outcome.changes@))
                    &&& to_map(raw_view(outcome.changes@)) == change_kinds(
                        commit_changes(request.staged@, request.timestamp, revisions_in(old(self).files(request.staged.area))),
                    )
                    &&& outcome.observed_before@.len() == 0
                    &&& !outcome.pending
                },
                Err(Error::Conflict { paths }) => {
                    &&& any_precondition_fails(request.staged@, revisions_in(old(self).files(request.staged.area)))
                    &&& sorted_names(names_of(paths@))
                    &&& forall|key: Seq<char>|
                        names_of(paths@).contains(key) <==> conflicts_at(
                            request.staged@,
                            revisions_in(old(self).files(request.staged.area)),
                            key,
                        )
                },
                Err(Error::InvalidPath { path, reason }) => {
                    &&& !any_precondition_fails(request.staged@, revisions_in(old(self).files(request.staged.area)))
                    &&& commit_problem(request.staged@, request.timestamp, revisions_in(old(self).files(request.staged.area)))
                        == Some((path@, reason))
                },
                Err(_) => false,
            },
            result is Err ==> forall|area: Area| #[trigger] final(self).files(area) == old(self).files(area),
            forall|area: Area| names_apart(#[trigger] final(self).files(area).dom()),
            forall|area: Area| area != request.staged.area ==> #[trigger] final(self).files(area) == old(self).files(area),
    {
        proof {
            use_type_invariant(&*self);
            self.lemma_area_consistent(request.staged.area);
        }
        let area = request.staged.area;
        let ghost staged = request.staged@;
        let ghost timestamp = request.timestamp;
        let ghost before = self.files(area);
        let ghost old_areas = self.areas;
        let plan = match request.plan(self.areas.get(area)) {
            Ok(plan) => plan,
            Err(error) => {
                proof {
                    assert forall|other: Area| names_apart(#[trigger] self.files(other).dom()) by {
                        self.lemma_area_consistent(other);
                    }
                }
                return Err(error);
            },
        };
        proof {
            lemma_planned_writes(expanded_actions(staged, revisions_in(before)), timestamp, revisions_in(before));
        }
        let mut areas = PerArea { config: AreaInMemory::new(), data: AreaInMemory::new(), cache: AreaInMemory::new() };
        std::mem::swap(&mut areas, &mut self.areas);
        let held = areas.replace(area, AreaInMemory::new());
        let mut changing = ChangingArea::new(held);
        let outcome = plan.apply(&mut changing);
        let held = changing.into_area();
        proof {
            let revisions = revisions_in(before);
            let changes = commit_changes(staged, timestamp, revisions);
            lemma_consistent_after(before, changes);
            assert(revisions.dom() =~= before.dom());
            lemma_names_stay_apart(revisions, expanded_actions(staged, revisions), timestamp);
            assert(after_changes(before, changes).dom() =~= paths_after(revisions, changes));
        }
        areas.set(area, held);
        proof {
            assert(outcome is Ok);
            assert forall|other: Area| consistent(#[trigger] areas.at(other).held()) && names_apart(areas.at(other).held().dom()) by {
                if other != area {
                    assert(areas.at(other) == old_areas.at(other));
                    match other {
                        Area::Config => {},
                        Area::Data => {},
                        Area::Cache => {},
                    }
                }
            }
            assert(consistent(areas.at(Area::Config).held()) && names_apart(areas.at(Area::Config).held().dom()));
            assert(consistent(areas.at(Area::Data).held()) && names_apart(areas.at(Area::Data).held().dom()));
            assert(consistent(areas.at(Area::Cache).held()) && names_apart(areas.at(Area::Cache).held().dom()));
        }
        self.areas = areas;
        proof {
            assert forall|other: Area| names_apart(#[trigger] self.files(other).dom()) by {
                self.lemma_area_consistent(other);
            }
        }
        match outcome {
            Ok(outcome) => Ok(outcome),
            Err(error) => Err(error),
        }
    }
}

/// One Area's Files as they were when the Snapshot was taken. Nothing can change them.
#[derive(Debug)]
pub struct MemorySnapshot {
    files: PathMap<Stored>,
}

impl MemorySnapshot {
    /// The contents and Stat of each File, by Path.
    pub closed spec fn files(&self) -> Map<Seq<char>, Held> {
        held_in(&self.files)
    }

    /// The File at `path` as it was, or `None` if there was none.
    pub fn read(&self, path: &Path) -> (file: Option<File>)
        ensures
            match file {
                Some(file) => {
                    &&& self.files().contains_key(path@)
                    &&& file.path_spec() == path@
                    &&& file.contents_spec() == self.files()[path@].0
                    &&& file.stat_spec() == self.files()[path@].1
                },
                None => !self.files().contains_key(path@),
            },
    {
        read_in(&self.files, path)
    }

    /// The Stat of the File at `path` as it was, or `None` if there was none.
    pub fn stat(&self, path: &Path) -> (stat: Option<Stat>)
        ensures
            match stat {
                Some(stat) => self.files().contains_key(path@) && stat == self.files()[path@].1,
                None => !self.files().contains_key(path@),
            },
    {
        stat_in(&self.files, path)
    }

    /// The Paths that were under `prefix`, in order.
    pub fn list(&self, prefix: &Prefix) -> (paths: Vec<Path>)
        ensures
            sorted_names(names_of(paths@)),
            forall|key: Seq<char>|
                #[trigger] names_of(paths@).contains(key) <==> (self.files().contains_key(key) && starts_with(
                    key,
                    prefix@,
                )),
    {
        list_in(&self.files, prefix)
    }
}

// ---------------------------------------------------------------------------------------------
// What a successful Commit leaves in an Area.
/// What an Area holding `files` holds after a Commit of `staged` at `timestamp` succeeds.
pub open spec fn committed_files(
    files: Map<Seq<char>, Held>,
    staged: StagedView,
    timestamp: Timestamp,
) -> Map<Seq<char>, Held> {
    after_changes(files, commit_changes(staged, timestamp, revisions_in(files)))
}

/// Reading a File a Commit wrote gives its new contents, with the Commit's time as its
/// last-modified time; but a write that wouldn't change the File's contents is left out, and the
/// File keeps its time.
pub proof fn law_read_after_write(
    files: Map<Seq<char>, Held>,
    staged: StagedView,
    timestamp: Timestamp,
    key: Seq<char>,
)
    requires
        staged.actions.contains_key(key),
        staged.actions[key] is Write,
    ensures
        committed_files(files, staged, timestamp).contains_key(key),
        committed_files(files, staged, timestamp)[key].1.revision_spec() == content_revision(
            staged.actions[key]->Write_0,
        ),
        if files.contains_key(key) && files[key].1.revision_spec() == content_revision(
            staged.actions[key]->Write_0,
        ) {
            committed_files(files, staged, timestamp)[key] == files[key]
        } else {
            committed_files(files, staged, timestamp)[key] == (
                staged.actions[key]->Write_0,
                stat_of(timestamp, content_revision(staged.actions[key]->Write_0)),
            )
        },
{
    let revisions = revisions_in(files);
    let actions = expanded_actions(staged, revisions);
    let contents = staged.actions[key]->Write_0;
    assert(actions[key] == staged.actions[key]);
    lemma_stat_of(timestamp, content_revision(contents));
}

/// A File a Commit deleted is gone.
pub proof fn law_read_after_delete(
    files: Map<Seq<char>, Held>,
    staged: StagedView,
    timestamp: Timestamp,
    key: Seq<char>,
)
    requires
        staged.actions.contains_key(key),
        staged.actions[key] is Delete,
    ensures
        !committed_files(files, staged, timestamp).contains_key(key),
{
    let revisions = revisions_in(files);
    let actions = expanded_actions(staged, revisions);
    assert(actions[key] == staged.actions[key]);
}

/// Every File under a Prefix a Commit deleted is gone, unless the Staging wrote it afterwards.
pub proof fn law_read_after_prefix_delete(
    files: Map<Seq<char>, Held>,
    staged: StagedView,
    timestamp: Timestamp,
    key: Seq<char>,
    at: int,
)
    requires
        0 <= at < staged.prefix_deletes.len(),
        starts_with(key, staged.prefix_deletes[at]),
        !staged.actions.contains_key(key),
    ensures
        !committed_files(files, staged, timestamp).contains_key(key),
{
    let revisions = revisions_in(files);
    let actions = expanded_actions(staged, revisions);
    if files.contains_key(key) {
        assert(covered_by(key, staged.prefix_deletes, staged.prefix_deletes.len() as int));
        assert(actions[key] == ActionView::Delete);
    }
}

/// A Commit leaves every File it has nothing staged for as it was.
pub proof fn law_untouched_files_stay(
    files: Map<Seq<char>, Held>,
    staged: StagedView,
    timestamp: Timestamp,
    key: Seq<char>,
)
    requires
        !staged.actions.contains_key(key),
        forall|at: int| 0 <= at < staged.prefix_deletes.len() ==> !starts_with(key, #[trigger] staged.prefix_deletes[at]),
    ensures
        committed_files(files, staged, timestamp).contains_key(key) == files.contains_key(key),
        files.contains_key(key) ==> committed_files(files, staged, timestamp)[key] == files[key],
{
    let revisions = revisions_in(files);
    let actions = expanded_actions(staged, revisions);
    assert(!actions.contains_key(key));
}

} // verus!
