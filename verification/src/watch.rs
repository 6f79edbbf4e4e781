//! What the filesystem watcher decides: which Area and which Path each event names, what to do for
//! each Area once a burst of events has settled, which Files to look at again, and when a burst
//! has settled.
//!
//! Events say which names something happened to, not what. So for each name that is a Path, the
//! watcher compares the File as reads through tidings see it with what the Change feed was last
//! told of it ([`Reported`]), and a name that is or was a directory with the Files reported under
//! it. Names that aren't Paths are dropped, which drops `.tidings/` and tidings' temporary files
//! too. If the watcher reports an error, or that it lost track of events, the Areas it concerns
//! get a Resync, and if an Area's root is removed it is made and watched again.

use vstd::prelude::*;

use crate::area::{Area, PerArea};
use crate::change::{ChangeKind, Origin, RawChange};
use crate::commit::{AreaState, Observed, raw_view, under_prefix};
use crate::error::Error;
use crate::path::{Path, is_path, is_temporary_file_name, is_temporary_name, same_chars};
use crate::path_map::{PathMap, entries_view, to_map};
use crate::prefix::{Prefix, starts_with};
use crate::order::chars_lt;
use crate::reported::{Reported, caught_up, looked_at_for, names_in, seen_changes};
use crate::revision::{Revision, names_of};
use crate::sorted::{has_key, keys_of, sorted_keys, sorted_names};
use crate::text::chars_of;

verus! {

/// The journal's name under an Area's root.
pub open spec fn journal_name() -> Seq<char> {
    ".tidings/journal"@
}

/// Where a name that an event named is, as one Area's watch sees it.
#[derive(Debug)]
pub enum Located {
    /// Not under the Area's root.
    Elsewhere,
    /// The Area's root itself.
    Root,
    /// A name under the root: its segments, joined with `/`, each valid Unicode.
    Name(String),
    /// A name under the root with a segment that isn't valid Unicode.
    Unreadable,
}

/// What a burst of events holds for one Area.
#[derive(Debug)]
pub struct Seen {
    /// The names under the root, that are Paths, that events named.
    pub names: PathMap<()>,
    /// Whether any event was in the Area, even for names that aren't Paths.
    pub touched: bool,
    /// Whether the journal had events, and has settled since.
    pub journal: bool,
    /// Whether the root was removed or renamed away.
    pub root_gone: bool,
    /// Whether the watcher reported an error, or that it lost track of events, for the Area.
    pub missed: bool,
}

/// What the watcher does for an Area once a burst has settled.
#[derive(Debug, Clone, Copy, PartialEq, Eq, Structural)]
pub enum Look {
    /// Nothing happened in it.
    Nothing,
    /// Its root was removed or renamed away: make it and watch it again, list it, and Resync it.
    WatchAgain,
    /// Changes to it may have been missed: list it again, and Resync it.
    ListAgain,
    /// Compare the names events named with what was reported.
    Compare,
}

impl Seen {
    /// Nothing seen.
    pub fn new() -> (seen: Seen)
        ensures
            seen.names.map().dom().is_empty(),
            !seen.touched && !seen.journal && !seen.root_gone && !seen.missed,
    {
        let names = PathMap::new();
        proof {
            assert(names.map().dom() =~= Set::<Seq<char>>::empty());
        }
        Seen { names, touched: false, journal: false, root_gone: false, missed: false }
    }

    /// Adds what an event naming `located` says, where `gone` says whether the event can mean
    /// that what it names is gone: a name that is a Path is looked at, the journal's name says its
    /// Commit's Files are to be looked at, and other names are dropped.
    pub fn locate(&mut self, located: &Located, gone: bool)
        ensures
            match located {
                Located::Elsewhere => *final(self) == *old(self),
                Located::Root => {
                    &&& final(self).touched
                    &&& final(self).root_gone == (old(self).root_gone || gone)
                    &&& final(self).names == old(self).names
                    &&& final(self).journal == old(self).journal
                    &&& final(self).missed == old(self).missed
                },
                Located::Name(name) => {
                    &&& final(self).touched
                    &&& final(self).names.map() == if is_path(name@) {
                        old(self).names.map().insert(name@, ())
                    } else {
                        old(self).names.map()
                    }
                    &&& final(self).journal == (old(self).journal || (!is_path(name@) && name@ == journal_name()))
                    &&& final(self).root_gone == old(self).root_gone
                    &&& final(self).missed == old(self).missed
                },
                Located::Unreadable => {
                    &&& final(self).touched
                    &&& final(self).names == old(self).names
                    &&& final(self).journal == old(self).journal
                    &&& final(self).root_gone == old(self).root_gone
                    &&& final(self).missed == old(self).missed
                },
            },
    {
        match located {
            Located::Elsewhere => {},
            Located::Root => {
                self.touched = true;
                self.root_gone = self.root_gone || gone;
            },
            Located::Name(name) => {
                self.touched = true;
                match Path::new(name.as_str()) {
                    Ok(path) => {
                        self.names.insert(path, ());
                    },
                    Err(_) => {
                        let journal = chars_of(".tidings/journal");
                        if same_chars(&chars_of(name.as_str()), &journal) {
                            self.journal = true;
                        }
                    },
                }
            },
            Located::Unreadable => {
                self.touched = true;
            },
        }
    }

    /// Adds a Path symlinked to a file an event named: it is looked at.
    pub fn linked(&mut self, path: Path)
        ensures
            final(self).touched,
            final(self).names.map() == old(self).names.map().insert(path@, ()),
            final(self).journal == old(self).journal,
            final(self).root_gone == old(self).root_gone,
            final(self).missed == old(self).missed,
    {
        self.touched = true;
        self.names.insert(path, ());
    }

    /// What the watcher does for the Area once the burst has settled: an Area whose root went is
    /// made and watched again, one that may have missed Changes is listed again, and one that
    /// events touched is compared.
    pub fn look(&self) -> (look: Look)
        ensures
            look == if self.root_gone {
                Look::WatchAgain
            } else if self.missed {
                Look::ListAgain
            } else if self.touched {
                Look::Compare
            } else {
                Look::Nothing
            },
    {
        if self.root_gone {
            Look::WatchAgain
        } else if self.missed {
            Look::ListAgain
        } else if self.touched {
            Look::Compare
        } else {
            Look::Nothing
        }
    }
}

/// Marks each Area as having missed events, where an error or a lost track of events named a
/// path in it, as `located` holds, for each Area, what those paths are there; or every Area, if
/// they are in none.
pub fn mark_missed(seen: &mut PerArea<Seen>, located: &PerArea<Seen>)
    ensures
        forall|area: Area| {
            &&& #[trigger] final(seen).at(area).missed == (old(seen).at(area).missed || located.at(area).touched || !(
            located.config.touched || located.data.touched || located.cache.touched))
            &&& final(seen).at(area).names == old(seen).at(area).names
            &&& final(seen).at(area).touched == old(seen).at(area).touched
            &&& final(seen).at(area).journal == old(seen).at(area).journal
            &&& final(seen).at(area).root_gone == old(seen).at(area).root_gone
        },
{
    let any = located.config.touched || located.data.touched || located.cache.touched;
    if located.config.touched || !any {
        seen.config.missed = true;
    }
    if located.data.touched || !any {
        seen.data.missed = true;
    }
    if located.cache.touched || !any {
        seen.cache.missed = true;
    }
}

/// What comparing an Area found, as the Change feed gets it: the Changes, all external, if there
/// are any; or, if comparing failed, that Changes may have been missed, and the Area is to be
/// listed again. The second value says whether it is.
pub fn observed_of(compared: Result<Vec<RawChange>, Error>) -> (observed: (Option<Observed>, bool))
    ensures
        match compared {
            Ok(changes) => observed.1 == false && if changes.len() == 0 {
                observed.0 is None
            } else {
                observed.0 == Some(Observed::Changes { origin: Origin::External, changes })
            },
            Err(_) => observed.1 == true && observed.0 == Some(Observed::Missed),
        },
{
    match compared {
        Ok(changes) => if changes.len() == 0 {
            (None, false)
        } else {
            (Some(Observed::Changes { origin: Origin::External, changes }), false)
        },
        Err(_) => (Some(Observed::Missed), true),
    }
}

/// What the Change feed is told of each File once each of `names` is looked at in turn, in an
/// Area that holds `now`.
pub open spec fn caught_up_all(
    reported: Map<Seq<char>, Option<Revision>>,
    now: Map<Seq<char>, Revision>,
    names: Seq<Seq<char>>,
) -> Map<Seq<char>, Option<Revision>>
    decreases names.len(),
{
    if names.len() == 0 {
        reported
    } else {
        caught_up(caught_up_all(reported, now, names.drop_last()), now, names.last())
    }
}

/// The Changes found looking at each of `names` in turn: for a File found more than once, the
/// last.
pub open spec fn seen_all(
    reported: Map<Seq<char>, Option<Revision>>,
    now: Map<Seq<char>, Revision>,
    names: Seq<Seq<char>>,
) -> Map<Seq<char>, ChangeKind>
    decreases names.len(),
{
    if names.len() == 0 {
        Map::empty()
    } else {
        seen_all(reported, now, names.drop_last()).union_prefer_right(
            seen_changes(caught_up_all(reported, now, names.drop_last()), now, names.last()),
        )
    }
}

/// Whether looking at each of `names` in turn looks at `key`.
pub open spec fn looked_at_all(
    reported: Map<Seq<char>, Option<Revision>>,
    now: Map<Seq<char>, Revision>,
    names: Seq<Seq<char>>,
    key: Seq<char>,
) -> bool
    decreases names.len(),
{
    if names.len() == 0 {
        false
    } else {
        looked_at_all(reported, now, names.drop_last(), key) || looked_at_for(
            caught_up_all(reported, now, names.drop_last()),
            now,
            names.last(),
            key,
        )
    }
}

/// The names of `keys` that aren't in `names`, in order.
pub open spec fn not_in(keys: Seq<Seq<char>>, names: Map<Seq<char>, ()>) -> Seq<Seq<char>>
    decreases keys.len(),
{
    if keys.len() == 0 {
        Seq::empty()
    } else if names.contains_key(keys.last()) {
        not_in(keys.drop_last(), names)
    } else {
        not_in(keys.drop_last(), names).push(keys.last())
    }
}

/// The names comparing looks at, in turn: those events named, in order; then, so that a Commit in
/// the journal is reported whole, the other Paths of that Commit, if its journal had events, or if
/// one of them was looked at.
pub open spec fn compared_names(
    reported: Map<Seq<char>, Option<Revision>>,
    now: Map<Seq<char>, Revision>,
    named: Seq<(Seq<char>, ())>,
    in_journal: Seq<(Seq<char>, ())>,
    journal: bool,
) -> Seq<Seq<char>> {
    let first = keys_of(named);
    if journal || exists|key: Seq<char>|
        #[trigger] to_map(in_journal).contains_key(key) && looked_at_all(reported, now, first, key) {
        first + not_in(keys_of(in_journal), to_map(named))
    } else {
        first
    }
}

/// One more name to look at.
proof fn lemma_one_more(
    reported: Map<Seq<char>, Option<Revision>>,
    now: Map<Seq<char>, Revision>,
    names: Seq<Seq<char>>,
    name: Seq<char>,
)
    ensures
        caught_up_all(reported, now, names.push(name)) == caught_up(caught_up_all(reported, now, names), now, name),
        seen_all(reported, now, names.push(name)) == seen_all(reported, now, names).union_prefer_right(
            seen_changes(caught_up_all(reported, now, names), now, name),
        ),
        forall|key: Seq<char>| #[trigger] looked_at_all(reported, now, names.push(name), key) == (looked_at_all(
            reported,
            now,
            names,
            key,
        ) || looked_at_for(caught_up_all(reported, now, names), now, name, key)),
{
    assert(names.push(name).drop_last() =~= names);
}

/// The names in `paths` are those before `from` and those from it on.
proof fn lemma_names_in_split(paths: Seq<Path>, from: int)
    requires
        0 <= from <= paths.len(),
    ensures
        forall|key: Seq<char>| #[trigger] names_in(paths, 0).contains(key) == (names_in(paths.subrange(0, from), 0).contains(key)
            || names_in(paths, from).contains(key)),
{
    assert forall|key: Seq<char>| #[trigger] names_in(paths, 0).contains(key) == (names_in(paths.subrange(0, from), 0).contains(key)
        || names_in(paths, from).contains(key)) by {
        if names_in(paths, 0).contains(key) {
            let i = choose|i: int| 0 <= i < paths.len() && #[trigger] paths[i]@ == key;
            if i < from {
                assert(paths.subrange(0, from)[i]@ == key);
            }
        }
        if names_in(paths.subrange(0, from), 0).contains(key) {
            let i = choose|i: int| 0 <= i < paths.subrange(0, from).len() && #[trigger] paths.subrange(0, from)[i]@ == key;
            assert(paths[i]@ == key);
        }
    }
}

/// Looks at `name` once more, as [`compare`] does for each name.
fn look_at(
    reported: &mut Reported,
    finished: &impl AreaState,
    name: &Path,
    changes: &mut PathMap<ChangeKind>,
    looked_at: &mut Vec<Path>,
    start: Ghost<Map<Seq<char>, Option<Revision>>>,
    done: Ghost<Seq<Seq<char>>>,
) -> (result: Result<(), Error>)
    requires
        old(reported)@ == caught_up_all(start@, finished.revisions_spec(), done@),
        old(changes).map() == seen_all(start@, finished.revisions_spec(), done@),
        forall|key: Seq<char>| #[trigger] names_in(old(looked_at)@, 0).contains(key) == looked_at_all(
            start@,
            finished.revisions_spec(),
            done@,
            key,
        ),
    ensures
        result is Ok ==> {
            &&& final(reported)@ == caught_up_all(start@, finished.revisions_spec(), done@.push(name@))
            &&& final(changes).map() == seen_all(start@, finished.revisions_spec(), done@.push(name@))
            &&& forall|key: Seq<char>| #[trigger] names_in(final(looked_at)@, 0).contains(key) == looked_at_all(
                start@,
                finished.revisions_spec(),
                done@.push(name@),
                key,
            )
        },
        result matches Err(error) ==> error is Backend,
        finished.infallible() ==> result is Ok,
{
    let ghost count = looked_at@.len() as int;
    let result = reported.catch_up(finished, name, changes, looked_at);
    proof {
        lemma_one_more(start@, finished.revisions_spec(), done@, name@);
        if result is Ok {
            lemma_names_in_split(looked_at@, count);
        }
    }
    result
}

/// What changed in an Area that holds `finished` now, at the names events named (`named`), since
/// what was `reported`, which it brings up to date. So that a Commit in the journal is reported
/// whole, its Paths (`in_journal`) are looked at too if its journal had events (`journal`), or if
/// one of them is looked at. Gives the Changes, in order of Path, and the Paths looked at, whose
/// symlinks the watcher then follows.
pub fn compare(
    reported: &mut Reported,
    finished: &impl AreaState,
    named: &PathMap<()>,
    in_journal: &PathMap<()>,
    journal: bool,
) -> (result: Result<(Vec<RawChange>, Vec<Path>), Error>)
    ensures
        result matches Ok((changes, looked_at)) ==> {
            let now = finished.revisions_spec();
            let names = compared_names(old(reported)@, now, named@, in_journal@, journal);
            &&& final(reported)@ == caught_up_all(old(reported)@, now, names)
            &&& sorted_keys(raw_view(changes@))
            &&& to_map(raw_view(changes@)) == seen_all(old(reported)@, now, names)
            &&& forall|key: Seq<char>| #[trigger] names_in(looked_at@, 0).contains(key) == looked_at_all(
                old(reported)@,
                now,
                names,
                key,
            )
        },
        result matches Err(error) ==> error is Backend,
        finished.infallible() ==> result is Ok,
{
    let ghost start = reported@;
    let ghost now = finished.revisions_spec();
    let ghost first = keys_of(named@);
    let mut changes: PathMap<ChangeKind> = PathMap::new();
    let mut looked_at: Vec<Path> = Vec::new();
    proof {
        assert(changes.map() =~= Map::<Seq<char>, ChangeKind>::empty());
        assert forall|key: Seq<char>| #[trigger] names_in(looked_at@, 0).contains(key) == looked_at_all(
            start,
            now,
            Seq::empty(),
            key,
        ) by {}
    }
    let mut i: usize = 0;
    while i < named.len()
        invariant
            i <= named@.len(),
            first == keys_of(named@),
            now == finished.revisions_spec(),
            reported@ == caught_up_all(start, now, first.subrange(0, i as int)),
            changes.map() == seen_all(start, now, first.subrange(0, i as int)),
            forall|key: Seq<char>| #[trigger] names_in(looked_at@, 0).contains(key) == looked_at_all(
                start,
                now,
                first.subrange(0, i as int),
                key,
            ),
        decreases named@.len() - i,
    {
        let name = &named.entry(i).0;
        proof {
            assert(first.subrange(0, i as int).push(name@) =~= first.subrange(0, i + 1));
        }
        match look_at(reported, finished, name, &mut changes, &mut looked_at, Ghost(start), Ghost(first.subrange(0, i as int))) {
            Ok(()) => {},
            Err(error) => return Err(error),
        }
        i = i + 1;
    }
    proof {
        assert(first.subrange(0, named@.len() as int) =~= first);
    }
    // Whether a Path of the Commit in the journal was looked at.
    let mut again = journal;
    let mut l: usize = 0;
    while l < looked_at.len()
        invariant
            l <= looked_at@.len(),
            again == (journal || exists|x: int| 0 <= x < l && #[trigger] to_map(in_journal@).contains_key(looked_at@[x]@)),
        decreases looked_at@.len() - l,
    {
        if in_journal.get(&looked_at[l]).is_some() {
            again = true;
        }
        proof {
            if again && !journal && !(exists|x: int| 0 <= x < l && #[trigger] to_map(in_journal@).contains_key(looked_at@[x]@)) {
                assert(to_map(in_journal@).contains_key(looked_at@[l as int]@));
            }
        }
        l = l + 1;
    }
    proof {
        if again && !journal {
            let x = choose|x: int| 0 <= x < looked_at@.len() && #[trigger] to_map(in_journal@).contains_key(looked_at@[x]@);
            let key = looked_at@[x]@;
            assert(names_in(looked_at@, 0).contains(key));
            assert(to_map(in_journal@).contains_key(key) && looked_at_all(start, now, first, key));
        }
        if !again && (exists|key: Seq<char>|
            #[trigger] to_map(in_journal@).contains_key(key) && looked_at_all(start, now, first, key)) {
            let key = choose|key: Seq<char>| #[trigger] to_map(in_journal@).contains_key(key) && looked_at_all(start, now, first, key);
            assert(names_in(looked_at@, 0).contains(key));
            let x = choose|x: int| 0 <= x < looked_at@.len() && #[trigger] looked_at@[x]@ == key;
            assert(to_map(in_journal@).contains_key(looked_at@[x]@));
        }
    }
    if again {
        let ghost more = keys_of(in_journal@);
        let mut j: usize = 0;
        while j < in_journal.len()
            invariant
                j <= in_journal@.len(),
                more == keys_of(in_journal@),
                first == keys_of(named@),
                now == finished.revisions_spec(),
                reported@ == caught_up_all(start, now, first + not_in(more.subrange(0, j as int), to_map(named@))),
                changes.map() == seen_all(start, now, first + not_in(more.subrange(0, j as int), to_map(named@))),
                forall|key: Seq<char>| #[trigger] names_in(looked_at@, 0).contains(key) == looked_at_all(
                    start,
                    now,
                    first + not_in(more.subrange(0, j as int), to_map(named@)),
                    key,
                ),
            decreases in_journal@.len() - j,
        {
            let name = &in_journal.entry(j).0;
            let ghost done = first + not_in(more.subrange(0, j as int), to_map(named@));
            proof {
                assert(more.subrange(0, j + 1).drop_last() =~= more.subrange(0, j as int));
            }
            if named.get(name).is_none() {
                proof {
                    assert(done.push(name@) =~= first + not_in(more.subrange(0, j + 1), to_map(named@)));
                }
                match look_at(reported, finished, name, &mut changes, &mut looked_at, Ghost(start), Ghost(done)) {
                    Ok(()) => {},
                    Err(error) => return Err(error),
                }
            }
            j = j + 1;
        }
        proof {
            assert(more.subrange(0, in_journal@.len() as int) =~= more);
        }
    }
    let entries = changes.into_entries();
    let mut found: Vec<RawChange> = Vec::new();
    let mut c: usize = 0;
    let ghost shown = entries_view(entries@);
    while c < entries.len()
        invariant
            c <= entries.len(),
            shown == entries_view(entries@),
            raw_view(found@) == shown.subrange(0, c as int),
        decreases entries.len() - c,
    {
        let ghost before = found@;
        found.push(RawChange { path: entries[c].0.duplicate(), kind: entries[c].1 });
        proof {
            assert(raw_view(before).len() == c);
            assert(found@.len() == c + 1);
            assert(entries@[c as int].0@ == shown[c as int].0);
            assert forall|k: int| 0 <= k < c + 1 implies #[trigger] raw_view(found@)[k] == shown.subrange(0, c + 1)[k] by {
                if k < c {
                    assert(found@[k] == before[k]);
                    assert(raw_view(before)[k] == shown.subrange(0, c as int)[k]);
                    assert(raw_view(found@)[k] == (found@[k].path@, found@[k].kind));
                    assert(raw_view(before)[k] == (before[k].path@, before[k].kind));
                } else {
                    assert(raw_view(found@)[k] == (found@[k].path@, found@[k].kind));
                }
            }
            assert(raw_view(found@) =~= shown.subrange(0, c + 1));
        }
        c = c + 1;
    }
    proof {
        assert(shown.subrange(0, entries.len() as int) =~= shown);
    }
    Ok((found, looked_at))
}

/// What the Change feed is taken to have been told of an Area that holds `now`, once it is listed:
/// each File there, with no Revision known, except the Files of the Commit in the journal
/// (`in_journal`), which are read, so that finishing it later gives nothing.
pub open spec fn listed(now: Map<Seq<char>, Revision>, in_journal: Map<Seq<char>, ()>) -> Map<Seq<char>, Option<Revision>> {
    Map::new(
        |key: Seq<char>| now.contains_key(key),
        |key: Seq<char>|
            if in_journal.contains_key(key) {
                Some(now[key])
            } else {
                None
            },
    )
}

/// Lists an Area that holds `finished`, as [`listed`] says, for the Paths of the Commit in its
/// journal, `in_journal`.
pub fn listing(finished: &impl AreaState, in_journal: &PathMap<()>) -> (result: Result<PathMap<Option<Revision>>, Error>)
    ensures
        result matches Ok(files) ==> files.map() == listed(finished.revisions_spec(), in_journal.map()),
        result matches Err(error) ==> error is Backend,
        finished.infallible() ==> result is Ok,
{
    let ghost now = finished.revisions_spec();
    let everything = Prefix::everything();
    let paths = match finished.paths_under(&everything) {
        Ok(paths) => paths,
        Err(error) => return Err(error),
    };
    let ghost names = names_of(paths@);
    proof {
        assert forall|key: Seq<char>| names.contains(key) <==> now.contains_key(key) by {
            assert(key.subrange(0, 0) =~= Seq::<char>::empty());
            assert(starts_with(key, Seq::<char>::empty()));
            assert(under_prefix(now, everything@).contains_key(key) == now.contains_key(key));
        }
    }
    let mut files: PathMap<Option<Revision>> = PathMap::new();
    let mut i: usize = 0;
    while i < paths.len()
        invariant
            i <= paths.len(),
            names == names_of(paths@),
            sorted_names(names),
            files@.len() == i,
            forall|x: int| 0 <= x < i ==> (#[trigger] files@[x]).0 == names[x] && files@[x].1 is None,
        decreases paths.len() - i,
    {
        proof {
            assert forall|x: int| 0 <= x < files@.len() implies chars_lt(#[trigger] files@[x].0, paths@[i as int]@) by {
                assert(names[x] == files@[x].0);
                assert(names[i as int] == paths@[i as int]@);
            }
        }
        files.push_last(paths[i].duplicate(), None);
        i = i + 1;
    }
    files.sorted();
    proof {
        assert forall|key: Seq<char>| files.map().contains_key(key) <==> now.contains_key(key) by {
            if has_key(files@, key) {
                let x = choose|x: int| 0 <= x < files@.len() && #[trigger] files@[x].0 == key;
                assert(names[x] == key);
            }
            if names.contains(key) {
                let x = choose|x: int| 0 <= x < names.len() && names[x] == key;
                assert(files@[x].0 == key);
            }
        }
        assert forall|key: Seq<char>| files.map().contains_key(key) implies files.map()[key] is None by {
            let x = crate::sorted::index_of_key(files@, key);
            assert(0 <= x < files@.len());
        }
    }
    let mut j: usize = 0;
    while j < in_journal.len()
        invariant
            j <= in_journal@.len(),
            now == finished.revisions_spec(),
            forall|key: Seq<char>| #[trigger] files.map().contains_key(key) <==> now.contains_key(key),
            forall|key: Seq<char>| #[trigger] files.map().contains_key(key) ==> files.map()[key] == if has_key(
                in_journal@.subrange(0, j as int),
                key,
            ) {
                Some(now[key])
            } else {
                None::<Revision>
            },
        decreases in_journal@.len() - j,
    {
        let path = &in_journal.entry(j).0;
        match finished.revision(path) {
            Ok(Some(revision)) => {
                files.insert(path.duplicate(), Some(revision));
            },
            Ok(None) => {},
            Err(error) => return Err(error),
        }
        proof {
            assert forall|key: Seq<char>| #[trigger] has_key(in_journal@.subrange(0, j + 1), key) == (has_key(
                in_journal@.subrange(0, j as int),
                key,
            ) || key == in_journal@[j as int].0) by {
                if has_key(in_journal@.subrange(0, j + 1), key) {
                    let x = choose|x: int| 0 <= x < j + 1 && #[trigger] in_journal@.subrange(0, j + 1)[x].0 == key;
                    if x < j {
                        assert(in_journal@.subrange(0, j as int)[x].0 == key);
                    }
                }
                if has_key(in_journal@.subrange(0, j as int), key) {
                    let x = choose|x: int| 0 <= x < j && #[trigger] in_journal@.subrange(0, j as int)[x].0 == key;
                    assert(in_journal@.subrange(0, j + 1)[x].0 == key);
                }
                if key == in_journal@[j as int].0 {
                    assert(in_journal@.subrange(0, j + 1)[j as int].0 == key);
                }
            }
        }
        j = j + 1;
    }
    proof {
        assert(in_journal@.subrange(0, in_journal@.len() as int) =~= in_journal@);
        assert(files.map() =~= listed(now, in_journal.map()));
    }
    Ok(files)
}

/// `at`, or the latest instant there is if it is later.
pub open spec fn capped(at: int) -> u64 {
    if at > u64::MAX {
        u64::MAX
    } else {
        at as u64
    }
}

/// The earlier of two instants.
pub open spec fn earlier(a: u64, b: u64) -> u64 {
    if a <= b {
        a
    } else {
        b
    }
}

/// What comes into a burst that is settling.
#[derive(Debug, Clone, Copy, PartialEq, Eq, Structural)]
pub enum Arrival {
    /// The debouncer reported events, or errors.
    Events,
    /// A name was removed or renamed away.
    Removal,
    /// The first name removed or renamed away has settled.
    RemovalSettled,
}

/// What the watcher does next while a burst settles.
#[derive(Debug, Clone, Copy, PartialEq, Eq, Structural)]
pub enum Settle {
    /// Wait for more until this instant.
    WaitUntil(u64),
    /// Wait for the Commits being applied to the Areas: the burst holds events of one slower than
    /// the window, whose renames settle later.
    WaitForCommits,
    /// The burst has settled.
    Ended,
}

/// A burst of events settling: the watcher gathers events until none has come for half a
/// debounce window, up to four windows in all, so that the names of one Commit, which settle a
/// moment apart, are looked at together. Instants are counted in any unit, from any start, and so
/// is the window.
#[derive(Debug)]
pub struct Settling {
    /// The debounce window.
    pub window: u64,
    /// When it settles if nothing more comes.
    pub until: u64,
    /// When it ends whatever comes.
    pub latest: u64,
    /// Whether it waited for Commits once it was late already.
    pub waited_late: bool,
}

/// How long after events a burst settles: half a window.
pub open spec fn settle_time(window: u64) -> int {
    (window / 2) as int
}

/// How long after a removal a burst settles: a window and a quarter.
pub open spec fn removal_time(window: u64) -> int {
    window + (window / 4) as int
}

impl Settling {
    /// A burst that starts at `now` with `arrival`: it ends four windows later at the latest.
    pub fn start(window: u64, now: u64, arrival: Arrival) -> (settling: Settling)
        ensures
            settling.window == window,
            settling.until == match arrival {
                Arrival::Events => capped(now + settle_time(window)),
                Arrival::Removal => capped(now + removal_time(window)),
                Arrival::RemovalSettled => now,
            },
            settling.latest == capped(now + if window > u64::MAX / 4 {
                u64::MAX as int
            } else {
                4 * window
            }),
            !settling.waited_late,
    {
        let until = match arrival {
            Arrival::Events => now.saturating_add(window / 2),
            Arrival::Removal => now.saturating_add(window.saturating_add(window / 4)),
            Arrival::RemovalSettled => now,
        };
        let four = if window > u64::MAX / 4 {
            u64::MAX
        } else {
            window * 4
        };
        Settling { window, until, latest: now.saturating_add(four), waited_late: false }
    }

    /// More events came, at `now`: it settles no sooner than half a window from now.
    pub fn events(&mut self, now: u64)
        ensures
            final(self).until == if old(self).until >= capped(now + settle_time(old(self).window)) {
                old(self).until
            } else {
                capped(now + settle_time(old(self).window))
            },
            final(self).window == old(self).window,
            final(self).latest == old(self).latest,
            final(self).waited_late == old(self).waited_late,
    {
        let at = now.saturating_add(self.window / 2);
        if at > self.until {
            self.until = at;
        }
    }

    /// A name was removed at `now`: it settles no sooner than a window and a quarter from now.
    pub fn removal(&mut self, now: u64)
        ensures
            final(self).until == if old(self).until >= capped(now + removal_time(old(self).window)) {
                old(self).until
            } else {
                capped(now + removal_time(old(self).window))
            },
            final(self).window == old(self).window,
            final(self).latest == old(self).latest,
            final(self).waited_late == old(self).waited_late,
    {
        let at = now.saturating_add(self.window.saturating_add(self.window / 4));
        if at > self.until {
            self.until = at;
        }
    }

    /// What comes next at `now`, where `slow` says whether the events that came since the last
    /// time this was asked include one of tidings' temporary files or its journal: a Commit slower
    /// than the window, whose Files' renames settle later. That is waited for once, even past the
    /// four windows, but only once more once it is late already.
    pub fn next(&mut self, now: u64, slow: bool) -> (settle: Settle)
        ensures
            settle == if now < earlier(old(self).until, old(self).latest) {
                Settle::WaitUntil(earlier(old(self).until, old(self).latest))
            } else if !slow || old(self).waited_late {
                Settle::Ended
            } else {
                Settle::WaitForCommits
            },
            final(self).waited_late == if settle == Settle::WaitForCommits {
                now >= old(self).latest
            } else {
                old(self).waited_late
            },
            final(self).window == old(self).window,
            final(self).until == old(self).until,
            final(self).latest == old(self).latest,
    {
        let deadline = if self.until <= self.latest {
            self.until
        } else {
            self.latest
        };
        if now < deadline {
            Settle::WaitUntil(deadline)
        } else if !slow || self.waited_late {
            Settle::Ended
        } else {
            self.waited_late = now >= self.latest;
            Settle::WaitForCommits
        }
    }

    /// The Commits were waited for, until `now`: their renames settle a window and a quarter from
    /// now, and the burst waits for them even past its latest end.
    pub fn waited(&mut self, now: u64)
        ensures
            final(self).until == capped(now + removal_time(old(self).window)),
            final(self).latest == if old(self).latest >= final(self).until {
                old(self).latest
            } else {
                final(self).until
            },
            final(self).window == old(self).window,
            final(self).waited_late == old(self).waited_late,
    {
        self.until = now.saturating_add(self.window.saturating_add(self.window / 4));
        if self.until > self.latest {
            self.latest = self.until;
        }
    }
}

/// Whether an event for a file named `name`, or for the journal (`journal`), is of a Commit
/// slower than the window: one of tidings' temporary files, or its journal, has events that settle
/// before the Commit is applied only then.
pub fn names_a_slow_commit(name: &str, journal: bool) -> (slow: bool)
    ensures
        slow == (journal || is_temporary_name(name@)),
{
    journal || is_temporary_file_name(&chars_of(name))
}

/// What the watcher reports it takes as reported: looking at a name again, with nothing changed
/// since, finds no Change.
pub proof fn law_looking_again_finds_nothing(
    reported: Map<Seq<char>, Option<Revision>>,
    now: Map<Seq<char>, Revision>,
    name: Seq<char>,
)
    ensures
        seen_changes(caught_up(reported, now, name), now, name) == Map::<Seq<char>, ChangeKind>::empty(),
{
    assert(seen_changes(caught_up(reported, now, name), now, name) =~= Map::<Seq<char>, ChangeKind>::empty());
}

/// What an event from the platform's watcher says happened, as far as the watcher cares.
#[derive(Debug, Clone, Copy, PartialEq, Eq, Structural)]
pub enum EventSort {
    /// A File was opened, read or closed.
    Access,
    /// A File's permissions or times changed.
    Metadata,
    /// A name was renamed, to or away.
    Renamed,
    /// A name was removed.
    Removed,
    /// Anything else: made, written, truncated, or not known.
    Other,
}

/// Whether an event of `sort` can mean that a File's contents changed. Opening, reading or
/// closing a File can't, nor changing its permissions or times: writing to it or truncating it
/// gives an event of its own.
pub fn may_change_contents(sort: EventSort) -> (may: bool)
    ensures
        may == !(sort == EventSort::Access || sort == EventSort::Metadata),
{
    match sort {
        EventSort::Access | EventSort::Metadata => false,
        _ => true,
    }
}

/// Whether an event of `sort` can mean that what it names is gone: removed or renamed away.
pub fn may_be_gone(sort: EventSort) -> (may: bool)
    ensures
        may == (sort == EventSort::Removed || sort == EventSort::Renamed),
{
    match sort {
        EventSort::Removed | EventSort::Renamed => true,
        _ => false,
    }
}

} // verus!
