//! An Area as the Revisions of its Files, read from a Backend that keeps the Files elsewhere, for
//! the rules every Backend shares to plan a Commit against.

use vstd::prelude::*;

use crate::commit::{AreaState, under_prefix};
use crate::error::Error;
use crate::order::chars_lt;
use crate::path::Path;
use crate::path_map::{PathMap, entries_view, to_map};
use crate::prefix::{Prefix, starts_with};
use crate::revision::{Revision, names_of};
use crate::sorted::{has_key, keys_of, lemma_lookup_at, sorted_keys, sorted_names};

verus! {

/// An Area as the Revision of each of its Files.
#[derive(Debug)]
pub struct AreaRevisions {
    files: PathMap<Revision>,
}

impl AreaRevisions {
    /// The Revision of each File, by Path.
    pub closed spec fn revisions(&self) -> Map<Seq<char>, Revision> {
        self.files.map()
    }

    /// An Area with no Files.
    pub fn new() -> (area: AreaRevisions)
        ensures
            area.revisions() == Map::<Seq<char>, Revision>::empty(),
    {
        let area = AreaRevisions { files: PathMap::new() };
        proof {
            assert(area.revisions() =~= Map::<Seq<char>, Revision>::empty());
        }
        area
    }

    /// Adds the File at `path`, whose Revision is `revision`.
    pub fn add(&mut self, path: Path, revision: Revision)
        ensures
            final(self).revisions() == old(self).revisions().insert(path@, revision),
    {
        self.files.insert(path, revision);
    }
}

impl AreaState for AreaRevisions {
    open spec fn revisions_spec(&self) -> Map<Seq<char>, Revision> {
        self.revisions()
    }

    open spec fn infallible(&self) -> bool {
        true
    }

    fn revision(&self, path: &Path) -> (found: Result<Option<Revision>, Error>) {
        match self.files.get(path) {
            Some(revision) => Ok(Some(*revision)),
            None => Ok(None),
        }
    }

    fn revisions_under(&self, prefix: &Prefix) -> (found: Result<Vec<(Path, Revision)>, Error>) {
        self.files.sorted();
        let ghost all = self.files@;
        let mut found: Vec<(Path, Revision)> = Vec::new();
        let ghost mut from: Seq<int> = Seq::empty();
        let mut i: usize = 0;
        while i < self.files.len()
            invariant
                i <= all.len(),
                all == self.files@,
                sorted_keys(all),
                sorted_keys(entries_view(found@)),
                from.len() == found@.len(),
                forall|x: int| 0 <= x < from.len() ==> 0 <= #[trigger] from[x] < i && all[from[x]].0
                    == entries_view(found@)[x].0 && starts_with(all[from[x]].0, prefix@)
                    && entries_view(found@)[x].1 == all[from[x]].1,
                forall|y: int| 0 <= y < i && starts_with(#[trigger] all[y].0, prefix@) ==> has_key(
                    entries_view(found@),
                    all[y].0,
                ),
            decreases all.len() - i,
        {
            let ghost before = entries_view(found@);
            let ghost before_from = from;
            let entry = self.files.entry(i);
            if prefix.covers(&entry.0) {
                found.push((entry.0.duplicate(), entry.1));
                proof {
                    from = from.push(i as int);
                    let now = entries_view(found@);
                    assert(now =~= before.push((all[i as int].0, all[i as int].1)));
                    assert forall|x: int, z: int| 0 <= x < z < now.len() implies chars_lt(
                        #[trigger] now[x].0,
                        #[trigger] now[z].0,
                    ) by {
                        if z == before.len() {
                            assert(before_from[x] < i);
                            assert(chars_lt(all[before_from[x]].0, all[i as int].0));
                        }
                    }
                }
            }
            proof {
                let now = entries_view(found@);
                assert forall|x: int| 0 <= x < from.len() implies 0 <= #[trigger] from[x] < i + 1 && all[from[x]].0
                    == now[x].0 && starts_with(all[from[x]].0, prefix@) && now[x].1 == all[from[x]].1 by {
                    if x < before.len() {
                        assert(now[x] == before[x]);
                        assert(from[x] == before_from[x]);
                    }
                }
                assert forall|y: int| 0 <= y < i + 1 && starts_with(#[trigger] all[y].0, prefix@) implies has_key(
                    now,
                    all[y].0,
                ) by {
                    if y < i {
                        let x = choose|x: int| 0 <= x < before.len() && #[trigger] before[x].0 == all[y].0;
                        assert(now[x] == before[x]);
                    } else {
                        assert(now[before.len() as int].0 == all[y].0);
                    }
                }
            }
            i = i + 1;
        }
        proof {
            let shown = entries_view(found@);
            let target = under_prefix(self.revisions(), prefix@);
            assert forall|key: Seq<char>| to_map(shown).contains_key(key) <==> target.contains_key(key) by {
                if has_key(shown, key) {
                    let x = choose|x: int| 0 <= x < shown.len() && #[trigger] shown[x].0 == key;
                    assert(0 <= from[x] < all.len() && all[from[x]].0 == key);
                    assert(has_key(all, key));
                }
                if target.contains_key(key) {
                    assert(has_key(all, key));
                    let y = choose|y: int| 0 <= y < all.len() && #[trigger] all[y].0 == key;
                    assert(starts_with(all[y].0, prefix@));
                }
            }
            assert forall|key: Seq<char>| to_map(shown).contains_key(key) implies to_map(shown)[key] == target[key] by {
                let x = choose|x: int| 0 <= x < shown.len() && #[trigger] shown[x].0 == key;
                lemma_lookup_at(shown, x);
                assert(0 <= from[x] < all.len() && all[from[x]].0 == key);
                lemma_lookup_at(all, from[x]);
            }
            assert(to_map(shown) =~= target);
        }
        Ok(found)
    }

    fn paths_under(&self, prefix: &Prefix) -> (found: Result<Vec<Path>, Error>) {
        let files = match self.revisions_under(prefix) {
            Ok(files) => files,
            Err(error) => return Err(error),
        };
        let ghost shown = entries_view(files@);
        let mut paths: Vec<Path> = Vec::new();
        let mut i: usize = 0;
        while i < files.len()
            invariant
                i <= files.len(),
                paths@.len() == i,
                shown == entries_view(files@),
                names_of(paths@) == keys_of(shown).subrange(0, i as int),
            decreases files.len() - i,
        {
            let ghost earlier = paths@;
            paths.push(files[i].0.duplicate());
            proof {
                assert forall|k: int| 0 <= k < i + 1 implies #[trigger] names_of(paths@)[k] == keys_of(shown)[k] by {
                    if k < i {
                        assert(paths@[k] == earlier[k]);
                        assert(names_of(earlier)[k] == keys_of(shown).subrange(0, i as int)[k]);
                    }
                }
                assert(names_of(paths@) =~= keys_of(shown).subrange(0, i + 1));
            }
            i = i + 1;
        }
        proof {
            let names = names_of(paths@);
            assert(names =~= keys_of(shown));
            assert forall|x: int, y: int| 0 <= x < y < names.len() implies chars_lt(
                #[trigger] names[x],
                #[trigger] names[y],
            ) by {
                assert(names[x] == shown[x].0 && names[y] == shown[y].0);
            }
            assert forall|key: Seq<char>|
                names.contains(key) <==> under_prefix(self.revisions_spec(), prefix@).contains_key(key) by {
                if names.contains(key) {
                    let x = choose|x: int| 0 <= x < names.len() && names[x] == key;
                    assert(shown[x].0 == key);
                    assert(to_map(shown).contains_key(key));
                }
                if under_prefix(self.revisions_spec(), prefix@).contains_key(key) {
                    assert(to_map(shown).contains_key(key));
                    let x = choose|x: int| 0 <= x < shown.len() && #[trigger] shown[x].0 == key;
                    assert(names[x] == key);
                }
            }
        }
        Ok(paths)
    }
}

} // verus!
