//! A map from Paths to values, kept in order of Path: how a Staging holds what it does to each
//! Path, and how the memory Backend holds each Area's Files.

use vstd::prelude::*;

use crate::order::{Rank, chars_lt, lemma_lt_asymmetric, lemma_lt_irreflexive, lemma_lt_total, lemma_lt_transitive, rank_chars};
use crate::path::Path;
use crate::prefix::{Prefix, starts_with};
use crate::sorted::{has_key, index_of_key, lemma_lookup_at, lookup, sorted_keys};

verus! {

/// The map that sorted `entries` stand for.
pub open spec fn to_map<V>(entries: Seq<(Seq<char>, V)>) -> Map<Seq<char>, V> {
    Map::new(|key: Seq<char>| has_key(entries, key), |key: Seq<char>| lookup(entries, key)->0)
}

/// The names and values of `entries`, as values.
pub open spec fn entries_view<V>(entries: Seq<(Path, V)>) -> Seq<(Seq<char>, V)> {
    entries.map_values(|entry: (Path, V)| (entry.0@, entry.1))
}

/// Whether `key` goes at `at` in sorted `entries`: after every name before it, before every name
/// from it on.
pub open spec fn fits_at<V>(entries: Seq<(Seq<char>, V)>, at: int, key: Seq<char>) -> bool {
    &&& 0 <= at <= entries.len()
    &&& forall|k: int| 0 <= k < at ==> chars_lt(#[trigger] entries[k].0, key)
    &&& forall|k: int| at <= k < entries.len() ==> chars_lt(key, #[trigger] entries[k].0)
}

/// Where a name fits, it isn't there.
pub proof fn lemma_fits_absent<V>(entries: Seq<(Seq<char>, V)>, at: int, key: Seq<char>)
    requires
        fits_at(entries, at, key),
    ensures
        !has_key(entries, key),
{
    if has_key(entries, key) {
        let k = choose|k: int| 0 <= k < entries.len() && #[trigger] entries[k].0 == key;
        lemma_lt_irreflexive(key);
    }
}

/// Inserting a name where it fits keeps the entries sorted, and adds it to the map.
pub proof fn lemma_insert_at<V>(entries: Seq<(Seq<char>, V)>, at: int, key: Seq<char>, value: V)
    requires
        sorted_keys(entries),
        fits_at(entries, at, key),
    ensures
        sorted_keys(entries.insert(at, (key, value))),
        to_map(entries.insert(at, (key, value))) == to_map(entries).insert(key, value),
{
    let inserted = entries.insert(at, (key, value));
    assert forall|i: int, j: int| 0 <= i < j < inserted.len() implies chars_lt(
        #[trigger] inserted[i].0,
        #[trigger] inserted[j].0,
    ) by {
        if i < at && j == at {
        } else if i < at && j > at {
            assert(inserted[j] == entries[j - 1]);
        } else if i == at {
            assert(inserted[j] == entries[j - 1]);
        } else if i > at {
            assert(inserted[i] == entries[i - 1]);
            assert(inserted[j] == entries[j - 1]);
        }
    }
    lemma_fits_absent(entries, at, key);
    assert(inserted[at].0 == key);
    lemma_lookup_at(inserted, at);
    assert forall|k: Seq<char>| k != key implies has_key(inserted, k) == has_key(entries, k) && (
    has_key(entries, k) ==> lookup(inserted, k) == lookup(entries, k)) by {
        if has_key(entries, k) {
            let x = index_of_key(entries, k);
            lemma_lookup_at(entries, x);
            let y = if x < at {
                x
            } else {
                x + 1
            };
            assert(inserted[y] == entries[x]);
            lemma_lookup_at(inserted, y);
        }
        if has_key(inserted, k) {
            let y = index_of_key(inserted, k);
            if y < at {
                assert(inserted[y] == entries[y]);
            } else if y > at {
                assert(inserted[y] == entries[y - 1]);
            }
        }
    }
    assert(to_map(inserted) =~= to_map(entries).insert(key, value));
}

/// Replacing the value of the entry at `at` keeps the entries sorted, and sets it in the map.
pub proof fn lemma_update_at<V>(entries: Seq<(Seq<char>, V)>, at: int, value: V)
    requires
        sorted_keys(entries),
        0 <= at < entries.len(),
    ensures
        sorted_keys(entries.update(at, (entries[at].0, value))),
        to_map(entries.update(at, (entries[at].0, value))) == to_map(entries).insert(
            entries[at].0,
            value,
        ),
{
    let key = entries[at].0;
    let updated = entries.update(at, (key, value));
    assert forall|i: int, j: int| 0 <= i < j < updated.len() implies chars_lt(
        #[trigger] updated[i].0,
        #[trigger] updated[j].0,
    ) by {
        assert(updated[i].0 == entries[i].0);
        assert(updated[j].0 == entries[j].0);
    }
    lemma_lookup_at(updated, at);
    assert forall|k: Seq<char>| k != key implies has_key(updated, k) == has_key(entries, k) && (
    has_key(entries, k) ==> lookup(updated, k) == lookup(entries, k)) by {
        if has_key(entries, k) {
            let x = index_of_key(entries, k);
            lemma_lookup_at(entries, x);
            assert(updated[x] == entries[x]);
            lemma_lookup_at(updated, x);
        }
        if has_key(updated, k) {
            let y = index_of_key(updated, k);
            assert(updated[y] == entries[y]);
        }
    }
    assert(to_map(updated) =~= to_map(entries).insert(key, value));
}

/// Removing the entry at `at` keeps the entries sorted, and removes its name from the map.
pub proof fn lemma_remove_at<V>(entries: Seq<(Seq<char>, V)>, at: int)
    requires
        sorted_keys(entries),
        0 <= at < entries.len(),
    ensures
        sorted_keys(entries.remove(at)),
        to_map(entries.remove(at)) == to_map(entries).remove(entries[at].0),
{
    let key = entries[at].0;
    let removed = entries.remove(at);
    assert forall|i: int, j: int| 0 <= i < j < removed.len() implies chars_lt(
        #[trigger] removed[i].0,
        #[trigger] removed[j].0,
    ) by {
        let x = if i < at {
            i
        } else {
            i + 1
        };
        let y = if j < at {
            j
        } else {
            j + 1
        };
        assert(removed[i] == entries[x]);
        assert(removed[j] == entries[y]);
    }
    assert forall|k: Seq<char>| k != key implies has_key(removed, k) == has_key(entries, k) && (
    has_key(entries, k) ==> lookup(removed, k) == lookup(entries, k)) by {
        if has_key(entries, k) {
            let x = index_of_key(entries, k);
            lemma_lookup_at(entries, x);
            assert(x != at);
            let y = if x < at {
                x
            } else {
                x - 1
            };
            assert(removed[y] == entries[x]);
            lemma_lookup_at(removed, y);
        }
        if has_key(removed, k) {
            let y = index_of_key(removed, k);
            if y < at {
                assert(removed[y] == entries[y]);
            } else {
                assert(removed[y] == entries[y + 1]);
            }
        }
    }
    assert forall|k: int| 0 <= k < removed.len() implies #[trigger] removed[k].0 != key by {
        let x = if k < at {
            k
        } else {
            k + 1
        };
        assert(removed[k] == entries[x]);
        lemma_lt_irreflexive(key);
        if x < at {
            assert(chars_lt(entries[x].0, entries[at].0));
        } else {
            assert(chars_lt(entries[at].0, entries[x].0));
        }
    }
    assert(!has_key(removed, key));
    assert(to_map(removed) =~= to_map(entries).remove(key));
}

/// Sorted entries are the only sorted entries that stand for their map.
pub proof fn lemma_sorted_unique<V>(a: Seq<(Seq<char>, V)>, b: Seq<(Seq<char>, V)>)
    requires
        sorted_keys(a),
        sorted_keys(b),
        to_map(a) == to_map(b),
    ensures
        a == b,
    decreases a.len(),
{
    if a.len() == 0 {
        if b.len() > 0 {
            lemma_lookup_at(b, 0);
            assert(to_map(b).contains_key(b[0].0));
        }
        assert(a =~= b);
    } else {
        lemma_lookup_at(a, 0);
        assert(to_map(a).contains_key(a[0].0));
        assert(has_key(b, a[0].0));
        let j = index_of_key(b, a[0].0);
        lemma_lookup_at(b, j);
        lemma_lookup_at(b, 0);
        assert(to_map(b).contains_key(b[0].0));
        assert(has_key(a, b[0].0));
        let i = index_of_key(a, b[0].0);
        lemma_lookup_at(a, i);
        if j > 0 {
            assert(chars_lt(b[0].0, b[j].0));
            if i > 0 {
                assert(chars_lt(a[0].0, a[i].0));
                lemma_lt_asymmetric(a[0].0, b[0].0);
            } else {
                lemma_lt_irreflexive(a[0].0);
            }
        }
        assert(j == 0);
        assert(b[0] == a[0]) by {
            assert(to_map(a)[a[0].0] == a[0].1);
            assert(to_map(b)[b[0].0] == b[0].1);
        }
        lemma_remove_at(a, 0);
        lemma_remove_at(b, 0);
        lemma_sorted_unique(a.remove(0), b.remove(0));
        assert(a =~= seq![a[0]] + a.remove(0));
        assert(b =~= seq![b[0]] + b.remove(0));
    }
}

/// Where a name is in sorted entries, or where it would go.
pub enum Found {
    /// It is the entry at this index.
    At(usize),
    /// It isn't there, and would go at this index.
    Missing(usize),
}

/// A map from Paths to values, kept in order of Path.
#[derive(Debug)]
pub struct PathMap<V> {
    entries: Vec<(Path, V)>,
}

impl<V> View for PathMap<V> {
    type V = Seq<(Seq<char>, V)>;

    closed spec fn view(&self) -> Seq<(Seq<char>, V)> {
        entries_view(self.entries@)
    }
}

impl<V> PathMap<V> {
    #[verifier::type_invariant]
    spec fn valid(self) -> bool {
        sorted_keys(entries_view(self.entries@))
    }

    /// The map the entries stand for.
    pub open spec fn map(&self) -> Map<Seq<char>, V> {
        to_map(self@)
    }

    /// An empty map.
    pub fn new() -> (empty: PathMap<V>)
        ensures
            empty@ == Seq::<(Seq<char>, V)>::empty(),
    {
        let entries: Vec<(Path, V)> = Vec::new();
        assert(entries_view(entries@) =~= Seq::<(Seq<char>, V)>::empty());
        PathMap { entries }
    }

    /// The entries are in order of Path, each Path once.
    pub fn sorted(&self)
        ensures
            sorted_keys(self@),
    {
        proof {
            use_type_invariant(self);
        }
    }

    /// How many entries there are.
    pub fn len(&self) -> (count: usize)
        ensures
            count == self@.len(),
    {
        self.entries.len()
    }

    /// The entry at `index`, in order of Path.
    pub fn entry(&self, index: usize) -> (entry: &(Path, V))
        requires
            index < self@.len(),
        ensures
            entry.0@ == self@[index as int].0,
            entry.1 == self@[index as int].1,
    {
        &self.entries[index]
    }

    /// Where `key` is, or where it would go.
    pub fn find(&self, key: &Vec<char>) -> (found: Found)
        ensures
            match found {
                Found::At(at) => at < self@.len() && self@[at as int].0 == key@,
                Found::Missing(at) => fits_at(self@, at as int, key@),
            },
    {
        proof {
            use_type_invariant(self);
        }
        let ghost entries = self@;
        let mut low: usize = 0;
        let mut high: usize = self.entries.len();
        while low < high
            invariant
                entries == entries_view(self.entries@),
                sorted_keys(entries),
                0 <= low <= high <= entries.len(),
                forall|k: int| 0 <= k < low ==> chars_lt(#[trigger] entries[k].0, key@),
                forall|k: int| high <= k < entries.len() ==> chars_lt(key@, #[trigger] entries[k].0),
            decreases high - low,
        {
            let middle = low + (high - low) / 2;
            let rank = rank_chars(self.entries[middle].0.chars(), key);
            assert(entries[middle as int].0 == self.entries@[middle as int].0@);
            match rank {
                Rank::Same => {
                    return Found::At(middle);
                },
                Rank::Before => {
                    assert forall|k: int| 0 <= k < middle + 1 implies chars_lt(
                        #[trigger] entries[k].0,
                        key@,
                    ) by {
                        if k < middle {
                            lemma_lt_transitive(entries[k].0, entries[middle as int].0, key@);
                        }
                    }
                    low = middle + 1;
                },
                Rank::After => {
                    assert forall|k: int| middle <= k < entries.len() implies chars_lt(
                        key@,
                        #[trigger] entries[k].0,
                    ) by {
                        if k > middle {
                            lemma_lt_transitive(key@, entries[middle as int].0, entries[k].0);
                        }
                    }
                    high = middle;
                },
            }
        }
        Found::Missing(low)
    }

    /// The value of `key`, if it has one.
    pub fn get(&self, key: &Path) -> (value: Option<&V>)
        ensures
            match value {
                Some(v) => self.map().contains_key(key@) && *v == self.map()[key@],
                None => !self.map().contains_key(key@),
            },
    {
        proof {
            use_type_invariant(self);
        }
        match self.find(key.chars()) {
            Found::At(at) => {
                proof {
                    lemma_lookup_at(self@, at as int);
                }
                Some(&self.entries[at].1)
            },
            Found::Missing(at) => {
                proof {
                    lemma_fits_absent(self@, at as int, key@);
                }
                None
            },
        }
    }

    /// Sets the value of `key` to `value`, giving back the value it had, if any.
    pub fn insert(&mut self, key: Path, value: V) -> (previous: Option<V>)
        ensures
            final(self).map() == old(self).map().insert(key@, value),
            match previous {
                Some(v) => old(self).map().contains_key(key@) && v == old(self).map()[key@],
                None => !old(self).map().contains_key(key@),
            },
    {
        proof {
            use_type_invariant(&*self);
        }
        let ghost before = self@;
        match self.find(key.chars()) {
            Found::At(at) => {
                proof {
                    lemma_lookup_at(before, at as int);
                    lemma_update_at(before, at as int, value);
                }
                let mut entries: Vec<(Path, V)> = Vec::new();
                std::mem::swap(&mut entries, &mut self.entries);
                let (_, old_value) = entries.remove(at);
                entries.insert(at, (key, value));
                proof {
                    assert(entries_view(entries@) =~= before.update(at as int, (before[at as int].0, value)));
                }
                self.entries = entries;
                proof {
                    assert(entries_view(self.entries@) =~= before.update(at as int, (before[at as int].0, value)));
                }
                Some(old_value)
            },
            Found::Missing(at) => {
                proof {
                    lemma_fits_absent(before, at as int, key@);
                    lemma_insert_at(before, at as int, key@, value);
                }
                let mut entries: Vec<(Path, V)> = Vec::new();
                std::mem::swap(&mut entries, &mut self.entries);
                entries.insert(at, (key, value));
                proof {
                    assert(entries_view(entries@) =~= before.insert(at as int, (key@, value)));
                }
                self.entries = entries;
                None
            },
        }
    }

    /// Removes `key`, giving back its value, if it had one.
    pub fn remove(&mut self, key: &Path) -> (previous: Option<V>)
        ensures
            final(self).map() == old(self).map().remove(key@),
            match previous {
                Some(v) => old(self).map().contains_key(key@) && v == old(self).map()[key@],
                None => !old(self).map().contains_key(key@),
            },
    {
        proof {
            use_type_invariant(&*self);
        }
        let ghost before = self@;
        match self.find(key.chars()) {
            Found::At(at) => {
                proof {
                    lemma_lookup_at(before, at as int);
                    lemma_remove_at(before, at as int);
                }
                let mut entries: Vec<(Path, V)> = Vec::new();
                std::mem::swap(&mut entries, &mut self.entries);
                let (_, old_value) = entries.remove(at);
                proof {
                    assert(entries_view(entries@) =~= before.remove(at as int));
                }
                self.entries = entries;
                Some(old_value)
            },
            Found::Missing(at) => {
                proof {
                    lemma_fits_absent(before, at as int, key@);
                    assert(to_map(before).remove(key@) =~= to_map(before));
                }
                None
            },
        }
    }

    /// Appends an entry after every other: `key` must come after every name there.
    pub fn push_last(&mut self, key: Path, value: V)
        requires
            forall|k: int| 0 <= k < old(self)@.len() ==> chars_lt(#[trigger] old(self)@[k].0, key@),
        ensures
            final(self)@ == old(self)@.push((key@, value)),
            final(self).map() == old(self).map().insert(key@, value),
    {
        proof {
            use_type_invariant(&*self);
        }
        let ghost before = self@;
        proof {
            lemma_insert_at(before, before.len() as int, key@, value);
            assert(before.insert(before.len() as int, (key@, value)) =~= before.push((key@, value)));
        }
        let mut entries: Vec<(Path, V)> = Vec::new();
        std::mem::swap(&mut entries, &mut self.entries);
        entries.push((key, value));
        proof {
            assert(entries_view(entries@) =~= before.push((key@, value)));
        }
        self.entries = entries;
    }

    /// The entries, in order of Path, taken out of the map.
    pub fn into_entries(self) -> (entries: Vec<(Path, V)>)
        ensures
            entries_view(entries@) == self@,
            sorted_keys(self@),
    {
        proof {
            use_type_invariant(&self);
        }
        self.entries
    }
    /// The map without the Paths under `prefix`.
    pub fn without_under(self, prefix: &Prefix) -> (kept: PathMap<V>)
        ensures
            kept.map() == self.map().restrict(
                self.map().dom().filter(|key: Seq<char>| !starts_with(key, prefix@)),
            ),
    {
        proof {
            use_type_invariant(&self);
        }
        let ghost all = self@;
        let mut entries = self.entries;
        // Taken from the end, so `reversed` holds them last first.
        let mut reversed: Vec<(Path, V)> = Vec::new();
        while entries.len() > 0
            invariant
                entries_view(entries@) + entries_view(reversed@).reverse() == all,
            decreases entries.len(),
        {
            let ghost before = entries_view(entries@);
            let ghost later = entries_view(reversed@);
            let entry = entries.pop().unwrap();
            reversed.push(entry);
            proof {
                assert(entries_view(entries@) =~= before.drop_last());
                assert(entries_view(reversed@) =~= later.push(before.last()));
                assert(entries_view(reversed@).reverse() =~= seq![before.last()] + later.reverse());
                assert(before =~= before.drop_last().push(before.last()));
                assert(entries_view(entries@) + entries_view(reversed@).reverse() =~= all);
            }
        }
        assert(entries_view(reversed@).reverse() =~= all);
        let mut kept: PathMap<V> = PathMap::new();
        let ghost mut taken: int = 0;
        while reversed.len() > 0
            invariant
                0 <= taken <= all.len(),
                sorted_keys(all),
                entries_view(reversed@).reverse() == all.subrange(taken, all.len() as int),
                forall|k: int| 0 <= k < kept@.len() ==> exists|x: int|
                    0 <= x < taken && #[trigger] kept@[k].0 == all[x].0,
                kept.map() == to_map(all.subrange(0, taken)).restrict(
                    to_map(all.subrange(0, taken)).dom().filter(
                        |key: Seq<char>| !starts_with(key, prefix@),
                    ),
                ),
            decreases reversed.len(),
        {
            let ghost rest = entries_view(reversed@);
            proof {
                assert(rest.reverse().len() == rest.len());
                assert(rest.len() > 0);
                assert(all.len() - taken == rest.len());
                assert(rest.reverse()[0] == rest.last());
                assert(rest.reverse()[0] == all.subrange(taken, all.len() as int)[0]);
            }
            let entry = reversed.pop().unwrap();
            proof {
                assert(entries_view(reversed@) =~= rest.drop_last());
                assert(rest.drop_last().reverse() =~= rest.reverse().drop_first());
                assert(entries_view(reversed@).reverse() =~= all.subrange(taken + 1, all.len() as int));
                assert(rest.last() == all[taken]);
                assert(entry.0@ == all[taken].0);
            }
            let covered = prefix.covers(&entry.0);
            let ghost before_map = kept.map();
            if !covered {
                proof {
                    assert forall|k: int| 0 <= k < kept@.len() implies chars_lt(#[trigger] kept@[k].0, entry.0@) by {
                        let x = choose|x: int| 0 <= x < taken && #[trigger] kept@[k].0 == all[x].0;
                        assert(chars_lt(all[x].0, all[taken].0));
                    }
                }
                kept.push_last(entry.0, entry.1);
            }
            proof {
                let done = all.subrange(0, taken + 1);
                let prior = all.subrange(0, taken);
                assert(done =~= prior.push(all[taken]));
                lemma_fits_at_end(all, taken);
                lemma_insert_at(prior, taken, all[taken].0, all[taken].1);
                assert(prior.insert(taken, all[taken]) =~= done);
                assert(kept.map() =~= to_map(done).restrict(
                    to_map(done).dom().filter(|key: Seq<char>| !starts_with(key, prefix@)),
                ));
                assert forall|k: int| 0 <= k < kept@.len() implies exists|x: int|
                    0 <= x < taken + 1 && #[trigger] kept@[k].0 == all[x].0 by {
                    if !covered && k == kept@.len() - 1 {
                        assert(kept@[k].0 == all[taken].0);
                    } else {
                        let x = choose|x: int| 0 <= x < taken && #[trigger] kept@[k].0 == all[x].0;
                        assert(kept@[k].0 == all[x].0);
                    }
                }
                taken = taken + 1;
            }
        }
        assert(all.subrange(0, all.len() as int) =~= all);
        kept
    }
}

/// The first `taken` sorted entries end before the entry at `taken`, which fits after them.
pub proof fn lemma_fits_at_end<V>(all: Seq<(Seq<char>, V)>, taken: int)
    requires
        sorted_keys(all),
        0 <= taken < all.len(),
    ensures
        fits_at(all.subrange(0, taken), taken, all[taken].0),
        sorted_keys(all.subrange(0, taken)),
{
}

} // verus!
