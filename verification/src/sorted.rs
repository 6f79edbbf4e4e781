//! Lists of entries kept in order of their names, each name at most once: how Files are listed,
//! how a Prefix Revision keeps what it covers, and how the memory Backend keeps an Area.

use vstd::prelude::*;

use crate::order::{chars_lt, lemma_lt_asymmetric, lemma_lt_irreflexive, lemma_lt_transitive};

verus! {

/// Whether the names in `entries` are in strictly increasing order, so each is there once.
pub open spec fn sorted_keys<V>(entries: Seq<(Seq<char>, V)>) -> bool {
    forall|i: int, j: int|
        0 <= i < j < entries.len() ==> chars_lt(#[trigger] entries[i].0, #[trigger] entries[j].0)
}

/// Whether the names in `names` are in strictly increasing order.
pub open spec fn sorted_names(names: Seq<Seq<char>>) -> bool {
    forall|i: int, j: int| 0 <= i < j < names.len() ==> chars_lt(#[trigger] names[i], #[trigger] names[j])
}

/// The names of `entries`, in order.
pub open spec fn keys_of<V>(entries: Seq<(Seq<char>, V)>) -> Seq<Seq<char>> {
    entries.map_values(|entry: (Seq<char>, V)| entry.0)
}

/// Whether `entries` has an entry named `key`.
pub open spec fn has_key<V>(entries: Seq<(Seq<char>, V)>, key: Seq<char>) -> bool {
    exists|i: int| 0 <= i < entries.len() && #[trigger] entries[i].0 == key
}

/// Where the entry named `key` is in `entries`.
pub open spec fn index_of_key<V>(entries: Seq<(Seq<char>, V)>, key: Seq<char>) -> int {
    choose|i: int| 0 <= i < entries.len() && #[trigger] entries[i].0 == key
}

/// What `entries` holds for `key`, if anything.
pub open spec fn lookup<V>(entries: Seq<(Seq<char>, V)>, key: Seq<char>) -> Option<V> {
    if has_key(entries, key) {
        Some(entries[index_of_key(entries, key)].1)
    } else {
        None
    }
}

/// In sorted entries, the entry at `i` is the one `lookup` finds for its name.
pub proof fn lemma_lookup_at<V>(entries: Seq<(Seq<char>, V)>, i: int)
    requires
        sorted_keys(entries),
        0 <= i < entries.len(),
    ensures
        has_key(entries, entries[i].0),
        index_of_key(entries, entries[i].0) == i,
        lookup(entries, entries[i].0) == Some(entries[i].1),
{
    let key = entries[i].0;
    assert(has_key(entries, key));
    let j = index_of_key(entries, key);
    if j < i {
        assert(chars_lt(entries[j].0, entries[i].0));
        lemma_lt_irreflexive(key);
    } else if j > i {
        assert(chars_lt(entries[i].0, entries[j].0));
        lemma_lt_irreflexive(key);
    }
}

/// A name smaller than every name of sorted entries from `from` on isn't among them.
pub proof fn lemma_below_all<V>(entries: Seq<(Seq<char>, V)>, from: int, key: Seq<char>)
    requires
        sorted_keys(entries),
        0 <= from < entries.len(),
        chars_lt(key, entries[from].0),
    ensures
        forall|k: int| from <= k < entries.len() ==> #[trigger] entries[k].0 != key,
{
    assert forall|k: int| from <= k < entries.len() implies #[trigger] entries[k].0 != key by {
        if k > from {
            lemma_lt_transitive(key, entries[from].0, entries[k].0);
        }
        if entries[k].0 == key {
            lemma_lt_irreflexive(key);
        }
    }
}

/// A name bigger than every name of sorted entries before `upto` isn't among them.
pub proof fn lemma_above_all<V>(entries: Seq<(Seq<char>, V)>, upto: int, key: Seq<char>)
    requires
        sorted_keys(entries),
        0 < upto <= entries.len(),
        chars_lt(entries[upto - 1].0, key),
    ensures
        forall|k: int| 0 <= k < upto ==> #[trigger] entries[k].0 != key,
{
    assert forall|k: int| 0 <= k < upto implies #[trigger] entries[k].0 != key by {
        if k < upto - 1 {
            lemma_lt_transitive(entries[k].0, entries[upto - 1].0, key);
        }
        if entries[k].0 == key {
            lemma_lt_irreflexive(key);
        }
    }
}

} // verus!
