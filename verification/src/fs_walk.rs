//! What the filesystem Backend makes of the names it finds on disk, walking an Area's directory
//! tree: a file whose name makes a Path is a File, a directory whose name makes a Prefix is walked
//! into, and everything else is left out, with everything under it. That drops `.tidings/`,
//! tidings' temporary files, and names that aren't valid Unicode or not in NFC form.

use vstd::prelude::*;

use crate::order::chars_lt;
use crate::path::{Path, is_path};
use crate::path_map::{PathMap, entries_view, to_map};
use crate::prefix::{Prefix, is_prefix};
use crate::revision::names_of;
use crate::sorted::{has_key, keys_of, sorted_names};
use crate::text::{chars_of, string_of};

verus! {

/// What a directory entry is, following a symlink.
#[derive(Debug, Clone, Copy, PartialEq, Eq, Structural)]
pub enum EntryKind {
    /// A file.
    File,
    /// A directory.
    Directory,
}

/// What the walk makes of a directory entry.
#[derive(Debug)]
pub enum Walked {
    /// A File, at this Path.
    File(Path),
    /// A directory to walk into, whose Files are under this Prefix.
    Directory(Prefix),
    /// Left out, with everything under it.
    Dropped,
}

/// What the walk makes of the entry named `name` (`None` if it isn't valid Unicode), of `kind`
/// (`None` if it is neither a file nor a directory, as a symlink to nothing isn't), in the
/// directory whose Files are under `prefix`.
pub fn walk_entry(prefix: &Prefix, name: Option<&str>, kind: Option<EntryKind>) -> (walked: Walked)
    ensures
        match (name, kind) {
            (Some(name), Some(EntryKind::File)) => if is_path(prefix@ + name@) {
                walked matches Walked::File(path) && path@ == prefix@ + name@
            } else {
                walked is Dropped
            },
            (Some(name), Some(EntryKind::Directory)) => if is_prefix((prefix@ + name@).push('/')) {
                walked matches Walked::Directory(under) && under@ == (prefix@ + name@).push('/')
            } else {
                walked is Dropped
            },
            _ => walked is Dropped,
        },
{
    let (name, kind) = match (name, kind) {
        (Some(name), Some(kind)) => (name, kind),
        _ => return Walked::Dropped,
    };
    let mut full = prefix.chars().clone();
    let named = chars_of(name);
    let mut i: usize = 0;
    while i < named.len()
        invariant
            i <= named@.len(),
            full@ == prefix@ + named@.subrange(0, i as int),
        decreases named@.len() - i,
    {
        full.push(named[i]);
        proof {
            assert(named@.subrange(0, i + 1) =~= named@.subrange(0, i as int).push(named@[i as int]));
        }
        i = i + 1;
    }
    proof {
        assert(named@.subrange(0, named@.len() as int) =~= named@);
    }
    match kind {
        EntryKind::File => match Path::new(string_of(&full).as_str()) {
            Ok(path) => Walked::File(path),
            Err(_) => Walked::Dropped,
        },
        EntryKind::Directory => {
            full.push('/');
            match Prefix::new(string_of(&full).as_str()) {
                Ok(under) => Walked::Directory(under),
                Err(_) => Walked::Dropped,
            }
        },
    }
}

/// The Paths a walk found, in order, each once.
pub fn sorted_paths(found: Vec<Path>) -> (paths: Vec<Path>)
    ensures
        sorted_names(names_of(paths@)),
        forall|key: Seq<char>| #[trigger] names_of(paths@).contains(key) <==> names_of(found@).contains(key),
{
    let mut set: PathMap<()> = PathMap::new();
    let mut i: usize = 0;
    while i < found.len()
        invariant
            i <= found@.len(),
            forall|key: Seq<char>| #[trigger] set.map().contains_key(key) <==> exists|x: int|
                0 <= x < i && found@[x]@ == key,
        decreases found@.len() - i,
    {
        set.insert(found[i].duplicate(), ());
        proof {
            assert forall|key: Seq<char>| #[trigger] set.map().contains_key(key) <==> exists|x: int|
                0 <= x < i + 1 && found@[x]@ == key by {
                if key == found@[i as int]@ {
                    assert(0 <= i < i + 1 && found@[i as int]@ == key);
                }
                if exists|x: int| 0 <= x < i + 1 && found@[x]@ == key {
                    let x = choose|x: int| 0 <= x < i + 1 && found@[x]@ == key;
                    if x < i {
                        assert(exists|x: int| 0 <= x < i && found@[x]@ == key);
                    }
                }
            }
        }
        i = i + 1;
    }
    let ghost members = set.map();
    let entries = set.into_entries();
    let ghost shown = entries_view(entries@);
    proof {
        assert(to_map(shown) == members);
        assert(forall|key: Seq<char>| #[trigger] members.contains_key(key) <==> exists|x: int|
            0 <= x < found@.len() && found@[x]@ == key);
    }
    let mut paths: Vec<Path> = Vec::new();
    let mut e: usize = 0;
    while e < entries.len()
        invariant
            e <= entries.len(),
            shown == entries_view(entries@),
            shown.len() == entries@.len(),
            paths@.len() == e,
            names_of(paths@) == keys_of(shown).subrange(0, e as int),
        decreases entries.len() - e,
    {
        let ghost before = paths@;
        paths.push(entries[e].0.duplicate());
        proof {
            assert(names_of(paths@).len() == e + 1);
            assert(entries@[e as int].0@ == shown[e as int].0);
            assert forall|k: int| 0 <= k < e + 1 implies #[trigger] names_of(paths@)[k] == keys_of(shown)[k] by {
                assert(names_of(paths@)[k] == paths@[k]@);
                assert(keys_of(shown)[k] == shown[k].0);
                if k < e {
                    assert(paths@[k] == before[k]);
                    assert(names_of(before)[k] == before[k]@);
                    assert(names_of(before)[k] == keys_of(shown).subrange(0, e as int)[k]);
                }
            }
            assert(names_of(paths@) =~= keys_of(shown).subrange(0, e + 1));
        }
        e = e + 1;
    }
    proof {
        let names = names_of(paths@);
        assert(names =~= keys_of(shown));
        assert forall|x: int, y: int| 0 <= x < y < names.len() implies chars_lt(
            #[trigger] names[x],
            #[trigger] names[y],
        ) by {
            assert(names[x] == shown[x].0 && names[y] == shown[y].0);
        }
        assert forall|key: Seq<char>| #[trigger] names.contains(key) <==> names_of(found@).contains(key) by {
            if names.contains(key) {
                let x = choose|x: int| 0 <= x < names.len() && names[x] == key;
                assert(shown[x].0 == key);
                assert(has_key(shown, key));
                assert(to_map(shown).contains_key(key));
                let y = choose|y: int| 0 <= y < found@.len() && found@[y]@ == key;
                assert(names_of(found@)[y] == found@[y]@);
                assert(names_of(found@)[y] == key);
            }
            if names_of(found@).contains(key) {
                let y = choose|y: int| 0 <= y < names_of(found@).len() && names_of(found@)[y] == key;
                assert(names_of(found@)[y] == found@[y]@);
                assert(found@[y]@ == key);
                assert(exists|x: int| 0 <= x < found@.len() && found@[x]@ == key);
                assert(to_map(shown).contains_key(key));
                let x = choose|x: int| 0 <= x < shown.len() && #[trigger] shown[x].0 == key;
                assert(names[x] == key);
            }
        }
    }
    paths
}

} // verus!
