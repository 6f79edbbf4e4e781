//! The symlinked Files in the Areas and the files they point to, so that the watcher can look at
//! a linking Path when its target has events. An edit to the file a link points to gives events
//! for that file only, so the watcher watches the directory each target is in, if it is outside
//! the Areas, for as long as some link points into it.

use vstd::prelude::*;

use crate::area::{Area, PerArea};
use crate::path::{Path, same_chars};
use crate::path_map::{PathMap, to_map};
use crate::sorted::{has_key, index_of_key, lemma_lookup_at};

verus! {

/// Where a symlinked File points.
#[derive(Debug)]
pub struct Link {
    /// The file it points to, with its directories as event paths name them.
    pub target: Vec<char>,
    /// The directory the target is in, if that is outside the Areas and so watched for it.
    pub directory: Option<Vec<char>>,
}

/// A [`Link`] as values: the target, and the watched directory it is in, if any.
pub open spec fn link_view(link: Link) -> (Seq<char>, Option<Seq<char>>) {
    (link.target@, match link.directory {
        Some(directory) => Some(directory@),
        None => None,
    })
}

/// What the watcher does about a directory outside the Areas.
#[derive(Debug)]
pub enum LinkAction {
    /// Start watching it, not recursively: a link now points into it, and none did.
    Watch(Vec<char>),
    /// Stop watching it: no link points into it any more.
    Unwatch(Vec<char>),
}

/// A [`LinkAction`] as values: whether it starts watching, and the directory.
pub open spec fn action_view(action: LinkAction) -> (bool, Seq<char>) {
    match action {
        LinkAction::Watch(directory) => (true, directory@),
        LinkAction::Unwatch(directory) => (false, directory@),
    }
}

/// Each of `actions` as values.
pub open spec fn actions_view(actions: Seq<LinkAction>) -> Seq<(bool, Seq<char>)> {
    actions.map_values(|action: LinkAction| action_view(action))
}

/// The directories outside the Areas that some link of `linked` points into.
pub open spec fn watched(linked: Map<(Area, Seq<char>), (Seq<char>, Option<Seq<char>>)>) -> Set<Seq<char>> {
    Set::new(
        |directory: Seq<char>|
            exists|key: (Area, Seq<char>)| #[trigger] linked.contains_key(key) && linked[key].1 == Some(directory),
    )
}

/// What comes of linking `key` to `link` (or unlinking it, for `None`), where the links were
/// `before`: stop watching the directory its old target was in, if no other link points there,
/// then start watching the one its new target is in, if none did.
pub open spec fn relink_actions(
    before: Map<(Area, Seq<char>), (Seq<char>, Option<Seq<char>>)>,
    key: (Area, Seq<char>),
    link: Option<(Seq<char>, Option<Seq<char>>)>,
) -> Seq<(bool, Seq<char>)> {
    let others = before.remove(key);
    let unwatch = if before.contains_key(key) && before[key].1 is Some && !watched(others).contains(
        before[key].1->0,
    ) {
        seq![(false, before[key].1->0)]
    } else {
        Seq::empty()
    };
    let watch = match link {
        Some((_, Some(directory))) => if !watched(others).contains(directory) {
            seq![(true, directory)]
        } else {
            Seq::empty()
        },
        _ => Seq::empty(),
    };
    unwatch + watch
}

/// Whether `map` has a link into `directory`.
fn map_uses(map: &PathMap<Link>, directory: &Vec<char>) -> (uses: bool)
    ensures
        uses == exists|k: Seq<char>| #[trigger] map.map().contains_key(k) && link_view(map.map()[k]).1 == Some(
            directory@,
        ),
{
    map.sorted();
    let mut i: usize = 0;
    while i < map.len()
        invariant
            i <= map@.len(),
            crate::sorted::sorted_keys(map@),
            forall|x: int| 0 <= x < i ==> link_view(#[trigger] map@[x].1).1 != Some(directory@),
        decreases map@.len() - i,
    {
        let entry = map.entry(i);
        let found = match &entry.1.directory {
            Some(in_it) => same_chars(in_it, directory),
            None => false,
        };
        if found {
            proof {
                lemma_lookup_at(map@, i as int);
                assert(map.map().contains_key(map@[i as int].0));
            }
            return true;
        }
        i = i + 1;
    }
    proof {
        assert forall|k: Seq<char>| #[trigger] map.map().contains_key(k) implies link_view(map.map()[k]).1 != Some(directory@) by {
            let x = index_of_key(map@, k);
            assert(0 <= x < map@.len() && map@[x].0 == k);
            lemma_lookup_at(map@, x);
        }
    }
    false
}

/// The symlinked Files in the Areas and where they point.
#[derive(Debug)]
pub struct Links {
    areas: PerArea<PathMap<Link>>,
}

impl Links {
    /// Where each symlinked File, by Area and Path, points.
    pub closed spec fn linked(&self) -> Map<(Area, Seq<char>), (Seq<char>, Option<Seq<char>>)> {
        Map::new(
            |key: (Area, Seq<char>)| self.areas.at(key.0).map().contains_key(key.1),
            |key: (Area, Seq<char>)| link_view(self.areas.at(key.0).map()[key.1]),
        )
    }

    /// No links.
    pub fn new() -> (links: Links)
        ensures
            links.linked() == Map::<(Area, Seq<char>), (Seq<char>, Option<Seq<char>>)>::empty(),
    {
        let links = Links { areas: PerArea { config: PathMap::new(), data: PathMap::new(), cache: PathMap::new() } };
        proof {
            assert(to_map(Seq::<(Seq<char>, Link)>::empty()) =~= Map::<Seq<char>, Link>::empty());
            assert(links.linked() =~= Map::<(Area, Seq<char>), (Seq<char>, Option<Seq<char>>)>::empty());
        }
        links
    }

    /// Whether some link points into `directory`.
    fn uses(&self, directory: &Vec<char>) -> (uses: bool)
        ensures
            uses == watched(self.linked()).contains(directory@),
    {
        let uses = map_uses(&self.areas.config, directory) || map_uses(&self.areas.data, directory) || map_uses(
            &self.areas.cache,
            directory,
        );
        proof {
            let linked = self.linked();
            if uses {
                let area = if map_uses_spec(&self.areas.config, directory@) {
                    Area::Config
                } else if map_uses_spec(&self.areas.data, directory@) {
                    Area::Data
                } else {
                    Area::Cache
                };
                let k = choose|k: Seq<char>| #[trigger] self.areas.at(area).map().contains_key(k) && link_view(
                    self.areas.at(area).map()[k],
                ).1 == Some(directory@);
                assert(linked.contains_key((area, k)));
            }
            if watched(linked).contains(directory@) {
                let key = choose|key: (Area, Seq<char>)| #[trigger] linked.contains_key(key) && linked[key].1 == Some(
                    directory@,
                );
                match key.0 {
                    Area::Config => assert(self.areas.config.map().contains_key(key.1)),
                    Area::Data => assert(self.areas.data.map().contains_key(key.1)),
                    Area::Cache => assert(self.areas.cache.map().contains_key(key.1)),
                }
            }
        }
        uses
    }

    /// What is linked once `area`'s links are `map`, the others as they are.
    proof fn lemma_set_area(before: &Links, after: &Links, area: Area)
        requires
            forall|other: Area| other != area ==> #[trigger] after.areas.at(other) == before.areas.at(other),
        ensures
            after.linked() == Map::new(
                |key: (Area, Seq<char>)|
                    if key.0 == area {
                        after.areas.at(area).map().contains_key(key.1)
                    } else {
                        before.linked().contains_key(key)
                    },
                |key: (Area, Seq<char>)|
                    if key.0 == area {
                        link_view(after.areas.at(area).map()[key.1])
                    } else {
                        before.linked()[key]
                    },
            ),
    {
        let target = Map::new(
            |key: (Area, Seq<char>)|
                if key.0 == area {
                    after.areas.at(area).map().contains_key(key.1)
                } else {
                    before.linked().contains_key(key)
                },
            |key: (Area, Seq<char>)|
                if key.0 == area {
                    link_view(after.areas.at(area).map()[key.1])
                } else {
                    before.linked()[key]
                },
        );
        assert forall|key: (Area, Seq<char>)| #[trigger] after.linked().contains_key(key) == target.contains_key(key) by {
            if key.0 != area {
                assert(after.areas.at(key.0) == before.areas.at(key.0));
            }
        }
        assert forall|key: (Area, Seq<char>)| after.linked().contains_key(key) implies #[trigger] after.linked()[key] == target[key] by {
            if key.0 != area {
                assert(after.areas.at(key.0) == before.areas.at(key.0));
            }
        }
        assert(after.linked() =~= target);
    }

    /// Notes that the File at `path` in `area` is a symlink to `link`'s target now, or isn't one
    /// (`None`), and gives what to watch or stop watching for it: the directory its old target was
    /// in, if no other link points there now, and the one its new target is in, if none did.
    /// Nothing changes if it points where it did.
    pub fn relink(&mut self, area: Area, path: Path, link: Option<Link>) -> (actions: Vec<LinkAction>)
        ensures
            ({
                let key = (area, path@);
                let now = match link {
                    Some(link) => Some(link_view(link)),
                    None => None::<(Seq<char>, Option<Seq<char>>)>,
                };
                let before = old(self).linked();
                &&& final(self).linked() == match now {
                    Some(now) => before.insert(key, now),
                    None => before.remove(key),
                }
                &&& actions_view(actions@) == if (before.contains_key(key) && now == Some(before[key])) || (
                !before.contains_key(key) && now is None) {
                    Seq::empty()
                } else {
                    relink_actions(before, key, now)
                }
            }),
    {
        let ghost before = self.linked();
        let ghost key = (area, path@);
        let ghost now = match &link {
            Some(link) => Some(link_view(*link)),
            None => None::<(Seq<char>, Option<Seq<char>>)>,
        };
        let ghost start = *self;
        let mut map = self.areas.replace(area, PathMap::new());
        let same = match (map.get(&path), &link) {
            (Some(was), Some(link)) => same_chars(&was.target, &link.target) && match (&was.directory, &link.directory) {
                (Some(a), Some(b)) => same_chars(a, b),
                (None, None) => true,
                _ => false,
            },
            (None, None) => true,
            _ => false,
        };
        if same {
            self.areas.set(area, map);
            proof {
                Links::lemma_set_area(&start, self, area);
                assert(self.linked() =~= before);
                if before.contains_key(key) {
                    assert(before.insert(key, before[key]) =~= before);
                } else {
                    assert(before.remove(key) =~= before);
                }
            }
            return Vec::new();
        }
        let previous = map.remove(&path);
        self.areas.set(area, map);
        proof {
            Links::lemma_set_area(&start, self, area);
            assert(self.linked() =~= before.remove(key));
        }
        let ghost others = self.linked();
        let mut actions: Vec<LinkAction> = Vec::new();
        match previous {
            Some(previous) => match previous.directory {
                Some(directory) => if !self.uses(&directory) {
                    actions.push(LinkAction::Unwatch(directory));
                },
                None => {},
            },
            None => {},
        }
        let ghost unwatching = actions_view(actions@);
        proof {
            let expected = if before.contains_key(key) && before[key].1 is Some && !watched(others).contains(
                before[key].1->0,
            ) {
                seq![(false, before[key].1->0)]
            } else {
                Seq::empty()
            };
            assert(unwatching =~= expected);
        }
        match link {
            Some(link) => {
                match &link.directory {
                    Some(directory) => if !self.uses(directory) {
                        actions.push(LinkAction::Watch(directory.clone()));
                    },
                    None => {},
                }
                let ghost middle = *self;
                let mut map = self.areas.replace(area, PathMap::new());
                map.insert(path, link);
                self.areas.set(area, map);
                proof {
                    Links::lemma_set_area(&middle, self, area);
                    assert(self.linked() =~= before.insert(key, now->0));
                }
            },
            None => {},
        }
        proof {
            assert(actions_view(actions@) =~= relink_actions(before, key, now));
        }
        actions
    }

    /// Forgets every link in `area`, and gives the directories to stop watching: those no link in
    /// another Area points into, each once.
    pub fn forget(&mut self, area: Area) -> (actions: Vec<LinkAction>)
        ensures
            final(self).linked() == old(self).linked().restrict(
                old(self).linked().dom().filter(|key: (Area, Seq<char>)| key.0 != area),
            ),
            forall|i: int| 0 <= i < actions@.len() ==> !(#[trigger] actions_view(actions@)[i]).0,
            forall|i: int, j: int|
                0 <= i < j < actions@.len() ==> #[trigger] actions_view(actions@)[i].1 != #[trigger] actions_view(
                    actions@,
                )[j].1,
            forall|directory: Seq<char>| #[trigger] unwatches(actions_view(actions@), directory) <==> (watched(
                old(self).linked(),
            ).contains(directory) && !watched(final(self).linked()).contains(directory)),
    {
        let ghost before = self.linked();
        let ghost start = *self;
        let map = self.areas.replace(area, PathMap::new());
        proof {
            Links::lemma_set_area(&start, self, area);
            assert(self.linked() =~= before.restrict(before.dom().filter(|key: (Area, Seq<char>)| key.0 != area)));
        }
        let ghost after = self.linked();
        map.sorted();
        let mut actions: Vec<LinkAction> = Vec::new();
        let mut i: usize = 0;
        while i < map.len()
            invariant
                i <= map@.len(),
                crate::sorted::sorted_keys(map@),
                after == self.linked(),
                forall|x: int| 0 <= x < actions@.len() ==> !(#[trigger] actions_view(actions@)[x]).0,
                forall|x: int, y: int|
                    0 <= x < y < actions@.len() ==> #[trigger] actions_view(actions@)[x].1 != #[trigger] actions_view(
                        actions@,
                    )[y].1,
                forall|directory: Seq<char>| #[trigger] unwatches(actions_view(actions@), directory) <==> (dirs_among(
                    map@,
                    i as int,
                    directory,
                ) && !watched(after).contains(directory)),
            decreases map@.len() - i,
        {
            let entry = map.entry(i);
            let ghost earlier = actions_view(actions@);
            match &entry.1.directory {
                Some(directory) => {
                    if !self.uses(directory) && !unwatching_already(&actions, directory) {
                        actions.push(LinkAction::Unwatch(directory.clone()));
                        proof {
                            assert(actions_view(actions@) =~= earlier.push((false, directory@)));
                        }
                    }
                },
                None => {},
            }
            proof {
                let now = actions_view(actions@);
                assert forall|directory: Seq<char>| #[trigger] unwatches(now, directory) <==> (dirs_among(
                    map@,
                    i + 1,
                    directory,
                ) && !watched(after).contains(directory)) by {
                    if dirs_among(map@, i + 1, directory) {
                        let x = choose|x: int| 0 <= x < i + 1 && #[trigger] link_view(map@[x].1).1 == Some(directory);
                        if x < i {
                            assert(dirs_among(map@, i as int, directory));
                        }
                    }
                    if dirs_among(map@, i as int, directory) {
                        let x = choose|x: int| 0 <= x < i && #[trigger] link_view(map@[x].1).1 == Some(directory);
                        assert(dirs_among(map@, i + 1, directory));
                    }
                    if unwatches(now, directory) && !unwatches(earlier, directory) {
                        let x = choose|x: int| 0 <= x < now.len() && #[trigger] now[x].1 == directory;
                        assert(x == earlier.len());
                        assert(link_view(map@[i as int].1).1 == Some(directory));
                    }
                    if unwatches(earlier, directory) {
                        let x = choose|x: int| 0 <= x < earlier.len() && #[trigger] earlier[x].1 == directory;
                        assert(now[x] == earlier[x]);
                    }
                    if link_view(map@[i as int].1).1 == Some(directory) && !watched(after).contains(directory)
                        && !unwatches(earlier, directory) {
                        assert(now[earlier.len() as int].1 == directory);
                    }
                }
                assert forall|x: int, y: int|
                    0 <= x < y < now.len() implies #[trigger] now[x].1 != #[trigger] now[y].1 by {
                    if y == earlier.len() && now.len() > earlier.len() {
                        assert(now[x] == earlier[x]);
                        assert(unwatches(earlier, now[x].1));
                    } else {
                        assert(now[x] == earlier[x] && now[y] == earlier[y]);
                    }
                }
            }
            i = i + 1;
        }
        proof {
            let now = actions_view(actions@);
            let finished = self.linked();
            assert forall|directory: Seq<char>| #[trigger] unwatches(now, directory) <==> (watched(before).contains(
                directory,
            ) && !watched(finished).contains(directory)) by {
                if unwatches(now, directory) {
                    assert(dirs_among(map@, map@.len() as int, directory));
                    let x = choose|x: int| 0 <= x < map@.len() && #[trigger] link_view(map@[x].1).1 == Some(directory);
                    lemma_lookup_at(map@, x);
                    assert(map == start.areas.at(area));
                    assert(before.contains_key((area, map@[x].0)));
                    assert(before[(area, map@[x].0)].1 == Some(directory));
                    assert(watched(before).contains(directory));
                }
                if watched(before).contains(directory) && !watched(finished).contains(directory) {
                    let key = choose|key: (Area, Seq<char>)| #[trigger] before.contains_key(key) && before[key].1 == Some(
                        directory,
                    );
                    if key.0 != area {
                        assert(finished.contains_key(key));
                        assert(finished[key].1 == Some(directory));
                        assert(watched(finished).contains(directory));
                    } else {
                        assert(map == start.areas.at(area));
                        assert(map.map().contains_key(key.1));
                        let x = index_of_key(map@, key.1);
                        assert(0 <= x < map@.len() && map@[x].0 == key.1);
                        lemma_lookup_at(map@, x);
                        assert(link_view(map@[x].1).1 == Some(directory));
                        assert(dirs_among(map@, map@.len() as int, directory));
                        assert(unwatches(now, directory));
                    }
                }
            }
        }
        actions
    }

    /// The Paths linked to `target`, by Area.
    pub fn linking(&self, target: &Vec<char>) -> (found: Vec<(Area, Path)>)
        ensures
            forall|area: Area, k: Seq<char>|
                (exists|i: int| 0 <= i < found@.len() && found@[i].0 == area && #[trigger] found@[i].1@ == k) <==> (
                #[trigger] self.linked().contains_key((area, k)) && self.linked()[(area, k)].0 == target@),
    {
        let mut found: Vec<(Area, Path)> = Vec::new();
        map_linking(&self.areas.config, Area::Config, target, &mut found);
        let ghost after_config = found@;
        let config_count = found.len();
        map_linking(&self.areas.data, Area::Data, target, &mut found);
        let ghost after_data = found@;
        let data_count = found.len();
        map_linking(&self.areas.cache, Area::Cache, target, &mut found);
        proof {
            let linked = self.linked();
            let (c, d) = (config_count as int, data_count as int);
            assert forall|j: int| 0 <= j < c implies #[trigger] found@[j] == after_config[j] by {
                assert(after_data[j] == after_config[j]);
            }
            assert forall|j: int| c <= j < d implies #[trigger] found@[j] == after_data[j] by {}
            assert forall|area: Area, k: Seq<char>|
                (exists|i: int| 0 <= i < found@.len() && found@[i].0 == area && #[trigger] found@[i].1@ == k) <==> (
                #[trigger] linked.contains_key((area, k)) && linked[(area, k)].0 == target@) by {
                if exists|i: int| 0 <= i < found@.len() && found@[i].0 == area && #[trigger] found@[i].1@ == k {
                    let i = choose|i: int| 0 <= i < found@.len() && found@[i].0 == area && #[trigger] found@[i].1@ == k;
                    if i < c {
                        assert(after_config[i].1@ == k);
                        assert(names_from(after_config, 0, k));
                        assert(area == Area::Config);
                    } else if i < d {
                        assert(after_data[i].1@ == k);
                        assert(names_from(after_data, c, k));
                        assert(area == Area::Data);
                    } else {
                        assert(names_from(found@, d, k));
                        assert(area == Area::Cache);
                    }
                }
                if linked.contains_key((area, k)) && linked[(area, k)].0 == target@ {
                    match area {
                        Area::Config => {
                            assert(names_from(after_config, 0, k));
                            let j = choose|j: int| 0 <= j < after_config.len() && #[trigger] after_config[j].1@ == k;
                            assert(found@[j] == after_config[j]);
                        },
                        Area::Data => {
                            assert(names_from(after_data, c, k));
                            let j = choose|j: int| c <= j < after_data.len() && #[trigger] after_data[j].1@ == k;
                            assert(found@[j] == after_data[j]);
                        },
                        Area::Cache => {
                            assert(names_from(found@, d, k));
                            let j = choose|j: int| d <= j < found@.len() && #[trigger] found@[j].1@ == k;
                            assert(found@[j].0 == Area::Cache);
                        },
                    }
                }
            }
        }
        found
    }
}

/// Whether `found` names `k` from `from` on.
pub open spec fn names_from(found: Seq<(Area, Path)>, from: int, k: Seq<char>) -> bool {
    exists|j: int| from <= j < found.len() && #[trigger] found[j].1@ == k
}

/// Whether one of the first `count` entries of `entries` is `k`, linked to `target`.
pub open spec fn links_among(entries: Seq<(Seq<char>, Link)>, count: int, k: Seq<char>, target: Seq<char>) -> bool {
    exists|x: int| 0 <= x < count && #[trigger] entries[x].0 == k && link_view(entries[x].1).0 == target
}

/// Adds to `found` each Path of `map`, in `area`, linked to `target`, in order.
fn map_linking(map: &PathMap<Link>, area: Area, target: &Vec<char>, found: &mut Vec<(Area, Path)>)
    ensures
        final(found)@.len() >= old(found)@.len(),
        forall|j: int| 0 <= j < old(found)@.len() ==> #[trigger] final(found)@[j] == old(found)@[j],
        forall|j: int| old(found)@.len() <= j < final(found)@.len() ==> (#[trigger] final(found)@[j]).0 == area,
        forall|k: Seq<char>| #[trigger] names_from(final(found)@, old(found)@.len() as int, k) <==> (
            map.map().contains_key(k) && link_view(map.map()[k]).0 == target@),
{
    map.sorted();
    let ghost start = found@;
    let mut i: usize = 0;
    while i < map.len()
        invariant
            i <= map@.len(),
            crate::sorted::sorted_keys(map@),
            found@.len() >= start.len(),
            forall|j: int| 0 <= j < start.len() ==> #[trigger] found@[j] == start[j],
            forall|j: int| start.len() <= j < found@.len() ==> (#[trigger] found@[j]).0 == area,
            forall|k: Seq<char>| #[trigger] names_from(found@, start.len() as int, k) <==> links_among(
                map@,
                i as int,
                k,
                target@,
            ),
        decreases map@.len() - i,
    {
        let entry = map.entry(i);
        let ghost before = found@;
        if same_chars(&entry.1.target, target) {
            found.push((area, entry.0.duplicate()));
        }
        proof {
            assert forall|k: Seq<char>| #[trigger] names_from(found@, start.len() as int, k) <==> links_among(
                map@,
                i + 1,
                k,
                target@,
            ) by {
                if names_from(found@, start.len() as int, k) {
                    let j = choose|j: int| start.len() <= j < found@.len() && #[trigger] found@[j].1@ == k;
                    if j < before.len() {
                        assert(before[j].1@ == k);
                        assert(names_from(before, start.len() as int, k));
                        let x = choose|x: int| 0 <= x < i && #[trigger] map@[x].0 == k && link_view(map@[x].1).0 == target@;
                        assert(0 <= x < i + 1);
                    } else {
                        assert(map@[i as int].0 == k && link_view(map@[i as int].1).0 == target@);
                    }
                }
                if links_among(map@, i + 1, k, target@) {
                    let x = choose|x: int| 0 <= x < i + 1 && #[trigger] map@[x].0 == k && link_view(map@[x].1).0 == target@;
                    if x < i {
                        assert(links_among(map@, i as int, k, target@));
                        assert(names_from(before, start.len() as int, k));
                        let j = choose|j: int| start.len() <= j < before.len() && #[trigger] before[j].1@ == k;
                        assert(found@[j] == before[j]);
                    } else {
                        assert(found@[before.len() as int].1@ == k);
                    }
                }
            }
        }
        i = i + 1;
    }
    proof {
        assert forall|k: Seq<char>| #[trigger] links_among(map@, map@.len() as int, k, target@) <==> (
            map.map().contains_key(k) && link_view(map.map()[k]).0 == target@) by {
            if links_among(map@, map@.len() as int, k, target@) {
                let x = choose|x: int| 0 <= x < map@.len() && #[trigger] map@[x].0 == k && link_view(map@[x].1).0 == target@;
                lemma_lookup_at(map@, x);
            }
            if map.map().contains_key(k) && link_view(map.map()[k]).0 == target@ {
                let x = index_of_key(map@, k);
                assert(0 <= x < map@.len() && map@[x].0 == k);
                lemma_lookup_at(map@, x);
            }
        }
    }
}

/// Whether `actions` stop watching `directory`.
pub open spec fn unwatches(actions: Seq<(bool, Seq<char>)>, directory: Seq<char>) -> bool {
    exists|x: int| 0 <= x < actions.len() && #[trigger] actions[x].1 == directory
}

/// Whether `actions` already do something about `directory`.
fn unwatching_already(actions: &Vec<LinkAction>, directory: &Vec<char>) -> (already: bool)
    ensures
        already == unwatches(actions_view(actions@), directory@),
{
    let mut i: usize = 0;
    while i < actions.len()
        invariant
            i <= actions@.len(),
            forall|x: int| 0 <= x < i ==> (#[trigger] actions_view(actions@)[x]).1 != directory@,
        decreases actions@.len() - i,
    {
        let same = match &actions[i] {
            LinkAction::Watch(d) => same_chars(d, directory),
            LinkAction::Unwatch(d) => same_chars(d, directory),
        };
        if same {
            proof {
                assert(actions_view(actions@)[i as int].1 == directory@);
            }
            return true;
        }
        i = i + 1;
    }
    false
}

/// Whether one of the first `count` entries of `entries` links into `directory`.
pub open spec fn dirs_among(entries: Seq<(Seq<char>, Link)>, count: int, directory: Seq<char>) -> bool {
    exists|x: int| 0 <= x < count && #[trigger] link_view(entries[x].1).1 == Some(directory)
}

/// Whether `map` has a link into `directory`.
pub open spec fn map_uses_spec(map: &PathMap<Link>, directory: Seq<char>) -> bool {
    exists|k: Seq<char>| #[trigger] map.map().contains_key(k) && link_view(map.map()[k]).1 == Some(directory)
}

} // verus!
