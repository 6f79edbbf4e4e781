//! The three Areas of a Store, and a value kept for each of them.

use vstd::prelude::*;

verus! {

/// One of the three independent parts of a Store.
///
/// Each Area is separate from the others in the same way the platform's config, data and cache
/// directories are.
#[derive(Debug, Clone, Copy, PartialEq, Eq, Structural, PartialOrd, Ord, Hash)]
pub enum Area {
    /// Settings, which people may also edit by hand.
    Config,
    /// The application's own data.
    Data,
    /// Files that may disappear at any time, because the user or the OS cleared them.
    Cache,
}

impl Area {
    /// The Area's name, as its directory and database are named.
    pub fn name(self) -> (name: &'static str)
        ensures
            name@ == self.name_spec(),
    {
        proof {
            reveal_strlit("config");
            reveal_strlit("data");
            reveal_strlit("cache");
        }
        match self {
            Area::Config => "config",
            Area::Data => "data",
            Area::Cache => "cache",
        }
    }

    pub open spec fn name_spec(self) -> Seq<char> {
        match self {
            Area::Config => seq!['c', 'o', 'n', 'f', 'i', 'g'],
            Area::Data => seq!['d', 'a', 't', 'a'],
            Area::Cache => seq!['c', 'a', 'c', 'h', 'e'],
        }
    }
}

/// One value for each Area.
#[derive(Debug, Default)]
pub struct PerArea<T> {
    pub config: T,
    pub data: T,
    pub cache: T,
}

impl<T> PerArea<T> {
    /// The value of `area`.
    pub open spec fn at(&self, area: Area) -> T {
        match area {
            Area::Config => self.config,
            Area::Data => self.data,
            Area::Cache => self.cache,
        }
    }

    /// The value of `area`.
    pub fn get(&self, area: Area) -> (value: &T)
        ensures
            *value == self.at(area),
    {
        match area {
            Area::Config => &self.config,
            Area::Data => &self.data,
            Area::Cache => &self.cache,
        }
    }

    /// Replaces the value of `area` with `value`, leaving the others as they are.
    pub fn set(&mut self, area: Area, value: T)
        ensures
            final(self).at(area) == value,
            forall|other: Area| other != area ==> final(self).at(other) == old(self).at(other),
    {
        match area {
            Area::Config => self.config = value,
            Area::Data => self.data = value,
            Area::Cache => self.cache = value,
        }
    }

    /// Puts `value` in place of the value of `area`, giving back the value it had.
    pub fn replace(&mut self, area: Area, value: T) -> (previous: T)
        ensures
            previous == old(self).at(area),
            final(self).at(area) == value,
            forall|other: Area| other != area ==> final(self).at(other) == old(self).at(other),
    {
        let mut value = value;
        match area {
            Area::Config => std::mem::swap(&mut self.config, &mut value),
            Area::Data => std::mem::swap(&mut self.data, &mut value),
            Area::Cache => std::mem::swap(&mut self.cache, &mut value),
        }
        value
    }
}

} // verus!
