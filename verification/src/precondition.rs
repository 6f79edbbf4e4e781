//! What a Staging can require of a File when it is committed.

use vstd::prelude::*;

use crate::revision::Revision;

verus! {

/// Something a Staging requires of a File when it is committed. If it doesn't hold, the Commit
/// writes nothing and fails with [`Error::Conflict`](crate::Error::Conflict).
///
/// A Staging can also require everything under a Prefix to be unchanged, with a
/// [`PrefixRevision`](crate::PrefixRevision) and
/// [`Staging::require_prefix`](crate::Staging::require_prefix).
#[derive(Debug, Clone, Copy, PartialEq, Eq, Structural)]
pub enum Precondition {
    /// Whatever is there. Requires nothing, so it never fails.
    Any,
    /// There is no File at the Path.
    Absent,
    /// The File has the contents it had at this Revision. A File that was removed, or changed
    /// and not changed back, fails it.
    UnchangedSince(Revision),
}

/// Whether `precondition` holds for a File whose Revision is `current`, or `None` if there is no
/// File.
pub open spec fn holds_spec(precondition: Precondition, current: Option<Revision>) -> bool {
    match precondition {
        Precondition::Any => true,
        Precondition::Absent => current is None,
        Precondition::UnchangedSince(revision) => current == Some(revision),
    }
}

/// What each Precondition asks of the File: `UnchangedSince(revision)` holds exactly when the
/// File is there with that Revision, so never for a File that was removed; `Absent` exactly when
/// there is no File; `Any` always.
pub proof fn law_what_each_precondition_requires(revision: Revision, current: Option<Revision>)
    ensures
        holds_spec(Precondition::UnchangedSince(revision), current) <==> (current is Some && current->0 == revision),
        !holds_spec(Precondition::UnchangedSince(revision), None),
        holds_spec(Precondition::Absent, current) <==> current is None,
        holds_spec(Precondition::Any, current),
{
}

impl Precondition {
    /// Whether it holds for a File whose Revision is `current`, or `None` if there is no File.
    pub fn holds(self, current: Option<Revision>) -> (held: bool)
        ensures
            held == holds_spec(self, current),
    {
        match self {
            Precondition::Any => true,
            Precondition::Absent => current.is_none(),
            Precondition::UnchangedSince(revision) => match current {
                Some(now) => now == revision,
                None => false,
            },
        }
    }
}

impl Default for Precondition {
    fn default() -> (precondition: Precondition)
        ensures
            precondition == Precondition::Any,
    {
        Precondition::Any
    }
}

} // verus!
