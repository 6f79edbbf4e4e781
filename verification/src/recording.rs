//! What a Store records on its Change feed, in its turn with Commits: what other Stores did, in
//! the order they did it, then its own Commit, as local. And which Backends can give Snapshots.

use vstd::prelude::*;

use crate::area::Area;
use crate::change::{AreaUnread, Origin, Unread, UnreadView, merged};
use crate::change_log::{ObservedView, observed_view, observed_views};
use crate::commit::{CommitOutcome, Observed, raw_view};
use crate::error::Error;

verus! {

/// What is unread once `item` is recorded for `area`, where `unread` was: Changes merge into what
/// is unread, unless a Resync of the Area is; a Resync takes the place of the Area's Changes.
/// Nothing is recorded once the Store or the Change feed is gone.
pub open spec fn after_one(unread: UnreadView, area: Area, item: ObservedView) -> UnreadView {
    match item {
        ObservedView::Changes(origin, changes) => if unread.closed() || unread.at(area) is Resync {
            unread
        } else {
            unread.with(area, AreaUnread::Changes(merged(unread.at(area)->Changes_0, changes, origin)))
        },
        ObservedView::Missed => if unread.closed() {
            unread
        } else {
            unread.with(area, AreaUnread::Resync)
        },
    }
}

/// What is unread once each of `observed` is recorded for `area` in turn.
pub open spec fn after_observed(unread: UnreadView, area: Area, observed: Seq<ObservedView>) -> UnreadView
    decreases observed.len(),
{
    if observed.len() == 0 {
        unread
    } else {
        after_one(after_observed(unread, area, observed.drop_last()), area, observed.last())
    }
}

/// Records `item`, which a Backend observed in `area`.
pub fn record_one(unread: &mut Unread, area: Area, item: Observed)
    ensures
        final(unread)@ == after_one(old(unread)@, area, observed_view(item)),
{
    match item {
        Observed::Changes { origin, changes } => unread.record(area, changes, origin),
        Observed::Missed => unread.resync(area),
    }
}

/// Records what a Backend observed in `area`, in the order it happened.
pub fn record_observed(unread: &mut Unread, area: Area, observed: Vec<Observed>)
    ensures
        final(unread)@ == after_observed(old(unread)@, area, observed_views(observed@)),
{
    let ghost all = observed_views(observed@);
    let ghost start = unread@;
    let mut turned = crate::commit::reversed(observed);
    let ghost n = all.len();
    proof {
        assert(all.subrange(0, 0) =~= Seq::<ObservedView>::empty());
    }
    while turned.len() > 0
        invariant
            n == all.len(),
            turned@.len() <= n,
            forall|k: int| 0 <= k < turned@.len() ==> observed_view(#[trigger] turned@[k]) == all[n - 1 - k],
            unread@ == after_observed(start, area, all.subrange(0, n - turned@.len())),
        decreases turned.len(),
    {
        let ghost done = n - turned@.len();
        let ghost before = turned@;
        let item = turned.pop().unwrap();
        proof {
            assert(observed_view(item) == all[done]);
            assert(all.subrange(0, done + 1).drop_last() =~= all.subrange(0, done));
            assert forall|k: int| 0 <= k < turned@.len() implies observed_view(#[trigger] turned@[k]) == all[n - 1 - k] by {
                assert(turned@[k] == before[k]);
            }
        }
        record_one(unread, area, item);
    }
    proof {
        assert(all.subrange(0, n as int) =~= all);
    }
}

/// Records a Commit to `area` that this Store made: first what other Stores did to the Area
/// before it, in the order they did it, then its own Changes, as local. Gives `Pending` if the
/// Commit has happened but isn't finished: its Changes are recorded all the same.
pub fn record_commit(unread: &mut Unread, area: Area, outcome: CommitOutcome) -> (result: Result<(), Error>)
    ensures
        final(unread)@ == after_one(
            after_observed(old(unread)@, area, observed_views(outcome.observed_before@)),
            area,
            ObservedView::Changes(Origin::Local, raw_view(outcome.changes@)),
        ),
        result is Ok <==> !outcome.pending,
        result matches Err(error) ==> error is Pending,
{
    let CommitOutcome { revisions: _, changes, observed_before, pending } = outcome;
    record_observed(unread, area, observed_before);
    unread.record(area, changes, Origin::Local);
    if pending {
        Err(Error::Pending)
    } else {
        Ok(())
    }
}

/// Which Backend holds a Store's Files.
#[derive(Debug, Clone, Copy, PartialEq, Eq, Structural)]
pub enum BackendKind {
    /// The filesystem.
    Fs,
    /// Process memory.
    Memory,
    /// SQLite.
    Sqlite,
}

impl BackendKind {
    /// Whether the Backend gives Snapshots: the filesystem can't read a moment's state of an
    /// Area while other programs change it.
    pub fn supports_snapshots(self) -> (supported: bool)
        ensures
            supported == (self != BackendKind::Fs),
    {
        match self {
            BackendKind::Fs => false,
            _ => true,
        }
    }

    /// Refuses a Snapshot on a Backend that doesn't give them, with [`Error::Unsupported`].
    pub fn check_snapshots(self) -> (checked: Result<(), Error>)
        ensures
            checked is Ok <==> self != BackendKind::Fs,
            checked matches Err(error) ==> error is Unsupported,
    {
        if self.supports_snapshots() {
            Ok(())
        } else {
            Err(Error::Unsupported)
        }
    }
}

} // verus!
