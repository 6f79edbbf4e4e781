//! What a Store on SQLite reads from the change log, which Commits by every Store on the same
//! databases go into: each Commit's Changes, in the order they were made.

use vstd::prelude::*;

use crate::change::{ChangeKind, Origin, RawChange};
use crate::commit::{Observed, raw_view};
use crate::path::Path;

verus! {

/// A row of the change log: the Commit's place in the log, the Store instance that made it, a
/// Path it changed, and whether it removed the File there.
#[derive(Debug)]
pub struct LogRow {
    pub id: i64,
    pub store: i64,
    pub path: Path,
    pub removed: bool,
}

/// An [`Observed`] as values.
pub enum ObservedView {
    Changes(Origin, Seq<(Seq<char>, ChangeKind)>),
    Missed,
}

/// An [`Observed`] as values.
pub open spec fn observed_view(observed: Observed) -> ObservedView {
    match observed {
        Observed::Changes { origin, changes } => ObservedView::Changes(origin, raw_view(changes@)),
        Observed::Missed => ObservedView::Missed,
    }
}

/// Each of `observed` as values.
pub open spec fn observed_views(observed: Seq<Observed>) -> Seq<ObservedView> {
    observed.map_values(|item: Observed| observed_view(item))
}

/// The Change a row records.
pub open spec fn row_change(row: LogRow) -> (Seq<char>, ChangeKind) {
    (row.path@, if row.removed {
        ChangeKind::Removed
    } else {
        ChangeKind::Changed
    })
}

/// Who made the Commit of a row made by the Store instance `by`, as the Store instance `store`
/// sees it.
pub open spec fn origin_of(by: i64, store: i64) -> Origin {
    if by == store {
        Origin::Local
    } else {
        Origin::External
    }
}

/// The Commits `rows` record, each with its Changes in the order of the rows: a row starts a
/// Commit unless the row before it has the same place in the log.
pub open spec fn commits_of(rows: Seq<LogRow>, store: i64) -> Seq<ObservedView>
    decreases rows.len(),
{
    if rows.len() == 0 {
        Seq::empty()
    } else {
        let earlier = commits_of(rows.drop_last(), store);
        let row = rows.last();
        if rows.len() >= 2 && rows[rows.len() - 2].id == row.id {
            match earlier.last() {
                ObservedView::Changes(origin, changes) => earlier.update(
                    earlier.len() - 1,
                    ObservedView::Changes(origin, changes.push(row_change(row))),
                ),
                ObservedView::Missed => earlier,
            }
        } else {
            earlier.push(ObservedView::Changes(origin_of(row.store, store), seq![row_change(row)]))
        }
    }
}

/// Whether the first row of `rows` starts a Commit and each Commit has a Change.
proof fn lemma_commits_of_shape(rows: Seq<LogRow>, store: i64)
    ensures
        rows.len() == 0 <==> commits_of(rows, store).len() == 0,
        rows.len() > 0 ==> commits_of(rows, store).last() is Changes,
    decreases rows.len(),
{
    if rows.len() > 0 {
        lemma_commits_of_shape(rows.drop_last(), store);
    }
}

/// What reading the log gives: that Changes were missed, first, if the log was pruned past
/// `seen`, the last Commit read before; then each Commit `rows` record.
pub open spec fn log_read(rows: Seq<LogRow>, store: i64, seen: i64, pruned: i64) -> Seq<ObservedView> {
    if pruned > seen {
        seq![ObservedView::Missed] + commits_of(rows, store)
    } else {
        commits_of(rows, store)
    }
}

/// The Commits rows record are never a miss.
proof fn lemma_commits_are_changes(rows: Seq<LogRow>, store: i64)
    ensures
        forall|i: int| 0 <= i < commits_of(rows, store).len() ==> #[trigger] commits_of(rows, store)[i] is Changes,
    decreases rows.len(),
{
    if rows.len() > 0 {
        lemma_commits_are_changes(rows.drop_last(), store);
        let earlier = commits_of(rows.drop_last(), store);
        let all = commits_of(rows, store);
        let row = rows.last();
        if rows.len() >= 2 && rows[rows.len() - 2].id == row.id {
            assert(earlier.len() > 0 && earlier.last() is Changes) by {
                lemma_commits_of_shape(rows.drop_last(), store);
            }
            assert forall|i: int| 0 <= i < all.len() implies #[trigger] all[i] is Changes by {
                if i < earlier.len() - 1 {
                    assert(all[i] == earlier[i]);
                }
            }
        } else {
            assert forall|i: int| 0 <= i < all.len() implies #[trigger] all[i] is Changes by {
                if i < earlier.len() {
                    assert(all[i] == earlier[i]);
                }
            }
        }
    }
}

/// Reading the log gives that Changes were missed exactly when it was pruned past the last Commit
/// read, `seen`, whatever rows follow, and then first, before any Commit; otherwise only Commits.
pub proof fn law_a_log_pruned_past_what_was_read_is_missed_first(
    rows: Seq<LogRow>,
    store: i64,
    seen: i64,
    pruned: i64,
)
    ensures
        pruned > seen ==> log_read(rows, store, seen, pruned).len() > 0 && log_read(rows, store, seen, pruned)[0]
            is Missed,
        forall|i: int| 0 <= i < log_read(rows, store, seen, pruned).len() ==> (#[trigger] log_read(
            rows,
            store,
            seen,
            pruned,
        )[i] is Missed <==> (i == 0 && pruned > seen)),
{
    lemma_commits_are_changes(rows, store);
    if pruned > seen {
        let read = log_read(rows, store, seen, pruned);
        assert forall|i: int| 0 < i < read.len() implies #[trigger] read[i] is Changes by {
            assert(read[i] == commits_of(rows, store)[i - 1]);
        }
    }
}

/// Every Change in `observed`, in order.
pub open spec fn changes_in(observed: Seq<ObservedView>) -> Seq<(Seq<char>, ChangeKind)>
    decreases observed.len(),
{
    if observed.len() == 0 {
        Seq::empty()
    } else {
        changes_in(observed.drop_last()) + match observed.last() {
            ObservedView::Changes(_, changes) => changes,
            ObservedView::Missed => Seq::empty(),
        }
    }
}

/// How many of `rows` start a Commit: the first, and each whose place in the log differs from the
/// row before it.
pub open spec fn commit_starts(rows: Seq<LogRow>) -> nat {
    Set::new(|i: int| 0 <= i < rows.len() && (i == 0 || rows[i - 1].id != rows[i].id)).len()
}

/// The rows that start a Commit among the first `count` of `rows`.
spec fn starts_below(rows: Seq<LogRow>, count: int) -> Set<int> {
    Set::new(|i: int| 0 <= i < count && (i == 0 || rows[i - 1].id != rows[i].id))
}

/// One more row adds itself to the rows that start a Commit if it starts one.
proof fn lemma_starts_below(rows: Seq<LogRow>, count: int)
    requires
        0 < count <= rows.len(),
    ensures
        starts_below(rows, count - 1).finite(),
        starts_below(rows, count).finite(),
        starts_below(rows, count).len() == starts_below(rows, count - 1).len() + if count - 1 == 0 || rows[count
            - 2].id != rows[count - 1].id {
            1int
        } else {
            0int
        },
    decreases count,
{
    let below = starts_below(rows, count - 1);
    let all = starts_below(rows, count);
    assert(below.subset_of(Set::new(|i: int| 0 <= i < count - 1)));
    vstd::set_lib::lemma_int_range(0, count - 1);
    assert(Set::new(|i: int| 0 <= i < count - 1) =~= vstd::set_lib::set_int_range(0, count - 1));
    vstd::set_lib::lemma_len_subset(below, vstd::set_lib::set_int_range(0, count - 1));
    if count - 1 == 0 || rows[count - 2].id != rows[count - 1].id {
        assert(all =~= below.insert(count - 1));
    } else {
        assert(all =~= below);
    }
}

/// The rows that start a Commit, counted over the first `count` rows, as they are over a prefix.
proof fn lemma_starts_of_prefix(rows: Seq<LogRow>, count: int)
    requires
        0 <= count <= rows.len(),
    ensures
        starts_below(rows, count) == starts_below(rows.subrange(0, count), count),
{
    assert(starts_below(rows, count) =~= starts_below(rows.subrange(0, count), count));
}

/// Reading the log gives each row's Change once, in the order of the rows, grouped into one Commit
/// for each run of rows with the same place in the log, none of them empty.
pub proof fn law_each_row_is_read_once_in_order(rows: Seq<LogRow>, store: i64)
    ensures
        changes_in(commits_of(rows, store)) == rows.map_values(|row: LogRow| row_change(row)),
        commits_of(rows, store).len() == commit_starts(rows),
        forall|k: int| 0 <= k < commits_of(rows, store).len() ==> (#[trigger] commits_of(rows, store)[k] matches ObservedView::Changes(_, changes) && changes.len() > 0),
    decreases rows.len(),
{
    assert(commit_starts(rows) == starts_below(rows, rows.len() as int).len());
    if rows.len() == 0 {
        assert(rows.map_values(|row: LogRow| row_change(row)) =~= Seq::<(Seq<char>, ChangeKind)>::empty());
        assert(starts_below(rows, 0) =~= Set::<int>::empty());
    } else {
        let rest = rows.drop_last();
        law_each_row_is_read_once_in_order(rest, store);
        lemma_commits_of_shape(rest, store);
        lemma_starts_below(rows, rows.len() as int);
        lemma_starts_of_prefix(rows, rows.len() - 1);
        assert(rows.subrange(0, rows.len() - 1) =~= rest);
        assert(commit_starts(rest) == starts_below(rest, rest.len() as int).len());
        let earlier = commits_of(rest, store);
        let all = commits_of(rows, store);
        let row = rows.last();
        assert(rows.map_values(|row: LogRow| row_change(row)) =~= rest.map_values(|row: LogRow| row_change(row)).push(
            row_change(row),
        ));
        if rows.len() >= 2 && rows[rows.len() - 2].id == row.id {
            let last = earlier.last();
            assert(last is Changes);
            let origin = last->Changes_0;
            let changes = last->Changes_1;
            assert(all == earlier.update(earlier.len() - 1, ObservedView::Changes(origin, changes.push(row_change(row)))));
            assert(all.drop_last() =~= earlier.drop_last());
            assert(changes_in(earlier) == changes_in(earlier.drop_last()) + changes);
            assert(changes_in(all) == changes_in(earlier.drop_last()) + changes.push(row_change(row)));
            assert(changes_in(all) =~= changes_in(earlier).push(row_change(row)));
            assert forall|k: int| 0 <= k < all.len() implies (#[trigger] all[k] matches ObservedView::Changes(_, c) && c.len() > 0) by {
                if k < earlier.len() - 1 {
                    assert(all[k] == earlier[k]);
                }
            }
        } else {
            assert(all == earlier.push(ObservedView::Changes(origin_of(row.store, store), seq![row_change(row)])));
            assert(all.drop_last() =~= earlier);
            assert(changes_in(all) =~= changes_in(earlier) + seq![row_change(row)]);
            assert forall|k: int| 0 <= k < all.len() implies (#[trigger] all[k] matches ObservedView::Changes(_, c) && c.len() > 0) by {
                if k < earlier.len() {
                    assert(all[k] == earlier[k]);
                }
            }
        }
    }
}

/// A Commit is local exactly when this Store instance made it: a log whose rows were all made by
/// `store` gives only local Commits, and one whose rows were all made by others only external ones.
pub proof fn law_commits_are_local_exactly_when_this_store_made_them(rows: Seq<LogRow>, store: i64)
    ensures
        (forall|i: int| 0 <= i < rows.len() ==> #[trigger] rows[i].store == store) ==> forall|k: int|
            0 <= k < commits_of(rows, store).len() ==> (#[trigger] commits_of(rows, store)[k] matches ObservedView::Changes(origin, _) && origin == Origin::Local),
        (forall|i: int| 0 <= i < rows.len() ==> #[trigger] rows[i].store != store) ==> forall|k: int|
            0 <= k < commits_of(rows, store).len() ==> (#[trigger] commits_of(rows, store)[k] matches ObservedView::Changes(origin, _) && origin == Origin::External),
    decreases rows.len(),
{
    if rows.len() > 0 {
        let rest = rows.drop_last();
        law_commits_are_local_exactly_when_this_store_made_them(rest, store);
        lemma_commits_of_shape(rest, store);
        law_each_row_is_read_once_in_order(rest, store);
        let earlier = commits_of(rest, store);
        let all = commits_of(rows, store);
        let row = rows.last();
        assert(row == rows[rows.len() - 1]);
        assert((forall|i: int| 0 <= i < rows.len() ==> #[trigger] rows[i].store == store) ==> forall|i: int|
            0 <= i < rest.len() ==> #[trigger] rest[i].store == store) by {
            assert forall|i: int| 0 <= i < rest.len() implies rest[i] == rows[i] by {}
        }
        assert((forall|i: int| 0 <= i < rows.len() ==> #[trigger] rows[i].store != store) ==> forall|i: int|
            0 <= i < rest.len() ==> #[trigger] rest[i].store != store) by {
            assert forall|i: int| 0 <= i < rest.len() implies rest[i] == rows[i] by {}
        }
        if rows.len() >= 2 && rows[rows.len() - 2].id == row.id {
            let last = earlier.last();
            assert(last is Changes);
            assert(all == earlier.update(earlier.len() - 1, ObservedView::Changes(last->Changes_0, last->Changes_1.push(row_change(row)))));
            assert forall|k: int| 0 <= k < all.len() implies (#[trigger] all[k]) == if k == earlier.len() - 1 {
                ObservedView::Changes(earlier[k]->Changes_0, last->Changes_1.push(row_change(row)))
            } else {
                earlier[k]
            } by {}
        } else {
            assert(all == earlier.push(ObservedView::Changes(origin_of(row.store, store), seq![row_change(row)])));
            assert forall|k: int| 0 <= k < earlier.len() implies (#[trigger] all[k]) == earlier[k] by {}
        }
    }
}

/// The last Commit read once `rows` are: the last row's, or where the log was pruned through.
pub open spec fn last_read(rows: Seq<LogRow>, seen: i64, pruned: i64) -> i64 {
    if rows.len() > 0 {
        rows.last().id
    } else if pruned > seen {
        pruned
    } else {
        seen
    }
}

/// Groups `rows`, read from the change log after the Commit `seen` in order of place and Path,
/// into Commits, and moves `seen` to the last Commit read. A Commit is local if the Store
/// instance `store` made it. If the log was pruned through `pruned`, past `seen`, what was pruned
/// is missed, which comes first.
pub fn group_log(rows: Vec<LogRow>, store: i64, seen: &mut i64, pruned: i64) -> (observed: Vec<Observed>)
    ensures
        observed_views(observed@) == log_read(rows@, store, *old(seen), pruned),
        *final(seen) == last_read(rows@, *old(seen), pruned),
{
    let ghost all = rows@;
    let mut observed: Vec<Observed> = Vec::new();
    if pruned > *seen {
        observed.push(Observed::Missed);
        *seen = pruned;
    }
    let ghost before = observed_views(observed@);
    proof {
        assert(all.subrange(0, 0) =~= Seq::<LogRow>::empty());
        assert(observed_views(observed@) =~= log_read(all.subrange(0, 0), store, *old(seen), pruned));
    }
    let mut turned = crate::commit::reversed(rows);
    let mut current: Vec<RawChange> = Vec::new();
    let mut current_origin = Origin::Local;
    let mut started = false;
    let mut i: usize = 0;
    let n = turned.len();
    while turned.len() > 0
        invariant
            n == all.len(),
            i + turned@.len() == n,
            forall|k: int| 0 <= k < turned@.len() ==> #[trigger] turned@[k] == all[n - 1 - k],
            before == if pruned > *old(seen) {
                seq![ObservedView::Missed]
            } else {
                Seq::<ObservedView>::empty()
            },
            started == (i > 0),
            started ==> *seen == all[i - 1].id,
            !started ==> *seen == if pruned > *old(seen) {
                pruned
            } else {
                *old(seen)
            },
            (if started {
                observed_views(observed@).push(ObservedView::Changes(current_origin, raw_view(current@)))
            } else {
                observed_views(observed@)
            }) == before + commits_of(all.subrange(0, i as int), store),
        decreases turned@.len(),
    {
        let ghost earlier = all.subrange(0, i as int);
        let ghost old_observed = observed_views(observed@);
        let ghost old_current = raw_view(current@);
        let row = turned.pop().unwrap();
        proof {
            assert(row == all[i as int]);
            assert(all.subrange(0, i + 1).drop_last() =~= earlier);
            assert(all.subrange(0, i + 1).last() == row);
            lemma_commits_of_shape(earlier, store);
        }
        let kind = if row.removed {
            ChangeKind::Removed
        } else {
            ChangeKind::Changed
        };
        if started && row.id == *seen {
            current.push(RawChange { path: row.path, kind });
            proof {
                assert(all.subrange(0, i + 1)[i - 1] == all[i - 1]);
                assert(raw_view(current@) =~= old_current.push(row_change(row)));
                let whole = before + commits_of(earlier, store);
                assert(whole == old_observed.push(ObservedView::Changes(current_origin, old_current)));
                let found = commits_of(earlier, store);
                assert(whole.last() == found.last());
                assert(found.last() == ObservedView::Changes(current_origin, old_current));
                let rows = all.subrange(0, i + 1);
                assert(rows[rows.len() - 2].id == row.id);
                assert(rows.drop_last() == earlier);
                assert(commits_of(rows, store) == found.update(
                    found.len() - 1,
                    ObservedView::Changes(current_origin, old_current.push(row_change(row))),
                ));
                assert(commits_of(all.subrange(0, i + 1), store) =~= commits_of(earlier, store).update(
                    commits_of(earlier, store).len() - 1,
                    ObservedView::Changes(current_origin, old_current.push(row_change(row))),
                ));
                let next = ObservedView::Changes(current_origin, old_current.push(row_change(row)));
                assert(found.len() >= 1);
                assert(before + found.update(found.len() - 1, next) =~= whole.update(whole.len() - 1, next));
                assert(whole.update(whole.len() - 1, next) =~= old_observed.push(next));
                assert(observed_views(observed@) == old_observed);
                assert(observed_views(observed@).push(ObservedView::Changes(current_origin, raw_view(current@)))
                    =~= before + commits_of(all.subrange(0, i + 1), store));
            }
        } else {
            if started {
                let mut done: Vec<RawChange> = Vec::new();
                std::mem::swap(&mut done, &mut current);
                observed.push(Observed::Changes { origin: current_origin, changes: done });
                proof {
                    assert(observed_views(observed@) =~= old_observed.push(ObservedView::Changes(current_origin, old_current)));
                }
            } else {
                proof {
                    assert(earlier =~= Seq::<LogRow>::empty());
                }
            }
            current = vec![RawChange { path: row.path, kind }];
            current_origin = if row.store == store {
                Origin::Local
            } else {
                Origin::External
            };
            *seen = row.id;
            proof {
                assert(raw_view(current@) =~= seq![row_change(row)]);
                if i > 0 {
                    assert(all.subrange(0, i + 1)[i - 1] == all[i - 1]);
                }
                assert(observed_views(observed@).push(ObservedView::Changes(current_origin, raw_view(current@)))
                    =~= before + commits_of(all.subrange(0, i + 1), store));
            }
            started = true;
        }
        i = i + 1;
    }
    proof {
        assert(all.subrange(0, i as int) =~= all);
    }
    if started {
        let ghost old_observed = observed_views(observed@);
        observed.push(Observed::Changes { origin: current_origin, changes: current });
        proof {
            assert(observed_views(observed@) =~= old_observed.push(ObservedView::Changes(current_origin, raw_view(current@))));
        }
    }
    proof {
        if !started {
            assert(all =~= Seq::<LogRow>::empty());
            assert(before + commits_of(all, store) =~= before);
        }
    }
    observed
}

} // verus!
