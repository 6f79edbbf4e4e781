//! The steps of a Commit on the filesystem, in the order that keeps it all-or-nothing: the journal
//! as `prepared`, each temporary file, the journal as `committed`, then the deletes and the
//! renames, and last the journal's removal. A Commit a crash left in the journal is finished or
//! discarded with the same steps.
//!
//! The Backend makes each step on disk and says how it went; [`FsCommit::next`] says what comes
//! next. If any step before the journal is committed fails, the Commit is discarded, and nothing
//! was written. Once it is committed the Commit has happened: if a step after that keeps failing,
//! the Commit gives [`Error::Pending`] and is finished later.

use vstd::prelude::*;

use crate::error::Error;
use crate::path::{InvalidPathReason, Path, same_chars};
use crate::journal::JournalState;
use crate::options::{FailurePoint, stop_at, stopped_message};
use crate::revision::Revision;

verus! {

/// How many times a rename is tried, a moment apart, before finishing is left for later.
pub const RENAME_TRIES: usize = 5;

/// What is on disk where a File a Commit deletes was.
#[derive(Debug, Clone, Copy, PartialEq, Eq, Structural)]
pub enum There {
    /// Nothing.
    Nothing,
    /// A directory, which one of the Commit's writes made.
    Directory,
    /// A file, or a symlink.
    File,
}

/// Whether finishing a Commit deletes what is `there` at a Path the Commit deletes, where the File
/// had the Revision `planned` when the Commit was planned, and has `current` now. Finishing
/// `again`, after a crash part way through, deletes a File only if it is still the one the Commit
/// deletes, so that a File moved onto the Path since is left alone.
pub fn deletes_now(there: There, again: bool, current: Option<Revision>, planned: Revision) -> (deletes: bool)
    ensures
        deletes == (there == There::File && (!again || current == Some(planned))),
{
    match there {
        There::File => if !again {
            true
        } else {
            match current {
                Some(current) => current == planned,
                None => false,
            }
        },
        _ => false,
    }
}

/// Where a filesystem Commit is: the step it is making.
#[derive(Debug, Clone, Copy, PartialEq, Eq, Structural)]
pub enum Stage {
    /// Writing the journal as `prepared`.
    Preparing,
    /// Writing the temporary file of the `n`th write.
    Writing(usize),
    /// Writing the journal as `committed`.
    Committing,
    /// Making the deletes, and removing the directories they empty.
    Deleting,
    /// Renaming the temporary file of the `n`th write over its File, on try `tries`, counting
    /// from 0, or waiting a moment before that try.
    Renaming { n: usize, tries: usize, waiting: bool },
    /// Forcing the changed directories to disk, and removing the journal.
    Closing,
    /// Removing the temporary files, and then the journal.
    Discarding,
    /// Done: nothing is left to do.
    Ended,
}

/// How a step went.
#[derive(Debug)]
pub enum FsEvent {
    /// It was made.
    Done,
    /// The temporary file to rename is gone: it was renamed already, before a crash.
    Gone,
    /// It failed, with this error.
    Failed(Error),
    /// Writing the journal as `committed` gave this error, but the journal reads as committed:
    /// the Commit has happened.
    CommittedDespite(Error),
}

/// What the Backend does next.
#[derive(Debug)]
pub enum FsAction {
    /// Write the journal as `prepared`.
    WritePrepared,
    /// Write the temporary file of the `n`th write, with the Commit's timestamp as its
    /// modification time, and force it to disk.
    WriteTemporary(usize),
    /// Write the journal as `committed`.
    WriteCommitted,
    /// Make the deletes, as [`deletes_now`] decides, and remove the directories they empty.
    Delete,
    /// Rename the temporary file of the `n`th write over its File, first making the directories
    /// it goes in, or say it is [`FsEvent::Gone`].
    Rename(usize),
    /// Wait a moment, then say it is done.
    Wait,
    /// Force each changed directory to disk, then remove the journal.
    Close,
    /// Remove each temporary file that is there, then the journal.
    Discard,
    /// Stop: the Commit, or the finishing, gives this.
    End(Result<(), Error>),
}

/// How a Commit, or finishing or discarding one, ends.
pub enum Ending {
    /// It succeeded.
    Finished,
    /// It gives this error.
    Gives(Error),
    /// It stopped at this failure point, giving [`Error::Backend`] with [`stopped_message`].
    Stopped(FailurePoint),
    /// It has happened, but isn't finished: [`Error::Pending`].
    Pending,
}

/// What comes next, as the contracts speak of it.
pub enum Next {
    WritePrepared,
    WriteTemporary(usize),
    WriteCommitted,
    Delete,
    Rename(usize),
    Wait,
    Close,
    Discard,
    End(Ending),
}

/// A Commit, or the finishing or discarding of one, on the filesystem.
#[derive(Debug)]
pub struct FsCommit {
    /// How many Files it writes: how many temporary files there are.
    pub writes: usize,
    /// Whether this finishes a Commit a crash interrupted.
    pub again: bool,
    /// Where it is made to fail, for tests of how an interrupted Commit is recovered.
    pub fail_at: Option<FailurePoint>,
    /// The step it is making.
    pub stage: Stage,
    /// The error a discard gives once it is done.
    pub failure: Option<Error>,
}

/// Whether the Commit has happened once `stage` is reached: its journal is committed.
pub open spec fn has_happened(stage: Stage) -> bool {
    match stage {
        Stage::Deleting | Stage::Renaming { .. } | Stage::Closing => true,
        _ => false,
    }
}

/// `state`, making the step `stage`.
pub open spec fn at(state: FsCommit, stage: Stage) -> FsCommit {
    FsCommit { stage, ..state }
}

/// Whether `fail_at` makes try `tries` of the `n`th rename fail.
pub open spec fn rename_fails(fail_at: Option<FailurePoint>, n: usize, tries: usize) -> bool {
    fail_at matches Some(FailurePoint::RenameFails { n: failing, times }) && failing == n && tries < times
}

/// What comes after try `tries` of the `n`th rename failed, for `cause`: another try after a
/// moment, or, after the last, the end.
pub open spec fn after_failed_rename(state: FsCommit, n: usize, tries: usize, cause: Ending) -> (FsCommit, Next) {
    if tries + 1 >= RENAME_TRIES {
        (at(state, Stage::Ended), Next::End(if state.again { cause } else { Ending::Pending }))
    } else {
        (at(state, Stage::Renaming { n, tries: (tries + 1) as usize, waiting: true }), Next::Wait)
    }
}

/// What comes when try `tries` of the `n`th rename is due.
pub open spec fn rename_try(state: FsCommit, n: usize, tries: usize) -> (FsCommit, Next) {
    if rename_fails(state.fail_at, n, tries) {
        after_failed_rename(state, n, tries, Ending::Stopped(state.fail_at->0))
    } else {
        (at(state, Stage::Renaming { n, tries, waiting: false }), Next::Rename(n))
    }
}

/// What comes once the renames from the `n`th on are due.
pub open spec fn renames_from(state: FsCommit, n: int) -> (FsCommit, Next) {
    if n < state.writes {
        rename_try(state, n as usize, 0)
    } else {
        (at(state, Stage::Closing), Next::Close)
    }
}

/// What comes once the deletes are made.
pub open spec fn after_deletes(state: FsCommit) -> (FsCommit, Next) {
    if !state.again && state.fail_at == Some(FailurePoint::AfterDeletes) {
        (at(state, Stage::Ended), Next::End(Ending::Stopped(FailurePoint::AfterDeletes)))
    } else {
        renames_from(state, 0)
    }
}

/// What comes once a step after the Commit happened fails with `error`.
pub open spec fn failed_after_it_happened(state: FsCommit, error: Error) -> (FsCommit, Next) {
    (at(state, Stage::Ended), Next::End(if state.again { Ending::Gives(error) } else { Ending::Pending }))
}

/// What comes once the temporary files from the `n`th on are due.
pub open spec fn temporaries_from(state: FsCommit, n: int) -> (FsCommit, Next) {
    if n < state.writes {
        (at(state, Stage::Writing(n as usize)), Next::WriteTemporary(n as usize))
    } else {
        (at(state, Stage::Committing), Next::WriteCommitted)
    }
}

/// The step after `state`'s, given how its step went: the next state, and what comes next.
pub open spec fn transition(state: FsCommit, event: FsEvent) -> (FsCommit, Next) {
    match state.stage {
        Stage::Preparing => match event {
            FsEvent::Done => if state.fail_at == Some(FailurePoint::AfterPreparedJournal) {
                (at(state, Stage::Ended), Next::End(Ending::Stopped(FailurePoint::AfterPreparedJournal)))
            } else {
                temporaries_from(state, 0)
            },
            FsEvent::Failed(error) | FsEvent::CommittedDespite(error) => (at(state, Stage::Ended), Next::End(Ending::Gives(error))),
            FsEvent::Gone => (state, Next::WritePrepared),
        },
        Stage::Writing(n) => match event {
            FsEvent::Done => if state.fail_at == Some(FailurePoint::AfterTemporaryFile(n)) {
                (at(state, Stage::Ended), Next::End(Ending::Stopped(FailurePoint::AfterTemporaryFile(n))))
            } else {
                temporaries_from(state, n + 1)
            },
            FsEvent::Failed(error) | FsEvent::CommittedDespite(error) => (
                FsCommit { stage: Stage::Discarding, failure: Some(error), ..state },
                Next::Discard,
            ),
            FsEvent::Gone => (state, Next::WriteTemporary(n)),
        },
        Stage::Committing => match event {
            FsEvent::Done | FsEvent::CommittedDespite(_) => if state.fail_at == Some(FailurePoint::AfterCommittedJournal) {
                (at(state, Stage::Ended), Next::End(Ending::Stopped(FailurePoint::AfterCommittedJournal)))
            } else {
                (at(state, Stage::Deleting), Next::Delete)
            },
            FsEvent::Failed(error) => (
                FsCommit { stage: Stage::Discarding, failure: Some(error), ..state },
                Next::Discard,
            ),
            FsEvent::Gone => (state, Next::WriteCommitted),
        },
        Stage::Deleting => match event {
            FsEvent::Failed(error) | FsEvent::CommittedDespite(error) => failed_after_it_happened(state, error),
            _ => after_deletes(state),
        },
        Stage::Renaming { n, tries, waiting } => if waiting {
            rename_try(state, n, tries)
        } else {
            match event {
                FsEvent::Done => if !state.again && state.fail_at == Some(FailurePoint::AfterRename(n)) {
                    (at(state, Stage::Ended), Next::End(Ending::Stopped(FailurePoint::AfterRename(n))))
                } else {
                    renames_from(state, n + 1)
                },
                FsEvent::Gone => renames_from(state, n + 1),
                FsEvent::Failed(error) | FsEvent::CommittedDespite(error) => after_failed_rename(
                    state,
                    n,
                    tries,
                    Ending::Gives(error),
                ),
            }
        },
        Stage::Closing => match event {
            FsEvent::Failed(error) | FsEvent::CommittedDespite(error) => failed_after_it_happened(state, error),
            _ => (at(state, Stage::Ended), Next::End(Ending::Finished)),
        },
        Stage::Discarding => (
            FsCommit { stage: Stage::Ended, failure: None, ..state },
            Next::End(match state.failure {
                Some(error) => Ending::Gives(error),
                None => match event {
                    FsEvent::Failed(error) | FsEvent::CommittedDespite(error) => Ending::Gives(error),
                    _ => Ending::Finished,
                },
            }),
        ),
        Stage::Ended => (state, Next::End(Ending::Finished)),
    }
}

/// Whether `ending` is how `result` ends a Commit.
pub open spec fn ends_as(result: Result<(), Error>, ending: Ending) -> bool {
    match ending {
        Ending::Finished => result is Ok,
        Ending::Gives(error) => result == Err::<(), Error>(error),
        Ending::Stopped(point) => result matches Err(Error::Backend { message }) && message@ == stopped_message(point),
        Ending::Pending => result matches Err(Error::Pending),
    }
}

/// Whether `action` is `next`.
pub open spec fn shows(action: FsAction, next: Next) -> bool {
    match (action, next) {
        (FsAction::WritePrepared, Next::WritePrepared) => true,
        (FsAction::WriteTemporary(n), Next::WriteTemporary(m)) => n == m,
        (FsAction::WriteCommitted, Next::WriteCommitted) => true,
        (FsAction::Delete, Next::Delete) => true,
        (FsAction::Rename(n), Next::Rename(m)) => n == m,
        (FsAction::Wait, Next::Wait) => true,
        (FsAction::Close, Next::Close) => true,
        (FsAction::Discard, Next::Discard) => true,
        (FsAction::End(result), Next::End(ending)) => ends_as(result, ending),
        _ => false,
    }
}

/// Nothing is deleted or renamed before the Commit has happened, and it happens only once its
/// journal is written as `committed`.
pub proof fn law_nothing_changes_before_the_commit_happens(state: FsCommit, event: FsEvent)
    ensures
        (transition(state, event).1 is Delete || transition(state, event).1 is Rename) ==> has_happened(
            transition(state, event).0.stage,
        ),
        !has_happened(state.stage) && has_happened(transition(state, event).0.stage) ==> state.stage
            == Stage::Committing && (event is Done || event is CommittedDespite),
{
}

/// A step that fails before the Commit has happened discards it, or ends it with that failure
/// where nothing was written yet: it is never left half made, and never `Pending`.
pub proof fn law_a_failure_before_the_commit_discards_it(state: FsCommit, error: Error)
    requires
        !has_happened(state.stage),
        state.stage != Stage::Ended,
    ensures
        transition(state, FsEvent::Failed(error)).1 is Discard || transition(
            state,
            FsEvent::Failed(error),
        ).1 matches Next::End(Ending::Gives(_)),
{
}

/// A step that fails once a Commit has happened never discards it: it is tried again after a
/// moment, or the Commit gives `Pending`, to be finished later.
pub proof fn law_a_failure_after_the_commit_leaves_it_pending(state: FsCommit, error: Error)
    requires
        !state.again,
        state.stage == Stage::Deleting || state.stage == Stage::Closing || state.stage matches Stage::Renaming {
            waiting: false,
            ..
        },
    ensures
        transition(state, FsEvent::Failed(error)).1 is Wait || transition(state, FsEvent::Failed(error)).1 matches Next::End(
            Ending::Pending,
        ),
{
}

/// A Commit stops at a failure point only where one was chosen.
pub proof fn law_stops_only_where_chosen(state: FsCommit, event: FsEvent, point: FailurePoint)
    requires
        transition(state, event).1 == Next::End(Ending::Stopped(point)),
    ensures
        state.fail_at == Some(point),
{
}

/// A discard ends giving the failure that made it.
pub proof fn law_a_discard_gives_its_cause(state: FsCommit, event: FsEvent, error: Error)
    requires
        state.stage == Stage::Discarding,
        state.failure == Some(error),
    ensures
        transition(state, event).1 == Next::End(Ending::Gives(error)),
{
}

/// What comes next after each of `steps` steps from `state`, every one of them made.
pub open spec fn when_all_made(state: FsCommit, steps: nat) -> Seq<Next>
    decreases steps,
{
    if steps == 0 {
        Seq::empty()
    } else {
        seq![transition(state, FsEvent::Done).1] + when_all_made(
            transition(state, FsEvent::Done).0,
            (steps - 1) as nat,
        )
    }
}

/// Writing the temporary files from the `from`th up to, not including, the `to`th, in order.
pub open spec fn temporaries(from: int, to: int) -> Seq<Next> {
    Seq::new((to - from) as nat, |i: int| Next::WriteTemporary((from + i) as usize))
}

/// Renaming the temporary files from the `from`th up to, not including, the `to`th, in order.
pub open spec fn renames(from: int, to: int) -> Seq<Next> {
    Seq::new((to - from) as nat, |i: int| Next::Rename((from + i) as usize))
}

/// Where every step is made, the renames from the one after the `n`th on, then closing.
proof fn lemma_renames_all_made(state: FsCommit, n: usize)
    requires
        state.stage matches Stage::Renaming { n: m, waiting: false, .. } && m == n,
        n < state.writes,
        state.fail_at is None,
    ensures
        when_all_made(state, (state.writes - n + 1) as nat) == renames(n + 1, state.writes as int) + seq![
            Next::Close,
            Next::End(Ending::Finished),
        ],
    decreases state.writes - n,
{
    let after = transition(state, FsEvent::Done).0;
    let steps = (state.writes - n + 1) as nat;
    if n + 1 < state.writes {
        lemma_renames_all_made(after, (n + 1) as usize);
        assert(when_all_made(state, steps) == seq![Next::Rename((n + 1) as usize)] + when_all_made(
            after,
            (steps - 1) as nat,
        ));
        assert(renames(n + 1, state.writes as int) =~= seq![Next::Rename((n + 1) as usize)] + renames(
            n + 2,
            state.writes as int,
        ));
    } else {
        let closing = transition(after, FsEvent::Done).0;
        assert(when_all_made(closing, 0) == Seq::<Next>::empty());
        assert(when_all_made(after, 1) == seq![Next::End(Ending::Finished)]);
        assert(renames(n + 1, state.writes as int) =~= Seq::<Next>::empty());
    }
}

/// Finishing a committed Commit, where every step is made: the deletes, then each rename in
/// order, then closing, and it succeeds.
proof fn lemma_deletes_all_made(state: FsCommit)
    requires
        state.stage == Stage::Deleting,
        state.fail_at is None,
    ensures
        when_all_made(state, (state.writes + 2) as nat) == renames(0, state.writes as int) + seq![
            Next::Close,
            Next::End(Ending::Finished),
        ],
{
    let after = transition(state, FsEvent::Done).0;
    let steps = (state.writes + 2) as nat;
    if 0 < state.writes {
        lemma_renames_all_made(after, 0);
        assert(when_all_made(state, steps) == seq![Next::Rename(0)] + when_all_made(after, (steps - 1) as nat));
        assert(renames(0, state.writes as int) =~= seq![Next::Rename(0)] + renames(1, state.writes as int));
    } else {
        let closing = transition(after, FsEvent::Done).0;
        assert(when_all_made(closing, 0) == Seq::<Next>::empty());
        assert(when_all_made(after, 1) == seq![Next::End(Ending::Finished)]);
        assert(renames(0, state.writes as int) =~= Seq::<Next>::empty());
    }
}

/// Where every step is made from writing the journal as `committed` on.
proof fn lemma_committing_all_made(state: FsCommit)
    requires
        state.stage == Stage::Committing,
        state.fail_at is None,
    ensures
        when_all_made(state, (state.writes + 3) as nat) == seq![Next::Delete] + renames(0, state.writes as int)
            + seq![Next::Close, Next::End(Ending::Finished)],
{
    let after = transition(state, FsEvent::Done).0;
    lemma_deletes_all_made(after);
    assert(when_all_made(state, (state.writes + 3) as nat) == seq![Next::Delete] + when_all_made(
        after,
        (state.writes + 2) as nat,
    ));
    assert(seq![Next::Delete] + (renames(0, state.writes as int) + seq![Next::Close, Next::End(Ending::Finished)])
        =~= seq![Next::Delete] + renames(0, state.writes as int) + seq![Next::Close, Next::End(Ending::Finished)]);
}

/// Where every step is made from writing the `n`th temporary file on.
proof fn lemma_writing_all_made(state: FsCommit, n: usize)
    requires
        state.stage == Stage::Writing(n),
        n < state.writes,
        state.fail_at is None,
    ensures
        when_all_made(state, (state.writes - n + state.writes + 3) as nat) == temporaries(
            n + 1,
            state.writes as int,
        ) + seq![Next::WriteCommitted, Next::Delete] + renames(0, state.writes as int) + seq![
            Next::Close,
            Next::End(Ending::Finished),
        ],
    decreases state.writes - n,
{
    let after = transition(state, FsEvent::Done).0;
    let steps = (state.writes - n + state.writes + 3) as nat;
    let rest = renames(0, state.writes as int) + seq![Next::Close, Next::End(Ending::Finished)];
    if n + 1 < state.writes {
        lemma_writing_all_made(after, (n + 1) as usize);
        assert(when_all_made(state, steps) == seq![Next::WriteTemporary((n + 1) as usize)] + when_all_made(
            after,
            (steps - 1) as nat,
        ));
        assert(temporaries(n + 1, state.writes as int) =~= seq![Next::WriteTemporary((n + 1) as usize)]
            + temporaries(n + 2, state.writes as int));
        assert(seq![Next::WriteTemporary((n + 1) as usize)] + (temporaries(n + 2, state.writes as int) + seq![
            Next::WriteCommitted,
            Next::Delete,
        ] + renames(0, state.writes as int) + seq![Next::Close, Next::End(Ending::Finished)])
            =~= temporaries(n + 1, state.writes as int) + seq![Next::WriteCommitted, Next::Delete] + renames(
            0,
            state.writes as int,
        ) + seq![Next::Close, Next::End(Ending::Finished)]);
    } else {
        lemma_committing_all_made(after);
        assert(when_all_made(state, steps) == seq![Next::WriteCommitted] + when_all_made(
            after,
            (steps - 1) as nat,
        ));
        assert(temporaries(n + 1, state.writes as int) =~= Seq::<Next>::empty());
        assert(seq![Next::WriteCommitted] + (seq![Next::Delete] + renames(0, state.writes as int) + seq![
            Next::Close,
            Next::End(Ending::Finished),
        ]) =~= temporaries(n + 1, state.writes as int) + seq![Next::WriteCommitted, Next::Delete] + renames(
            0,
            state.writes as int,
        ) + seq![Next::Close, Next::End(Ending::Finished)]);
    }
}

/// A Commit that is not made to fail, and whose every step is made, after writing the journal
/// as `prepared` writes each temporary file in order, then the journal as `committed`; then it
/// makes the deletes, renames each temporary file over its File in order, closes, and succeeds.
/// One that only deletes starts at writing the journal as `committed`.
pub proof fn law_a_commit_whose_steps_are_all_made_succeeds(writes: usize)
    ensures
        when_all_made(
            FsCommit {
                writes,
                again: false,
                fail_at: None,
                stage: if writes == 0 { Stage::Committing } else { Stage::Preparing },
                failure: None,
            },
            if writes == 0 { 3 } else { (2 * writes + 4) as nat },
        ) == (if writes == 0 { Seq::empty() } else { temporaries(0, writes as int) + seq![Next::WriteCommitted] })
            + seq![Next::Delete] + renames(0, writes as int) + seq![Next::Close, Next::End(Ending::Finished)],
{
    let start = FsCommit {
        writes,
        again: false,
        fail_at: None,
        stage: if writes == 0 { Stage::Committing } else { Stage::Preparing },
        failure: None,
    };
    if writes == 0 {
        lemma_committing_all_made(start);
        assert(Seq::<Next>::empty() + seq![Next::Delete] =~= seq![Next::Delete]);
    } else {
        let after = transition(start, FsEvent::Done).0;
        lemma_writing_all_made(after, 0);
        assert(when_all_made(start, (2 * writes + 4) as nat) == seq![Next::WriteTemporary(0)] + when_all_made(
            after,
            (2 * writes + 3) as nat,
        ));
        assert(temporaries(0, writes as int) =~= seq![Next::WriteTemporary(0)] + temporaries(1, writes as int));
        assert(seq![Next::WriteTemporary(0)] + (temporaries(1, writes as int) + seq![Next::WriteCommitted, Next::Delete]
            + renames(0, writes as int) + seq![Next::Close, Next::End(Ending::Finished)]) =~= temporaries(
            0,
            writes as int,
        ) + seq![Next::WriteCommitted] + seq![Next::Delete] + renames(0, writes as int) + seq![
            Next::Close,
            Next::End(Ending::Finished),
        ]);
    }
}

/// Finishing again a Commit a crash left committed, where no failure is chosen and every step is
/// made, makes the deletes, renames each temporary file over its File in order, closes, and
/// succeeds.
pub proof fn law_finishing_a_committed_commit_whose_steps_are_all_made_succeeds(writes: usize)
    ensures
        when_all_made(
            FsCommit { writes, again: true, fail_at: None, stage: Stage::Deleting, failure: None },
            (writes + 2) as nat,
        ) == renames(0, writes as int) + seq![Next::Close, Next::End(Ending::Finished)],
{
    lemma_deletes_all_made(FsCommit { writes, again: true, fail_at: None, stage: Stage::Deleting, failure: None });
}

impl FsCommit {
    /// A Commit that writes `writes` Files, stopping at `fail_at` if that is one of its points,
    /// and its first step. A Commit that only deletes has no temporary files to keep track of, so
    /// its journal is written only once, as `committed`.
    pub fn commit(writes: usize, fail_at: Option<FailurePoint>) -> (started: (FsCommit, FsAction))
        ensures
            started.0 == (FsCommit {
                writes,
                again: false,
                fail_at,
                stage: if writes == 0 { Stage::Committing } else { Stage::Preparing },
                failure: None,
            }),
            shows(started.1, if writes == 0 { Next::WriteCommitted } else { Next::WritePrepared }),
    {
        if writes == 0 {
            (FsCommit { writes, again: false, fail_at, stage: Stage::Committing, failure: None }, FsAction::WriteCommitted)
        } else {
            (FsCommit { writes, again: false, fail_at, stage: Stage::Preparing, failure: None }, FsAction::WritePrepared)
        }
    }

    /// Finishing or discarding the Commit a crash left in the journal, which is in `state` and has
    /// `writes` temporary files, and its first step: a `prepared` one never happened, and is
    /// discarded; a `committed` one has, and is finished, again.
    pub fn recover(state: JournalState, writes: usize, fail_at: Option<FailurePoint>) -> (started: (FsCommit, FsAction))
        ensures
            started.0 == (FsCommit {
                writes,
                again: true,
                fail_at,
                stage: if state == JournalState::Prepared { Stage::Discarding } else { Stage::Deleting },
                failure: None,
            }),
            shows(started.1, if state == JournalState::Prepared { Next::Discard } else { Next::Delete }),
    {
        match state {
            JournalState::Prepared => (
                FsCommit { writes, again: true, fail_at, stage: Stage::Discarding, failure: None },
                FsAction::Discard,
            ),
            JournalState::Committed => (
                FsCommit { writes, again: true, fail_at, stage: Stage::Deleting, failure: None },
                FsAction::Delete,
            ),
        }
    }

    /// Ends, giving `result`.
    fn end(&mut self, result: Result<(), Error>) -> (action: FsAction)
        ensures
            *final(self) == at(*old(self), Stage::Ended),
            action == FsAction::End(result),
    {
        self.stage = Stage::Ended;
        FsAction::End(result)
    }

    /// Try `tries` of the `n`th rename is due.
    fn rename_try(&mut self, n: usize, tries: usize) -> (action: FsAction)
        ensures
            *final(self) == rename_try(*old(self), n, tries).0,
            shows(action, rename_try(*old(self), n, tries).1),
    {
        let fails = match self.fail_at {
            Some(FailurePoint::RenameFails { n: failing, times }) => failing == n && tries < times,
            _ => false,
        };
        if fails {
            let point = match self.fail_at {
                Some(point) => point,
                None => FailurePoint::AfterDeletes,
            };
            let stopped = match stop_at(point, self.fail_at) {
                Err(error) => error,
                Ok(()) => Error::Pending,
            };
            self.after_failed_rename(n, tries, stopped)
        } else {
            self.stage = Stage::Renaming { n, tries, waiting: false };
            FsAction::Rename(n)
        }
    }

    /// Try `tries` of the `n`th rename failed, with `error`.
    fn after_failed_rename(&mut self, n: usize, tries: usize, error: Error) -> (action: FsAction)
        ensures
            *final(self) == after_failed_rename(*old(self), n, tries, Ending::Gives(error)).0,
            shows(action, after_failed_rename(*old(self), n, tries, Ending::Gives(error)).1),
    {
        if tries >= RENAME_TRIES - 1 {
            if self.again {
                self.end(Err(error))
            } else {
                self.end(Err(Error::Pending))
            }
        } else {
            self.stage = Stage::Renaming { n, tries: tries + 1, waiting: true };
            FsAction::Wait
        }
    }

    /// The renames from the `n`th on are due.
    fn renames_from(&mut self, n: usize) -> (action: FsAction)
        requires
            n <= old(self).writes,
        ensures
            *final(self) == renames_from(*old(self), n as int).0,
            shows(action, renames_from(*old(self), n as int).1),
    {
        if n < self.writes {
            self.rename_try(n, 0)
        } else {
            self.stage = Stage::Closing;
            FsAction::Close
        }
    }

    /// The temporary files from the `n`th on are due.
    fn temporaries_from(&mut self, n: usize) -> (action: FsAction)
        ensures
            *final(self) == temporaries_from(*old(self), n as int).0,
            shows(action, temporaries_from(*old(self), n as int).1),
    {
        if n < self.writes {
            self.stage = Stage::Writing(n);
            FsAction::WriteTemporary(n)
        } else {
            self.stage = Stage::Committing;
            FsAction::WriteCommitted
        }
    }

    /// A step after the Commit happened failed, with `error`.
    fn failed_after_it_happened(&mut self, error: Error) -> (action: FsAction)
        ensures
            *final(self) == failed_after_it_happened(*old(self), error).0,
            shows(action, failed_after_it_happened(*old(self), error).1),
    {
        if self.again {
            self.end(Err(error))
        } else {
            self.end(Err(Error::Pending))
        }
    }

    /// What comes after the step being made went as `event` says.
    pub fn next(&mut self, event: FsEvent) -> (action: FsAction)
        ensures
            *final(self) == transition(*old(self), event).0,
            shows(action, transition(*old(self), event).1),
    {
        match self.stage {
            Stage::Preparing => match event {
                FsEvent::Done => match stop_at(FailurePoint::AfterPreparedJournal, self.fail_at) {
                    Err(error) => self.end(Err(error)),
                    Ok(()) => self.temporaries_from(0),
                },
                FsEvent::Failed(error) | FsEvent::CommittedDespite(error) => self.end(Err(error)),
                FsEvent::Gone => FsAction::WritePrepared,
            },
            Stage::Writing(n) => match event {
                FsEvent::Done => match stop_at(FailurePoint::AfterTemporaryFile(n), self.fail_at) {
                    Err(error) => self.end(Err(error)),
                    Ok(()) => if n < self.writes {
                        self.temporaries_from(n + 1)
                    } else {
                        self.stage = Stage::Committing;
                        FsAction::WriteCommitted
                    },
                },
                FsEvent::Failed(error) | FsEvent::CommittedDespite(error) => {
                    self.stage = Stage::Discarding;
                    self.failure = Some(error);
                    FsAction::Discard
                },
                FsEvent::Gone => FsAction::WriteTemporary(n),
            },
            Stage::Committing => match event {
                FsEvent::Done | FsEvent::CommittedDespite(_) => match stop_at(
                    FailurePoint::AfterCommittedJournal,
                    self.fail_at,
                ) {
                    Err(error) => self.end(Err(error)),
                    Ok(()) => {
                        self.stage = Stage::Deleting;
                        FsAction::Delete
                    },
                },
                FsEvent::Failed(error) => {
                    self.stage = Stage::Discarding;
                    self.failure = Some(error);
                    FsAction::Discard
                },
                FsEvent::Gone => FsAction::WriteCommitted,
            },
            Stage::Deleting => match event {
                FsEvent::Failed(error) | FsEvent::CommittedDespite(error) => self.failed_after_it_happened(error),
                _ => if self.again {
                    self.renames_from(0)
                } else {
                    match stop_at(FailurePoint::AfterDeletes, self.fail_at) {
                        Err(error) => self.end(Err(error)),
                        Ok(()) => self.renames_from(0),
                    }
                },
            },
            Stage::Renaming { n, tries, waiting } => if waiting {
                self.rename_try(n, tries)
            } else {
                match event {
                    FsEvent::Done => {
                        let stopped = if self.again {
                            Ok(())
                        } else {
                            stop_at(FailurePoint::AfterRename(n), self.fail_at)
                        };
                        match stopped {
                            Err(error) => self.end(Err(error)),
                            Ok(()) => if n < self.writes {
                                self.renames_from(n + 1)
                            } else {
                                self.stage = Stage::Closing;
                                FsAction::Close
                            },
                        }
                    },
                    FsEvent::Gone => if n < self.writes {
                        self.renames_from(n + 1)
                    } else {
                        self.stage = Stage::Closing;
                        FsAction::Close
                    },
                    FsEvent::Failed(error) | FsEvent::CommittedDespite(error) => self.after_failed_rename(
                        n,
                        tries,
                        error,
                    ),
                }
            },
            Stage::Closing => match event {
                FsEvent::Failed(error) | FsEvent::CommittedDespite(error) => self.failed_after_it_happened(error),
                _ => self.end(Ok(())),
            },
            Stage::Discarding => {
                let failure = self.failure.take();
                self.stage = Stage::Ended;
                match failure {
                    Some(error) => FsAction::End(Err(error)),
                    None => match event {
                        FsEvent::Failed(error) | FsEvent::CommittedDespite(error) => FsAction::End(Err(error)),
                        _ => FsAction::End(Ok(())),
                    },
                }
            },
            Stage::Ended => FsAction::End(Ok(())),
        }
    }
}

/// Whether the `j`th of `files`, each a Path a Commit changes with the file on disk it changes, is
/// the same file as one before it.
pub open spec fn shares_file(files: Seq<(Path, Vec<char>)>, j: int) -> bool {
    exists|i: int| 0 <= i < j && #[trigger] files[i].1@ == files[j].1@
}

/// Refuses a Commit two of whose Paths are the same file on disk, where `files` gives each Path
/// it changes, in order, with the file on disk it changes: for a write, the file it goes to
/// through any symlinks; for a delete, the name itself. One Path's change would undo or overwrite
/// the other's. It names the first Path that is the same file as one before it.
pub fn refuse_same_files(files: &Vec<(Path, Vec<char>)>) -> (result: Result<(), Error>)
    ensures
        match result {
            Ok(()) => forall|j: int| 0 <= j < files@.len() ==> !#[trigger] shares_file(files@, j),
            Err(error) => exists|j: int|
                0 <= j < files@.len() && #[trigger] shares_file(files@, j) && (forall|k: int|
                    0 <= k < j ==> !shares_file(files@, k)) && error.is_invalid_path(
                    files@[j].0@,
                    InvalidPathReason::SameFile,
                ),
        },
{
    let mut j: usize = 0;
    while j < files.len()
        invariant
            j <= files@.len(),
            forall|k: int| 0 <= k < j ==> !#[trigger] shares_file(files@, k),
        decreases files@.len() - j,
    {
        let mut i: usize = 0;
        while i < j
            invariant
                i <= j < files@.len(),
                forall|k: int| 0 <= k < j ==> !#[trigger] shares_file(files@, k),
                forall|x: int| 0 <= x < i ==> #[trigger] files@[x].1@ != files@[j as int].1@,
            decreases j - i,
        {
            if same_chars(&files[i].1, &files[j].1) {
                proof {
                    assert(shares_file(files@, j as int));
                }
                return Err(Error::InvalidPath {
                    path: String::from_str(files[j].0.as_str()),
                    reason: InvalidPathReason::SameFile,
                });
            }
            i = i + 1;
        }
        proof {
            assert(!shares_file(files@, j as int));
        }
        j = j + 1;
    }
    Ok(())
}

} // verus!
