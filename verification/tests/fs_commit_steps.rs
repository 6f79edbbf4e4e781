use tidings::fs_commit::{FsAction, FsCommit, FsEvent, There, deletes_now};
use tidings::journal::JournalState;
use tidings::{Error, FailurePoint, Revision};

fn is(action: &FsAction, expected: &str) -> bool {
    format!("{action:?}") == expected
}

fn stopped_at(action: &FsAction, point: &str) -> bool {
    match action {
        FsAction::End(Err(Error::Backend { message })) => {
            message == &format!("the Commit stopped at the failure point {point}")
        }
        _ => false,
    }
}

#[test]
fn a_commit_that_only_deletes_writes_its_journal_once_as_committed() {
    let (mut commit, first) = FsCommit::commit(0, None);
    assert!(is(&first, "WriteCommitted"));
    assert!(is(&commit.next(FsEvent::Done), "Delete"));
    assert!(is(&commit.next(FsEvent::Done), "Close"));
    assert!(matches!(commit.next(FsEvent::Done), FsAction::End(Ok(()))));
}

#[test]
fn a_commit_makes_its_steps_in_order() {
    let (mut commit, first) = FsCommit::commit(2, None);
    let mut steps = vec![format!("{first:?}")];
    loop {
        let next = commit.next(FsEvent::Done);
        steps.push(format!("{next:?}"));
        if matches!(next, FsAction::End(_)) {
            break;
        }
    }
    assert_eq!(
        steps,
        [
            "WritePrepared",
            "WriteTemporary(0)",
            "WriteTemporary(1)",
            "WriteCommitted",
            "Delete",
            "Rename(0)",
            "Rename(1)",
            "Close",
            "End(Ok(()))",
        ],
    );
}

#[test]
fn a_commit_stops_at_its_failure_point() {
    let (mut commit, _) = FsCommit::commit(2, Some(FailurePoint::AfterTemporaryFile(0)));
    assert!(is(&commit.next(FsEvent::Done), "WriteTemporary(0)"));
    assert!(stopped_at(&commit.next(FsEvent::Done), "AfterTemporaryFile(0)"));

    let (mut commit, _) = FsCommit::commit(1, Some(FailurePoint::AfterPreparedJournal));
    assert!(stopped_at(&commit.next(FsEvent::Done), "AfterPreparedJournal"));

    let (mut commit, _) = FsCommit::commit(0, Some(FailurePoint::AfterDeletes));
    assert!(is(&commit.next(FsEvent::Done), "Delete"));
    assert!(stopped_at(&commit.next(FsEvent::Done), "AfterDeletes"));

    let (mut commit, _) = FsCommit::commit(1, Some(FailurePoint::AfterRename(0)));
    for expected in ["WriteTemporary(0)", "WriteCommitted", "Delete", "Rename(0)"] {
        assert!(is(&commit.next(FsEvent::Done), expected));
    }
    assert!(stopped_at(&commit.next(FsEvent::Done), "AfterRename(0)"));
}

#[test]
fn a_temporary_file_that_fails_discards_the_commit() {
    let (mut commit, _) = FsCommit::commit(2, None);
    assert!(is(&commit.next(FsEvent::Done), "WriteTemporary(0)"));
    let failed = Error::Backend { message: "disk full".to_owned() };
    assert!(is(&commit.next(FsEvent::Failed(failed)), "Discard"));
    match commit.next(FsEvent::Done) {
        FsAction::End(Err(Error::Backend { message })) => assert_eq!(message, "disk full"),
        other => panic!("the discard should give the failure, got {other:?}"),
    }
}

#[test]
fn a_committed_journal_that_reports_an_error_still_finishes() {
    let (mut commit, _) = FsCommit::commit(0, Some(FailurePoint::CommittedJournalFails));
    let error = Error::Backend { message: "sync failed".to_owned() };
    assert!(is(&commit.next(FsEvent::CommittedDespite(error)), "Delete"));
}

#[test]
fn a_rename_that_fails_once_is_tried_again() {
    let (mut commit, _) = FsCommit::commit(2, Some(FailurePoint::RenameFails { n: 1, times: 1 }));
    for expected in ["WriteTemporary(0)", "WriteTemporary(1)", "WriteCommitted", "Delete", "Rename(0)"] {
        assert!(is(&commit.next(FsEvent::Done), expected));
    }
    assert!(is(&commit.next(FsEvent::Done), "Wait"));
    assert!(is(&commit.next(FsEvent::Done), "Rename(1)"));
    assert!(is(&commit.next(FsEvent::Done), "Close"));
    assert!(matches!(commit.next(FsEvent::Done), FsAction::End(Ok(()))));
}

#[test]
fn a_rename_that_keeps_failing_leaves_the_commit_pending() {
    let failing = FailurePoint::RenameFails { n: 0, times: usize::MAX };
    let (mut commit, _) = FsCommit::commit(1, Some(failing));
    for expected in ["WriteTemporary(0)", "WriteCommitted", "Delete"] {
        assert!(is(&commit.next(FsEvent::Done), expected));
    }
    let mut waits = 0;
    loop {
        match commit.next(FsEvent::Done) {
            FsAction::Wait => waits += 1,
            FsAction::End(Err(Error::Pending)) => break,
            other => panic!("expected a wait or Pending, got {other:?}"),
        }
    }
    assert_eq!(waits, tidings::fs_commit::RENAME_TRIES - 1);

    let (mut commit, _) = FsCommit::commit(0, None);
    assert!(is(&commit.next(FsEvent::Done), "Delete"));
    let error = Error::Backend { message: "busy".to_owned() };
    assert!(matches!(commit.next(FsEvent::Failed(error)), FsAction::End(Err(Error::Pending))));
}

#[test]
fn a_commit_left_in_the_journal_is_finished_or_discarded() {
    let (mut discarding, first) = FsCommit::recover(JournalState::Prepared, 2, None);
    assert!(is(&first, "Discard"));
    assert!(matches!(discarding.next(FsEvent::Done), FsAction::End(Ok(()))));

    let failing = FailurePoint::AfterDeletes;
    let (mut finishing, first) = FsCommit::recover(JournalState::Committed, 2, Some(failing));
    assert!(is(&first, "Delete"));
    assert!(is(&finishing.next(FsEvent::Done), "Rename(0)"));
    assert!(is(&finishing.next(FsEvent::Gone), "Rename(1)"));
    assert!(is(&finishing.next(FsEvent::Done), "Close"));
    assert!(matches!(finishing.next(FsEvent::Done), FsAction::End(Ok(()))));

    let failing = FailurePoint::RenameFails { n: 0, times: usize::MAX };
    let (mut finishing, _) = FsCommit::recover(JournalState::Committed, 1, Some(failing));
    let mut ended = finishing.next(FsEvent::Done);
    while matches!(ended, FsAction::Wait) {
        ended = finishing.next(FsEvent::Done);
    }
    let expected = "RenameFails { n: 0, times: 18446744073709551615 }";
    if usize::BITS == 64 {
        assert!(stopped_at(&ended, expected), "{ended:?}");
    }
}

#[test]
fn finishing_again_deletes_only_the_file_the_commit_deletes() {
    let planned = Revision::of("old");
    let other = Revision::of("other");
    assert!(deletes_now(There::File, false, None, planned));
    assert!(deletes_now(There::File, true, Some(planned), planned));
    assert!(!deletes_now(There::File, true, Some(other), planned));
    assert!(!deletes_now(There::File, true, None, planned));
    assert!(!deletes_now(There::Directory, false, None, planned));
    assert!(!deletes_now(There::Nothing, false, None, planned));
}

fn on_disk(name: &str, file: &str) -> (tidings::Path, Vec<char>) {
    (tidings::Path::new(name).unwrap(), file.chars().collect())
}

#[test]
fn two_paths_that_are_the_same_file_are_refused() {
    let apart = vec![on_disk("a", "/area/a"), on_disk("b", "/area/b")];
    assert!(tidings::fs_commit::refuse_same_files(&apart).is_ok());
    let linked = vec![on_disk("a", "/area/b"), on_disk("b", "/area/b"), on_disk("c", "/area/b")];
    match tidings::fs_commit::refuse_same_files(&linked) {
        Err(Error::InvalidPath { path, reason }) => {
            assert_eq!(path, "b");
            assert_eq!(reason, tidings::InvalidPathReason::SameFile);
        }
        other => panic!("expected a refusal, got {other:?}"),
    }
}
