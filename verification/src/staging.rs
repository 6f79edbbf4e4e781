//! Stagings: the writes and deletes a Commit makes to one Area, built before the Store is reached.

use vstd::prelude::*;

use crate::area::Area;
use crate::error::Error;
use crate::file::File;
use crate::path::{IntoPath, Path, is_path, path_refusal};
use crate::path_map::PathMap;
use crate::precondition::Precondition;
use crate::prefix::{IntoPrefix, Prefix, is_prefix, prefix_refusal, starts_with};
use crate::revision::{PrefixRevision, PrefixRevisionView};

verus! {

/// What a Staging does to one Path.
#[derive(Debug)]
pub enum Action {
    /// Writes the File with these contents.
    Write(String),
    /// Deletes the File, if there is one.
    Delete,
}

/// What an [`Action`] does, as a value.
pub enum ActionView {
    Write(Seq<char>),
    Delete,
}

impl View for Action {
    type V = ActionView;

    open spec fn view(&self) -> ActionView {
        match self {
            Action::Write(contents) => ActionView::Write(contents@),
            Action::Delete => ActionView::Delete,
        }
    }
}

/// Everything a Staging holds. The Staging builds it, and the Commit hands it to the Backend.
#[derive(Debug)]
pub struct Staged {
    pub area: Area,
    /// What to do to each Path. It wins over `prefix_deletes`, because anything staged under a
    /// Prefix before the Prefix delete was dropped from here.
    pub actions: PathMap<Action>,
    /// Prefixes to delete everything under, expanded when the Commit runs.
    pub prefix_deletes: Vec<Prefix>,
    /// What each File must be when the Commit is made, in the order they were staged.
    pub preconditions: Vec<(Path, Precondition)>,
    /// What everything under each Prefix must be when the Commit is made.
    pub prefix_preconditions: Vec<(Prefix, PrefixRevision)>,
}

/// What a [`Staged`] holds, as values.
pub struct StagedView {
    pub area: Area,
    pub actions: Map<Seq<char>, ActionView>,
    pub prefix_deletes: Seq<Seq<char>>,
    pub preconditions: Seq<(Seq<char>, Precondition)>,
    pub prefix_preconditions: Seq<(Seq<char>, PrefixRevisionView)>,
}

impl View for Staged {
    type V = StagedView;

    open spec fn view(&self) -> StagedView {
        StagedView {
            area: self.area,
            actions: self.actions.map().map_values(|action: Action| action@),
            prefix_deletes: self.prefix_deletes@.map_values(|prefix: Prefix| prefix@),
            preconditions: self.preconditions@.map_values(
                |required: (Path, Precondition)| (required.0@, required.1),
            ),
            prefix_preconditions: self.prefix_preconditions@.map_values(
                |required: (Prefix, PrefixRevision)| (required.0@, required.1@),
            ),
        }
    }
}

/// An owned set of staged writes and deletes for one Area. Nothing happens until it is committed.
///
/// A Staging is an ordinary value, built without the Store. Dropping it without committing
/// writes nothing.
#[derive(Debug)]
#[must_use]
pub struct Staging {
    staged: Staged,
}

impl View for Staging {
    type V = StagedView;

    closed spec fn view(&self) -> StagedView {
        self.staged@
    }
}

/// `staged` with `action` staged for `path`, replacing what was staged for it before.
pub open spec fn with_action(staged: StagedView, path: Seq<char>, action: ActionView) -> StagedView {
    StagedView { actions: staged.actions.insert(path, action), ..staged }
}

/// `staged` with a delete of everything under `prefix`, which replaces what was staged under it
/// before.
pub open spec fn with_prefix_delete(staged: StagedView, prefix: Seq<char>) -> StagedView {
    StagedView {
        actions: staged.actions.restrict(
            staged.actions.dom().filter(|key: Seq<char>| !starts_with(key, prefix)),
        ),
        prefix_deletes: staged.prefix_deletes.push(prefix),
        ..staged
    }
}

/// A Prefix delete replaces everything staged under the Prefix before it, keeps what is staged
/// elsewhere as it was, and is kept, after the Prefix deletes staged before it.
pub proof fn law_a_prefix_delete_replaces_what_was_staged_under_it(
    staged: StagedView,
    prefix: Seq<char>,
    key: Seq<char>,
)
    ensures
        starts_with(key, prefix) ==> !with_prefix_delete(staged, prefix).actions.contains_key(key),
        !starts_with(key, prefix) ==> (with_prefix_delete(staged, prefix).actions.contains_key(key)
            <==> staged.actions.contains_key(key)),
        !starts_with(key, prefix) && staged.actions.contains_key(key) ==> with_prefix_delete(
            staged,
            prefix,
        ).actions[key] == staged.actions[key],
        with_prefix_delete(staged, prefix).prefix_deletes.len() == staged.prefix_deletes.len() + 1,
        with_prefix_delete(staged, prefix).prefix_deletes.last() == prefix,
        with_prefix_delete(staged, prefix).prefix_deletes.drop_last() == staged.prefix_deletes,
        with_prefix_delete(staged, prefix).area == staged.area,
{
    assert(with_prefix_delete(staged, prefix).prefix_deletes.drop_last() =~= staged.prefix_deletes);
}

/// `staged` with `precondition` required of `path`.
pub open spec fn with_precondition(
    staged: StagedView,
    path: Seq<char>,
    precondition: Precondition,
) -> StagedView {
    StagedView { preconditions: staged.preconditions.push((path, precondition)), ..staged }
}

/// What staging something for the text `text` did: if it is a valid Path, `staged` is `after`;
/// if not, the Staging is unchanged and the error names the rule it breaks.
pub open spec fn staged_for_path(
    text: Seq<char>,
    result: Result<(), Error>,
    before: StagedView,
    now: StagedView,
    after: StagedView,
) -> bool {
    match result {
        Ok(()) => is_path(text) && now == after,
        Err(error) => path_refusal(text) is Some && error.is_invalid_path(
            text,
            path_refusal(text)->0,
        ) && now == before,
    }
}

impl Staging {
    /// An empty Staging for `area`.
    pub fn new(area: Area) -> (staging: Staging)
        ensures
            staging@.area == area,
            staging@.actions == Map::<Seq<char>, ActionView>::empty(),
            staging@.prefix_deletes == Seq::<Seq<char>>::empty(),
            staging@.preconditions == Seq::<(Seq<char>, Precondition)>::empty(),
            staging@.prefix_preconditions == Seq::<(Seq<char>, PrefixRevisionView)>::empty(),
    {
        let staging = Staging {
            staged: Staged {
                area,
                actions: PathMap::new(),
                prefix_deletes: Vec::new(),
                preconditions: Vec::new(),
                prefix_preconditions: Vec::new(),
            },
        };
        proof {
            assert(staging@.actions =~= Map::<Seq<char>, ActionView>::empty());
            assert(staging@.prefix_deletes =~= Seq::<Seq<char>>::empty());
            assert(staging@.preconditions =~= Seq::<(Seq<char>, Precondition)>::empty());
            assert(staging@.prefix_preconditions =~= Seq::<(Seq<char>, PrefixRevisionView)>::empty());
        }
        staging
    }

    /// The Area this Staging writes to.
    pub fn area(&self) -> (area: Area)
        ensures
            area == self@.area,
    {
        self.staged.area
    }

    /// Stages `action` for `path`, replacing anything staged for it before.
    fn stage(&mut self, path: Path, action: Action)
        ensures
            final(self)@ == with_action(old(self)@, path@, action@),
    {
        let ghost before = self@;
        self.staged.actions.insert(path, action);
        proof {
            assert(self@.actions =~= before.actions.insert(path@, action@));
        }
    }

    /// Stages writing `contents` to `path`. It replaces anything staged for the same Path before.
    ///
    /// Gives [`Error::InvalidPath`] if `path` is not allowed.
    pub fn write(&mut self, path: impl IntoPath, contents: &str) -> (result: Result<(), Error>)
        ensures
            staged_for_path(
                path.text(),
                result,
                old(self)@,
                final(self)@,
                with_action(old(self)@, path.text(), ActionView::Write(contents@)),
            ),
    {
        let ghost text = path.text();
        match path.into_path() {
            Ok(valid) => {
                self.stage(valid, Action::Write(String::from_str(contents)));
                Ok(())
            },
            Err(error) => Err(error),
        }
    }

    /// Stages deleting the File at `path`. It replaces anything staged for the same Path before.
    /// If there is no File there when the Commit is made, the delete does nothing.
    ///
    /// Deleting one Path and writing another in the same Staging renames a File, all-or-nothing.
    ///
    /// Gives [`Error::InvalidPath`] if `path` is not allowed.
    pub fn delete(&mut self, path: impl IntoPath) -> (result: Result<(), Error>)
        ensures
            staged_for_path(
                path.text(),
                result,
                old(self)@,
                final(self)@,
                with_action(old(self)@, path.text(), ActionView::Delete),
            ),
    {
        match path.into_path() {
            Ok(valid) => {
                self.stage(valid, Action::Delete);
                Ok(())
            },
            Err(error) => Err(error),
        }
    }

    /// Stages deleting every File under `prefix`. Which Files those are is decided when the
    /// Commit is made, so it includes Files added after this call. The empty Prefix deletes
    /// everything in the Area.
    ///
    /// It replaces anything staged under `prefix` before. A write or delete under `prefix` staged
    /// after it still happens.
    ///
    /// Gives [`Error::InvalidPath`] if `prefix` is not allowed.
    pub fn delete_prefix(&mut self, prefix: impl IntoPrefix) -> (result: Result<(), Error>)
        ensures
            match result {
                Ok(()) => is_prefix(prefix.text()) && final(self)@ == with_prefix_delete(
                    old(self)@,
                    prefix.text(),
                ),
                Err(error) => prefix_refusal(prefix.text()) is Some && error.is_invalid_path(
                    prefix.text(),
                    prefix_refusal(prefix.text())->0,
                ) && final(self)@ == old(self)@,
            },
    {
        let ghost before = self@;
        let valid = match prefix.into_prefix() {
            Ok(valid) => valid,
            Err(error) => return Err(error),
        };
        let mut actions: PathMap<Action> = PathMap::new();
        std::mem::swap(&mut actions, &mut self.staged.actions);
        let ghost all = actions.map();
        let kept = actions.without_under(&valid);
        self.staged.actions = kept;
        let ghost pushed = valid@;
        self.staged.prefix_deletes.push(valid);
        proof {
            let after = with_prefix_delete(before, pushed);
            assert(self@.actions =~= after.actions);
            assert(self@.prefix_deletes =~= after.prefix_deletes);
        }
        Ok(())
    }

    /// Requires `precondition` of the File at `path` when the Commit is made. It always has to
    /// hold, even if something staged later replaces the write or delete it came with.
    ///
    /// Gives [`Error::InvalidPath`] if `path` is not allowed.
    pub fn require(&mut self, path: impl IntoPath, precondition: Precondition) -> (result: Result<
        (),
        Error,
    >)
        ensures
            staged_for_path(
                path.text(),
                result,
                old(self)@,
                final(self)@,
                with_precondition(old(self)@, path.text(), precondition),
            ),
    {
        let ghost before = self@;
        match path.into_path() {
            Ok(valid) => {
                let ghost key = valid@;
                self.staged.preconditions.push((valid, precondition));
                proof {
                    assert(self@.preconditions =~= before.preconditions.push((key, precondition)));
                }
                Ok(())
            },
            Err(error) => Err(error),
        }
    }

    /// Stages writing `contents` to the File `file` was read from, requiring that it still has
    /// the Revision it had then.
    pub fn write_back(&mut self, file: &File, contents: &str)
        ensures
            final(self)@ == with_precondition(
                with_action(old(self)@, file.path_spec(), ActionView::Write(contents@)),
                file.path_spec(),
                Precondition::UnchangedSince(file.stat_spec().revision_spec()),
            ),
    {
        let path = file.path().duplicate();
        let ghost key = path@;
        let required = file.path().duplicate();
        self.stage(path, Action::Write(String::from_str(contents)));
        let ghost before = self@;
        self.staged.preconditions.push((required, Precondition::UnchangedSince(file.revision())));
        proof {
            assert(self@.preconditions =~= before.preconditions.push(
                (key, Precondition::UnchangedSince(file.stat_spec().revision_spec())),
            ));
        }
    }

    /// Requires everything under `prefix` to be as `revision` found it when the Commit is made:
    /// the same Paths, with the same Revisions. A `revision` taken for another Area or Prefix
    /// never holds. It always has to hold, even if something staged later writes or deletes
    /// under `prefix`.
    ///
    /// Gives [`Error::InvalidPath`] if `prefix` is not allowed.
    pub fn require_prefix(&mut self, prefix: impl IntoPrefix, revision: PrefixRevision) -> (result:
        Result<(), Error>)
        ensures
            match result {
                Ok(()) => is_prefix(prefix.text()) && final(self)@ == StagedView {
                    prefix_preconditions: old(self)@.prefix_preconditions.push(
                        (prefix.text(), revision@),
                    ),
                    ..old(self)@
                },
                Err(error) => prefix_refusal(prefix.text()) is Some && error.is_invalid_path(
                    prefix.text(),
                    prefix_refusal(prefix.text())->0,
                ) && final(self)@ == old(self)@,
            },
    {
        let ghost before = self@;
        match prefix.into_prefix() {
            Ok(valid) => {
                let ghost shown = (valid@, revision@);
                self.staged.prefix_preconditions.push((valid, revision));
                proof {
                    assert(self@.prefix_preconditions =~= before.prefix_preconditions.push(shown));
                }
                Ok(())
            },
            Err(error) => Err(error),
        }
    }

    /// Everything the Staging holds, for a Commit.
    pub fn into_staged(self) -> (staged: Staged)
        ensures
            staged@ == self@,
    {
        self.staged
    }
}

} // verus!
