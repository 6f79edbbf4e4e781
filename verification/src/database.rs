//! What the SQLite Backend decides about its databases: which schema steps a database still needs,
//! which stored folds are stale, how far the change log is kept, and when a database may hold
//! other Stores' Commits.

use vstd::prelude::*;

use crate::error::Error;
use crate::journal::{decimal, decimal_of};
use crate::path::{letter_case_fold, letter_case_fold_of, same_chars};
use crate::text::{chars_of, string_of};

verus! {

/// What a database whose schema is of a later version than this tidings knows says.
pub open spec fn later_schema_message(version: nat) -> Seq<char> {
    "the database's schema is version "@ + decimal_of(version) + ", from a later version of tidings"@
}

/// `text` with `more` added.
fn push_all(text: &mut Vec<char>, more: &Vec<char>)
    ensures
        final(text)@ == old(text)@ + more@,
{
    let ghost start = text@;
    let mut i: usize = 0;
    while i < more.len()
        invariant
            i <= more@.len(),
            text@ == start + more@.subrange(0, i as int),
        decreases more@.len() - i,
    {
        text.push(more[i]);
        proof {
            assert(more@.subrange(0, i + 1) =~= more@.subrange(0, i as int).push(more@[i as int]));
        }
        i = i + 1;
    }
    proof {
        assert(more@.subrange(0, more@.len() as int) =~= more@);
    }
}

/// The first schema step a database whose schema is `version` still needs, of the `known` steps
/// this tidings has: each step brings the schema up by one version, from 0, a new database. A
/// schema of a later version than `known` is refused.
pub fn first_step(version: u32, known: usize) -> (step: Result<usize, Error>)
    ensures
        match step {
            Ok(first) => version <= known && first == version,
            Err(Error::Backend { message }) => version > known && message@ == later_schema_message(
                version as nat,
            ),
            Err(_) => false,
        },
{
    if (version as u64) <= (known as u64) {
        Ok(version as usize)
    } else {
        let mut message = chars_of("the database's schema is version ");
        push_all(&mut message, &decimal(version as usize));
        push_all(&mut message, &chars_of(", from a later version of tidings"));
        Err(Error::Backend { message: string_of(&message) })
    }
}

/// The fold to store for `path` in place of `fold`, if `fold` is stale: made with other Unicode
/// data than the letter-case fold follows now.
pub fn refold(path: &str, fold: &str) -> (again: Option<String>)
    ensures
        match again {
            Some(again) => letter_case_fold_of(path@) != fold@ && again@ == letter_case_fold_of(path@),
            None => letter_case_fold_of(path@) == fold@,
        },
{
    let folded = letter_case_fold(&chars_of(path));
    if same_chars(&folded, &chars_of(fold)) {
        None
    } else {
        Some(string_of(&folded))
    }
}

/// A retention of `retention` microseconds, or the longest a moment can be if it is longer.
pub open spec fn kept_for(retention: u128) -> int {
    if retention > i64::MAX {
        i64::MAX as int
    } else {
        retention as int
    }
}

/// The moment, in microseconds since the Unix epoch, before which the change log's Commits are
/// pruned at `now`, with a retention of `retention` microseconds, or the longest a moment can
/// be if it is longer: `now` less the retention, or the earliest moment there is if that is
/// earlier.
pub fn kept_from(now: i64, retention: u128) -> (from: i64)
    ensures
        from == if now - kept_for(retention) < i64::MIN {
            i64::MIN as int
        } else {
            now - kept_for(retention)
        },
{
    let retention: i64 = if retention > (i64::MAX as u128) {
        i64::MAX
    } else {
        retention as i64
    };
    if (now as i128) - (retention as i128) < (i64::MIN as i128) {
        i64::MIN
    } else {
        now - retention
    }
}

/// How far a Store has read an Area's change log, and what it last saw of the database.
#[derive(Debug)]
pub struct LogReader {
    /// This Store, as the log names the Commits it made: a number no other Store opened on the
    /// database has had.
    pub store: i64,
    /// The last Commit in the log that this Store has read.
    pub seen: i64,
    /// The database's `data_version` when it was last checked. It changes when another
    /// connection commits to the database.
    pub data_version: i64,
}

impl LogReader {
    /// Whether another connection may have committed to the database since it was last checked,
    /// now that its `data_version` is `now`, or can't be checked (`None`): then it may have, and
    /// reading its log shows what is wrong.
    pub fn polled(&mut self, now: Option<i64>) -> (changed: bool)
        ensures
            match now {
                Some(version) => changed == (old(self).data_version != version) && final(self).data_version
                    == version,
                None => changed && final(self).data_version == old(self).data_version,
            },
            final(self).store == old(self).store,
            final(self).seen == old(self).seen,
    {
        match now {
            Some(version) => {
                let changed = self.data_version != version;
                self.data_version = version;
                changed
            },
            None => true,
        }
    }
}

} // verus!
