//! Prefixes: the leading part of a Path, up to a `/`, naming a group of Files.

use vstd::prelude::*;

use crate::error::Error;
use crate::order::{chars_lt, lemma_distinct_chars};
use crate::path::{InvalidPathReason, Path, path_refusal, refusal, same_chars, sub_chars};
use crate::text::{chars_of, string_of};

mod sealed;

verus! {

/// Whether `s` starts with `start`.
pub open spec fn starts_with(s: Seq<char>, start: Seq<char>) -> bool {
    start.len() <= s.len() && s.subrange(0, start.len() as int) == start
}

/// Whether `key` is in the range from `start` up to `end`, as strings compare: by code point,
/// which for UTF-8 is the order of the bytes, in Rust as in SQLite.
pub open spec fn in_range(key: Seq<char>, start: Seq<char>, end: Seq<char>) -> bool {
    !chars_lt(key, start) && chars_lt(key, end)
}

/// The names that start with `name` and a `/` are exactly those from `name/` up to `name0`, since
/// `0` comes right after `/`. So the Paths under the Prefix `name/` are the Paths in that range,
/// and the Paths under a Prefix that folds to `name` are those whose fold is in it.
pub proof fn law_under_is_a_range(name: Seq<char>, key: Seq<char>)
    ensures
        starts_with(key, name.push('/')) <==> in_range(key, name.push('/'), name.push('0')),
    decreases name.len(),
{
    let start = name.push('/');
    let end = name.push('0');
    if key.len() == 0 {
        assert(chars_lt(key, start));
    } else if name.len() == 0 {
        lemma_distinct_chars(key[0], '/');
        lemma_distinct_chars(key[0], '0');
        assert(start[0] == '/' && end[0] == '0');
        if key[0] == '/' {
            assert(key.subrange(0, 1) =~= start);
            assert(!chars_lt(key.drop_first(), start.drop_first()));
            assert(!chars_lt(key, start));
            assert(chars_lt(key, end));
        } else if key[0] == '0' {
            assert(!chars_lt(key.drop_first(), end.drop_first()));
            assert(!chars_lt(key, end));
            assert(key.subrange(0, 1)[0] == key[0]);
        } else {
            assert(key.subrange(0, 1)[0] == key[0]);
            assert(chars_lt(key, start) || !chars_lt(key, end));
        }
    } else if key[0] != name[0] {
        assert(start[0] == name[0] && end[0] == name[0]);
        if starts_with(key, start) {
            assert(key.subrange(0, start.len() as int)[0] == start[0]);
        }
        assert(chars_lt(key, start) == chars_lt(key, end));
    } else {
        law_under_is_a_range(name.drop_first(), key.drop_first());
        assert(start.drop_first() =~= name.drop_first().push('/'));
        assert(end.drop_first() =~= name.drop_first().push('0'));
        assert(start[0] == name[0] && end[0] == name[0]);
        assert(chars_lt(key, start) == chars_lt(key.drop_first(), start.drop_first()));
        assert(chars_lt(key, end) == chars_lt(key.drop_first(), end.drop_first()));
        if starts_with(key, start) {
            assert(key.drop_first().subrange(0, start.len() - 1) =~= key.subrange(0, start.len() as int).drop_first());
        }
        if starts_with(key.drop_first(), start.drop_first()) {
            assert(key.subrange(0, start.len() as int) =~= seq![key[0]] + key.drop_first().subrange(0, start.len() - 1));
            assert(start =~= seq![start[0]] + start.drop_first());
        }
    }
}

/// Every name that starts with `name` and a `/`, as a range: from `name/` up to `name0`.
pub fn range_under(name: &Vec<char>) -> (range: (Vec<char>, Vec<char>))
    ensures
        range.0@ == name@.push('/'),
        range.1@ == name@.push('0'),
{
    let mut start = name.clone();
    start.push('/');
    let mut end = name.clone();
    end.push('0');
    (start, end)
}

/// Why `prefix` is refused as a Prefix, if it is: it must be empty, or a valid Path followed by
/// `/`.
pub open spec fn prefix_refusal(prefix: Seq<char>) -> Option<InvalidPathReason> {
    if prefix.len() == 0 {
        None
    } else if prefix.last() != '/' {
        Some(InvalidPathReason::NoTrailingSlash)
    } else if prefix.len() == 1 {
        Some(InvalidPathReason::NotRelative)
    } else {
        path_refusal(prefix.drop_last())
    }
}

/// Whether `prefix` is a valid Prefix.
pub open spec fn is_prefix(prefix: Seq<char>) -> bool {
    prefix_refusal(prefix) is None
}

/// What validating `prefix` gives: the Prefix, or the error naming the rule it breaks.
pub open spec fn prefix_validated(prefix: Seq<char>, result: Result<Prefix, Error>) -> bool {
    match result {
        Ok(valid) => is_prefix(prefix) && valid@ == prefix,
        Err(error) => prefix_refusal(prefix) is Some && error.is_invalid_path(
            prefix,
            prefix_refusal(prefix)->0,
        ),
    }
}

/// Why `prefix` is refused, if it is.
pub fn prefix_refusal_of(prefix: &Vec<char>) -> (reason: Option<InvalidPathReason>)
    ensures
        reason == prefix_refusal(prefix@),
{
    if prefix.len() == 0 {
        return None;
    }
    if prefix[prefix.len() - 1] != '/' {
        return Some(InvalidPathReason::NoTrailingSlash);
    }
    if prefix.len() == 1 {
        return Some(InvalidPathReason::NotRelative);
    }
    let path = sub_chars(prefix, 0, prefix.len() - 1);
    assert(path@ =~= prefix@.drop_last());
    refusal(&path)
}

/// Whether `s` starts with `start`.
pub fn chars_start_with(s: &Vec<char>, start: &Vec<char>) -> (starts: bool)
    ensures
        starts == starts_with(s@, start@),
{
    if start.len() > s.len() {
        return false;
    }
    let head = sub_chars(s, 0, start.len());
    same_chars(&head, start)
}

/// The leading part of a Path, up to a `/`, known to be valid. It names a group of Files, such as
/// every File under `themes/`.
///
/// A Prefix is either empty, meaning the whole Area, or a valid Path followed by `/`. It is kept
/// in that form, with its `/`, so it can't be mistaken for the Path of a File, and so it matches
/// whole segments only: `themes/` covers `themes/dark.toml` but not `themes2/dark.toml`.
#[derive(Debug, PartialEq, Eq, PartialOrd, Ord, Hash)]
pub struct Prefix {
    text: String,
    chars: Vec<char>,
}

impl View for Prefix {
    type V = Seq<char>;

    closed spec fn view(&self) -> Seq<char> {
        self.chars@
    }
}

impl Prefix {
    #[verifier::type_invariant]
    spec fn valid(self) -> bool {
        &&& self.text@ == self.chars@
        &&& is_prefix(self.chars@)
    }

    /// Validates `prefix`, giving [`Error::InvalidPath`] if it is not allowed. Apart from its
    /// trailing `/`, it must follow the same rules as a [`Path`].
    pub fn new(prefix: &str) -> (result: Result<Prefix, Error>)
        ensures
            prefix_validated(prefix@, result),
    {
        let chars = chars_of(prefix);
        match prefix_refusal_of(&chars) {
            Some(reason) => Err(Error::InvalidPath { path: String::from_str(prefix), reason }),
            None => Ok(Prefix { text: String::from_str(prefix), chars }),
        }
    }

    /// The empty Prefix: the whole Area.
    pub fn everything() -> (prefix: Prefix)
        ensures
            prefix@ == Seq::<char>::empty(),
    {
        let chars: Vec<char> = Vec::new();
        Prefix { text: string_of(&chars), chars }
    }

    /// The Prefix of the Files under `path`: `path` followed by `/`.
    pub fn under(path: &Path) -> (prefix: Prefix)
        ensures
            prefix@ == path@.push('/'),
    {
        path.is_valid();
        let mut chars = path.chars().clone();
        assert(chars@ == path@);
        chars.push('/');
        assert(chars@.drop_last() =~= path@);
        Prefix { text: string_of(&chars), chars }
    }

    /// The Prefix as a string: empty, or ending with `/`.
    pub fn as_str(&self) -> (text: &str)
        ensures
            text@ == self@,
    {
        proof {
            use_type_invariant(self);
        }
        self.text.as_str()
    }

    /// The Prefix's characters.
    pub fn chars(&self) -> (chars: &Vec<char>)
        ensures
            chars@ == self@,
    {
        &self.chars
    }

    /// Every Prefix is valid.
    pub fn is_valid(&self)
        ensures
            is_prefix(self@),
    {
        proof {
            use_type_invariant(self);
        }
    }

    /// The same Prefix, as a value of its own.
    pub fn duplicate(&self) -> (copy: Prefix)
        ensures
            copy@ == self@,
    {
        proof {
            use_type_invariant(self);
        }
        Prefix { text: String::from_str(self.text.as_str()), chars: self.chars.clone() }
    }

    /// Whether `self` and `other` are the same Prefix.
    pub fn same(&self, other: &Prefix) -> (same: bool)
        ensures
            same == (self@ == other@),
    {
        same_chars(&self.chars, &other.chars)
    }

    /// The names under the Prefix, as a range: `None` for the empty Prefix, which holds every
    /// name; otherwise from the Prefix up to the Prefix with its trailing `/` made a `0`.
    pub fn range(&self) -> (range: Option<(Vec<char>, Vec<char>)>)
        ensures
            match range {
                None => self@.len() == 0,
                Some((start, end)) => {
                    &&& self@.len() > 0
                    &&& start@ == self@
                    &&& end@ == self@.drop_last().push('0')
                    &&& forall|key: Seq<char>| #[trigger] starts_with(key, self@) <==> in_range(key, start@, end@)
                },
            },
    {
        proof {
            use_type_invariant(self);
        }
        if self.chars.len() == 0 {
            None
        } else {
            let name = sub_chars(&self.chars, 0, self.chars.len() - 1);
            let range = range_under(&name);
            proof {
                assert(self@.drop_last().push('/') =~= self@);
                assert forall|key: Seq<char>| #[trigger] starts_with(key, self@) <==> in_range(key, range.0@, range.1@) by {
                    law_under_is_a_range(name@, key);
                }
            }
            Some(range)
        }
    }

    /// Whether `path` is under the Prefix.
    pub fn covers(&self, path: &Path) -> (covered: bool)
        ensures
            covered == starts_with(path@, self@),
    {
        chars_start_with(path.chars(), &self.chars)
    }
}

impl Clone for Prefix {
    fn clone(&self) -> (copy: Prefix)
        ensures
            copy@ == self@,
    {
        self.duplicate()
    }
}

/// Anything an operation accepts as a Prefix: a [`Prefix`] that is already valid, or a string
/// that is validated when the operation is called.
pub trait IntoPrefix: sealed::Sealed {
    /// The text validated as a Prefix.
    spec fn text(&self) -> Seq<char>;

    /// Validates `self` as a Prefix.
    fn into_prefix(self) -> (result: Result<Prefix, Error>)
        ensures
            prefix_validated(self.text(), result),
    ;
}

impl IntoPrefix for Prefix {
    open spec fn text(&self) -> Seq<char> {
        self@
    }

    fn into_prefix(self) -> (result: Result<Prefix, Error>) {
        self.is_valid();
        Ok(self)
    }
}

impl<'a> IntoPrefix for &'a Prefix {
    open spec fn text(&self) -> Seq<char> {
        (*self)@
    }

    fn into_prefix(self) -> (result: Result<Prefix, Error>) {
        self.is_valid();
        Ok(self.duplicate())
    }
}

impl<'a> IntoPrefix for &'a str {
    open spec fn text(&self) -> Seq<char> {
        (*self)@
    }

    fn into_prefix(self) -> (result: Result<Prefix, Error>) {
        Prefix::new(self)
    }
}

impl IntoPrefix for String {
    open spec fn text(&self) -> Seq<char> {
        self@
    }

    fn into_prefix(self) -> (result: Result<Prefix, Error>) {
        Prefix::new(self.as_str())
    }
}

impl<'a> IntoPrefix for &'a String {
    open spec fn text(&self) -> Seq<char> {
        (*self)@
    }

    fn into_prefix(self) -> (result: Result<Prefix, Error>) {
        Prefix::new(self.as_str())
    }
}

} // verus!
