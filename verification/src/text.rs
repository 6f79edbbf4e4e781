//! The outside text functions a Path is checked and folded with: Unicode normalization and case
//! folding, Windows' file-name rules, relative-path's segmenting, and the standard library's
//! upper case. Each is called here, in a function whose contract names what it gives.

use relative_path::{Component, RelativePath};
use unicode_normalization::UnicodeNormalization;
use vstd::prelude::*;

verus! {

/// Whether `s` is in Unicode Normalization Form C, as `unicode_normalization::is_nfc` says.
pub uninterp spec fn is_nfc_of(s: Seq<char>) -> bool;

/// `s` in Unicode Normalization Form D, as `unicode_normalization`'s `nfd` gives it.
pub uninterp spec fn nfd_of(s: Seq<char>) -> Seq<char>;

/// `s` with Unicode's default case folding, as `caseless`'s `default_case_fold` gives it.
pub uninterp spec fn case_fold_of(s: Seq<char>) -> Seq<char>;

/// `s` in upper case, as the standard library's `str::to_uppercase` gives it.
pub uninterp spec fn upper_case_of(s: Seq<char>) -> Seq<char>;

/// How many bytes `c` takes in UTF-8.
pub open spec fn utf8_width(c: char) -> nat {
    if (c as int) < 0x80 {
        1
    } else if (c as int) < 0x800 {
        2
    } else if (c as int) < 0x10000 {
        3
    } else {
        4
    }
}

/// How many bytes `s` takes in UTF-8.
pub open spec fn utf8_len(s: Seq<char>) -> nat
    decreases s.len(),
{
    if s.len() == 0 {
        0
    } else {
        utf8_len(s.drop_last()) + utf8_width(s.last())
    }
}

/// Whether `c` is one of the characters `sanitize_filename` refuses everywhere: `/ ? < > \ : * | "`.
pub open spec fn is_illegal_char(c: char) -> bool {
    c == '/' || c == '?' || c == '<' || c == '>' || c == '\\' || c == ':' || c == '*' || c == '|' || c == '"'
}

/// Whether `c` is a control character as `sanitize_filename` counts them: U+0000 to U+001F, or
/// U+0080 to U+009F.
pub open spec fn is_control_code(c: char) -> bool {
    (c as int) <= 0x1f || (0x80 <= (c as int) && (c as int) <= 0x9f)
}

/// Whether `c` is the ASCII letter `lower` in either case.
pub open spec fn is_letter_either_case(c: char, lower: char) -> bool {
    c == lower || (c as int) == (lower as int) - 32
}

/// Whether `s` is the three ASCII letters `a`, `b`, `c`, in either case.
pub open spec fn is_word(s: Seq<char>, a: char, b: char, c: char) -> bool {
    s.len() == 3 && is_letter_either_case(s[0], a) && is_letter_either_case(s[1], b) && is_letter_either_case(
        s[2],
        c,
    )
}

/// Whether `stem` is one of Windows' device names as `sanitize_filename` knows them, in either
/// case: `con`, `prn`, `aux`, `nul`, or `com` or `lpt` and one ASCII digit.
pub open spec fn is_device_stem(stem: Seq<char>) -> bool {
    ||| is_word(stem, 'c', 'o', 'n')
    ||| is_word(stem, 'p', 'r', 'n')
    ||| is_word(stem, 'a', 'u', 'x')
    ||| is_word(stem, 'n', 'u', 'l')
    ||| stem.len() == 4 && (is_word(stem.take(3), 'c', 'o', 'm') || is_word(stem.take(3), 'l', 'p', 't'))
        && '0' <= stem[3] && stem[3] <= '9'
}

/// Whether `name` is a device name of `stem.len() == at` characters followed by nothing, or by a
/// `.` and then anything without a line feed.
pub open spec fn is_device_name_at(name: Seq<char>, at: int) -> bool {
    &&& at <= name.len()
    &&& is_device_stem(name.take(at))
    &&& (at == name.len() || (name[at] == '.' && forall|j: int| at < j < name.len() ==> name[j] != '\n'))
}

/// Whether `sanitize_filename::is_sanitized_with_options` accepts `name` with the options
/// `windows` and `truncate`: it has no illegal and no control character, it isn't only dots, it
/// takes at most 255 bytes if `truncate`, and, if `windows`, it isn't a device name, alone or
/// with an extension, and doesn't end with a dot or a space.
pub open spec fn is_sanitized_with(name: Seq<char>, windows: bool, truncate: bool) -> bool {
    &&& forall|i: int| 0 <= i < name.len() ==> !is_illegal_char(#[trigger] name[i])
    &&& forall|i: int| 0 <= i < name.len() ==> !is_control_code(#[trigger] name[i])
    &&& !(name.len() > 0 && forall|i: int| 0 <= i < name.len() ==> #[trigger] name[i] == '.')
    &&& (truncate ==> utf8_len(name) <= 255)
    &&& (windows ==> {
        &&& !is_device_name_at(name, 3)
        &&& !is_device_name_at(name, 4)
        &&& !(name.len() > 0 && (name.last() == '.' || name.last() == ' '))
    })
}

/// `s` cut at each `/`, as `str::split('/')` cuts it: one piece more than there are `/`s, some of
/// them perhaps empty.
pub open spec fn split_slash(s: Seq<char>) -> Seq<Seq<char>>
    decreases s.len(),
{
    if s.len() == 0 {
        seq![Seq::empty()]
    } else {
        let init = split_slash(s.drop_last());
        if s.last() == '/' {
            init.push(Seq::empty())
        } else {
            init.update(init.len() - 1, init.last().push(s.last()))
        }
    }
}

/// The pieces of `pieces` that aren't empty, in order.
pub open spec fn nonempty(pieces: Seq<Seq<char>>) -> Seq<Seq<char>>
    decreases pieces.len(),
{
    if pieces.len() == 0 {
        Seq::empty()
    } else if pieces.last().len() == 0 {
        nonempty(pieces.drop_last())
    } else {
        nonempty(pieces.drop_last()).push(pieces.last())
    }
}

/// The segments `relative_path` finds in `s`: the pieces between `/`s that aren't empty.
pub open spec fn segments_of(s: Seq<char>) -> Seq<Seq<char>> {
    nonempty(split_slash(s))
}

/// `.`, the current directory.
pub open spec fn dot() -> Seq<char> {
    seq!['.']
}

/// `..`, the parent directory.
pub open spec fn dot_dot() -> Seq<char> {
    seq!['.', '.']
}

/// A segment of a relative path, as `relative_path::Component` tells them apart.
#[derive(Debug)]
pub enum Segment {
    /// `.`
    CurDir,
    /// `..`
    ParentDir,
    /// Any other name.
    Normal(Vec<char>),
}

/// Whether `segment` is what `relative_path` makes of `name`.
pub open spec fn segment_is(segment: Segment, name: Seq<char>) -> bool {
    match segment {
        Segment::CurDir => name == dot(),
        Segment::ParentDir => name == dot_dot(),
        Segment::Normal(n) => n@ == name && name != dot() && name != dot_dot(),
    }
}

/// The characters of `s`.
#[verifier::external_body]
pub(crate) fn chars_of(s: &str) -> (chars: Vec<char>)
    ensures
        chars@ == s@,
{
    s.chars().collect()
}

/// The string made of `chars`.
#[verifier::external_body]
pub(crate) fn string_of(chars: &Vec<char>) -> (s: String)
    ensures
        s@ == chars@,
{
    chars.iter().collect()
}

/// Calls `RelativePath::components` on `s`, which splits it at each `/`, skips the empty pieces,
/// and tells `.` and `..` from other names. The contract says exactly that.
#[verifier::external_body]
pub(crate) fn segments(s: &Vec<char>) -> (found: Vec<Segment>)
    ensures
        found.len() == segments_of(s@).len(),
        forall|i: int| 0 <= i < found.len() ==> segment_is(#[trigger] found[i], segments_of(s@)[i]),
{
    let text: String = s.iter().collect();
    RelativePath::new(&text).components().map(|component| match component {
        Component::CurDir => Segment::CurDir,
        Component::ParentDir => Segment::ParentDir,
        Component::Normal(name) => Segment::Normal(name.chars().collect()),
    }).collect()
}

/// Calls `unicode_normalization::is_nfc`. What it decides is named, not stated.
#[verifier::external_body]
pub(crate) fn is_nfc(s: &Vec<char>) -> (nfc: bool)
    ensures
        nfc == is_nfc_of(s@),
{
    let text: String = s.iter().collect();
    unicode_normalization::is_nfc(&text)
}

/// Calls `unicode_normalization`'s `nfd` on the characters of `s`. What it gives is named.
#[verifier::external_body]
pub(crate) fn nfd(s: &Vec<char>) -> (decomposed: Vec<char>)
    ensures
        decomposed@ == nfd_of(s@),
{
    s.iter().copied().nfd().collect()
}

/// Calls `caseless`'s `default_case_fold` on the characters of `s`. What it gives is named.
#[verifier::external_body]
pub(crate) fn case_fold(s: &Vec<char>) -> (folded: Vec<char>)
    ensures
        folded@ == case_fold_of(s@),
{
    caseless::Caseless::default_case_fold(s.iter().copied()).collect()
}

/// Calls the standard library's `str::to_uppercase`. What it gives is named.
#[verifier::external_body]
pub(crate) fn upper_case(s: &Vec<char>) -> (upper: Vec<char>)
    ensures
        upper@ == upper_case_of(s@),
{
    let text: String = s.iter().collect();
    text.to_uppercase().chars().collect()
}

/// Calls `sanitize_filename::is_sanitized_with_options` with the options `windows` and
/// `truncate`. The contract states the five fixed patterns and the byte limit it checks.
#[verifier::external_body]
pub(crate) fn is_sanitized(name: &Vec<char>, windows: bool, truncate: bool) -> (sanitized: bool)
    ensures
        sanitized == is_sanitized_with(name@, windows, truncate),
{
    let text: String = name.iter().collect();
    sanitize_filename::is_sanitized_with_options(text, sanitize_filename::OptionsForCheck { windows, truncate })
}

} // verus!
