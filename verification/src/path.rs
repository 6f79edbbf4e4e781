//! Paths: a File's name within its Area, and the rules a name must follow to be one.

use vstd::prelude::*;

use crate::error::Error;
use crate::order::{Rank, rank_chars};
use crate::text::{
    Segment, case_fold, case_fold_of, chars_of, dot, dot_dot, is_nfc, is_nfc_of,
    is_sanitized, is_sanitized_with, nfd, nfd_of, segments, segments_of,
    string_of, upper_case, upper_case_of,
};

mod sealed;

verus! {

/// Which rule a refused Path or Prefix breaks, as given by [`Error::InvalidPath`].
#[derive(Debug, Clone, Copy, PartialEq, Eq, Structural, Hash)]
#[non_exhaustive]
pub enum InvalidPathReason {
    /// The Path is the empty string.
    Empty,
    /// The Path starts with `/`.
    NotRelative,
    /// The Path has an empty segment, as in `a//b` or `a/`.
    EmptySegment,
    /// The Path has a `.` or `..` segment.
    DotSegment,
    /// A segment is not a name every platform accepts. Windows' rules decide: no reserved names
    /// such as `CON`, `aux.txt` or `COM¹`, none of `\ : * ? " < > |`, no control characters, no
    /// trailing dot or space, and at most 255 bytes.
    UnportableName,
    /// The Path is not in Unicode NFC form.
    NotNfc,
    /// The Path is under `.tidings/`, which tidings keeps for itself, or a segment is named like
    /// one of tidings' temporary files.
    Reserved,
    /// A Prefix other than the empty one doesn't end with `/`.
    NoTrailingSlash,
    /// A Commit would create a Path that differs only in letter case from another Path in the
    /// Area, or from another Path in the same Commit, or would put it under a Prefix that does.
    LetterCaseClash,
    /// A Commit would leave a File under another File, as with `a` and `a/b`.
    FileUnderFile,
    /// A Commit writes a Path and also writes or deletes another Path that is the same file on
    /// disk, as a symlink and the file it points to are.
    SameFile,
}

/// What `reason`'s rule is, in words.
pub open spec fn description_of(reason: InvalidPathReason) -> Seq<char> {
    match reason {
        InvalidPathReason::Empty => "it is empty"@,
        InvalidPathReason::NotRelative => "it is not relative"@,
        InvalidPathReason::EmptySegment => "it has an empty segment"@,
        InvalidPathReason::DotSegment => "it has a `.` or `..` segment"@,
        InvalidPathReason::UnportableName => "a segment is not a name every platform accepts"@,
        InvalidPathReason::NotNfc => "it is not in Unicode NFC form"@,
        InvalidPathReason::Reserved => "it is under `.tidings/` or named like a temporary file"@,
        InvalidPathReason::NoTrailingSlash => "it is a Prefix that doesn't end with `/`"@,
        InvalidPathReason::LetterCaseClash => "it differs only in letter case from another Path in the Area"@,
        InvalidPathReason::FileUnderFile => "it would be under another File, or have other Files under it"@,
        InvalidPathReason::SameFile => "it is the same file on disk as another Path the Commit writes or deletes"@,
    }
}

impl InvalidPathReason {
    /// What the rule is, in words.
    pub fn description(&self) -> (text: &'static str)
        ensures
            text@ == description_of(*self),
    {
        match self {
            InvalidPathReason::Empty => "it is empty",
            InvalidPathReason::NotRelative => "it is not relative",
            InvalidPathReason::EmptySegment => "it has an empty segment",
            InvalidPathReason::DotSegment => "it has a `.` or `..` segment",
            InvalidPathReason::UnportableName => "a segment is not a name every platform accepts",
            InvalidPathReason::NotNfc => "it is not in Unicode NFC form",
            InvalidPathReason::Reserved => "it is under `.tidings/` or named like a temporary file",
            InvalidPathReason::NoTrailingSlash => "it is a Prefix that doesn't end with `/`",
            InvalidPathReason::LetterCaseClash => "it differs only in letter case from another Path in the Area",
            InvalidPathReason::FileUnderFile => "it would be under another File, or have other Files under it",
            InvalidPathReason::SameFile => "it is the same file on disk as another Path the Commit writes or deletes",
        }
    }
}

// ---------------------------------------------------------------------------------------------
// The rules, as spec functions.
/// How many times `c` is in `s`.
pub open spec fn count_char(s: Seq<char>, c: char) -> nat
    decreases s.len(),
{
    if s.len() == 0 {
        0
    } else {
        count_char(s.drop_last(), c) + if s.last() == c {
            1nat
        } else {
            0nat
        }
    }
}

/// Where `c` first is in `s`, or the length of `s` if it isn't there.
pub open spec fn index_of_char(s: Seq<char>, c: char) -> int
    decreases s.len(),
{
    if s.len() == 0 {
        0
    } else if s[0] == c {
        0
    } else {
        1 + index_of_char(s.drop_first(), c)
    }
}

/// `s` without the spaces it ends with.
pub open spec fn trim_end_spaces(s: Seq<char>) -> Seq<char>
    decreases s.len(),
{
    if s.len() > 0 && s.last() == ' ' {
        trim_end_spaces(s.drop_last())
    } else {
        s
    }
}

/// Whether `c` is a control character: Unicode's general category `Cc`, which is what
/// `char::is_control` checks.
pub open spec fn is_control(c: char) -> bool {
    (c as u32) <= 0x1f || (0x7f <= (c as u32) && (c as u32) <= 0x9f)
}

/// Whether `name` holds a control character.
pub open spec fn has_control(name: Seq<char>) -> bool {
    exists|i: int| 0 <= i < name.len() && is_control(#[trigger] name[i])
}

/// The device names Windows reserves that `sanitize_filename` doesn't list: the ports with
/// superscript digits, and the console's own names, in upper case.
pub open spec fn missed_device_names() -> Seq<Seq<char>> {
    seq![
        seq!['C', 'O', 'M', '\u{b9}'],
        seq!['C', 'O', 'M', '\u{b2}'],
        seq!['C', 'O', 'M', '\u{b3}'],
        seq!['L', 'P', 'T', '\u{b9}'],
        seq!['L', 'P', 'T', '\u{b2}'],
        seq!['L', 'P', 'T', '\u{b3}'],
        seq!['C', 'O', 'N', 'I', 'N', '$'],
        seq!['C', 'O', 'N', 'O', 'U', 'T', '$'],
    ]
}

/// Whether `sanitize_filename` accepts `name` under Windows' rules, with names over 255 bytes
/// refused.
pub open spec fn is_sanitized_for_windows_of(name: Seq<char>) -> bool {
    is_sanitized_with(name, true, true)
}

/// The name Windows reads `name` as when it looks for a device: without an extension, and
/// without the spaces before it.
pub open spec fn device_part(name: Seq<char>) -> Seq<char> {
    trim_end_spaces(name.subrange(0, index_of_char(name, '.')))
}

/// Whether Windows reads `name` as a device in a way `sanitize_filename` misses.
pub open spec fn is_missed_device_name(name: Seq<char>) -> bool {
    let device = device_part(name);
    missed_device_names().contains(upper_case_of(device)) || !is_sanitized_for_windows_of(device)
}

/// Whether every platform accepts `name` as one segment of a Path.
pub open spec fn is_portable_name(name: Seq<char>) -> bool {
    is_sanitized_for_windows_of(name) && !has_control(name) && !is_missed_device_name(name)
}

/// A form of `name` that is the same for two names some platform treats as the same apart from
/// letter case: Unicode canonical caseless matching (NFD, full case folding, NFD again), applied
/// to the name in upper case.
pub open spec fn letter_case_fold_of(name: Seq<char>) -> Seq<char> {
    nfd_of(case_fold_of(nfd_of(upper_case_of(name))))
}

/// `.tidings`, the top-level name tidings keeps its own bookkeeping under.
pub open spec fn reserved_name() -> Seq<char> {
    seq!['.', 't', 'i', 'd', 'i', 'n', 'g', 's']
}

/// `.tidings-`, which comes before the Commit's number in a temporary file's name.
pub open spec fn temporary_tag() -> Seq<char> {
    seq!['.', 't', 'i', 'd', 'i', 'n', 'g', 's', '-']
}

/// Whether `name`, as a Path's first segment, is tidings' own.
pub open spec fn is_reserved(name: Seq<char>) -> bool {
    letter_case_fold_of(name) == reserved_name()
}

pub open spec fn is_digit(c: char) -> bool {
    '0' <= c && c <= '9'
}

pub open spec fn is_lower_hex(c: char) -> bool {
    ('0' <= c && c <= '9') || ('a' <= c && c <= 'f')
}

/// How many digits `s` ends with.
pub open spec fn trailing_digits(s: Seq<char>) -> nat
    decreases s.len(),
{
    if s.len() > 0 && is_digit(s.last()) {
        1 + trailing_digits(s.drop_last())
    } else {
        0
    }
}

/// Whether `name` is named like one of tidings' temporary files: `.<name>.tidings-<id>-<n>`, with
/// `<name>` not empty, `<id>` 32 lower-case hexadecimal digits and `<n>` decimal digits.
pub open spec fn is_temporary_name(name: Seq<char>) -> bool {
    let digits = trailing_digits(name) as int;
    let dash = name.len() - digits - 1;
    let hex = dash - 32;
    let tag = hex - 9;
    &&& digits >= 1
    &&& tag >= 2
    &&& name[0] == '.'
    &&& name[dash] == '-'
    &&& forall|i: int| hex <= i < dash ==> is_lower_hex(#[trigger] name[i])
    &&& name.subrange(tag, hex) == temporary_tag()
}

/// Why `path` is refused as a Path, if it is.
pub open spec fn path_refusal(path: Seq<char>) -> Option<InvalidPathReason> {
    let segments = segments_of(path);
    if path.len() == 0 {
        Some(InvalidPathReason::Empty)
    } else if path[0] == '/' {
        Some(InvalidPathReason::NotRelative)
    } else if segments.len() != count_char(path, '/') + 1 {
        Some(InvalidPathReason::EmptySegment)
    } else if exists|i: int|
        0 <= i < segments.len() && (#[trigger] segments[i] == dot() || segments[i] == dot_dot()) {
        Some(InvalidPathReason::DotSegment)
    } else if exists|i: int| 0 <= i < segments.len() && !is_portable_name(#[trigger] segments[i]) {
        Some(InvalidPathReason::UnportableName)
    } else if is_reserved(segments[0]) || exists|i: int|
        0 <= i < segments.len() && is_temporary_name(#[trigger] segments[i]) {
        Some(InvalidPathReason::Reserved)
    } else if !is_nfc_of(path) {
        Some(InvalidPathReason::NotNfc)
    } else {
        None
    }
}

/// Whether `path` is a valid Path.
pub open spec fn is_path(path: Seq<char>) -> bool {
    path_refusal(path) is None
}

/// What validating `path` gives: the Path, or the error naming the rule it breaks.
pub open spec fn validated(path: Seq<char>, result: Result<Path, Error>) -> bool {
    match result {
        Ok(valid) => is_path(path) && valid@ == path,
        Err(error) => path_refusal(path) is Some && error.is_invalid_path(
            path,
            path_refusal(path)->0,
        ),
    }
}

// ---------------------------------------------------------------------------------------------
// The rules, as code.
/// The characters of `s` from `from` up to `to`.
pub fn sub_chars(s: &Vec<char>, from: usize, to: usize) -> (part: Vec<char>)
    requires
        from <= to <= s.len(),
    ensures
        part@ == s@.subrange(from as int, to as int),
{
    let mut part: Vec<char> = Vec::new();
    let mut i: usize = from;
    while i < to
        invariant
            from <= i <= to <= s.len(),
            part@ == s@.subrange(from as int, i as int),
        decreases to - i,
    {
        part.push(s[i]);
        i = i + 1;
        assert(part@ =~= s@.subrange(from as int, i as int));
    }
    part
}

/// Whether `a` and `b` hold the same characters.
pub fn same_chars(a: &Vec<char>, b: &Vec<char>) -> (same: bool)
    ensures
        same == (a@ == b@),
{
    rank_chars(a, b) == Rank::Same
}

proof fn lemma_count_char_step(s: Seq<char>, c: char, i: int)
    requires
        0 <= i < s.len(),
    ensures
        count_char(s.subrange(0, i + 1), c) == count_char(s.subrange(0, i), c) + if s[i] == c {
            1nat
        } else {
            0nat
        },
{
    assert(s.subrange(0, i + 1).drop_last() =~= s.subrange(0, i));
}

/// How many times `c` is in `s`.
pub fn count_of(s: &Vec<char>, c: char) -> (count: usize)
    ensures
        count == count_char(s@, c),
        count <= s.len(),
{
    let mut count: usize = 0;
    let mut i: usize = 0;
    while i < s.len()
        invariant
            i <= s.len(),
            count == count_char(s@.subrange(0, i as int), c),
            count <= i,
        decreases s.len() - i,
    {
        proof {
            lemma_count_char_step(s@, c, i as int);
        }
        if s[i] == c {
            count = count + 1;
        }
        i = i + 1;
    }
    assert(s@.subrange(0, s.len() as int) =~= s@);
    count
}

proof fn lemma_index_of_char(s: Seq<char>, c: char, i: int)
    requires
        0 <= i <= s.len(),
        forall|j: int| 0 <= j < i ==> s[j] != c,
        i < s.len() ==> s[i] == c,
    ensures
        index_of_char(s, c) == i,
    decreases i,
{
    if i > 0 {
        lemma_index_of_char(s.drop_first(), c, i - 1);
    }
}

pub proof fn lemma_index_of_char_bounds(s: Seq<char>, c: char)
    ensures
        0 <= index_of_char(s, c) <= s.len(),
    decreases s.len(),
{
    if s.len() > 0 && s[0] != c {
        lemma_index_of_char_bounds(s.drop_first(), c);
    }
}

/// Where `c` first is in `s`, or the length of `s` if it isn't there.
pub fn index_of(s: &Vec<char>, c: char) -> (index: usize)
    ensures
        index == index_of_char(s@, c),
        index <= s.len(),
{
    let mut i: usize = 0;
    while i < s.len() && s[i] != c
        invariant
            i <= s.len(),
            forall|j: int| 0 <= j < i ==> s@[j] != c,
        decreases s.len() - i,
    {
        i = i + 1;
    }
    proof {
        lemma_index_of_char(s@, c, i as int);
    }
    i
}

proof fn lemma_trim_prefix(s: Seq<char>, j: int)
    requires
        0 <= j <= s.len(),
        forall|k: int| j <= k < s.len() ==> s[k] == ' ',
    ensures
        trim_end_spaces(s) == trim_end_spaces(s.subrange(0, j)),
    decreases s.len() - j,
{
    if j < s.len() {
        assert(s.drop_last().subrange(0, j) =~= s.subrange(0, j));
        lemma_trim_prefix(s.drop_last(), j);
    } else {
        assert(s.subrange(0, j) =~= s);
    }
}

/// `s` without the spaces it ends with.
pub fn trim_spaces_at_end(s: &Vec<char>) -> (trimmed: Vec<char>)
    ensures
        trimmed@ == trim_end_spaces(s@),
{
    let mut j: usize = s.len();
    while j > 0 && s[j - 1] == ' '
        invariant
            j <= s.len(),
            forall|k: int| j <= k < s.len() ==> s@[k] == ' ',
        decreases j,
    {
        j = j - 1;
    }
    proof {
        lemma_trim_prefix(s@, j as int);
        let t = s@.subrange(0, j as int);
        if j > 0 {
            assert(t.last() == s@[j - 1]);
        }
    }
    sub_chars(s, 0, j)
}

/// Whether `c` is a control character, as `char::is_control` decides: Unicode's general category
/// `Cc`.
pub fn is_control_char(c: char) -> (control: bool)
    ensures
        control == is_control(c),
{
    let code = c as u32;
    code <= 0x1f || (0x7f <= code && code <= 0x9f)
}

/// Whether `name` holds a control character.
pub fn holds_control(name: &Vec<char>) -> (control: bool)
    ensures
        control == has_control(name@),
{
    let mut i: usize = 0;
    while i < name.len()
        invariant
            i <= name.len(),
            forall|j: int| 0 <= j < i ==> !is_control(#[trigger] name@[j]),
        decreases name.len() - i,
    {
        if is_control_char(name[i]) {
            return true;
        }
        i = i + 1;
    }
    false
}

/// The device names Windows reserves that `sanitize_filename` doesn't list.
fn missed_devices() -> (names: Vec<Vec<char>>)
    ensures
        names.len() == missed_device_names().len(),
        forall|i: int| 0 <= i < names.len() ==> #[trigger] names[i]@ == missed_device_names()[i],
{
    let names = vec![
        vec!['C', 'O', 'M', '\u{b9}'],
        vec!['C', 'O', 'M', '\u{b2}'],
        vec!['C', 'O', 'M', '\u{b3}'],
        vec!['L', 'P', 'T', '\u{b9}'],
        vec!['L', 'P', 'T', '\u{b2}'],
        vec!['L', 'P', 'T', '\u{b3}'],
        vec!['C', 'O', 'N', 'I', 'N', '$'],
        vec!['C', 'O', 'N', 'O', 'U', 'T', '$'],
    ];
    proof {
        assert(names[0]@ =~= missed_device_names()[0]);
        assert(names[1]@ =~= missed_device_names()[1]);
        assert(names[2]@ =~= missed_device_names()[2]);
        assert(names[3]@ =~= missed_device_names()[3]);
        assert(names[4]@ =~= missed_device_names()[4]);
        assert(names[5]@ =~= missed_device_names()[5]);
        assert(names[6]@ =~= missed_device_names()[6]);
        assert(names[7]@ =~= missed_device_names()[7]);
    }
    names
}

/// Whether Windows reads `name` as a device in a way `sanitize_filename` misses. Windows ignores
/// an extension and any spaces before it, so the check is repeated on the name as Windows reads
/// it.
pub fn is_device_name_sanitize_filename_misses(name: &Vec<char>) -> (device: bool)
    ensures
        device == is_missed_device_name(name@),
{
    let dot_at = index_of(name, '.');
    let base = sub_chars(name, 0, dot_at);
    let device = trim_spaces_at_end(&base);
    let upper = upper_case(&device);
    assert(device@ == device_part(name@));
    let devices = missed_devices();
    let mut i: usize = 0;
    while i < devices.len()
        invariant
            i <= devices.len(),
            devices.len() == missed_device_names().len(),
            forall|k: int| 0 <= k < devices.len() ==> #[trigger] devices[k]@ == missed_device_names()[k],
            forall|k: int| 0 <= k < i ==> missed_device_names()[k] != upper@,
            upper@ == upper_case_of(device_part(name@)),
        decreases devices.len() - i,
    {
        if same_chars(&devices[i], &upper) {
            assert(missed_device_names()[i as int] == upper@);
            assert(missed_device_names().contains(upper@));
            return true;
        }
        i = i + 1;
    }
    assert(!missed_device_names().contains(upper@));
    !is_sanitized(&device, true, true)
}

/// Whether every platform accepts `name` as one segment of a Path, judged by the strictest rules
/// there are: Windows'.
pub fn is_portable(name: &Vec<char>) -> (portable: bool)
    ensures
        portable == is_portable_name(name@),
{
    is_sanitized(name, true, true) && !holds_control(name)
        && !is_device_name_sanitize_filename_misses(name)
}

/// A form of `name` that is the same for two names some platform treats as the same apart from
/// letter case, so that such names can be refused on every platform.
pub fn letter_case_fold(name: &Vec<char>) -> (folded: Vec<char>)
    ensures
        folded@ == letter_case_fold_of(name@),
{
    let upper = upper_case(name);
    let decomposed = nfd(&upper);
    let folded = case_fold(&decomposed);
    nfd(&folded)
}

/// Whether `name`, as a Path's first segment, is tidings' own. Letter case is ignored, because on
/// a case-insensitive filesystem `.Tidings` is the same directory.
pub fn is_reserved_name(name: &Vec<char>) -> (reserved: bool)
    ensures
        reserved == is_reserved(name@),
{
    let folded = letter_case_fold(name);
    let reserved = vec!['.', 't', 'i', 'd', 'i', 'n', 'g', 's'];
    assert(reserved@ =~= reserved_name());
    same_chars(&folded, &reserved)
}

proof fn lemma_trailing_digits(s: Seq<char>, j: int)
    requires
        0 <= j <= s.len(),
        forall|k: int| j <= k < s.len() ==> is_digit(#[trigger] s[k]),
        j > 0 ==> !is_digit(s[j - 1]),
    ensures
        trailing_digits(s) == s.len() - j,
    decreases s.len() - j,
{
    if j < s.len() {
        lemma_trailing_digits(s.drop_last(), j);
    }
}

/// Whether `name` is named like one of tidings' temporary files, `.<name>.tidings-<id>-<n>`, so
/// that no File can be taken for one.
pub fn is_temporary_file_name(name: &Vec<char>) -> (temporary: bool)
    ensures
        temporary == is_temporary_name(name@),
{
    let mut j: usize = name.len();
    while j > 0 && '0' <= name[j - 1] && name[j - 1] <= '9'
        invariant
            j <= name.len(),
            forall|k: int| j <= k < name.len() ==> is_digit(#[trigger] name@[k]),
        decreases j,
    {
        j = j - 1;
    }
    proof {
        lemma_trailing_digits(name@, j as int);
    }
    let digits = name.len() - j;
    if digits < 1 || j < 1 + 32 + 9 + 2 {
        return false;
    }
    let dash = j - 1;
    let hex = dash - 32;
    let tag = hex - 9;
    if name[0] != '.' || name[dash] != '-' {
        return false;
    }
    let mut i: usize = hex;
    while i < dash
        invariant
            hex <= i <= dash < name.len(),
            dash == name.len() - trailing_digits(name@) - 1,
            hex == dash - 32,
            forall|k: int| hex <= k < i ==> is_lower_hex(#[trigger] name@[k]),
        decreases dash - i,
    {
        let c = name[i];
        if !(('0' <= c && c <= '9') || ('a' <= c && c <= 'f')) {
            assert(!is_lower_hex(name@[i as int]));
            return false;
        }
        i = i + 1;
    }
    let found = sub_chars(name, tag, hex);
    let expected = vec!['.', 't', 'i', 'd', 'i', 'n', 'g', 's', '-'];
    assert(expected@ =~= temporary_tag());
    same_chars(&found, &expected)
}

/// Why `path` is refused, if it is.
pub fn refusal(path: &Vec<char>) -> (reason: Option<InvalidPathReason>)
    ensures
        reason == path_refusal(path@),
{
    if path.len() == 0 {
        return Some(InvalidPathReason::Empty);
    }
    if path[0] == '/' {
        return Some(InvalidPathReason::NotRelative);
    }
    let found = segments(path);
    let ghost names = segments_of(path@);
    let slashes = count_of(path, '/');
    if slashes >= found.len() || found.len() - 1 != slashes {
        return Some(InvalidPathReason::EmptySegment);
    }
    let mut i: usize = 0;
    while i < found.len()
        invariant
            i <= found.len() == names.len(),
            names == segments_of(path@),
            path@.len() != 0,
            path@[0] != '/',
            names.len() == count_char(path@, '/') + 1,
            forall|k: int| 0 <= k < found.len() ==> segment_is_at(found, names, k),
            forall|k: int| 0 <= k < i ==> #[trigger] names[k] != dot() && names[k] != dot_dot(),
        decreases found.len() - i,
    {
        assert(segment_is_at(found, names, i as int));
        match &found[i] {
            Segment::Normal(_) => {},
            _ => {
                assert(names[i as int] == dot() || names[i as int] == dot_dot());
                return Some(InvalidPathReason::DotSegment);
            },
        }
        i = i + 1;
    }
    let mut i: usize = 0;
    while i < found.len()
        invariant
            i <= found.len() == names.len(),
            names == segments_of(path@),
            path@.len() != 0,
            path@[0] != '/',
            names.len() == count_char(path@, '/') + 1,
            forall|k: int| 0 <= k < found.len() ==> segment_is_at(found, names, k),
            forall|k: int| 0 <= k < found.len() ==> #[trigger] names[k] != dot() && names[k] != dot_dot(),
            forall|k: int| 0 <= k < i ==> is_portable_name(#[trigger] names[k]),
        decreases found.len() - i,
    {
        assert(segment_is_at(found, names, i as int));
        if let Segment::Normal(name) = &found[i] {
            if !is_portable(name) {
                assert(!is_portable_name(names[i as int]));
                return Some(InvalidPathReason::UnportableName);
            }
        }
        i = i + 1;
    }
    assert(names.len() >= 1);
    assert(segment_is_at(found, names, 0));
    if let Segment::Normal(first) = &found[0] {
        if is_reserved_name(first) {
            return Some(InvalidPathReason::Reserved);
        }
    }
    let mut i: usize = 0;
    while i < found.len()
        invariant
            i <= found.len() == names.len(),
            names == segments_of(path@),
            path@.len() != 0,
            path@[0] != '/',
            names.len() == count_char(path@, '/') + 1,
            forall|k: int| 0 <= k < found.len() ==> segment_is_at(found, names, k),
            forall|k: int| 0 <= k < found.len() ==> #[trigger] names[k] != dot() && names[k] != dot_dot(),
            forall|k: int| 0 <= k < found.len() ==> is_portable_name(#[trigger] names[k]),
            !is_reserved(names[0]),
            forall|k: int| 0 <= k < i ==> !is_temporary_name(#[trigger] names[k]),
        decreases found.len() - i,
    {
        assert(segment_is_at(found, names, i as int));
        if let Segment::Normal(name) = &found[i] {
            if is_temporary_file_name(name) {
                assert(is_temporary_name(names[i as int]));
                return Some(InvalidPathReason::Reserved);
            }
        }
        i = i + 1;
    }
    if !is_nfc(path) {
        return Some(InvalidPathReason::NotNfc);
    }
    None
}

/// `segments[k]` is what `relative_path` makes of `names[k]`.
spec fn segment_is_at(segments: Vec<Segment>, names: Seq<Seq<char>>, k: int) -> bool {
    crate::text::segment_is(segments[k], names[k])
}

// ---------------------------------------------------------------------------------------------
/// A File's name within its Area, known to be valid.
///
/// A Path follows the strictest platform's rules, on every Backend, so a Path that works on one
/// platform works on all of them. It is relative and `/`-separated, with no empty, `.` or `..`
/// segments. Each segment is a name Windows accepts, the whole Path is in Unicode NFC form, and
/// nothing is under `.tidings/`, which tidings keeps for itself. [`InvalidPathReason`] lists the
/// rules.
///
/// It can only be made by validating a string, with [`Path::new`] or through [`IntoPath`].
#[derive(Debug, PartialEq, Eq, PartialOrd, Ord, Hash)]
pub struct Path {
    text: String,
    chars: Vec<char>,
}

impl View for Path {
    type V = Seq<char>;

    closed spec fn view(&self) -> Seq<char> {
        self.chars@
    }
}

impl Path {
    #[verifier::type_invariant]
    spec fn valid(self) -> bool {
        &&& self.text@ == self.chars@
        &&& is_path(self.chars@)
    }

    /// Validates `path`, giving [`Error::InvalidPath`] if it is not allowed.
    pub fn new(path: &str) -> (result: Result<Path, Error>)
        ensures
            validated(path@, result),
    {
        let chars = chars_of(path);
        match refusal(&chars) {
            Some(reason) => Err(Error::InvalidPath { path: String::from_str(path), reason }),
            None => Ok(Path { text: String::from_str(path), chars }),
        }
    }

    /// A Path made of `chars`, which are known to be a valid Path.
    pub(crate) fn checked(chars: Vec<char>) -> (path: Path)
        requires
            is_path(chars@),
        ensures
            path@ == chars@,
    {
        let text = string_of(&chars);
        Path { text, chars }
    }

    /// The Path as a string.
    pub fn as_str(&self) -> (text: &str)
        ensures
            text@ == self@,
    {
        proof {
            use_type_invariant(self);
        }
        self.text.as_str()
    }

    /// The Path's characters.
    pub fn chars(&self) -> (chars: &Vec<char>)
        ensures
            chars@ == self@,
    {
        &self.chars
    }

    /// Every Path is valid.
    pub fn is_valid(&self)
        ensures
            is_path(self@),
    {
        proof {
            use_type_invariant(self);
        }
    }

    /// The same Path, as a value of its own.
    pub fn duplicate(&self) -> (copy: Path)
        ensures
            copy@ == self@,
    {
        proof {
            use_type_invariant(self);
        }
        Path { text: String::from_str(self.text.as_str()), chars: self.chars.clone() }
    }

    /// Whether `self` and `other` are the same Path.
    pub fn same(&self, other: &Path) -> (same: bool)
        ensures
            same == (self@ == other@),
    {
        same_chars(&self.chars, &other.chars)
    }
}

impl Clone for Path {
    fn clone(&self) -> (copy: Path)
        ensures
            copy@ == self@,
    {
        self.duplicate()
    }
}

/// Anything an operation accepts as a Path: a [`Path`] that is already valid, or a string that is
/// validated when the operation is called.
pub trait IntoPath: sealed::Sealed {
    /// The text validated as a Path.
    spec fn text(&self) -> Seq<char>;

    /// Validates `self` as a Path.
    fn into_path(self) -> (result: Result<Path, Error>)
        ensures
            validated(self.text(), result),
    ;
}

impl IntoPath for Path {
    open spec fn text(&self) -> Seq<char> {
        self@
    }

    fn into_path(self) -> (result: Result<Path, Error>) {
        self.is_valid();
        Ok(self)
    }
}

impl<'a> IntoPath for &'a Path {
    open spec fn text(&self) -> Seq<char> {
        (*self)@
    }

    fn into_path(self) -> (result: Result<Path, Error>) {
        self.is_valid();
        Ok(self.duplicate())
    }
}

impl<'a> IntoPath for &'a str {
    open spec fn text(&self) -> Seq<char> {
        (*self)@
    }

    fn into_path(self) -> (result: Result<Path, Error>) {
        Path::new(self)
    }
}

impl IntoPath for String {
    open spec fn text(&self) -> Seq<char> {
        self@
    }

    fn into_path(self) -> (result: Result<Path, Error>) {
        Path::new(self.as_str())
    }
}

impl<'a> IntoPath for &'a String {
    open spec fn text(&self) -> Seq<char> {
        (*self)@
    }

    fn into_path(self) -> (result: Result<Path, Error>) {
        Path::new(self.as_str())
    }
}

} // verus!
