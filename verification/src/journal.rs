//! The text of the filesystem journal: what a filesystem Commit is doing, so that one a crash
//! interrupts can be finished or discarded the next time the Area is locked.
//!
//! It lists each temporary file with the Path it writes and the File it replaces, and each Path
//! the Commit deletes with the Revision of the File it deletes. It is plain text: a first line
//! that names the format, a line with the state, then a line for each item, with fields separated
//! by tabs, and `\`, tabs and line breaks escaped:
//! - `write`, the temporary file, and the Path whose File it replaces;
//! - `replace`, the temporary file, the Path it writes, and the file that Path's symlink points
//!   to, which it replaces;
//! - `remove`, the Path, and the Revision of the File it deletes, in hexadecimal.

use vstd::prelude::*;

use vstd::arithmetic::div_mod::{lemma_breakdown, lemma_div_denominator};
use vstd::arithmetic::power::{lemma_pow_adds, lemma_pow_positive, pow};

use crate::path::{Path, is_digit, is_lower_hex, is_path, is_temporary_name, refusal, same_chars, temporary_tag, trailing_digits};
use crate::revision::Revision;
use crate::text::{chars_of, string_of};

verus! {

// ---------------------------------------------------------------------------------------------
// Escaping a field.
/// What escaping makes of `c`: `\`, tab, line feed and carriage return get a `\` before a letter,
/// every other character stays.
pub open spec fn escape_char(c: char) -> Seq<char> {
    if c == '\\' {
        seq!['\\', '\\']
    } else if c == '\t' {
        seq!['\\', 't']
    } else if c == '\n' {
        seq!['\\', 'n']
    } else if c == '\r' {
        seq!['\\', 'r']
    } else {
        seq![c]
    }
}

/// `text` with `\`, tabs and line breaks escaped, so that it is one field of one line.
pub open spec fn escape_of(text: Seq<char>) -> Seq<char>
    decreases text.len(),
{
    if text.len() == 0 {
        Seq::empty()
    } else {
        escape_char(text[0]) + escape_of(text.drop_first())
    }
}

/// What the letter after a `\` stands for.
pub open spec fn unescape_char(c: char) -> char {
    if c == 't' {
        '\t'
    } else if c == 'n' {
        '\n'
    } else if c == 'r' {
        '\r'
    } else {
        c
    }
}

/// The text `field` is the escaped form of. A `\` at the very end stands for itself.
pub open spec fn unescape_of(field: Seq<char>) -> Seq<char>
    decreases field.len(),
{
    if field.len() == 0 {
        Seq::empty()
    } else if field[0] == '\\' {
        if field.len() == 1 {
            seq!['\\']
        } else {
            seq![unescape_char(field[1])] + unescape_of(field.subrange(2, field.len() as int))
        }
    } else {
        seq![field[0]] + unescape_of(field.drop_first())
    }
}

/// Escaping one more character adds its escape at the end.
proof fn lemma_escape_push(text: Seq<char>, c: char)
    ensures
        escape_of(text.push(c)) == escape_of(text) + escape_char(c),
    decreases text.len(),
{
    if text.len() == 0 {
        assert(text.push(c).drop_first() =~= Seq::<char>::empty());
        assert(escape_of(Seq::<char>::empty()) == Seq::<char>::empty());
        assert(text.push(c)[0] == c);
        assert(escape_of(text.push(c)) == escape_char(c) + escape_of(Seq::<char>::empty()));
        assert(escape_char(c) + Seq::<char>::empty() =~= escape_char(c));
        assert(escape_of(text) == Seq::<char>::empty());
        assert(escape_of(text) + escape_char(c) =~= escape_char(c));
    } else {
        assert(text.push(c).drop_first() =~= text.drop_first().push(c));
        lemma_escape_push(text.drop_first(), c);
        assert(escape_of(text.push(c)) =~= escape_of(text) + escape_char(c));
    }
}

/// Escaped text holds no tab and no line break.
pub proof fn lemma_escaped_is_one_field(text: Seq<char>)
    ensures
        forall|i: int| 0 <= i < escape_of(text).len() ==> #[trigger] escape_of(text)[i] != '\t'
            && escape_of(text)[i] != '\n' && escape_of(text)[i] != '\r',
    decreases text.len(),
{
    if text.len() > 0 {
        lemma_escaped_is_one_field(text.drop_first());
        let head = escape_char(text[0]);
        let rest = escape_of(text.drop_first());
        assert forall|i: int| 0 <= i < escape_of(text).len() implies #[trigger] escape_of(text)[i] != '\t'
            && escape_of(text)[i] != '\n' && escape_of(text)[i] != '\r' by {
            if i >= head.len() {
                assert(escape_of(text)[i] == rest[i - head.len()]);
            }
        }
    }
}

/// Unescaping what escaping made gives the text back.
pub proof fn law_unescape_undoes_escape(text: Seq<char>)
    ensures
        unescape_of(escape_of(text)) == text,
    decreases text.len(),
{
    if text.len() > 0 {
        law_unescape_undoes_escape(text.drop_first());
        let c = text[0];
        let rest = escape_of(text.drop_first());
        let whole = escape_char(c) + rest;
        if c == '\\' || c == '\t' || c == '\n' || c == '\r' {
            assert(whole.subrange(2, whole.len() as int) =~= rest);
        } else {
            assert(whole.drop_first() =~= rest);
        }
        assert(text =~= seq![c] + text.drop_first());
    }
}

/// `text` with `\`, tabs and line breaks escaped, so that it is one field of one line.
pub fn escape(text: &Vec<char>) -> (escaped: Vec<char>)
    ensures
        escaped@ == escape_of(text@),
{
    let mut escaped: Vec<char> = Vec::new();
    let mut i: usize = 0;
    while i < text.len()
        invariant
            i <= text.len(),
            escaped@ == escape_of(text@.subrange(0, i as int)),
        decreases text.len() - i,
    {
        let c = text[i];
        if c == '\\' {
            escaped.push('\\');
            escaped.push('\\');
        } else if c == '\t' {
            escaped.push('\\');
            escaped.push('t');
        } else if c == '\n' {
            escaped.push('\\');
            escaped.push('n');
        } else if c == '\r' {
            escaped.push('\\');
            escaped.push('r');
        } else {
            escaped.push(c);
        }
        proof {
            lemma_escape_push(text@.subrange(0, i as int), c);
            assert(text@.subrange(0, i + 1) =~= text@.subrange(0, i as int).push(c));
            assert(escaped@ =~= escape_of(text@.subrange(0, i + 1)));
        }
        i = i + 1;
    }
    proof {
        assert(text@.subrange(0, i as int) =~= text@);
    }
    escaped
}

/// The text [`escape`] escaped.
pub fn unescape(field: &Vec<char>) -> (text: Vec<char>)
    ensures
        text@ == unescape_of(field@),
{
    let mut text: Vec<char> = Vec::new();
    let mut i: usize = 0;
    proof {
        assert(field@.subrange(0, field@.len() as int) =~= field@);
        assert(text@ + unescape_of(field@) =~= unescape_of(field@));
    }
    while i < field.len()
        invariant
            i <= field.len(),
            text@ + unescape_of(field@.subrange(i as int, field@.len() as int)) == unescape_of(field@),
        decreases field.len() - i,
    {
        let ghost rest = field@.subrange(i as int, field@.len() as int);
        let c = field[i];
        if c == '\\' {
            if i + 1 == field.len() {
                text.push('\\');
                i = i + 1;
                proof {
                    assert(field@.subrange(i as int, field@.len() as int) =~= Seq::<char>::empty());
                    assert(text@ + unescape_of(field@.subrange(i as int, field@.len() as int)) =~= unescape_of(field@));
                }
            } else {
                let next = field[i + 1];
                let unescaped = if next == 't' {
                    '\t'
                } else if next == 'n' {
                    '\n'
                } else if next == 'r' {
                    '\r'
                } else {
                    next
                };
                text.push(unescaped);
                proof {
                    assert(rest.subrange(2, rest.len() as int) =~= field@.subrange(i + 2, field@.len() as int));
                }
                i = i + 2;
                proof {
                    assert(text@ + unescape_of(field@.subrange(i as int, field@.len() as int)) =~= unescape_of(field@));
                }
            }
        } else {
            text.push(c);
            proof {
                assert(rest.drop_first() =~= field@.subrange(i + 1, field@.len() as int));
            }
            i = i + 1;
            proof {
                assert(text@ + unescape_of(field@.subrange(i as int, field@.len() as int)) =~= unescape_of(field@));
            }
        }
    }
    proof {
        assert(field@.subrange(i as int, field@.len() as int) =~= Seq::<char>::empty());
        assert(text@ =~= unescape_of(field@));
    }
    text
}

// ---------------------------------------------------------------------------------------------
// A Revision in hexadecimal.
/// The lower-case hexadecimal digit for `d`, below 16.
pub open spec fn hex_char(d: int) -> char {
    if d < 10 {
        (('0' as int) + d) as char
    } else {
        (('a' as int) + d - 10) as char
    }
}

/// The value of the hexadecimal digit `c`, in either case, if it is one.
pub open spec fn hex_digit_value(c: char) -> Option<int> {
    if '0' <= c <= '9' {
        Some(c as int - '0' as int)
    } else if 'a' <= c <= 'f' {
        Some(c as int - 'a' as int + 10)
    } else if 'A' <= c <= 'F' {
        Some(c as int - 'A' as int + 10)
    } else {
        None
    }
}

/// The last `count` hexadecimal digits of `n`, most significant first.
pub open spec fn hex_of(n: int, count: nat) -> Seq<char> {
    Seq::new(count, |i: int| hex_char((n / pow(16, (count - 1 - i) as nat)) % 16))
}

/// The byte two characters stand for, as `u8::from_str_radix` with radix 16 reads them: two
/// hexadecimal digits, or a `+` and one.
pub open spec fn pair_value(high: char, low: char) -> Option<int> {
    if high == '+' {
        hex_digit_value(low)
    } else {
        match (hex_digit_value(high), hex_digit_value(low)) {
            (Some(h), Some(l)) => Some(16 * h + l),
            _ => None,
        }
    }
}

/// The number the bytes of `digits`, two characters each, most significant first, stand for.
pub open spec fn pairs_value(digits: Seq<char>) -> Option<int>
    decreases digits.len(),
{
    if digits.len() == 0 {
        Some(0)
    } else if digits.len() == 1 {
        None
    } else {
        match (
            pairs_value(digits.subrange(0, digits.len() - 2)),
            pair_value(digits[digits.len() - 2], digits[digits.len() - 1]),
        ) {
            (Some(high), Some(low)) => Some(256 * high + low),
            _ => None,
        }
    }
}

/// The number of the Revision [`to_hex`] wrote as `hex`: 16 bytes, each two characters, all of
/// them ASCII.
pub open spec fn from_hex_of(hex: Seq<char>) -> Option<u128> {
    if hex.len() == 32 && forall|i: int| 0 <= i < hex.len() ==> (#[trigger] hex[i] as int) < 128 {
        match pairs_value(hex) {
            Some(n) => Some(n as u128),
            None => None,
        }
    } else {
        None
    }
}

/// The number of a Revision in hexadecimal: 32 lower-case digits.
pub open spec fn to_hex_of(number: u128) -> Seq<char> {
    hex_of(number as int, 32)
}

/// A lower-case hexadecimal digit reads back as the value it was made for.
proof fn lemma_hex_char(d: int)
    requires
        0 <= d < 16,
    ensures
        hex_digit_value(hex_char(d)) == Some(d),
        hex_char(d) != '+',
        (hex_char(d) as int) < 128,
{
}

/// The digits of `n`, read back two at a time, give `n` below `256` to the power `count`.
proof fn lemma_pairs_of_hex(n: int, count: nat)
    requires
        0 <= n,
    ensures
        pairs_value(hex_of(n, 2 * count)) == Some(n % pow(256, count)),
    decreases count,
{
    lemma_pow_positive(16, 0);
    lemma_pow_positive(256, count);
    if count == 0 {
        assert(hex_of(n, 0) =~= Seq::<char>::empty());
        assert(pow(256, 0) == 1) by {
            reveal(pow);
        }
        assert(n % 1 == 0);
    } else {
        let digits = hex_of(n, 2 * count);
        let len = 2 * count;
        lemma_pairs_of_hex(n / 256, (count - 1) as nat);
        let front = hex_of(n / 256, 2 * (count - 1) as nat);
        assert forall|i: int| 0 <= i < len - 2 implies #[trigger] digits[i] == front[i] by {
            let e = (len - 1 - i) as nat;
            let f = (len - 3 - i) as nat;
            lemma_pow_adds(16, 2, f);
            assert(pow(16, 2) == 256) by {
                reveal(pow);
            }
            lemma_pow_positive(16, f);
            lemma_div_denominator(n, 256, pow(16, f));
            assert(e == 2 + f);
        }
        assert(digits.subrange(0, len - 2) =~= front);
        assert(pow(16, 1) == 16 && pow(16, 0) == 1) by {
            reveal(pow);
        }
        let high = (n / 16) % 16;
        let low = n % 16;
        assert(n / 1 == n);
        assert(digits[len - 2] == hex_char(high));
        assert(digits[len - 1] == hex_char(low));
        assert(0 <= high < 16 && 0 <= low < 16);
        lemma_hex_char(high);
        lemma_hex_char(low);
        lemma_breakdown(n, 16, 16);
        lemma_pow_positive(256, (count - 1) as nat);
        lemma_breakdown(n, 256, pow(256, (count - 1) as nat));
        assert(pow(256, count) == 256 * pow(256, (count - 1) as nat)) by {
            reveal(pow);
        }
    }
}

/// A Revision written in hexadecimal reads back as itself.
pub proof fn law_hex_reads_back(number: u128)
    ensures
        from_hex_of(to_hex_of(number)) == Some(number),
{
    let n = number as int;
    lemma_pairs_of_hex(n, 16);
    assert(pow(256, 16) == 0x1_0000_0000_0000_0000_0000_0000_0000_0000) by {
        reveal_with_fuel(pow, 17);
    }
    let hex = to_hex_of(number);
    assert(hex.len() == 32);
    assert forall|i: int| 0 <= i < hex.len() implies (#[trigger] hex[i] as int) < 128 by {
        let e = (31 - i) as nat;
        lemma_pow_positive(16, e);
        lemma_hex_char((n / pow(16, e)) % 16);
    }
}

/// The lower-case hexadecimal digit for `d`.
fn hex_digit(d: u128) -> (c: char)
    requires
        d < 16,
    ensures
        c == hex_char(d as int),
{
    if d < 10 {
        char_at_offset('0', d as u32)
    } else {
        char_at_offset('a', (d - 10) as u32)
    }
}

/// The character `offset` after `start`, among the ASCII letters and digits.
fn char_at_offset(start: char, offset: u32) -> (c: char)
    requires
        start == '0' || start == 'a',
        offset < 10,
    ensures
        c == ((start as int) + offset) as char,
{
    let digits = if start == '0' {
        ['0', '1', '2', '3', '4', '5', '6', '7', '8', '9']
    } else {
        ['a', 'b', 'c', 'd', 'e', 'f', 'g', 'h', 'i', 'j']
    };
    let c = digits[offset as usize];
    proof {
        assert(c as int == (start as int) + offset);
    }
    c
}

/// `revision` in hexadecimal: 32 lower-case digits, most significant first.
pub fn to_hex(revision: Revision) -> (hex: Vec<char>)
    ensures
        hex@ == to_hex_of(revision.number()),
{
    let n = revision.to_number();
    let ghost all = to_hex_of(n);
    let mut digits: Vec<char> = Vec::new();
    let mut divisor: u128 = 0x1000_0000_0000_0000_0000_0000_0000_0000;
    proof {
        assert(pow(16, 31) == 0x1000_0000_0000_0000_0000_0000_0000_0000) by {
            reveal_with_fuel(pow, 32);
        }
    }
    let mut i: usize = 0;
    while i < 32
        invariant
            i <= 32,
            all == to_hex_of(n),
            i < 32 ==> divisor as int == pow(16, (31 - i) as nat),
            digits@ == all.subrange(0, i as int),
        decreases 32 - i,
    {
        proof {
            lemma_pow_positive(16, (31 - i) as nat);
        }
        let d = (n / divisor) % 16;
        digits.push(hex_digit(d));
        proof {
            assert(digits@ =~= all.subrange(0, i + 1));
        }
        if i < 31 {
            proof {
                assert(pow(16, (31 - i) as nat) == 16 * pow(16, (30 - i) as nat)) by {
                    reveal(pow);
                }
            }
            divisor = divisor / 16;
        }
        i = i + 1;
    }
    proof {
        assert(all.subrange(0, 32) =~= all);
    }
    digits
}

/// The value of the hexadecimal digit `c`, in either case, if it is one.
fn digit_value(c: char) -> (value: Option<u128>)
    ensures
        match value {
            Some(v) => hex_digit_value(c) == Some(v as int),
            None => hex_digit_value(c) is None,
        },
{
    if '0' <= c && c <= '9' {
        Some((c as u32 - '0' as u32) as u128)
    } else if 'a' <= c && c <= 'f' {
        Some((c as u32 - 'a' as u32 + 10) as u128)
    } else if 'A' <= c && c <= 'F' {
        Some((c as u32 - 'A' as u32 + 10) as u128)
    } else {
        None
    }
}

/// The byte `high` and `low` stand for, as `u8::from_str_radix` with radix 16 reads them.
fn byte_value(high: char, low: char) -> (value: Option<u128>)
    ensures
        match value {
            Some(v) => pair_value(high, low) == Some(v as int) && v < 256,
            None => pair_value(high, low) is None,
        },
{
    if high == '+' {
        digit_value(low)
    } else {
        match (digit_value(high), digit_value(low)) {
            (Some(h), Some(l)) => Some(16 * h + l),
            _ => None,
        }
    }
}

/// The number of the Revision [`to_hex`] wrote as `hex`, if it is one.
pub fn from_hex(hex: &Vec<char>) -> (number: Option<u128>)
    ensures
        number == from_hex_of(hex@),
{
    if hex.len() != 32 {
        return None;
    }
    let mut i: usize = 0;
    while i < 32
        invariant
            i <= 32,
            hex.len() == 32,
            forall|k: int| 0 <= k < i ==> (#[trigger] hex@[k] as int) < 128,
        decreases 32 - i,
    {
        if hex[i] >= '\u{80}' {
            return None;
        }
        i = i + 1;
    }
    let mut value: u128 = 0;
    let mut k: usize = 0;
    proof {
        assert(hex@.subrange(0, 0) =~= Seq::<char>::empty());
        assert(pow(256, 0) == 1) by {
            reveal(pow);
        }
        assert(pow(256, 16) == 0x1_0000_0000_0000_0000_0000_0000_0000_0000) by {
            reveal_with_fuel(pow, 17);
        }
    }
    while k < 16
        invariant
            k <= 16,
            hex.len() == 32,
            pairs_value(hex@.subrange(0, 2 * k as int)) == Some(value as int),
            (value as int) < pow(256, k as nat),
            pow(256, 16) == 0x1_0000_0000_0000_0000_0000_0000_0000_0000,
        decreases 16 - k,
    {
        let low = match byte_value(hex[2 * k], hex[2 * k + 1]) {
            Some(low) => low,
            None => {
                proof {
                    lemma_pairs_fail(hex@, 2 * k as int);
                }
                return None;
            },
        };
        proof {
            let front = hex@.subrange(0, 2 * k + 2);
            assert(front.subrange(0, front.len() - 2) =~= hex@.subrange(0, 2 * k as int));
            assert(pow(256, (k + 1) as nat) == 256 * pow(256, k as nat)) by {
                reveal(pow);
            }
            lemma_pow_positive(256, k as nat);
            lemma_pow_le_16(k as nat);
            assert(256 * (value as int) + (low as int) < 256 * pow(256, k as nat)) by (nonlinear_arith)
                requires
                    (value as int) < pow(256, k as nat),
                    (low as int) < 256,
            ;
        }
        value = 256 * value + low;
        k = k + 1;
    }
    proof {
        assert(hex@.subrange(0, 32) =~= hex@);
    }
    Some(value)
}

/// Once the bytes up to `upto` don't read, no longer run of them does either.
proof fn lemma_pairs_fail(hex: Seq<char>, upto: int)
    requires
        0 <= upto,
        upto + 2 <= hex.len() == 32,
        upto % 2 == 0,
        pair_value(hex[upto], hex[upto + 1]) is None,
    ensures
        pairs_value(hex) is None,
    decreases hex.len() - upto,
{
    lemma_pairs_fail_from(hex, upto, 32);
    assert(hex.subrange(0, 32) =~= hex);
}

/// Once the bytes up to `upto` don't read, the run of them up to `end` doesn't either.
proof fn lemma_pairs_fail_from(hex: Seq<char>, upto: int, end: int)
    requires
        0 <= upto,
        upto + 2 <= end <= hex.len(),
        (end - upto) % 2 == 0,
        pair_value(hex[upto], hex[upto + 1]) is None,
    ensures
        pairs_value(hex.subrange(0, end)) is None,
    decreases end - upto,
{
    let front = hex.subrange(0, end);
    if end == upto + 2 {
        assert(front[front.len() - 2] == hex[upto]);
    } else {
        lemma_pairs_fail_from(hex, upto, end - 2);
        assert(front.subrange(0, front.len() - 2) =~= hex.subrange(0, end - 2));
    }
}

/// Powers of 256 grow with the power, up to the 16th.
proof fn lemma_pow_le_16(k: nat)
    requires
        k < 16,
    ensures
        256 * pow(256, k) <= pow(256, 16),
{
    lemma_pow_adds(256, k + 1, (15 - k) as nat);
    lemma_pow_positive(256, (15 - k) as nat);
    lemma_pow_positive(256, k + 1);
    assert(pow(256, k + 1) == 256 * pow(256, k)) by {
        reveal(pow);
    }
    assert(pow(256, k + 1) <= pow(256, k + 1) * pow(256, (15 - k) as nat)) by (nonlinear_arith)
        requires
            pow(256, k + 1) > 0,
            pow(256, (15 - k) as nat) >= 1,
    ;
}

// ---------------------------------------------------------------------------------------------
// Lines and fields.
/// `text` cut at each `sep`, as `str::split` cuts it: one piece more than there are `sep`s, some
/// of them perhaps empty.
pub open spec fn split_on(text: Seq<char>, sep: char) -> Seq<Seq<char>>
    decreases text.len(),
{
    if text.len() == 0 {
        seq![Seq::empty()]
    } else {
        let init = split_on(text.drop_last(), sep);
        if text.last() == sep {
            init.push(Seq::empty())
        } else {
            init.update(init.len() - 1, init.last().push(text.last()))
        }
    }
}

/// `line` without the carriage return it ends with, if it ends with one.
pub open spec fn strip_cr(line: Seq<char>) -> Seq<char> {
    if line.len() > 0 && line.last() == '\r' {
        line.drop_last()
    } else {
        line
    }
}

/// The lines of `text`, as `str::lines` gives them: cut at each line feed, each without the
/// carriage return before its line feed; a line feed at the very end ends the last line.
pub open spec fn lines_of(text: Seq<char>) -> Seq<Seq<char>> {
    let pieces = split_on(text, '\n');
    let ended = pieces.drop_last().map_values(|piece: Seq<char>| strip_cr(piece));
    if pieces.last().len() == 0 {
        ended
    } else {
        ended.push(pieces.last())
    }
}

/// The text of each of `texts`.
pub open spec fn texts_of(texts: Seq<Vec<char>>) -> Seq<Seq<char>> {
    texts.map_values(|text: Vec<char>| text@)
}

/// Splitting is never empty.
proof fn lemma_split_not_empty(text: Seq<char>, sep: char)
    ensures
        split_on(text, sep).len() >= 1,
    decreases text.len(),
{
    if text.len() > 0 {
        lemma_split_not_empty(text.drop_last(), sep);
    }
}

/// `text` cut at each `sep`.
fn split_chars(text: &Vec<char>, sep: char) -> (pieces: Vec<Vec<char>>)
    ensures
        texts_of(pieces@) == split_on(text@, sep),
{
    let mut pieces: Vec<Vec<char>> = Vec::new();
    let mut current: Vec<char> = Vec::new();
    let mut i: usize = 0;
    proof {
        assert(text@.subrange(0, 0) =~= Seq::<char>::empty());
        assert(texts_of(pieces@).push(current@) =~= split_on(Seq::<char>::empty(), sep));
    }
    while i < text.len()
        invariant
            i <= text.len(),
            texts_of(pieces@).push(current@) == split_on(text@.subrange(0, i as int), sep),
        decreases text.len() - i,
    {
        let ghost before = text@.subrange(0, i as int);
        let ghost old_pieces = texts_of(pieces@);
        let ghost old_current = current@;
        let c = text[i];
        proof {
            assert(text@.subrange(0, i + 1).drop_last() =~= before);
            assert(text@.subrange(0, i + 1).last() == c);
        }
        if c == sep {
            let mut done: Vec<char> = Vec::new();
            std::mem::swap(&mut done, &mut current);
            pieces.push(done);
            proof {
                assert(texts_of(pieces@) =~= old_pieces.push(old_current));
                assert(texts_of(pieces@).push(current@) =~= split_on(text@.subrange(0, i + 1), sep));
            }
        } else {
            current.push(c);
            proof {
                assert(texts_of(pieces@) == old_pieces);
                assert(texts_of(pieces@).push(current@) =~= old_pieces.push(old_current).update(
                    old_pieces.len() as int,
                    old_current.push(c),
                ));
            }
        }
        i = i + 1;
    }
    let ghost before = texts_of(pieces@);
    pieces.push(current);
    proof {
        assert(text@.subrange(0, i as int) =~= text@);
        assert(texts_of(pieces@) =~= before.push(pieces@.last()@));
    }
    pieces
}

/// The lines of `text`, as `str::lines` gives them.
fn split_lines(text: &Vec<char>) -> (lines: Vec<Vec<char>>)
    ensures
        texts_of(lines@) == lines_of(text@),
{
    let mut pieces = split_chars(text, '\n');
    proof {
        lemma_split_not_empty(text@, '\n');
    }
    let ghost all = texts_of(pieces@);
    let last = pieces.pop().unwrap();
    let ghost ended_target = all.drop_last().map_values(|piece: Seq<char>| strip_cr(piece));
    let mut lines: Vec<Vec<char>> = Vec::new();
    let mut i: usize = 0;
    while i < pieces.len()
        invariant
            i <= pieces.len(),
            texts_of(pieces@) == all.drop_last(),
            ended_target == all.drop_last().map_values(|piece: Seq<char>| strip_cr(piece)),
            texts_of(lines@) == ended_target.subrange(0, i as int),
        decreases pieces.len() - i,
    {
        let piece = &pieces[i];
        let mut line: Vec<char> = piece.clone();
        if line.len() > 0 && line[line.len() - 1] == '\r' {
            line.pop();
        }
        proof {
            assert(piece@ == all.drop_last()[i as int]);
            assert(line@ =~= strip_cr(piece@));
        }
        let ghost earlier = texts_of(lines@);
        lines.push(line);
        proof {
            assert(texts_of(lines@) =~= earlier.push(ended_target[i as int]));
            assert(texts_of(lines@) =~= ended_target.subrange(0, i + 1));
        }
        i = i + 1;
    }
    proof {
        assert(ended_target.subrange(0, i as int) =~= ended_target);
        assert(last@ == all.last());
    }
    if last.len() > 0 {
        let ghost earlier = texts_of(lines@);
        lines.push(last);
        proof {
            assert(texts_of(lines@) =~= earlier.push(all.last()));
        }
    }
    lines
}

// ---------------------------------------------------------------------------------------------
// The journal.
/// Whether a journal's Commit has happened.
#[derive(Debug, Clone, Copy, PartialEq, Eq, Structural)]
pub enum JournalState {
    /// The temporary files may be partly written, and the Commit hasn't happened: it is discarded.
    Prepared,
    /// Every temporary file is written and on disk, and the Commit has happened: it is finished.
    Committed,
}

/// The File a temporary file replaces.
#[derive(Debug, Clone)]
pub enum Target {
    /// The File at the Path written, whose directories finishing makes if they don't exist.
    AtPath,
    /// The file the symlink at the Path written points to, anywhere, in a directory that exists.
    Linked(String),
}

/// A temporary file, the Path it writes, and the File it replaces once the Commit has happened.
#[derive(Debug)]
pub struct Replace {
    pub path: Path,
    pub temporary: String,
    pub target: Target,
}

/// A Path a Commit deletes, and the Revision of the File there when the Commit was planned.
#[derive(Debug)]
pub struct Remove {
    pub path: Path,
    pub revision: Revision,
}

/// A Commit in progress, as the journal records it.
#[derive(Debug)]
pub struct Journal {
    pub state: JournalState,
    /// Each temporary file, in order of the Path it writes.
    pub replaces: Vec<Replace>,
    /// Each Path the Commit deletes.
    pub removes: Vec<Remove>,
}

/// A [`Replace`] as values: the Path, the temporary file, and the file a symlink points to if it
/// replaces that.
pub struct ReplaceView {
    pub path: Seq<char>,
    pub temporary: Seq<char>,
    pub target: Option<Seq<char>>,
}

/// A [`Journal`] as values.
#[verifier::ext_equal]
pub struct JournalView {
    pub state: JournalState,
    pub replaces: Seq<ReplaceView>,
    pub removes: Seq<(Seq<char>, u128)>,
}

/// A [`Replace`] as values.
pub open spec fn replace_view(replace: Replace) -> ReplaceView {
    ReplaceView {
        path: replace.path@,
        temporary: replace.temporary@,
        target: match replace.target {
            Target::AtPath => None,
            Target::Linked(target) => Some(target@),
        },
    }
}

/// A [`Remove`] as values.
pub open spec fn remove_view(remove: Remove) -> (Seq<char>, u128) {
    (remove.path@, remove.revision.number())
}

impl View for Journal {
    type V = JournalView;

    open spec fn view(&self) -> JournalView {
        JournalView {
            state: self.state,
            replaces: self.replaces@.map_values(|replace: Replace| replace_view(replace)),
            removes: self.removes@.map_values(|remove: Remove| remove_view(remove)),
        }
    }
}

/// The first line of every journal, which names its format.
pub open spec fn format_line() -> Seq<char> {
    "tidings journal 2"@
}

/// The word for `state` on a journal's second line.
pub open spec fn state_word(state: JournalState) -> Seq<char> {
    match state {
        JournalState::Prepared => "prepared"@,
        JournalState::Committed => "committed"@,
    }
}

/// `fields` separated by tabs.
pub open spec fn joined(fields: Seq<Seq<char>>) -> Seq<char>
    decreases fields.len(),
{
    if fields.len() == 0 {
        Seq::empty()
    } else if fields.len() == 1 {
        fields[0]
    } else {
        fields[0] + seq!['\t'] + joined(fields.drop_first())
    }
}

/// The line, without its line feed, that records `replace`.
pub open spec fn replace_line(replace: ReplaceView) -> Seq<char> {
    match replace.target {
        None => joined(seq!["write"@, escape_of(replace.temporary), escape_of(replace.path)]),
        Some(target) => joined(
            seq!["replace"@, escape_of(replace.temporary), escape_of(replace.path), escape_of(target)],
        ),
    }
}

/// The line, without its line feed, that records `remove`.
pub open spec fn remove_line(remove: (Seq<char>, u128)) -> Seq<char> {
    joined(seq!["remove"@, escape_of(remove.0), to_hex_of(remove.1)])
}

/// The lines of `journal`, without their line feeds.
pub open spec fn journal_lines(journal: JournalView) -> Seq<Seq<char>> {
    seq![format_line(), state_word(journal.state)] + journal.replaces.map_values(
        |replace: ReplaceView| replace_line(replace),
    ) + journal.removes.map_values(|remove: (Seq<char>, u128)| remove_line(remove))
}

/// `lines`, each ended by a line feed.
pub open spec fn ended_lines(lines: Seq<Seq<char>>) -> Seq<char>
    decreases lines.len(),
{
    if lines.len() == 0 {
        Seq::empty()
    } else {
        ended_lines(lines.drop_last()) + lines.last() + seq!['\n']
    }
}

/// The text of `journal`.
pub open spec fn journal_text(journal: JournalView) -> Seq<char> {
    ended_lines(journal_lines(journal))
}

/// `fields` separated by tabs, added to `text`.
fn push_joined(text: &mut Vec<char>, fields: &Vec<Vec<char>>)
    ensures
        final(text)@ == old(text)@ + joined(texts_of(fields@)),
{
    let mut i: usize = 0;
    let ghost start = text@;
    proof {
        assert(texts_of(fields@).subrange(0, fields.len() as int) =~= texts_of(fields@));
    }
    while i < fields.len()
        invariant
            i <= fields.len(),
            text@ + joined(texts_of(fields@).subrange(i as int, fields.len() as int)) == start + joined(texts_of(fields@)),
        decreases fields.len() - i,
    {
        let ghost rest = texts_of(fields@).subrange(i as int, fields.len() as int);
        let ghost before = text@;
        let field = &fields[i];
        let mut k: usize = 0;
        while k < field.len()
            invariant
                k <= field.len(),
                text@ == before + field@.subrange(0, k as int),
            decreases field.len() - k,
        {
            text.push(field[k]);
            k = k + 1;
            proof {
                assert(text@ =~= before + field@.subrange(0, k as int));
            }
        }
        proof {
            assert(field@.subrange(0, k as int) =~= field@);
            assert(rest[0] == field@);
            assert(rest.drop_first() =~= texts_of(fields@).subrange(i + 1, fields.len() as int));
        }
        if i + 1 < fields.len() {
            text.push('\t');
            proof {
                assert(text@ + joined(rest.drop_first()) =~= before + joined(rest));
            }
        } else {
            proof {
                assert(rest.drop_first() =~= Seq::<Seq<char>>::empty());
                assert(text@ + joined(rest.drop_first()) =~= before + joined(rest));
            }
        }
        i = i + 1;
    }
    proof {
        assert(texts_of(fields@).subrange(0, fields.len() as int) =~= texts_of(fields@));
        assert(texts_of(fields@).subrange(i as int, fields.len() as int) =~= Seq::<Seq<char>>::empty());
        assert(text@ =~= start + joined(texts_of(fields@)));
    }
}

impl Journal {
    /// A journal of a Commit that replaces Files with `replaces` and deletes `removes`, before any
    /// temporary file is written.
    pub fn prepared(replaces: Vec<Replace>, removes: Vec<Remove>) -> (journal: Journal)
        ensures
            journal.state == JournalState::Prepared,
            journal.replaces@ == replaces@,
            journal.removes@ == removes@,
    {
        Journal { state: JournalState::Prepared, replaces, removes }
    }

    /// Marks the Commit as happened: written out now, the journal says it is to be finished.
    pub fn commit(&mut self)
        ensures
            final(self).state == JournalState::Committed,
            final(self).replaces@ == old(self).replaces@,
            final(self).removes@ == old(self).removes@,
    {
        self.state = JournalState::Committed;
    }
}

/// Ending one more line adds it and its line feed.
proof fn lemma_ended_push(lines: Seq<Seq<char>>, count: int)
    requires
        0 <= count < lines.len(),
    ensures
        ended_lines(lines.subrange(0, count + 1)) == ended_lines(lines.subrange(0, count)) + lines[count]
            + seq!['\n'],
{
    assert(lines.subrange(0, count + 1).drop_last() =~= lines.subrange(0, count));
}

/// The line of `fields`, with its line feed, added to `text`.
fn push_line(text: &mut Vec<char>, fields: &Vec<Vec<char>>)
    ensures
        final(text)@ == old(text)@ + joined(texts_of(fields@)) + seq!['\n'],
{
    push_joined(text, fields);
    text.push('\n');
}

impl Journal {
    /// The journal as the text it is written as, which [`parse`] reads.
    pub fn to_text(&self) -> (text: String)
        ensures
            text@ == journal_text(self@),
    {
        let ghost lines = journal_lines(self@);
        let ghost count = self.replaces@.len();
        let mut text: Vec<char> = Vec::new();
        proof {
            reveal_strlit("tidings journal 2");
            reveal_strlit("prepared");
            reveal_strlit("committed");
            reveal_strlit("write");
            reveal_strlit("replace");
            reveal_strlit("remove");
            assert(lines.subrange(0, 0) =~= Seq::<Seq<char>>::empty());
        }
        let first = vec![chars_of("tidings journal 2")];
        push_line(&mut text, &first);
        proof {
            assert(texts_of(first@) =~= seq![format_line()]);
            lemma_ended_push(lines, 0);
        }
        let state = match self.state {
            JournalState::Prepared => chars_of("prepared"),
            JournalState::Committed => chars_of("committed"),
        };
        let second = vec![state];
        push_line(&mut text, &second);
        proof {
            assert(texts_of(second@) =~= seq![state_word(self.state)]);
            lemma_ended_push(lines, 1);
        }
        let mut i: usize = 0;
        while i < self.replaces.len()
            invariant
                i <= self.replaces.len(),
                count == self.replaces@.len(),
                lines == journal_lines(self@),
                text@ == ended_lines(lines.subrange(0, 2 + i)),
            decreases self.replaces.len() - i,
        {
            let replace = &self.replaces[i];
            let temporary = escape(&chars_of(replace.temporary.as_str()));
            let path = escape(replace.path.chars());
            let fields = match &replace.target {
                Target::AtPath => vec![chars_of("write"), temporary, path],
                Target::Linked(target) => vec![chars_of("replace"), temporary, path, escape(&chars_of(target.as_str()))],
            };
            push_line(&mut text, &fields);
            proof {
                assert(lines[2 + i] == replace_line(replace_view(*replace)));
                if replace.target is AtPath {
                    assert(texts_of(fields@) =~= seq!["write"@, escape_of(replace.temporary@), escape_of(replace.path@)]);
                } else {
                    assert(texts_of(fields@) =~= seq!["replace"@, escape_of(replace.temporary@), escape_of(replace.path@), escape_of(replace.target->Linked_0@)]);
                }
                lemma_ended_push(lines, 2 + i);
            }
            i = i + 1;
        }
        let mut k: usize = 0;
        while k < self.removes.len()
            invariant
                k <= self.removes.len(),
                count == self.replaces@.len(),
                lines == journal_lines(self@),
                text@ == ended_lines(lines.subrange(0, 2 + count + k)),
            decreases self.removes.len() - k,
        {
            let remove = &self.removes[k];
            let fields = vec![chars_of("remove"), escape(remove.path.chars()), to_hex(remove.revision)];
            push_line(&mut text, &fields);
            proof {
                assert(lines[2 + count + k] == remove_line(remove_view(*remove)));
                assert(texts_of(fields@) =~= seq!["remove"@, escape_of(remove.path@), to_hex_of(remove.revision.number())]);
                lemma_ended_push(lines, 2 + count + k);
            }
            k = k + 1;
        }
        proof {
            assert(lines.subrange(0, lines.len() as int) =~= lines);
        }
        string_of(&text)
    }
}

// ---------------------------------------------------------------------------------------------
// Reading the journal back.
/// Why a journal can't be read.
#[derive(Debug)]
pub enum JournalProblem {
    /// Its first line doesn't name a format this version of tidings knows.
    UnknownFormat,
    /// Its second line isn't a state.
    NoState,
    /// A Path in it is invalid.
    InvalidPath,
    /// This field of a `remove` isn't a Revision.
    BadRevision(String),
    /// This line isn't an item a journal can have.
    BadItem(String),
}

/// A [`JournalProblem`] as values.
pub enum ProblemView {
    UnknownFormat,
    NoState,
    InvalidPath,
    BadRevision(Seq<char>),
    BadItem(Seq<char>),
}

impl View for JournalProblem {
    type V = ProblemView;

    open spec fn view(&self) -> ProblemView {
        match self {
            JournalProblem::UnknownFormat => ProblemView::UnknownFormat,
            JournalProblem::NoState => ProblemView::NoState,
            JournalProblem::InvalidPath => ProblemView::InvalidPath,
            JournalProblem::BadRevision(field) => ProblemView::BadRevision(field@),
            JournalProblem::BadItem(line) => ProblemView::BadItem(line@),
        }
    }
}

/// One item of a journal, as values.
pub enum ItemView {
    Replace(ReplaceView),
    Remove((Seq<char>, u128)),
}

/// Each of `fields`, unescaped.
pub open spec fn unescaped_fields(fields: Seq<Seq<char>>) -> Seq<Seq<char>> {
    fields.map_values(|field: Seq<char>| unescape_of(field))
}

/// The fields of `line`, unescaped.
pub open spec fn fields_of(line: Seq<char>) -> Seq<Seq<char>> {
    unescaped_fields(split_on(line, '\t'))
}

/// What the item `line` records.
pub open spec fn parse_item(line: Seq<char>) -> Result<ItemView, ProblemView> {
    let fields = fields_of(line);
    if fields.len() == 3 && fields[0] == "write"@ {
        if is_path(fields[2]) {
            Ok(ItemView::Replace(ReplaceView { path: fields[2], temporary: fields[1], target: None }))
        } else {
            Err(ProblemView::InvalidPath)
        }
    } else if fields.len() == 4 && fields[0] == "replace"@ {
        if is_path(fields[2]) {
            Ok(
                ItemView::Replace(
                    ReplaceView { path: fields[2], temporary: fields[1], target: Some(fields[3]) },
                ),
            )
        } else {
            Err(ProblemView::InvalidPath)
        }
    } else if fields.len() == 3 && fields[0] == "remove"@ {
        match from_hex_of(fields[2]) {
            None => Err(ProblemView::BadRevision(fields[2])),
            Some(number) => if is_path(fields[1]) {
                Ok(ItemView::Remove((fields[1], number)))
            } else {
                Err(ProblemView::InvalidPath)
            },
        }
    } else {
        Err(ProblemView::BadItem(line))
    }
}

/// `journal` with `item` added after the others of its kind.
pub open spec fn with_item(journal: JournalView, item: ItemView) -> JournalView {
    match item {
        ItemView::Replace(replace) => JournalView { replaces: journal.replaces.push(replace), ..journal },
        ItemView::Remove(remove) => JournalView { removes: journal.removes.push(remove), ..journal },
    }
}

/// `journal` with the items `lines` record added, or the problem of the first that can't be read.
pub open spec fn parse_items(journal: JournalView, lines: Seq<Seq<char>>) -> Result<JournalView, ProblemView>
    decreases lines.len(),
{
    if lines.len() == 0 {
        Ok(journal)
    } else {
        match parse_item(lines[0]) {
            Err(problem) => Err(problem),
            Ok(item) => parse_items(with_item(journal, item), lines.drop_first()),
        }
    }
}

/// The journal `lines` record, or why they can't be read.
pub open spec fn parse_lines(lines: Seq<Seq<char>>) -> Result<JournalView, ProblemView> {
    if lines.len() == 0 || lines[0] != format_line() {
        Err(ProblemView::UnknownFormat)
    } else if lines.len() < 2 || (lines[1] != "prepared"@ && lines[1] != "committed"@) {
        Err(ProblemView::NoState)
    } else {
        parse_items(
            JournalView {
                state: if lines[1] == "prepared"@ {
                    JournalState::Prepared
                } else {
                    JournalState::Committed
                },
                replaces: Seq::empty(),
                removes: Seq::empty(),
            },
            lines.subrange(2, lines.len() as int),
        )
    }
}

/// The journal `text` records, or why it can't be read.
pub open spec fn parse_of(text: Seq<char>) -> Result<JournalView, ProblemView> {
    parse_lines(lines_of(text))
}

/// What the item `line` records.
fn read_item(line: &Vec<char>) -> (item: Result<Result<Replace, Remove>, JournalProblem>)
    ensures
        match item {
            Ok(Ok(replace)) => parse_item(line@) == Ok::<ItemView, ProblemView>(ItemView::Replace(replace_view(replace))),
            Ok(Err(remove)) => parse_item(line@) == Ok::<ItemView, ProblemView>(ItemView::Remove(remove_view(remove))),
            Err(problem) => parse_item(line@) == Err::<ItemView, ProblemView>(problem@),
        },
{
    let pieces = split_chars(line, '\t');
    let mut fields: Vec<Vec<char>> = Vec::new();
    let mut i: usize = 0;
    while i < pieces.len()
        invariant
            i <= pieces.len(),
            fields@.len() == i,
            texts_of(fields@) == unescaped_fields(texts_of(pieces@).subrange(0, i as int)),
        decreases pieces.len() - i,
    {
        let ghost earlier = fields@;
        fields.push(unescape(&pieces[i]));
        proof {
            let target = unescaped_fields(texts_of(pieces@).subrange(0, i + 1));
            assert forall|k: int| 0 <= k < i + 1 implies #[trigger] texts_of(fields@)[k] == target[k] by {
                if k < i {
                    assert(fields@[k] == earlier[k]);
                    assert(texts_of(earlier)[k] == unescaped_fields(texts_of(pieces@).subrange(0, i as int))[k]);
                }
            }
            assert(texts_of(fields@) =~= target);
        }
        i = i + 1;
    }
    proof {
        reveal_strlit("write");
        reveal_strlit("replace");
        reveal_strlit("remove");
        assert(texts_of(pieces@).subrange(0, i as int) =~= texts_of(pieces@));
        assert(texts_of(fields@) =~= fields_of(line@));
    }
    let write = chars_of("write");
    let replace = chars_of("replace");
    let remove = chars_of("remove");
    if fields.len() == 3 && same_chars(&fields[0], &write) {
        if refusal(&fields[2]).is_none() {
            let path = Path::checked(fields[2].clone());
            Ok(Ok(Replace { path, temporary: string_of(&fields[1]), target: Target::AtPath }))
        } else {
            Err(JournalProblem::InvalidPath)
        }
    } else if fields.len() == 4 && same_chars(&fields[0], &replace) {
        if refusal(&fields[2]).is_none() {
            let path = Path::checked(fields[2].clone());
            Ok(Ok(Replace { path, temporary: string_of(&fields[1]), target: Target::Linked(string_of(&fields[3])) }))
        } else {
            Err(JournalProblem::InvalidPath)
        }
    } else if fields.len() == 3 && same_chars(&fields[0], &remove) {
        match from_hex(&fields[2]) {
            None => Err(JournalProblem::BadRevision(string_of(&fields[2]))),
            Some(number) => if refusal(&fields[1]).is_none() {
                let path = Path::checked(fields[1].clone());
                Ok(Err(Remove { path, revision: Revision::from_number(number) }))
            } else {
                Err(JournalProblem::InvalidPath)
            },
        }
    } else {
        Err(JournalProblem::BadItem(string_of(line)))
    }
}

/// Reads the journal `text`, or says why it can't be read.
pub fn parse(text: &str) -> (journal: Result<Journal, JournalProblem>)
    ensures
        match journal {
            Ok(journal) => parse_of(text@) == Ok::<JournalView, ProblemView>(journal@),
            Err(problem) => parse_of(text@) == Err::<JournalView, ProblemView>(problem@),
        },
{
    let lines = split_lines(&chars_of(text));
    let ghost all = texts_of(lines@);
    proof {
        reveal_strlit("tidings journal 2");
        reveal_strlit("prepared");
        reveal_strlit("committed");
    }
    if lines.len() == 0 || !same_chars(&lines[0], &chars_of("tidings journal 2")) {
        return Err(JournalProblem::UnknownFormat);
    }
    let state = if lines.len() >= 2 && same_chars(&lines[1], &chars_of("prepared")) {
        JournalState::Prepared
    } else if lines.len() >= 2 && same_chars(&lines[1], &chars_of("committed")) {
        JournalState::Committed
    } else {
        return Err(JournalProblem::NoState);
    };
    let mut journal = Journal { state, replaces: Vec::new(), removes: Vec::new() };
    let mut i: usize = 2;
    proof {
        assert(journal@.replaces =~= Seq::<ReplaceView>::empty());
        assert(journal@.removes =~= Seq::<(Seq<char>, u128)>::empty());
    }
    while i < lines.len()
        invariant
            2 <= i <= lines.len(),
            all == texts_of(lines@),
            parse_of(text@) == parse_items(journal@, all.subrange(i as int, all.len() as int)),
        decreases lines.len() - i,
    {
        let ghost rest = all.subrange(i as int, all.len() as int);
        proof {
            assert(rest[0] == lines@[i as int]@);
            assert(rest.drop_first() =~= all.subrange(i + 1, all.len() as int));
        }
        let ghost before = journal@;
        match read_item(&lines[i]) {
            Ok(Ok(replace)) => {
                journal.replaces.push(replace);
                proof {
                    assert(journal@ =~= with_item(before, ItemView::Replace(replace_view(replace))));
                }
            },
            Ok(Err(remove)) => {
                journal.removes.push(remove);
                proof {
                    assert(journal@ =~= with_item(before, ItemView::Remove(remove_view(remove))));
                }
            },
            Err(problem) => return Err(problem),
        }
        i = i + 1;
    }
    proof {
        assert(all.subrange(i as int, all.len() as int) =~= Seq::<Seq<char>>::empty());
    }
    Ok(journal)
}

// ---------------------------------------------------------------------------------------------
// What is written reads back.
/// Whether `text` holds `c` nowhere.
pub open spec fn lacks(text: Seq<char>, c: char) -> bool {
    forall|i: int| 0 <= i < text.len() ==> #[trigger] text[i] != c
}

/// Cutting at a separator that stands between two texts cuts each of them apart.
proof fn lemma_split_concat(x: Seq<char>, y: Seq<char>, sep: char)
    ensures
        split_on(x + seq![sep] + y, sep) == split_on(x, sep) + split_on(y, sep),
    decreases y.len(),
{
    let z = x + seq![sep] + y;
    if y.len() == 0 {
        assert(z.drop_last() =~= x);
        assert(split_on(y, sep) =~= seq![Seq::<char>::empty()]);
        assert(split_on(z, sep) =~= split_on(x, sep) + split_on(y, sep));
    } else {
        let shorter = y.drop_last();
        lemma_split_concat(x, shorter, sep);
        lemma_split_not_empty(shorter, sep);
        assert(z.drop_last() =~= x + seq![sep] + shorter);
        assert(z.last() == y.last());
        assert(split_on(z, sep) =~= split_on(x, sep) + split_on(y, sep));
    }
}

/// Text without the separator is one piece.
proof fn lemma_split_single(x: Seq<char>, sep: char)
    requires
        lacks(x, sep),
    ensures
        split_on(x, sep) == seq![x],
    decreases x.len(),
{
    if x.len() > 0 {
        lemma_split_single(x.drop_last(), sep);
        assert(x.last() == x[x.len() - 1]);
        assert(x.drop_last().push(x.last()) =~= x);
        assert(split_on(x, sep) =~= seq![x]);
    } else {
        assert(x =~= Seq::<char>::empty());
    }
}

/// Lines without line feeds, each ended by one, cut back into themselves and an empty piece.
proof fn lemma_split_ended(lines: Seq<Seq<char>>)
    requires
        forall|k: int| 0 <= k < lines.len() ==> lacks(#[trigger] lines[k], '\n'),
    ensures
        split_on(ended_lines(lines), '\n') == lines.push(Seq::<char>::empty()),
    decreases lines.len(),
{
    if lines.len() > 0 {
        let front = lines.drop_last();
        let last = lines.last();
        let before = ended_lines(front);
        lemma_split_ended(front);
        let whole = ended_lines(lines);
        assert(whole == before + last + seq!['\n']);
        assert(whole.drop_last() =~= before + last);
        assert(lacks(last, '\n')) by {
            assert(last == lines[lines.len() - 1]);
        }
        if front.len() == 0 {
            assert(before =~= Seq::<char>::empty());
            lemma_split_single(last, '\n');
            assert(before + last =~= last);
        } else {
            let rest = before.drop_last();
            assert(before == ended_lines(front.drop_last()) + front.last() + seq!['\n']);
            assert(before =~= rest + seq!['\n']);
            assert(before + last =~= rest + seq!['\n'] + last);
            lemma_split_concat(rest, last, '\n');
            lemma_split_single(last, '\n');
            assert(rest + seq!['\n'] == before);
            assert(split_on(before, '\n') == split_on(rest, '\n').push(Seq::<char>::empty())) by {
                assert(before.drop_last() =~= rest);
            }
            let cut = split_on(rest, '\n');
            assert(cut.push(Seq::<char>::empty()).drop_last() =~= cut);
            assert(front.push(Seq::<char>::empty()).drop_last() =~= front);
            assert(cut =~= front);
        }
        assert(split_on(whole, '\n') =~= lines.push(Seq::<char>::empty()));
    } else {
        assert(ended_lines(lines) =~= Seq::<char>::empty());
    }
}

/// Lines without line feeds or a carriage return at their end, each ended by a line feed, are the
/// lines `str::lines` gives back.
proof fn lemma_lines_of_ended(lines: Seq<Seq<char>>)
    requires
        forall|k: int| 0 <= k < lines.len() ==> lacks(#[trigger] lines[k], '\n') && lacks(lines[k], '\r'),
    ensures
        lines_of(ended_lines(lines)) == lines,
{
    lemma_split_ended(lines);
    let pieces = split_on(ended_lines(lines), '\n');
    assert(pieces.drop_last() =~= lines);
    assert forall|k: int| 0 <= k < lines.len() implies #[trigger] strip_cr(lines[k]) == lines[k] by {
        if lines[k].len() > 0 {
            assert(lines[k].last() == lines[k][lines[k].len() - 1]);
        }
    }
    assert(lines_of(ended_lines(lines)) =~= lines);
}

/// Fields without tabs, joined by tabs, cut back into themselves.
proof fn lemma_split_joined(fields: Seq<Seq<char>>)
    requires
        fields.len() >= 1,
        forall|k: int| 0 <= k < fields.len() ==> lacks(#[trigger] fields[k], '\t'),
    ensures
        split_on(joined(fields), '\t') == fields,
    decreases fields.len(),
{
    if fields.len() == 1 {
        lemma_split_single(fields[0], '\t');
        assert(split_on(joined(fields), '\t') =~= fields);
    } else {
        let rest = fields.drop_first();
        lemma_split_joined(rest);
        lemma_split_single(fields[0], '\t');
        lemma_split_concat(fields[0], joined(rest), '\t');
        assert(split_on(joined(fields), '\t') =~= fields);
    }
}

/// Joining fields that lack a character other than a tab gives a text that lacks it too.
proof fn lemma_joined_lacks(fields: Seq<Seq<char>>, c: char)
    requires
        c != '\t',
        forall|k: int| 0 <= k < fields.len() ==> lacks(#[trigger] fields[k], c),
    ensures
        lacks(joined(fields), c),
    decreases fields.len(),
{
    if fields.len() > 1 {
        let rest = fields.drop_first();
        lemma_joined_lacks(rest, c);
        assert(lacks(fields[0], c));
        let whole = joined(fields);
        assert forall|i: int| 0 <= i < whole.len() implies #[trigger] whole[i] != c by {
            if i < fields[0].len() {
                assert(whole[i] == fields[0][i]);
            } else if i > fields[0].len() {
                assert(whole[i] == joined(rest)[i - fields[0].len() - 1]);
            }
        }
    } else if fields.len() == 1 {
        assert(lacks(fields[0], c));
    }
}

/// Text without a `\` unescapes to itself.
proof fn lemma_unescape_plain(text: Seq<char>)
    requires
        lacks(text, '\\'),
    ensures
        unescape_of(text) == text,
    decreases text.len(),
{
    if text.len() > 0 {
        assert(lacks(text.drop_first(), '\\')) by {
            assert forall|i: int| 0 <= i < text.drop_first().len() implies #[trigger] text.drop_first()[i] != '\\' by {
                assert(text.drop_first()[i] == text[i + 1]);
            }
        }
        lemma_unescape_plain(text.drop_first());
        assert(text =~= seq![text[0]] + text.drop_first());
    }
}

/// Hexadecimal digits hold no tab, line break or `\`.
proof fn lemma_hex_plain(number: u128)
    ensures
        lacks(to_hex_of(number), '\t'),
        lacks(to_hex_of(number), '\n'),
        lacks(to_hex_of(number), '\r'),
        lacks(to_hex_of(number), '\\'),
{
    let hex = to_hex_of(number);
    assert forall|i: int| 0 <= i < hex.len() implies #[trigger] hex[i] != '\t' && hex[i] != '\n'
        && hex[i] != '\r' && hex[i] != '\\' by {
        let e = (31 - i) as nat;
        lemma_pow_positive(16, e);
        let d = (number as int / pow(16, e)) % 16;
        assert(0 <= d < 16);
    }
}

/// Escaped text lacks tabs and line breaks.
proof fn lemma_escaped_lacks(text: Seq<char>)
    ensures
        lacks(escape_of(text), '\t'),
        lacks(escape_of(text), '\n'),
        lacks(escape_of(text), '\r'),
{
    lemma_escaped_is_one_field(text);
}

/// The line that records `replace` reads back as it.
proof fn lemma_replace_reads_back(replace: ReplaceView)
    requires
        is_path(replace.path),
    ensures
        parse_item(replace_line(replace)) == Ok::<ItemView, ProblemView>(ItemView::Replace(replace)),
        lacks(replace_line(replace), '\n'),
        lacks(replace_line(replace), '\r'),
{
    reveal_strlit("write");
    reveal_strlit("replace");
    reveal_strlit("remove");
    lemma_escaped_lacks(replace.temporary);
    lemma_escaped_lacks(replace.path);
    law_unescape_undoes_escape(replace.temporary);
    law_unescape_undoes_escape(replace.path);
    lemma_unescape_plain("write"@);
    lemma_unescape_plain("replace"@);
    let fields = match replace.target {
        None => seq!["write"@, escape_of(replace.temporary), escape_of(replace.path)],
        Some(target) => seq!["replace"@, escape_of(replace.temporary), escape_of(replace.path), escape_of(target)],
    };
    if let Some(target) = replace.target {
        lemma_escaped_lacks(target);
        law_unescape_undoes_escape(target);
    }
    assert(replace_line(replace) == joined(fields));
    lemma_split_joined(fields);
    lemma_joined_lacks(fields, '\n');
    lemma_joined_lacks(fields, '\r');
    let read = fields_of(replace_line(replace));
    assert(read == unescaped_fields(fields));
    assert(read[0] == unescape_of(fields[0]));
    assert(read[1] == replace.temporary);
    assert(read[2] == replace.path);
    if let Some(target) = replace.target {
        assert(read[3] == target);
        assert(read[0] == "replace"@);
    } else {
        assert(read[0] == "write"@);
    }
}

/// The line that records `remove` reads back as it.
proof fn lemma_remove_reads_back(remove: (Seq<char>, u128))
    requires
        is_path(remove.0),
    ensures
        parse_item(remove_line(remove)) == Ok::<ItemView, ProblemView>(ItemView::Remove(remove)),
        lacks(remove_line(remove), '\n'),
        lacks(remove_line(remove), '\r'),
{
    reveal_strlit("write");
    reveal_strlit("replace");
    reveal_strlit("remove");
    lemma_escaped_lacks(remove.0);
    law_unescape_undoes_escape(remove.0);
    lemma_unescape_plain("remove"@);
    lemma_hex_plain(remove.1);
    lemma_unescape_plain(to_hex_of(remove.1));
    law_hex_reads_back(remove.1);
    let fields = seq!["remove"@, escape_of(remove.0), to_hex_of(remove.1)];
    lemma_split_joined(fields);
    lemma_joined_lacks(fields, '\n');
    lemma_joined_lacks(fields, '\r');
    let read = fields_of(remove_line(remove));
    assert(read[0] == "remove"@);
    assert(read[1] == remove.0);
    assert(read[2] == to_hex_of(remove.1));
}

/// Reading the lines of `replaces`, then `rest`, adds the replaces, then reads `rest`.
proof fn lemma_parse_replaces(journal: JournalView, replaces: Seq<ReplaceView>, rest: Seq<Seq<char>>)
    requires
        forall|k: int| 0 <= k < replaces.len() ==> is_path(#[trigger] replaces[k].path),
    ensures
        parse_items(journal, replaces.map_values(|replace: ReplaceView| replace_line(replace)) + rest)
            == parse_items(JournalView { replaces: journal.replaces + replaces, ..journal }, rest),
    decreases replaces.len(),
{
    let lines = replaces.map_values(|replace: ReplaceView| replace_line(replace)) + rest;
    if replaces.len() == 0 {
        assert(lines =~= rest);
        assert(journal.replaces + replaces =~= journal.replaces);
        assert(JournalView { replaces: journal.replaces + replaces, ..journal } == journal);
    } else {
        let first = replaces[0];
        lemma_replace_reads_back(first);
        let next = with_item(journal, ItemView::Replace(first));
        lemma_parse_replaces(next, replaces.drop_first(), rest);
        assert(lines[0] == replace_line(first));
        assert(lines.drop_first() =~= replaces.drop_first().map_values(
            |replace: ReplaceView| replace_line(replace),
        ) + rest);
        assert(next.replaces + replaces.drop_first() =~= journal.replaces + replaces);
    }
}

/// Reading the lines of `removes` adds them.
proof fn lemma_parse_removes(journal: JournalView, removes: Seq<(Seq<char>, u128)>)
    requires
        forall|k: int| 0 <= k < removes.len() ==> is_path(#[trigger] removes[k].0),
    ensures
        parse_items(journal, removes.map_values(|remove: (Seq<char>, u128)| remove_line(remove)))
            == Ok::<JournalView, ProblemView>(JournalView { removes: journal.removes + removes, ..journal }),
    decreases removes.len(),
{
    let lines = removes.map_values(|remove: (Seq<char>, u128)| remove_line(remove));
    if removes.len() == 0 {
        assert(journal.removes + removes =~= journal.removes);
        assert(JournalView { removes: journal.removes + removes, ..journal } == journal);
    } else {
        let first = removes[0];
        lemma_remove_reads_back(first);
        let next = with_item(journal, ItemView::Remove(first));
        lemma_parse_removes(next, removes.drop_first());
        assert(lines[0] == remove_line(first));
        assert(lines.drop_first() =~= removes.drop_first().map_values(
            |remove: (Seq<char>, u128)| remove_line(remove),
        ));
        assert(next.removes + removes.drop_first() =~= journal.removes + removes);
    }
}

/// A journal written out reads back as the same journal.
pub proof fn law_journal_reads_back(journal: JournalView)
    requires
        forall|k: int| 0 <= k < journal.replaces.len() ==> is_path(#[trigger] journal.replaces[k].path),
        forall|k: int| 0 <= k < journal.removes.len() ==> is_path(#[trigger] journal.removes[k].0),
    ensures
        parse_of(journal_text(journal)) == Ok::<JournalView, ProblemView>(journal),
{
    reveal_strlit("tidings journal 2");
    reveal_strlit("prepared");
    reveal_strlit("committed");
    let lines = journal_lines(journal);
    let replace_lines = journal.replaces.map_values(|replace: ReplaceView| replace_line(replace));
    let remove_lines = journal.removes.map_values(|remove: (Seq<char>, u128)| remove_line(remove));
    assert(lines == seq![format_line(), state_word(journal.state)] + replace_lines + remove_lines);
    assert forall|k: int| 0 <= k < lines.len() implies lacks(#[trigger] lines[k], '\n') && lacks(lines[k], '\r') by {
        if k >= 2 && k < 2 + journal.replaces.len() {
            assert(lines[k] == replace_line(journal.replaces[k - 2]));
            lemma_replace_reads_back(journal.replaces[k - 2]);
        } else if k >= 2 + journal.replaces.len() {
            assert(lines[k] == remove_line(journal.removes[k - 2 - journal.replaces.len()]));
            lemma_remove_reads_back(journal.removes[k - 2 - journal.replaces.len()]);
        }
    }
    lemma_lines_of_ended(lines);
    assert(lines.subrange(2, lines.len() as int) =~= replace_lines + remove_lines);
    let start = JournalView { state: journal.state, replaces: Seq::empty(), removes: Seq::empty() };
    lemma_parse_replaces(start, journal.replaces, remove_lines);
    let middle = JournalView { replaces: start.replaces + journal.replaces, ..start };
    lemma_parse_removes(middle, journal.removes);
    assert(start.replaces + journal.replaces =~= journal.replaces);
    assert(middle.removes + journal.removes =~= journal.removes);
    assert(lines[1] == state_word(journal.state));
    assert("committed"@.len() != "prepared"@.len());
    assert(lines[0] == format_line());
    assert(lines_of(journal_text(journal)) == lines);
    assert(parse_lines(lines) == parse_items(start, replace_lines + remove_lines));
    let end = JournalView { removes: middle.removes + journal.removes, ..middle };
    assert(end =~= journal);
}

// ---------------------------------------------------------------------------------------------
// Temporary files.
/// The decimal digit for `d`, below 10.
pub open spec fn decimal_char(d: int) -> char {
    (('0' as int) + d) as char
}

/// `n` in decimal.
pub open spec fn decimal_of(n: nat) -> Seq<char>
    decreases n,
{
    if n < 10 {
        seq![decimal_char(n as int)]
    } else {
        decimal_of(n / 10).push(decimal_char((n % 10) as int))
    }
}

/// `n` in decimal.
pub fn decimal(n: usize) -> (digits: Vec<char>)
    ensures
        digits@ == decimal_of(n as nat),
    decreases n,
{
    if n < 10 {
        vec![char_at_offset('0', n as u32)]
    } else {
        let mut digits = decimal(n / 10);
        digits.push(char_at_offset('0', (n % 10) as u32));
        digits
    }
}

/// The name of the temporary file of a Commit's `n`th write, to a File named `name`, for the
/// Commit whose number is `commit_id`: `.<name>.tidings-<commit-id>-<n>`.
pub open spec fn temporary_name_of(name: Seq<char>, commit_id: u128, n: nat) -> Seq<char> {
    seq!['.'] + name + temporary_tag() + to_hex_of(commit_id) + seq!['-'] + decimal_of(n)
}

/// The name of the temporary file of a Commit's `n`th write, to a File named `name`, for the
/// Commit whose number is `commit_id`. It goes next to the File, so that the rename can't cross
/// a volume.
pub fn temporary_file_name(name: &str, commit_id: u128, n: usize) -> (temporary: String)
    ensures
        temporary@ == temporary_name_of(name@, commit_id, n as nat),
{
    let mut text: Vec<char> = Vec::new();
    text.push('.');
    let fields = vec![
        chars_of(name),
        vec!['.', 't', 'i', 'd', 'i', 'n', 'g', 's', '-'],
        to_hex(Revision::from_number(commit_id)),
    ];
    let mut i: usize = 0;
    while i < fields.len()
        invariant
            i <= fields.len() == 3,
            text@ == seq!['.'] + fields@[0]@.subrange(0, 0) + (if i >= 1 { fields@[0]@ } else { Seq::empty() })
                + (if i >= 2 { fields@[1]@ } else { Seq::empty() }) + (if i >= 3 { fields@[2]@ } else { Seq::empty() }),
        decreases fields.len() - i,
    {
        let ghost before = text@;
        let field = &fields[i];
        let mut k: usize = 0;
        while k < field.len()
            invariant
                k <= field.len(),
                text@ == before + field@.subrange(0, k as int),
            decreases field.len() - k,
        {
            text.push(field[k]);
            k = k + 1;
            proof {
                assert(text@ =~= before + field@.subrange(0, k as int));
            }
        }
        proof {
            assert(field@.subrange(0, k as int) =~= field@);
        }
        i = i + 1;
        proof {
            assert(fields@[0]@.subrange(0, 0) =~= Seq::<char>::empty());
            assert(text@ =~= seq!['.'] + fields@[0]@.subrange(0, 0) + (if i >= 1 { fields@[0]@ } else { Seq::empty() })
                + (if i >= 2 { fields@[1]@ } else { Seq::empty() }) + (if i >= 3 { fields@[2]@ } else { Seq::empty() }));
        }
    }
    text.push('-');
    let digits = decimal(n);
    let ghost before = text@;
    let mut k: usize = 0;
    while k < digits.len()
        invariant
            k <= digits.len(),
            text@ == before + digits@.subrange(0, k as int),
        decreases digits.len() - k,
    {
        text.push(digits[k]);
        k = k + 1;
        proof {
            assert(text@ =~= before + digits@.subrange(0, k as int));
        }
    }
    proof {
        assert(digits@.subrange(0, k as int) =~= digits@);
        assert(fields@[0]@.subrange(0, 0) =~= Seq::<char>::empty());
        assert(fields@[1]@ =~= temporary_tag());
        assert(text@ =~= temporary_name_of(name@, commit_id, n as nat));
    }
    string_of(&text)
}

/// Decimal digits are all digits.
proof fn lemma_decimal_digits(n: nat)
    ensures
        decimal_of(n).len() >= 1,
        forall|i: int| 0 <= i < decimal_of(n).len() ==> is_digit(#[trigger] decimal_of(n)[i]),
    decreases n,
{
    if n >= 10 {
        lemma_decimal_digits(n / 10);
    }
}

/// Text that ends with `digits`, all of them digits, after something that isn't one, ends with
/// just that many digits.
proof fn lemma_trailing_digits(front: Seq<char>, digits: Seq<char>)
    requires
        front.len() >= 1,
        !is_digit(front.last()),
        forall|i: int| 0 <= i < digits.len() ==> is_digit(#[trigger] digits[i]),
    ensures
        trailing_digits(front + digits) == digits.len(),
    decreases digits.len(),
{
    if digits.len() == 0 {
        assert(front + digits =~= front);
    } else {
        lemma_trailing_digits(front, digits.drop_last());
        assert((front + digits).drop_last() =~= front + digits.drop_last());
        assert((front + digits).last() == digits.last());
        assert(is_digit(digits[digits.len() - 1]));
    }
}

/// A temporary file's name is named like one, so no Path has it as a segment.
pub proof fn law_temporary_names_are_reserved(name: Seq<char>, commit_id: u128, n: nat)
    requires
        name.len() > 0,
    ensures
        is_temporary_name(temporary_name_of(name, commit_id, n)),
{
    let hex = to_hex_of(commit_id);
    let digits = decimal_of(n);
    let front = seq!['.'] + name + temporary_tag() + hex + seq!['-'];
    let whole = temporary_name_of(name, commit_id, n);
    assert(whole =~= front + digits);
    lemma_decimal_digits(n);
    assert(front.last() == '-');
    lemma_trailing_digits(front, digits);
    lemma_hex_plain(commit_id);
    let dash = whole.len() - digits.len() - 1;
    let start = dash - 32;
    assert(dash == front.len() - 1);
    assert(whole[dash] == '-');
    assert forall|i: int| start <= i < dash implies is_lower_hex(#[trigger] whole[i]) by {
        assert(whole[i] == hex[i - start]);
        let e = (31 - (i - start)) as nat;
        lemma_pow_positive(16, e);
    }
    assert(whole.subrange(start - 9, start) =~= temporary_tag());
    assert(whole[0] == '.');
}

} // verus!
