//! Revisions: which state a File is in, and which state everything under a Prefix is in.

use vstd::prelude::*;

use vstd::arithmetic::div_mod::{lemma_breakdown, lemma_small_mod};
use vstd::arithmetic::power::{lemma_pow_positive, pow};

use crate::area::Area;
use crate::order::{Rank, chars_lt, lemma_lt_asymmetric, lemma_lt_irreflexive, lemma_lt_transitive, rank_chars};
use crate::path::Path;
use crate::prefix::Prefix;
use crate::sorted::{has_key, lemma_above_all, lemma_below_all, lemma_lookup_at, lookup, sorted_keys, sorted_names};

verus! {

/// The 128-bit XXH3 hash of `data`, as `xxhash_rust::xxh3::xxh3_128` computes it.
pub uninterp spec fn xxh3_128_of(data: Seq<u8>) -> u128;

/// Calls `xxhash_rust::xxh3::xxh3_128`. What it gives is named, not stated.
#[verifier::external_body]
fn xxh3_128(data: &[u8]) -> (hash: u128)
    ensures
        hash == xxh3_128_of(data@),
{
    xxhash_rust::xxh3::xxh3_128(data)
}

/// An opaque value identifying one state of a File, as returned when it is read.
///
/// Two Files with the same contents have the same Revision, on every Backend: a Revision is a
/// 128-bit hash (XXH3) of the contents. So a File that is changed and then changed back counts
/// as unchanged.
#[derive(Debug, Clone, Copy, PartialEq, Eq, Structural, Hash)]
pub struct Revision(u128);

/// The Revision of a File whose contents are `contents`.
pub closed spec fn content_revision(contents: Seq<char>) -> Revision {
    Revision(xxh3_128_of(vstd::utf8::encode_utf8(contents)))
}

impl Revision {
    /// The number the Revision is.
    pub closed spec fn number(self) -> u128 {
        self.0
    }

    /// The Revision of a File with these contents.
    pub fn of(contents: &str) -> (revision: Revision)
        ensures
            revision == content_revision(contents@),
    {
        Revision(xxh3_128(contents.as_bytes()))
    }

    /// The Revision of a file whose contents are the bytes `contents`, valid UTF-8 or not.
    pub fn of_bytes(contents: &[u8]) -> (revision: Revision)
        ensures
            revision.number() == xxh3_128_of(contents@),
            forall|text: Seq<char>| vstd::utf8::encode_utf8(text) == contents@ ==> revision == #[trigger] content_revision(text),
    {
        Revision(xxh3_128(contents))
    }

    /// The Revision whose number is `number`.
    pub fn from_number(number: u128) -> (revision: Revision)
        ensures
            revision.number() == number,
    {
        Revision(number)
    }

    /// The number the Revision is.
    pub fn to_number(&self) -> (number: u128)
        ensures
            number == self.number(),
    {
        self.0
    }
}

/// A Revision is decided by the contents alone: Files with the same contents have the same
/// Revision, whatever Backend holds them.
pub proof fn law_revision_is_decided_by_contents(a: Seq<char>, b: Seq<char>)
    requires
        a == b,
    ensures
        content_revision(a) == content_revision(b),
{
}

/// `n`'s lowest `count` bytes, least significant first.
pub open spec fn le_bytes(n: nat, count: nat) -> Seq<u8>
    decreases count,
{
    if count == 0 {
        Seq::empty()
    } else {
        seq![(n % 256) as u8] + le_bytes(n / 256, (count - 1) as nat)
    }
}

/// The bytes a Prefix Revision's hash is taken over: for each File in order, its Path in UTF-8,
/// a NUL, which no Path holds, so it ends the Path unambiguously, and its Revision's 16 bytes,
/// least significant first.
pub open spec fn encode_files(files: Seq<(Seq<char>, Revision)>) -> Seq<u8>
    decreases files.len(),
{
    if files.len() == 0 {
        Seq::empty()
    } else {
        encode_files(files.drop_last()) + vstd::utf8::encode_utf8(files.last().0) + seq![0u8]
            + le_bytes(files.last().1.number() as nat, 16)
    }
}

/// `le_bytes` gives `count` bytes.
proof fn lemma_le_bytes_len(n: nat, count: nat)
    ensures
        le_bytes(n, count).len() == count,
    decreases count,
{
    if count > 0 {
        lemma_le_bytes_len(n / 256, (count - 1) as nat);
    }
}

/// Numbers with the same lowest `count` bytes are the same below `256^count`.
proof fn lemma_le_bytes_decide(a: nat, b: nat, count: nat)
    requires
        le_bytes(a, count) == le_bytes(b, count),
    ensures
        (a as int) % pow(256, count) == (b as int) % pow(256, count),
    decreases count,
{
    lemma_pow_positive(256, count);
    if count == 0 {
        assert(pow(256, 0) == 1) by {
            reveal(pow);
        }
    } else {
        let rest = (count - 1) as nat;
        lemma_le_bytes_len(a / 256, rest);
        lemma_le_bytes_len(b / 256, rest);
        assert(le_bytes(a, count)[0] == (a % 256) as u8);
        assert(le_bytes(b, count)[0] == (b % 256) as u8);
        assert(a % 256 == b % 256);
        assert(le_bytes(a / 256, rest) =~= le_bytes(a, count).drop_first());
        assert(le_bytes(b / 256, rest) =~= le_bytes(b, count).drop_first());
        lemma_le_bytes_decide(a / 256, b / 256, rest);
        lemma_pow_positive(256, rest);
        assert(pow(256, count) == 256 * pow(256, rest)) by {
            reveal(pow);
        }
        lemma_breakdown(a as int, 256, pow(256, rest) as int);
        lemma_breakdown(b as int, 256, pow(256, rest) as int);
    }
}

/// The 16 bytes of two different numbers below `2^128` differ.
proof fn lemma_le_bytes_of_numbers(a: u128, b: u128)
    requires
        le_bytes(a as nat, 16) == le_bytes(b as nat, 16),
    ensures
        a == b,
{
    lemma_le_bytes_decide(a as nat, b as nat, 16);
    assert(pow(256, 16) == 0x1_0000_0000_0000_0000_0000_0000_0000_0000nat) by {
        reveal_with_fuel(pow, 17);
    }
    lemma_small_mod(a as nat, pow(256, 16) as nat);
    lemma_small_mod(b as nat, pow(256, 16) as nat);
}

/// Lists of Files with the same Paths in the same order are encoded in the same number of bytes.
proof fn lemma_encode_files_len(before: Seq<(Seq<char>, Revision)>, after: Seq<(Seq<char>, Revision)>)
    requires
        before.len() == after.len(),
        forall|i: int| 0 <= i < before.len() ==> (#[trigger] before[i]).0 == after[i].0,
    ensures
        encode_files(before).len() == encode_files(after).len(),
    decreases before.len(),
{
    if before.len() > 0 {
        lemma_encode_files_len(before.drop_last(), after.drop_last());
        lemma_le_bytes_len(before.last().1.number() as nat, 16);
        lemma_le_bytes_len(after.last().1.number() as nat, 16);
    }
}

/// The bytes a Prefix Revision is hashed over hold every Revision it covers: two lists of the same
/// Paths, in the same order, where some Path has another Revision, are never encoded the same, so
/// a File under the Prefix that gets new contents is hashed from other bytes.
pub proof fn law_prefix_revision_bytes_hold_each_revision(
    before: Seq<(Seq<char>, Revision)>,
    after: Seq<(Seq<char>, Revision)>,
    at: int,
)
    requires
        before.len() == after.len(),
        forall|i: int| 0 <= i < before.len() ==> (#[trigger] before[i]).0 == after[i].0,
        0 <= at < before.len(),
        before[at].1 != after[at].1,
    ensures
        encode_files(before) != encode_files(after),
    decreases before.len(),
{
    let n = before.len() - 1;
    let head_before = encode_files(before.drop_last());
    let head_after = encode_files(after.drop_last());
    let name = vstd::utf8::encode_utf8(before.last().0);
    let tail_before = le_bytes(before.last().1.number() as nat, 16);
    let tail_after = le_bytes(after.last().1.number() as nat, 16);
    lemma_encode_files_len(before.drop_last(), after.drop_last());
    lemma_le_bytes_len(before.last().1.number() as nat, 16);
    lemma_le_bytes_len(after.last().1.number() as nat, 16);
    assert(encode_files(before) == head_before + name + seq![0u8] + tail_before);
    assert(encode_files(after) == head_after + name + seq![0u8] + tail_after);
    if encode_files(before) == encode_files(after) {
        let whole = encode_files(before);
        let cut = whole.len() - 16;
        if at == n {
            assert(whole.subrange(cut, whole.len() as int) =~= tail_before);
            assert(encode_files(after).subrange(cut, whole.len() as int) =~= tail_after);
            lemma_le_bytes_of_numbers(before.last().1.number(), after.last().1.number());
            assert(before.last().1 == after.last().1);
        } else {
            law_prefix_revision_bytes_hold_each_revision(before.drop_last(), after.drop_last(), at);
            assert(whole.subrange(0, head_before.len() as int) =~= head_before);
            assert(encode_files(after).subrange(0, head_after.len() as int) =~= head_after);
        }
    }
}

/// The bytes one File adds: its Path in UTF-8, a NUL, and its Revision's 16 bytes.
pub open spec fn file_bytes(file: (Seq<char>, Revision)) -> Seq<u8> {
    vstd::utf8::encode_utf8(file.0) + seq![0u8] + le_bytes(file.1.number() as nat, 16)
}

/// The encoding read from the front: the first File's bytes, then the others'.
proof fn lemma_encode_files_front(files: Seq<(Seq<char>, Revision)>)
    requires
        files.len() > 0,
    ensures
        encode_files(files) == file_bytes(files[0]) + encode_files(files.drop_first()),
    decreases files.len(),
{
    if files.len() == 1 {
        assert(files.drop_last() =~= Seq::<(Seq<char>, Revision)>::empty());
        assert(files.drop_first() =~= Seq::<(Seq<char>, Revision)>::empty());
        assert(encode_files(files) =~= file_bytes(files[0]) + encode_files(files.drop_first()));
    } else {
        lemma_encode_files_front(files.drop_last());
        assert(files.drop_last().drop_first() =~= files.drop_first().drop_last());
        assert(files.drop_first().last() == files.last());
        assert(files.drop_last()[0] == files[0]);
        assert(encode_files(files) =~= file_bytes(files[0]) + encode_files(files.drop_first()));
    }
}

/// No byte of the UTF-8 encoding of a character other than NUL is 0.
proof fn lemma_scalar_has_no_nul(c: char)
    requires
        c != '\0',
    ensures
        forall|i: int| 0 <= i < vstd::utf8::encode_scalar(c as u32).len() ==> #[trigger] vstd::utf8::encode_scalar(
            c as u32,
        )[i] != 0,
{
    let v = c as u32;
    vstd::utf8::char_is_scalar(c);
    assert(v != 0);
    if vstd::utf8::has_width_1_encoding(v) {
        assert(vstd::utf8::leading_byte_width_1(v) != 0) by (bit_vector)
            requires
                v != 0,
                v <= 0x7F,
        ;
    } else {
        assert(vstd::utf8::leading_byte_width_2(v) != 0) by (bit_vector);
        assert(vstd::utf8::leading_byte_width_3(v) != 0) by (bit_vector);
        assert(vstd::utf8::leading_byte_width_4(v) != 0) by (bit_vector);
        assert(vstd::utf8::last_continuation_byte(v) != 0) by (bit_vector);
        assert(vstd::utf8::second_last_continuation_byte(v) != 0) by (bit_vector);
        assert(vstd::utf8::third_last_continuation_byte(v) != 0) by (bit_vector);
    }
}

/// No byte of the UTF-8 encoding of text without a NUL is 0.
proof fn lemma_utf8_has_no_nul(text: Seq<char>)
    requires
        forall|i: int| 0 <= i < text.len() ==> #[trigger] text[i] != '\0',
    ensures
        forall|i: int| 0 <= i < vstd::utf8::encode_utf8(text).len() ==> #[trigger] vstd::utf8::encode_utf8(text)[i] != 0,
    decreases text.len(),
{
    if text.len() > 0 {
        lemma_scalar_has_no_nul(text[0]);
        lemma_utf8_has_no_nul(text.drop_first());
        let first = vstd::utf8::encode_scalar(text[0] as u32);
        let rest = vstd::utf8::encode_utf8(text.drop_first());
        assert forall|i: int| 0 <= i < vstd::utf8::encode_utf8(text).len() implies #[trigger] vstd::utf8::encode_utf8(
            text,
        )[i] != 0 by {
            if i < first.len() {
                assert(vstd::utf8::encode_utf8(text)[i] == first[i]);
            } else {
                assert(vstd::utf8::encode_utf8(text)[i] == rest[i - first.len()]);
            }
        }
    }
}

/// Whether no Path in `files` holds a NUL, as no valid Path does.
pub open spec fn paths_without_nul(files: Seq<(Seq<char>, Revision)>) -> bool {
    forall|i: int, j: int| 0 <= i < files.len() && 0 <= j < files[i].0.len() ==> #[trigger] files[i].0[j] != '\0'
}

/// The bytes a Prefix Revision is hashed over decide what it covers: two lists of Files whose
/// Paths hold no NUL are encoded the same only if they are the same list, the same Paths with the
/// same Revisions in the same order. So adding, removing or renaming a File, or changing its
/// contents, changes what is hashed.
pub proof fn law_prefix_revision_bytes_decide_the_files(
    before: Seq<(Seq<char>, Revision)>,
    after: Seq<(Seq<char>, Revision)>,
)
    requires
        paths_without_nul(before),
        paths_without_nul(after),
        encode_files(before) == encode_files(after),
    ensures
        before == after,
    decreases before.len(),
{
    if before.len() == 0 && after.len() == 0 {
        assert(before =~= after);
    } else if before.len() == 0 || after.len() == 0 {
        let longer = if before.len() == 0 { after } else { before };
        lemma_encode_files_front(longer);
        lemma_le_bytes_len(longer[0].1.number() as nat, 16);
        assert(encode_files(longer).len() > 0);
        assert(encode_files(Seq::<(Seq<char>, Revision)>::empty()).len() == 0);
        if before.len() == 0 {
            assert(before =~= Seq::<(Seq<char>, Revision)>::empty());
        } else {
            assert(after =~= Seq::<(Seq<char>, Revision)>::empty());
        }
    } else {
        lemma_encode_files_front(before);
        lemma_encode_files_front(after);
        let whole = encode_files(before);
        let u = vstd::utf8::encode_utf8(before[0].0);
        let v = vstd::utf8::encode_utf8(after[0].0);
        assert forall|j: int| 0 <= j < before[0].0.len() implies #[trigger] before[0].0[j] != '\0' by {
            assert(before[0].0[j] != '\0');
        }
        assert forall|j: int| 0 <= j < after[0].0.len() implies #[trigger] after[0].0[j] != '\0' by {
            assert(after[0].0[j] != '\0');
        }
        lemma_utf8_has_no_nul(before[0].0);
        lemma_utf8_has_no_nul(after[0].0);
        let tail_before = le_bytes(before[0].1.number() as nat, 16);
        let tail_after = le_bytes(after[0].1.number() as nat, 16);
        lemma_le_bytes_len(before[0].1.number() as nat, 16);
        lemma_le_bytes_len(after[0].1.number() as nat, 16);
        let rest_before = encode_files(before.drop_first());
        let rest_after = encode_files(after.drop_first());
        assert(whole == u + seq![0u8] + tail_before + rest_before);
        assert(whole == v + seq![0u8] + tail_after + rest_after);
        assert(whole[u.len() as int] == 0);
        assert(whole[v.len() as int] == 0);
        if u.len() < v.len() {
            assert(whole[u.len() as int] == v[u.len() as int]);
        }
        if v.len() < u.len() {
            assert(whole[v.len() as int] == u[v.len() as int]);
        }
        assert(u.len() == v.len());
        let k = u.len() as int;
        assert(whole.subrange(0, k) =~= u);
        assert(whole.subrange(0, k) =~= v);
        vstd::utf8::encode_utf8_decode_utf8(before[0].0);
        vstd::utf8::encode_utf8_decode_utf8(after[0].0);
        assert(before[0].0 == after[0].0);
        assert(whole.subrange(k + 1, k + 17) =~= tail_before);
        assert(whole.subrange(k + 1, k + 17) =~= tail_after);
        lemma_le_bytes_of_numbers(before[0].1.number(), after[0].1.number());
        assert(before[0].1 == after[0].1);
        assert(whole.subrange(k + 17, whole.len() as int) =~= rest_before);
        assert(whole.subrange(k + 17, whole.len() as int) =~= rest_after);
        assert forall|i: int, j: int| 0 <= i < before.drop_first().len() && 0 <= j < before.drop_first()[i].0.len()
            implies #[trigger] before.drop_first()[i].0[j] != '\0' by {
            assert(before.drop_first()[i] == before[i + 1]);
        }
        assert forall|i: int, j: int| 0 <= i < after.drop_first().len() && 0 <= j < after.drop_first()[i].0.len()
            implies #[trigger] after.drop_first()[i].0[j] != '\0' by {
            assert(after.drop_first()[i] == after[i + 1]);
        }
        law_prefix_revision_bytes_decide_the_files(before.drop_first(), after.drop_first());
        assert(before =~= after) by {
            assert forall|i: int| 0 <= i < before.len() implies before[i] == after[i] by {
                if i > 0 {
                    assert(before[i] == before.drop_first()[i - 1]);
                    assert(after[i] == after.drop_first()[i - 1]);
                }
            }
        }
    }
}

/// Appends the 16 bytes of `number`, least significant first, to `bytes`.
fn push_le_bytes(bytes: &mut Vec<u8>, number: u128)
    ensures
        final(bytes)@ == old(bytes)@ + le_bytes(number as nat, 16),
{
    let mut rest: u128 = number;
    let mut i: usize = 0;
    let ghost start = bytes@;
    while i < 16
        invariant
            i <= 16,
            bytes@ + le_bytes(rest as nat, (16 - i) as nat) == start + le_bytes(number as nat, 16),
        decreases 16 - i,
    {
        let ghost before = bytes@;
        proof {
            assert(le_bytes(rest as nat, (16 - i) as nat) == seq![(rest % 256) as u8] + le_bytes(
                (rest / 256) as nat,
                (16 - i - 1) as nat,
            ));
        }
        bytes.push((rest % 256) as u8);
        assert(bytes@ == before + seq![(rest % 256) as u8]);
        assert(bytes@ + le_bytes((rest / 256) as nat, (16 - i - 1) as nat) =~= before + le_bytes(
            rest as nat,
            (16 - i) as nat,
        ));
        rest = rest / 256;
        i = i + 1;
    }
    assert(le_bytes(rest as nat, 0) =~= Seq::<u8>::empty());
    assert(bytes@ + Seq::<u8>::empty() =~= bytes@);
}

/// An opaque value identifying the state of everything under a Prefix: which Paths exist there,
/// and the Revision of each. Adding, removing or changing a File under the Prefix changes it.
///
/// Two Prefix Revisions are equal when they were taken for the same Area and Prefix, and cover
/// the same Paths with the same Revisions: when their hashes are equal.
///
/// It keeps a list of the Paths it covers and their Revisions, so that a Conflict can name the
/// ones that changed.
#[derive(Debug)]
pub struct PrefixRevision {
    area: Area,
    prefix: Prefix,
    /// A 128-bit hash (XXH3) over each Path and its Revision, in order of Path.
    hash: u128,
    /// What the hash was taken over, in order of Path.
    files: Vec<(Path, Revision)>,
}

/// What a Prefix Revision is: the Area and Prefix it was taken for, its hash, and the Files it
/// covers, in order of Path.
pub struct PrefixRevisionView {
    pub area: Area,
    pub prefix: Seq<char>,
    pub hash: u128,
    pub files: Seq<(Seq<char>, Revision)>,
}

/// The Paths and Revisions of `files`, as values.
pub open spec fn files_view(files: Seq<(Path, Revision)>) -> Seq<(Seq<char>, Revision)> {
    files.map_values(|file: (Path, Revision)| (file.0@, file.1))
}

/// Whether the File at `key` differs between `before` and `after`: added, removed or changed.
pub open spec fn differs(
    before: Seq<(Seq<char>, Revision)>,
    after: Seq<(Seq<char>, Revision)>,
    key: Seq<char>,
) -> bool {
    lookup(before, key) != lookup(after, key)
}

impl View for PrefixRevision {
    type V = PrefixRevisionView;

    closed spec fn view(&self) -> PrefixRevisionView {
        PrefixRevisionView {
            area: self.area,
            prefix: self.prefix@,
            hash: self.hash,
            files: files_view(self.files@),
        }
    }
}

impl PrefixRevision {
    #[verifier::type_invariant]
    spec fn valid(self) -> bool {
        sorted_keys(files_view(self.files@))
    }

    /// The Prefix Revision of `prefix` in `area`, given the Files under it in order of Path.
    pub fn of(area: Area, prefix: Prefix, files: Vec<(Path, Revision)>) -> (taken: PrefixRevision)
        requires
            sorted_keys(files_view(files@)),
        ensures
            taken@.area == area,
            taken@.prefix == prefix@,
            taken@.files == files_view(files@),
            taken@.hash == xxh3_128_of(encode_files(files_view(files@))),
    {
        let mut bytes: Vec<u8> = Vec::new();
        let mut i: usize = 0;
        while i < files.len()
            invariant
                i <= files.len(),
                bytes@ == encode_files(files_view(files@).subrange(0, i as int)),
            decreases files.len() - i,
        {
            let ghost before = bytes@;
            let text = files[i].0.as_str().as_bytes();
            let mut k: usize = 0;
            while k < text.len()
                invariant
                    k <= text.len(),
                    bytes@ == before + text@.subrange(0, k as int),
                decreases text.len() - k,
            {
                bytes.push(text[k]);
                k = k + 1;
                assert(bytes@ =~= before + text@.subrange(0, k as int));
            }
            bytes.push(0u8);
            push_le_bytes(&mut bytes, files[i].1.to_number());
            proof {
                let shown = files_view(files@);
                assert(shown.subrange(0, i + 1).drop_last() =~= shown.subrange(0, i as int));
                assert(shown.subrange(0, i + 1).last() == shown[i as int]);
                assert(text@.subrange(0, text.len() as int) =~= text@);
                assert(bytes@ =~= encode_files(shown.subrange(0, i + 1)));
            }
            i = i + 1;
        }
        assert(files_view(files@).subrange(0, files.len() as int) =~= files_view(files@));
        let hash = xxh3_128(bytes.as_slice());
        PrefixRevision { area, prefix, hash, files }
    }

    /// Whether it was taken for `prefix` in `area`.
    pub fn is_for(&self, area: Area, prefix: &Prefix) -> (taken_for: bool)
        ensures
            taken_for == (self@.area == area && self@.prefix == prefix@),
    {
        self.area == area && self.prefix.same(prefix)
    }

    /// Whether `self` and `other` are the same Prefix Revision: taken for the same Area and
    /// Prefix, with the same hash.
    pub fn same(&self, other: &PrefixRevision) -> (same: bool)
        ensures
            same == (self@.area == other@.area && self@.prefix == other@.prefix && self@.hash
                == other@.hash),
    {
        self.area == other.area && self.prefix.same(&other.prefix) && self.hash == other.hash
    }

    /// The Paths covered, with their Revisions, in order of Path.
    pub fn sorted(&self)
        ensures
            sorted_keys(self@.files),
    {
        proof {
            use_type_invariant(self);
        }
    }

    /// The Paths added, removed or changed between `self` and `now`, in order. None if they are
    /// the same Prefix Revision.
    pub fn differences(&self, now: &PrefixRevision) -> (paths: Vec<Path>)
        ensures
            sorted_names(names_of(paths@)),
            self.same_spec(now) ==> paths.len() == 0,
            !self.same_spec(now) ==> forall|key: Seq<char>|
                names_of(paths@).contains(key) <==> differs(
                    self@.files,
                    now@.files,
                    key,
                ),
    {
        if self.same(now) {
            return Vec::new();
        }
        proof {
            use_type_invariant(self);
            use_type_invariant(now);
        }
        merge_differences(&self.files, &now.files)
    }

    pub open spec fn same_spec(&self, other: &PrefixRevision) -> bool {
        self@.area == other@.area && self@.prefix == other@.prefix && self@.hash == other@.hash
    }
}

impl Clone for PrefixRevision {
    fn clone(&self) -> (copy: PrefixRevision)
        ensures
            copy@ == self@,
    {
        proof {
            use_type_invariant(self);
        }
        let mut files: Vec<(Path, Revision)> = Vec::new();
        let mut i: usize = 0;
        while i < self.files.len()
            invariant
                i <= self.files.len(),
                files.len() == i,
                files_view(files@) == files_view(self.files@).subrange(0, i as int),
            decreases self.files.len() - i,
        {
            let copy = self.files[i].0.duplicate();
            let revision = self.files[i].1;
            files.push((copy, revision));
            proof {
                assert(files@[i as int] == (copy, revision));
                assert(files@[i as int].0@ == self.files@[i as int].0@);
                assert(files_view(files@)[i as int] == files_view(self.files@)[i as int]);
                assert(files_view(files@) =~= files_view(self.files@).subrange(0, i + 1));
            }
            i = i + 1;
        }
        assert(files_view(self.files@).subrange(0, i as int) =~= files_view(self.files@));
        assert(files_view(files@) =~= files_view(self.files@));
        PrefixRevision { area: self.area, prefix: self.prefix.duplicate(), hash: self.hash, files }
    }
}

impl PartialEq for PrefixRevision {
    fn eq(&self, other: &PrefixRevision) -> (equal: bool) {
        self.same(other)
    }
}

impl vstd::std_specs::cmp::PartialEqSpecImpl for PrefixRevision {
    open spec fn obeys_eq_spec() -> bool {
        true
    }

    open spec fn eq_spec(&self, other: &PrefixRevision) -> bool {
        self.same_spec(other)
    }
}

impl Eq for PrefixRevision {}

/// Pushing a name after all of a sorted list keeps it sorted.
proof fn lemma_push_sorted(out: Seq<Seq<char>>, key: Seq<char>)
    requires
        sorted_names(out),
        all_before(out, key),
    ensures
        sorted_names(out.push(key)),
{
    assert forall|x: int, y: int| 0 <= x < y < out.push(key).len() implies chars_lt(
        #[trigger] out.push(key)[x],
        #[trigger] out.push(key)[y],
    ) by {
        if y == out.len() {
            assert(out.push(key)[x] == out[x]);
        } else {
            assert(out.push(key)[x] == out[x]);
            assert(out.push(key)[y] == out[y]);
        }
    }
}

/// What comes before `first` comes before anything after `first` too.
proof fn lemma_all_before_later(out: Seq<Seq<char>>, first: Seq<char>, later: Seq<char>)
    requires
        all_before(out, first),
        chars_lt(first, later),
    ensures
        all_before(out, later),
{
    assert forall|k: int| 0 <= k < out.len() implies chars_lt(#[trigger] out[k], later) by {
        lemma_lt_transitive(out[k], first, later);
    }
}

/// Pushing `key` keeps every name before `head`, when `key` is before it too.
proof fn lemma_all_before_push(out: Seq<Seq<char>>, key: Seq<char>, head: Seq<char>)
    requires
        all_before(out, head),
        chars_lt(key, head),
    ensures
        all_before(out.push(key), head),
{
    assert forall|k: int| 0 <= k < out.push(key).len() implies chars_lt(#[trigger] out.push(key)[k], head) by {
        if k < out.len() {
            assert(out.push(key)[k] == out[k]);
        }
    }
}

/// The names of `paths`, in order.
pub open spec fn names_of(paths: Seq<Path>) -> Seq<Seq<char>> {
    paths.map_values(|path: Path| path@)
}

/// Whether every name in `out` comes before `key`.
spec fn all_before(out: Seq<Seq<char>>, key: Seq<char>) -> bool {
    forall|k: int| 0 <= k < out.len() ==> chars_lt(#[trigger] out[k], key)
}

/// One more entry consumed: `key` is among the first `count + 1` if it was among the first
/// `count` or is the entry at `count`.
proof fn lemma_among_extend<V>(entries: Seq<(Seq<char>, V)>, count: int, key: Seq<char>)
    requires
        0 <= count < entries.len(),
    ensures
        among(entries, count + 1, key) <==> (among(entries, count, key) || entries[count].0 == key),
{
    if among(entries, count + 1, key) {
        let k = choose|k: int| 0 <= k < count + 1 && #[trigger] entries[k].0 == key;
        if k < count {
            assert(among(entries, count, key));
        }
    }
    if among(entries, count, key) {
        let k = choose|k: int| 0 <= k < count && #[trigger] entries[k].0 == key;
        assert(among(entries, count + 1, key));
    }
    if entries[count].0 == key {
        assert(among(entries, count + 1, key));
    }
}

/// The merge's account of what it has found stays true over one step, which consumes the entry
/// at `i` of `a`, or at `j` of `b`, or both, and pushes a name only if it differs.
proof fn lemma_membership_step(
    a: Seq<(Seq<char>, Revision)>,
    b: Seq<(Seq<char>, Revision)>,
    i: int,
    j: int,
    i2: int,
    j2: int,
    out_before: Seq<Seq<char>>,
    out_after: Seq<Seq<char>>,
    pushed: Option<Seq<char>>,
)
    requires
        0 <= i <= i2 <= i + 1,
        0 <= j <= j2 <= j + 1,
        i2 <= a.len(),
        j2 <= b.len(),
        forall|key: Seq<char>|
            out_before.contains(key) <==> (differs(a, b, key) && (among(a, i, key) || among(b, j, key))),
        out_after == match pushed {
            Some(k) => out_before.push(k),
            None => out_before,
        },
        i2 == i + 1 ==> (differs(a, b, a[i].0) <==> pushed == Some(a[i].0)),
        j2 == j + 1 ==> (differs(a, b, b[j].0) <==> pushed == Some(b[j].0)),
        pushed matches Some(k) ==> ((i2 == i + 1 && k == a[i].0) || (j2 == j + 1 && k == b[j].0)),
    ensures
        forall|key: Seq<char>|
            out_after.contains(key) <==> (differs(a, b, key) && (among(a, i2, key) || among(b, j2, key))),
{
    assert forall|key: Seq<char>|
        out_after.contains(key) <==> (differs(a, b, key) && (among(a, i2, key) || among(b, j2, key))) by {
        if i2 == i + 1 {
            lemma_among_extend(a, i, key);
        }
        if j2 == j + 1 {
            lemma_among_extend(b, j, key);
        }
        match pushed {
            Some(k) => {
                assert(out_after.contains(key) <==> (out_before.contains(key) || key == k)) by {
                    if out_after.contains(key) {
                        let x = choose|x: int| 0 <= x < out_after.len() && out_after[x] == key;
                        if x < out_before.len() {
                            assert(out_before[x] == key);
                        }
                    }
                    if out_before.contains(key) {
                        let x = choose|x: int| 0 <= x < out_before.len() && out_before[x] == key;
                        assert(out_after[x] == key);
                    }
                    if key == k {
                        assert(out_after[out_before.len() as int] == key);
                    }
                }
            },
            None => {},
        }
    }
}

/// Sorted entries from `from` on all come after a name that comes before the one at `from`.
proof fn lemma_before_from<V>(entries: Seq<(Seq<char>, V)>, from: int, key: Seq<char>)
    requires
        sorted_keys(entries),
        0 <= from < entries.len(),
        chars_lt(key, entries[from].0) || key == entries[from].0,
    ensures
        forall|k: int| from < k < entries.len() ==> chars_lt(key, #[trigger] entries[k].0),
        chars_lt(key, entries[from].0) ==> forall|k: int|
            from <= k < entries.len() ==> chars_lt(key, #[trigger] entries[k].0),
{
    assert forall|k: int| from < k < entries.len() implies chars_lt(key, #[trigger] entries[k].0) by {
        if key != entries[from].0 {
            lemma_lt_transitive(key, entries[from].0, entries[k].0);
        }
    }
}

/// Whether `key` is among the first `count` entries.
spec fn among<V>(entries: Seq<(Seq<char>, V)>, count: int, key: Seq<char>) -> bool {
    exists|k: int| 0 <= k < count && #[trigger] entries[k].0 == key
}

/// The Paths whose Revision differs between the sorted lists `before` and `after`, in order, by
/// walking the two lists side by side.
fn merge_differences(before: &Vec<(Path, Revision)>, after: &Vec<(Path, Revision)>) -> (paths: Vec<Path>)
    requires
        sorted_keys(files_view(before@)),
        sorted_keys(files_view(after@)),
    ensures
        sorted_names(names_of(paths@)),
        forall|key: Seq<char>|
            names_of(paths@).contains(key) <==> differs(files_view(before@), files_view(after@), key),
{
    let ghost a = files_view(before@);
    let ghost b = files_view(after@);
    let mut out: Vec<Path> = Vec::new();
    let mut i: usize = 0;
    let mut j: usize = 0;
    while i < before.len() || j < after.len()
        invariant
            a == files_view(before@),
            b == files_view(after@),
            sorted_keys(a),
            sorted_keys(b),
            i <= before.len(),
            j <= after.len(),
            sorted_names(names_of(out@)),
            i < a.len() ==> all_before(names_of(out@), a[i as int].0),
            j < b.len() ==> all_before(names_of(out@), b[j as int].0),
            forall|x: int, y: int| 0 <= x < i && j <= y < b.len() ==> chars_lt(#[trigger] a[x].0, #[trigger] b[y].0),
            forall|x: int, y: int| 0 <= y < j && i <= x < a.len() ==> chars_lt(#[trigger] b[y].0, #[trigger] a[x].0),
            forall|key: Seq<char>|
                names_of(out@).contains(key) <==> (differs(a, b, key) && (among(a, i as int, key)
                    || among(b, j as int, key))),
        decreases before.len() + after.len() - i - j,
    {
        let ghost out_before = names_of(out@);
        let ghost (i0, j0) = (i as int, j as int);
        if i < before.len() && j < after.len() {
            let rank = rank_chars(before[i].0.chars(), after[j].0.chars());
            proof {
                assert(a[i as int].0 == before@[i as int].0@);
                assert(b[j as int].0 == after@[j as int].0@);
            }
            match rank {
                Rank::Before => {
                    proof {
                        let key = a[i as int].0;
                        lemma_before_from(b, j as int, key);
                        lemma_lookup_at(a, i as int);
                        lemma_below_all(b, j as int, key);
                        if j > 0 {
                            assert(chars_lt(b[j - 1].0, key));
                            lemma_above_all(b, j as int, key);
                        }
                        assert(!has_key(b, key));
                    }
                    out.push(before[i].0.duplicate());
                    proof {
                        let key = a[i as int].0;
                        assert(names_of(out@) =~= out_before.push(key));
                        lemma_push_sorted(out_before, key);
                        lemma_all_before_push(out_before, key, b[j as int].0);
                        if i + 1 < a.len() {
                            lemma_all_before_later(out_before, key, a[i + 1].0);
                            lemma_all_before_push(out_before, key, a[i + 1].0);
                        }
                    }
                    i = i + 1;
                },
                Rank::After => {
                    proof {
                        let key = b[j as int].0;
                        lemma_before_from(a, i as int, key);
                        lemma_lookup_at(b, j as int);
                        lemma_below_all(a, i as int, key);
                        if i > 0 {
                            assert(chars_lt(a[i - 1].0, key));
                            lemma_above_all(a, i as int, key);
                        }
                        assert(!has_key(a, key));
                    }
                    out.push(after[j].0.duplicate());
                    proof {
                        let key = b[j as int].0;
                        assert(names_of(out@) =~= out_before.push(key));
                        lemma_push_sorted(out_before, key);
                        lemma_all_before_push(out_before, key, a[i as int].0);
                        if j + 1 < b.len() {
                            lemma_all_before_later(out_before, key, b[j + 1].0);
                            lemma_all_before_push(out_before, key, b[j + 1].0);
                        }
                    }
                    j = j + 1;
                },
                Rank::Same => {
                    proof {
                        lemma_before_from(b, j as int, a[i as int].0);
                        lemma_before_from(a, i as int, b[j as int].0);
                        lemma_lookup_at(a, i as int);
                        lemma_lookup_at(b, j as int);
                    }
                    if before[i].1 != after[j].1 {
                        out.push(before[i].0.duplicate());
                        proof {
                            let key = a[i as int].0;
                            assert(names_of(out@) =~= out_before.push(key));
                            lemma_push_sorted(out_before, key);
                            if i + 1 < a.len() {
                                lemma_all_before_later(out_before, key, a[i + 1].0);
                                lemma_all_before_push(out_before, key, a[i + 1].0);
                            }
                            if j + 1 < b.len() {
                                lemma_all_before_later(out_before, key, b[j + 1].0);
                                lemma_all_before_push(out_before, key, b[j + 1].0);
                            }
                        }
                    } else {
                        proof {
                            if i + 1 < a.len() {
                                lemma_all_before_later(out_before, a[i as int].0, a[i + 1].0);
                            }
                            if j + 1 < b.len() {
                                lemma_all_before_later(out_before, b[j as int].0, b[j + 1].0);
                            }
                        }
                    }
                    i = i + 1;
                    j = j + 1;
                },
            }
        } else if i < before.len() {
            proof {
                let key = a[i as int].0;
                lemma_lookup_at(a, i as int);
                if j > 0 {
                    assert(chars_lt(b[j - 1].0, key));
                    lemma_above_all(b, j as int, key);
                }
                assert(!has_key(b, key));
            }
            out.push(before[i].0.duplicate());
            proof {
                let key = a[i as int].0;
                assert(names_of(out@) =~= out_before.push(key));
                lemma_push_sorted(out_before, key);
                if i + 1 < a.len() {
                    lemma_all_before_later(out_before, key, a[i + 1].0);
                    lemma_all_before_push(out_before, key, a[i + 1].0);
                }
            }
            i = i + 1;
        } else {
            proof {
                let key = b[j as int].0;
                lemma_lookup_at(b, j as int);
                if i > 0 {
                    assert(chars_lt(a[i - 1].0, key));
                    lemma_above_all(a, i as int, key);
                }
                assert(!has_key(a, key));
            }
            out.push(after[j].0.duplicate());
            proof {
                let key = b[j as int].0;
                assert(names_of(out@) =~= out_before.push(key));
                lemma_push_sorted(out_before, key);
                if j + 1 < b.len() {
                    lemma_all_before_later(out_before, key, b[j + 1].0);
                    lemma_all_before_push(out_before, key, b[j + 1].0);
                }
            }
            j = j + 1;
        }
        proof {
            let pushed = if names_of(out@).len() > out_before.len() {
                Some(names_of(out@).last())
            } else {
                None
            };
            assert(names_of(out@) == match pushed {
                Some(k) => out_before.push(k),
                None => out_before,
            });
            lemma_membership_step(a, b, i0, j0, i as int, j as int, out_before, names_of(out@), pushed);
        }
    }
    proof {
        assert forall|key: Seq<char>| differs(a, b, key) implies (among(a, i as int, key) || among(
            b,
            j as int,
            key,
        )) by {
            if has_key(a, key) {
                let k = choose|k: int| 0 <= k < a.len() && #[trigger] a[k].0 == key;
                assert(among(a, i as int, key));
            } else if has_key(b, key) {
                let k = choose|k: int| 0 <= k < b.len() && #[trigger] b[k].0 == key;
                assert(among(b, j as int, key));
            } else {
                assert(lookup(a, key) == lookup(b, key));
            }
        }
    }
    out
}

} // verus!
