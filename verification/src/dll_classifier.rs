//! Signature-based build classifier.
//!
//! Turns the metadata heaps of a parsed assembly into a build identity:
//! marker strings in the `#Strings` heap decide the edition and whether
//! a randomizer build is present, a version literal embedded in the
//! `#US` heap decides the exact version, and a content hash of the
//! whole file stands in when no version literal can be extracted.

use vstd::prelude::*;
use crate::dll_parser::{parse_dll, spec_parse_dll};

verus! {

/// A semantic version embedded in a randomizer build.
#[derive(Debug, Copy, Clone, Eq, PartialEq, Ord, PartialOrd, Hash, Structural)]
pub struct RandoVersion {
    pub major: u64,
    pub minor: u64,
    pub patch: u64,
}

/// The build identity of a classified byte buffer.
#[derive(Debug, Copy, Clone, Eq, PartialEq, Ord, PartialOrd, Structural)]
pub enum DllClassification {
    /// Not parseable as the target game's assembly.
    Invalid,
    /// The legacy, non-definitive edition of the game.
    NonDe,
    /// The definitive edition without a randomizer.
    Vanilla,
    /// A randomizer build with an embedded version literal.
    Rando(RandoVersion),
    /// A randomizer build without a version literal, identified by a
    /// content hash of the whole file.
    UnknownRando(u64),
}

/// The display form of a version: the three components in decimal,
/// separated by dots.
pub open spec fn spec_version_string(v: RandoVersion) -> Seq<char> {
    crate::text::dec_digits(v.major as int) + seq!['.'] + crate::text::dec_digits(v.minor as int)
        + seq!['.'] + crate::text::dec_digits(v.patch as int)
}

impl RandoVersion {
    /// Formats the version as `major.minor.patch`.
    pub fn display_string(&self) -> (r: String)
        ensures
            r@ == spec_version_string(*self),
    {
        let mut s = crate::text::u64_to_string(self.major);
        s.append(".");
        let minor = crate::text::u64_to_string(self.minor);
        s.append(minor.as_str());
        s.append(".");
        let patch = crate::text::u64_to_string(self.patch);
        s.append(patch.as_str());
        proof {
            reveal_strlit(".");
            assert("."@ =~= seq!['.']);
            assert(s@ =~= spec_version_string(*self));
        }
        s
    }
}

/// `a` is at most `b` in the lexicographic (major, minor, patch) order.
pub open spec fn version_le(a: RandoVersion, b: RandoVersion) -> bool {
    ||| a.major < b.major
    ||| (a.major == b.major && a.minor < b.minor)
    ||| (a.major == b.major && a.minor == b.minor && a.patch <= b.patch)
}

/// An ASCII decimal digit.
pub open spec fn is_digit(b: u8) -> bool {
    48 <= b <= 57
}

/// Decimal value accumulated by reading every other byte of `b` from
/// position `i` on as an ASCII digit, starting from `acc`; `None` as
/// soon as the accumulator would exceed `u64::MAX`.
pub open spec fn utf16_number_from(b: Seq<u8>, i: int, acc: int) -> Option<int>
    decreases b.len() + 2 - i,
{
    if i >= b.len() {
        Some(acc)
    } else {
        let acc2 = acc * 10 + (b[i] - 48);
        if acc2 > u64::MAX {
            None
        } else {
            utf16_number_from(b, i + 2, acc2)
        }
    }
}

/// Decodes a UTF-16LE digit run: every other byte is an ASCII digit
/// code unit; the digits accumulate base-10 with overflow checking.
/// `None` exactly when the value does not fit in a `u64`.
#[verifier::loop_isolation(false)]
pub fn parse_trusted_utf16_number(bytes: &[u8]) -> (r: Option<u64>)
    requires
        forall|i: int| 0 <= i < bytes@.len() && i % 2 == 0 ==> is_digit(#[trigger] bytes@[i]),
    ensures
        match utf16_number_from(bytes@, 0, 0) {
            Some(v) => r == Some(v as u64),
            None => r is None,
        },
{
    let ghost b = bytes@;
    let mut number: u64 = 0;
    let mut i: u128 = 0;

    while i < bytes.len() as u128
        invariant
            0 <= i <= b.len() + 1,
            i % 2 == 0,
            utf16_number_from(b, 0, 0) == utf16_number_from(b, i as int, number as int),
        decreases b.len() + 2 - i,
    {
        let digit = (bytes[i as usize] - 48) as u64;
        let next = match number.checked_mul(10) {
            Some(n) => n,
            None => {
                proof {
                    assert(number * 10 + digit > u64::MAX);
                    assert(utf16_number_from(b, i as int, number as int) is None);
                }
                return None;
            },
        };
        let next = match next.checked_add(digit) {
            Some(n) => n,
            None => {
                proof {
                    assert(utf16_number_from(b, i as int, number as int) is None);
                }
                return None;
            },
        };
        number = next;
        i = i + 2;
    }
    proof {
        assert(utf16_number_from(b, i as int, number as int) == Some(number as int));
    }
    Some(number)
}

/// `h` holds `n` as a contiguous subsequence.
pub open spec fn contains_seq(h: Seq<u8>, n: Seq<u8>) -> bool {
    exists|i: int| 0 <= i && i + n.len() <= h.len() && #[trigger] h.subrange(i, i + n.len()) == n
}

/// Relies on memchr's `memmem::find`: returns the index of the first
/// occurrence of `needle` in `haystack`, or `None` when `haystack`
/// holds none.
#[verifier::external_body]
fn find_subslice(haystack: &[u8], needle: &[u8]) -> (r: Option<usize>)
    ensures
        match r {
            Some(i) => {
                &&& i + needle@.len() <= haystack@.len()
                &&& haystack@.subrange(i as int, i + needle@.len()) == needle@
                &&& forall|j: int|
                    0 <= j < i ==> #[trigger] haystack@.subrange(j, j + needle@.len()) != needle@
            },
            None => !contains_seq(haystack@, needle@),
        },
{
    memchr::memmem::find(haystack, needle)
}

/// Content hash of a byte buffer, used as a fallback identity for
/// randomizer builds without a version literal. Not cryptographic: it
/// only tells otherwise-unidentifiable local builds apart.
pub uninterp spec fn content_hash_of(data: Seq<u8>) -> u64;

/// Relies on std's `DefaultHasher` (`new`, `write`, `finish`): hashers
/// created through `new` are documented to be identical, so the result
/// is a function of the written bytes alone.
#[verifier::external_body]
fn compute_hash(value: &[u8]) -> (r: u64)
    ensures
        r == content_hash_of(value@),
{
    let mut hasher = std::hash::DefaultHasher::new();
    std::hash::Hasher::write(&mut hasher, value);
    std::hash::Hasher::finish(&hasher)
}

/// NUL-terminated marker string unique to the definitive edition.
pub open spec fn de_marker() -> Seq<u8> {
    seq![
        83u8, 112u8, 105u8, 114u8, 105u8, 116u8, 71u8, 114u8, 101u8, 110u8, 97u8, 100u8, 101u8,
        68u8, 97u8, 109u8, 97u8, 103u8, 101u8, 68u8, 101u8, 97u8, 108u8, 101u8, 114u8, 0u8,
    ]
}

/// NUL-terminated marker string unique to the legacy edition.
pub open spec fn legacy_marker() -> Seq<u8> {
    seq![
        72u8, 111u8, 108u8, 100u8, 105u8, 110u8, 103u8, 78u8, 105u8, 103u8, 104u8, 116u8, 98u8,
        101u8, 114u8, 114u8, 121u8, 67u8, 111u8, 110u8, 100u8, 105u8, 116u8, 105u8, 111u8, 110u8,
        0u8,
    ]
}

/// NUL-terminated marker string indicating a randomizer build.
pub open spec fn rando_marker() -> Seq<u8> {
    seq![82u8, 97u8, 110u8, 100u8, 111u8, 109u8, 105u8, 122u8, 101u8, 114u8, 0u8]
}

/// The bytes of `SpiritGrenadeDamageDealer\0`.
fn de_marker_bytes() -> (r: [u8; 26])
    ensures
        r@ == de_marker(),
{
    let a: [u8; 26] = [
        83, 112, 105, 114, 105, 116, 71, 114, 101, 110, 97, 100, 101, 68, 97, 109, 97, 103, 101,
        68, 101, 97, 108, 101, 114, 0,
    ];
    proof {
        assert(a@ =~= de_marker());
    }
    a
}

/// The bytes of `HoldingNightberryCondition\0`.
fn legacy_marker_bytes() -> (r: [u8; 27])
    ensures
        r@ == legacy_marker(),
{
    let a: [u8; 27] = [
        72, 111, 108, 100, 105, 110, 103, 78, 105, 103, 104, 116, 98, 101, 114, 114, 121, 67, 111,
        110, 100, 105, 116, 105, 111, 110, 0,
    ];
    proof {
        assert(a@ =~= legacy_marker());
    }
    a
}

/// The bytes of `Randomizer\0`.
fn rando_marker_bytes() -> (r: [u8; 11])
    ensures
        r@ == rando_marker(),
{
    let a: [u8; 11] = [82, 97, 110, 100, 111, 109, 105, 122, 101, 114, 0];
    proof {
        assert(a@ =~= rando_marker());
    }
    a
}

/// Whether `haystack` holds `needle`, through the first-occurrence
/// search.
fn contains_marker(haystack: &[u8], needle: &[u8]) -> (r: bool)
    ensures
        r == contains_seq(haystack@, needle@),
{
    match find_subslice(haystack, needle) {
        Some(i) => {
            proof {
                assert(contains_seq(haystack@, needle@)) by {
                    assert(haystack@.subrange(i as int, i + needle@.len()) == needle@);
                }
            }
            true
        },
        None => false,
    }
}

/// Number of bytes of consecutive UTF-16LE digit code units (an ASCII
/// digit byte followed by a zero byte) starting at `i`.
pub open spec fn run_len(h: Seq<u8>, i: int) -> nat
    decreases h.len() - i,
{
    if i < 0 || i + 2 > h.len() {
        0
    } else if is_digit(h[i]) && h[i + 1] == 0 {
        (2 + run_len(h, i + 2)) as nat
    } else {
        0
    }
}

/// Position after the first digit run of a version literal starting at
/// the length-prefix byte `s`.
pub open spec fn m_p1(h: Seq<u8>, s: int) -> int {
    s + 1 + run_len(h, s + 1)
}

/// Position after the second digit run.
pub open spec fn m_p2(h: Seq<u8>, s: int) -> int {
    m_p1(h, s) + 2 + run_len(h, m_p1(h, s) + 2)
}

/// Position after the third digit run: the terminating NUL.
pub open spec fn m_p3(h: Seq<u8>, s: int) -> int {
    m_p2(h, s) + 2 + run_len(h, m_p2(h, s) + 2)
}

/// A version literal shaped like a match of the scan lies at `s`: one
/// prefix byte, three nonempty UTF-16LE digit runs separated by a
/// UTF-16LE `.`, terminated by a NUL byte.
pub open spec fn match_at(h: Seq<u8>, s: int) -> bool {
    &&& 0 <= s
    &&& run_len(h, s + 1) >= 2
    &&& m_p1(h, s) + 2 <= h.len() && h[m_p1(h, s)] == 46 && h[m_p1(h, s) + 1] == 0
    &&& run_len(h, m_p1(h, s) + 2) >= 2
    &&& m_p2(h, s) + 2 <= h.len() && h[m_p2(h, s)] == 46 && h[m_p2(h, s) + 1] == 0
    &&& run_len(h, m_p2(h, s) + 2) >= 2
    &&& m_p3(h, s) < h.len() && h[m_p3(h, s)] == 0
}

/// First position after the match at `s`.
pub open spec fn match_end(h: Seq<u8>, s: int) -> int {
    m_p3(h, s) + 1
}

/// Decimal value of the digit run of `k` bytes starting at `i`, or
/// `None` on `u64` overflow.
pub open spec fn run_number(h: Seq<u8>, i: int, k: int) -> Option<int> {
    utf16_number_from(h.subrange(i, i + k), 0, 0)
}

/// The version carried by the match at `s`: the three runs decoded,
/// provided the length-prefix byte equals the byte length of
/// everything after it up to and including the terminating NUL, and no
/// run overflows a `u64`. `None` otherwise: such a match is discarded.
pub open spec fn candidate_at(h: Seq<u8>, s: int) -> Option<RandoVersion> {
    let k1 = run_len(h, s + 1) as int;
    let p1 = m_p1(h, s);
    let k2 = run_len(h, p1 + 2) as int;
    let p2 = m_p2(h, s);
    let k3 = run_len(h, p2 + 2) as int;
    let p3 = m_p3(h, s);
    if h[s] != p3 - s {
        None
    } else {
        match (run_number(h, s + 1, k1), run_number(h, p1 + 2, k2), run_number(h, p2 + 2, k3)) {
            (Some(ma), Some(mi), Some(pa)) => Some(
                RandoVersion { major: ma as u64, minor: mi as u64, patch: pa as u64 },
            ),
            _ => None,
        }
    }
}

/// The first position at or after `p` where a match lies.
pub open spec fn next_match(h: Seq<u8>, p: int) -> Option<int>
    decreases h.len() - p,
{
    if p < 0 || p >= h.len() {
        None
    } else if match_at(h, p) {
        Some(p)
    } else {
        next_match(h, p + 1)
    }
}

/// A found match position lies between `p` and the end of the heap.
pub proof fn lemma_next_match(h: Seq<u8>, p: int)
    ensures
        next_match(h, p) matches Some(s) ==> p <= s < h.len() && match_at(h, s),
    decreases h.len() - p,
{
    if 0 <= p < h.len() && !match_at(h, p) {
        lemma_next_match(h, p + 1);
    }
}

/// The versions of all accepted matches at or after `p`, scanning
/// left to right; matched regions are consumed, so a later match never
/// overlaps an earlier one.
pub open spec fn spec_candidates(h: Seq<u8>, p: int) -> Seq<RandoVersion>
    decreases h.len() - p,
        via spec_candidates_decreases
{
    match next_match(h, p) {
        None => Seq::empty(),
        Some(s) => {
            let rest = spec_candidates(h, match_end(h, s));
            match candidate_at(h, s) {
                Some(v) => seq![v] + rest,
                None => rest,
            }
        },
    }
}

#[via_fn]
proof fn spec_candidates_decreases(h: Seq<u8>, p: int) {
    lemma_next_match(h, p);
}

/// The greatest version of a nonempty sequence under the
/// lexicographic order.
pub open spec fn seq_max_version(s: Seq<RandoVersion>) -> RandoVersion
    decreases s.len(),
{
    if s.len() <= 1 {
        s[0]
    } else {
        let m = seq_max_version(s.drop_last());
        if version_le(m, s.last()) {
            s.last()
        } else {
            m
        }
    }
}

/// The version the user-string heap yields: the greatest accepted
/// version literal, or `None` when the heap holds none.
pub open spec fn spec_extract_version(h: Seq<u8>) -> Option<RandoVersion> {
    let cs = spec_candidates(h, 0);
    if cs.len() == 0 {
        None
    } else {
        Some(seq_max_version(cs))
    }
}

/// Folding one more version into a running maximum.
pub open spec fn spec_best_of(cur: Option<RandoVersion>, rest: Seq<RandoVersion>) -> Option<
    RandoVersion,
> {
    if rest.len() == 0 {
        cur
    } else {
        match cur {
            None => Some(seq_max_version(rest)),
            Some(b) => Some(
                if version_le(b, seq_max_version(rest)) {
                    seq_max_version(rest)
                } else {
                    b
                },
            ),
        }
    }
}

/// The maximum of a sequence with `v` put in front: `v` itself when it
/// dominates, the maximum of the rest otherwise.
proof fn lemma_max_cons(v: RandoVersion, rest: Seq<RandoVersion>)
    ensures
        seq_max_version(seq![v] + rest) == (if rest.len() == 0 {
            v
        } else if version_le(v, seq_max_version(rest)) {
            seq_max_version(rest)
        } else {
            v
        }),
    decreases rest.len(),
{
    let s = seq![v] + rest;
    if rest.len() == 0 {
        assert(s.len() == 1);
        assert(s[0] == v);
    } else {
        assert(s.drop_last() =~= seq![v] + rest.drop_last());
        assert(s.last() == rest.last());
        lemma_max_cons(v, rest.drop_last());
    }
}

/// Every byte at an even offset into a digit run is an ASCII digit.
proof fn lemma_run_digits(h: Seq<u8>, i: int)
    ensures
        forall|j: int|
            i <= j < i + run_len(h, i) && (j - i) % 2 == 0 ==> is_digit(#[trigger] h[j]),
    decreases h.len() - i,
{
    if !(i < 0 || i + 2 > h.len()) && is_digit(h[i]) && h[i + 1] == 0 {
        lemma_run_digits(h, i + 2);
    }
}

/// Measures the digit run starting at `i`.
#[verifier::loop_isolation(false)]
fn run_len_exec(h: &[u8], i: u128) -> (r: u128)
    requires
        i <= h@.len() + 2,
    ensures
        r == run_len(h@, i as int),
        i + r <= h@.len() || r == 0,
{
    let _len: usize = h.len();
    proof {
        assert(h@.len() <= usize::MAX);
    }
    let mut j: u128 = i;
    while j + 2 <= h.len() as u128 && 48 <= h[j as usize] && h[j as usize] <= 57 && h[(j
        + 1) as usize] == 0
        invariant
            i <= j <= h@.len() + 2,
            j == i || j <= h@.len(),
            run_len(h@, i as int) == (j - i) + run_len(h@, j as int),
        decreases h@.len() + 2 - j,
    {
        j = j + 2;
    }
    j - i
}

/// Exact comparison in the lexicographic version order.
fn version_le_exec(a: &RandoVersion, b: &RandoVersion) -> (r: bool)
    ensures
        r == version_le(*a, *b),
{
    a.major < b.major || (a.major == b.major && (a.minor < b.minor || (a.minor == b.minor
        && a.patch <= b.patch)))
}

/// Tries to recognise a version literal whose length-prefix byte lies
/// at `s`: yields the first position after the match and the version
/// it carries (`None` for a match whose length prefix disagrees or
/// whose numbers overflow), or `None` when no match lies at `s`.
#[verifier::loop_isolation(false)]
fn try_match(h: &[u8], s: u128) -> (r: Option<(u128, Option<RandoVersion>)>)
    requires
        s < h@.len(),
    ensures
        r is Some <==> match_at(h@, s as int),
        r matches Some(t) ==> t.0 == match_end(h@, s as int) && t.1 == candidate_at(
            h@,
            s as int,
        ),
{
    let ghost hs = h@;
    let _len: usize = h.len();
    proof {
        assert(hs.len() <= usize::MAX);
    }
    let k1 = run_len_exec(h, s + 1);
    if k1 < 2 {
        return None;
    }
    let p1 = s + 1 + k1;
    if !(p1 + 2 <= h.len() as u128 && h[p1 as usize] == 46 && h[(p1 + 1) as usize] == 0) {
        return None;
    }
    let k2 = run_len_exec(h, p1 + 2);
    if k2 < 2 {
        return None;
    }
    let p2 = p1 + 2 + k2;
    if !(p2 + 2 <= h.len() as u128 && h[p2 as usize] == 46 && h[(p2 + 1) as usize] == 0) {
        return None;
    }
    let k3 = run_len_exec(h, p2 + 2);
    if k3 < 2 {
        return None;
    }
    let p3 = p2 + 2 + k3;
    if !(p3 < h.len() as u128 && h[p3 as usize] == 0) {
        return None;
    }
    proof {
        assert(match_at(hs, s as int));
    }

    let prefix = h[s as usize];
    let cand: Option<RandoVersion>;
    if prefix as u128 != p3 - s {
        cand = None;
    } else {
        proof {
            lemma_run_digits(hs, s as int + 1);
            lemma_run_digits(hs, p1 as int + 2);
            lemma_run_digits(hs, p2 as int + 2);
        }
        let b1 = vstd::slice::slice_subrange(h, (s + 1) as usize, p1 as usize);
        let b2 = vstd::slice::slice_subrange(h, (p1 + 2) as usize, p2 as usize);
        let b3 = vstd::slice::slice_subrange(h, (p2 + 2) as usize, p3 as usize);
        let m1 = parse_trusted_utf16_number(b1);
        let m2 = parse_trusted_utf16_number(b2);
        let m3 = parse_trusted_utf16_number(b3);
        cand = match (m1, m2, m3) {
            (Some(major), Some(minor), Some(patch)) => Some(RandoVersion { major, minor, patch }),
            _ => None,
        };
    }
    Some((p3 + 1, cand))
}

/// Scans the user-string heap for embedded version literals and
/// returns the greatest one, or `None` when the heap holds none.
#[verifier::loop_isolation(false)]
pub fn extract_rando_version(us_heap: &[u8]) -> (r: Option<RandoVersion>)
    ensures
        r == spec_extract_version(us_heap@),
{
    let ghost h = us_heap@;
    let mut best: Option<RandoVersion> = None;
    let mut p: u128 = 0;

    while p < us_heap.len() as u128
        invariant
            0 <= p,
            spec_extract_version(h) == spec_best_of(best, spec_candidates(h, p as int)),
        decreases h.len() - p,
    {
        match try_match(us_heap, p) {
            None => {
                proof {
                    assert(next_match(h, p as int) == next_match(h, p as int + 1));
                }
                p = p + 1;
            },
            Some((end, cand)) => {
                proof {
                    assert(next_match(h, p as int) == Some(p as int));
                    assert(p as int <= match_end(h, p as int) <= h.len());
                }
                if let Some(v) = cand {
                    proof {
                        lemma_max_cons(v, spec_candidates(h, match_end(h, p as int)));
                    }
                    best = match best {
                        None => Some(v),
                        Some(b) => if version_le_exec(&b, &v) {
                            Some(v)
                        } else {
                            Some(b)
                        },
                    };
                }
                p = end;
            },
        }
    }
    best
}

/// The build identity of a byte buffer, decided in order: parse
/// failure is `Invalid`; without the definitive-edition marker the
/// legacy marker decides between `NonDe` and `Invalid`; without the
/// randomizer marker the build is `Vanilla`; otherwise the extracted
/// version decides between `Rando` and the content-hash fallback
/// `UnknownRando`.
pub open spec fn spec_classify(data: Seq<u8>) -> DllClassification {
    match spec_parse_dll(data) {
        None => DllClassification::Invalid,
        Some(heaps) => {
            if !contains_seq(heaps.0, de_marker()) {
                if contains_seq(heaps.0, legacy_marker()) {
                    DllClassification::NonDe
                } else {
                    DllClassification::Invalid
                }
            } else if !contains_seq(heaps.0, rando_marker()) {
                DllClassification::Vanilla
            } else {
                match spec_extract_version(heaps.1) {
                    Some(v) => DllClassification::Rando(v),
                    None => DllClassification::UnknownRando(content_hash_of(data)),
                }
            }
        },
    }
}

/// Classifies a byte buffer into its build identity. Pure: the result
/// is exactly [`spec_classify`] of the bytes.
pub fn classify_dll(file_data: &[u8]) -> (r: DllClassification)
    ensures
        r == spec_classify(file_data@),
{
    let heaps = match parse_dll(file_data) {
        Ok(heaps) => heaps,
        Err(_) => {
            return DllClassification::Invalid;
        },
    };

    let de = de_marker_bytes();
    if !contains_marker(heaps.strings, de.as_slice()) {
        let legacy = legacy_marker_bytes();
        return if contains_marker(heaps.strings, legacy.as_slice()) {
            DllClassification::NonDe
        } else {
            DllClassification::Invalid
        };
    }

    let rando = rando_marker_bytes();
    if !contains_marker(heaps.strings, rando.as_slice()) {
        return DllClassification::Vanilla;
    }

    if let Some(v) = extract_rando_version(heaps.us) {
        DllClassification::Rando(v)
    } else {
        DllClassification::UnknownRando(compute_hash(file_data))
    }
}

/// The maximum of a nonempty version sequence is one of its elements
/// and dominates all of them.
proof fn lemma_seq_max_version(s: Seq<RandoVersion>)
    requires
        s.len() > 0,
    ensures
        s.contains(seq_max_version(s)),
        forall|c: RandoVersion| s.contains(c) ==> version_le(c, seq_max_version(s)),
    decreases s.len(),
{
    let m = seq_max_version(s);
    if s.len() == 1 {
        assert(s[0] == m);
        assert(s.contains(s[0]));
    } else {
        let rest = s.drop_last();
        lemma_seq_max_version(rest);
        let mr = seq_max_version(rest);
        if version_le(mr, s.last()) {
            assert(m == s.last());
            assert(s.contains(s[s.len() - 1]));
        } else {
            assert(m == mr);
            let k = choose|k: int| 0 <= k < rest.len() && rest[k] == mr;
            assert(s[k] == mr);
            assert(s.contains(s[k]));
        }
        assert forall|c: RandoVersion| s.contains(c) implies version_le(c, m) by {
            let k = choose|k: int| 0 <= k < s.len() && s[k] == c;
            if k < s.len() - 1 {
                assert(rest[k] == c);
                assert(rest.contains(rest[k]));
                assert(version_le(c, mr));
            } else {
                assert(c == s.last());
            }
        }
    }
}

/// The version the extraction yields is authoritative: it is one of
/// the accepted version literals of the heap, and no accepted literal
/// exceeds it in the lexicographic (major, minor, patch) order; the
/// extraction yields nothing exactly when the heap holds no accepted
/// literal.
pub proof fn lemma_extract_is_max(h: Seq<u8>)
    ensures
        spec_extract_version(h) matches Some(v) ==> spec_candidates(h, 0).contains(v) && forall|
            c: RandoVersion,
        | spec_candidates(h, 0).contains(c) ==> version_le(c, v),
        spec_extract_version(h) is None <==> spec_candidates(h, 0).len() == 0,
{
    if spec_candidates(h, 0).len() > 0 {
        lemma_seq_max_version(spec_candidates(h, 0));
    }
}

/// Unversioned builds collapse to one identity exactly when their
/// content hashes agree: two buffers that classify to the fallback
/// identity are the same build to the catalog if and only if their
/// hashes are equal. In particular one buffer always yields one
/// identity, since the classification is a function of the bytes.
pub proof fn lemma_unversioned_identity(d1: Seq<u8>, d2: Seq<u8>)
    requires
        spec_classify(d1) is UnknownRando,
        spec_classify(d2) is UnknownRando,
    ensures
        spec_classify(d1) == spec_classify(d2) <==> content_hash_of(d1) == content_hash_of(d2),
{
}

} // verus!
