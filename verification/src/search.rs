//! Finding text: byte scans for ASCII queries, case-folded matching, and
//! the preview shown around a match.
use vstd::prelude::*;
use vstd::slice::slice_subrange;
use vstd::string::StringSliceAdditionalSpecFns;
use vstd::utf8::{encode_scalar, encode_utf8, is_char_boundary, valid_utf8};
use crate::chars::str_to_chars;
use crate::text::{boundary_at_or_below, byte_len, spec_truncate_len, truncate_cell};

verus! {

broadcast use vstd::utf8::group_utf8_lib;

// ─── Occurrences ────────────────────────────────────────────────────────────

/// Whether `needle` occurs in `haystack` at `i`.
pub open spec fn occurs_at<A>(haystack: Seq<A>, needle: Seq<A>, i: int) -> bool {
    0 <= i && i + needle.len() <= haystack.len() && haystack.subrange(i, i + needle.len()) == needle
}

/// Whether `needle` occurs somewhere in `haystack`.
pub open spec fn seq_contains<A>(haystack: Seq<A>, needle: Seq<A>) -> bool {
    exists|i: int| occurs_at(haystack, needle, i)
}

/// Whether `i` is where `needle` first occurs in `haystack`.
pub open spec fn first_occurrence<A>(haystack: Seq<A>, needle: Seq<A>, i: int) -> bool {
    occurs_at(haystack, needle, i) && forall|j: int| 0 <= j < i ==> !occurs_at(haystack, needle, j)
}

/// Where `needle` first occurs in `haystack`, if it does.
pub open spec fn find_first<A>(haystack: Seq<A>, needle: Seq<A>) -> Option<int> {
    if exists|i: int| first_occurrence(haystack, needle, i) {
        Some(choose|i: int| first_occurrence(haystack, needle, i))
    } else {
        None
    }
}

proof fn lemma_first_occurrence_unique<A>(haystack: Seq<A>, needle: Seq<A>, i: int)
    requires
        first_occurrence(haystack, needle, i),
    ensures
        find_first(haystack, needle) == Some(i),
{
    let j = choose|j: int| first_occurrence(haystack, needle, j);
    assert(first_occurrence(haystack, needle, j));
    if j < i {
        assert(!occurs_at(haystack, needle, j));
    }
    if i < j {
        assert(!occurs_at(haystack, needle, i));
    }
}

// ─── Outside scans ──────────────────────────────────────────────────────────

/// `memchr::memchr`: the first position of a byte.
#[verifier::external_body]
fn memchr_first(needle: u8, haystack: &[u8]) -> (r: Option<usize>)
    ensures
        match r {
            Some(i) => i < haystack@.len() && haystack@[i as int] == needle
                && forall|j: int| 0 <= j < i ==> haystack@[j] != needle,
            None => forall|j: int| 0 <= j < haystack@.len() ==> haystack@[j] != needle,
        },
{
    memchr::memchr(needle, haystack)
}

/// `memchr::memchr2`: the first position of either of two bytes.
#[verifier::external_body]
fn memchr2_first(a: u8, b: u8, haystack: &[u8]) -> (r: Option<usize>)
    ensures
        match r {
            Some(i) => i < haystack@.len() && (haystack@[i as int] == a || haystack@[i as int] == b)
                && forall|j: int| 0 <= j < i ==> haystack@[j] != a && haystack@[j] != b,
            None => forall|j: int| 0 <= j < haystack@.len() ==> haystack@[j] != a && haystack@[j] != b,
        },
{
    memchr::memchr2(a, b, haystack)
}

/// `memchr::memmem::find`: where a byte string first occurs.
#[verifier::external_body]
pub(crate) fn memmem_find(haystack: &[u8], needle: &[u8]) -> (r: Option<usize>)
    ensures
        match r {
            Some(i) => first_occurrence(haystack@, needle@, i as int),
            None => !seq_contains(haystack@, needle@),
        },
{
    memchr::memmem::find(haystack, needle)
}

/// The text that `str::to_lowercase` gives (Unicode lower case, with the
/// final-sigma rule).
pub uninterp spec fn lowercase(s: Seq<char>) -> Seq<char>;

/// The characters that `char::to_lowercase` gives for one character.
pub uninterp spec fn char_lowercase(c: char) -> Seq<char>;

/// `str::to_lowercase`.
#[verifier::external_body]
pub(crate) fn str_to_lowercase(s: &str) -> (r: String)
    ensures
        r@ == lowercase(s@),
{
    s.to_lowercase()
}

/// `char::to_lowercase`, collected.
#[verifier::external_body]
fn char_to_lowercase(c: char) -> (r: Vec<char>)
    ensures
        r@ == char_lowercase(c),
{
    c.to_lowercase().collect()
}

/// `str::contains` with a string pattern: whether `needle` is a part of
/// `haystack`.
#[verifier::external_body]
fn str_contains(haystack: &str, needle: &str) -> (r: bool)
    ensures
        r == seq_contains(haystack@, needle@),
{
    haystack.contains(needle)
}

/// `str::find` with a string pattern: the byte position where `needle`
/// first occurs, which (both being UTF-8) starts and ends on character
/// boundaries.
#[verifier::external_body]
fn str_find(haystack: &str, needle: &str) -> (r: Option<usize>)
    ensures
        match r {
            Some(i) => first_occurrence(haystack.spec_bytes(), needle.spec_bytes(), i as int)
                && is_char_boundary(haystack.spec_bytes(), i as int)
                && is_char_boundary(haystack.spec_bytes(), i + needle.spec_bytes().len()),
            None => !seq_contains(haystack.spec_bytes(), needle.spec_bytes()),
        },
{
    haystack.find(needle)
}

// ─── ASCII case-insensitive bytes ───────────────────────────────────────────

/// A byte in ASCII lower case.
pub open spec fn ascii_lower_byte(b: u8) -> u8 {
    if 0x41 <= b <= 0x5A {
        (b + 32) as u8
    } else {
        b
    }
}

/// A byte in ASCII upper case.
pub open spec fn ascii_upper_byte(b: u8) -> u8 {
    if 0x61 <= b <= 0x7A {
        (b - 32) as u8
    } else {
        b
    }
}

fn to_ascii_lower(b: u8) -> (r: u8)
    ensures
        r == ascii_lower_byte(b),
{
    if 0x41 <= b && b <= 0x5A {
        b + 32
    } else {
        b
    }
}

fn to_ascii_upper(b: u8) -> (r: u8)
    ensures
        r == ascii_upper_byte(b),
{
    if 0x61 <= b && b <= 0x7A {
        b - 32
    } else {
        b
    }
}

/// Whether `needle` occurs in `haystack` at `i`, ignoring ASCII case.
pub open spec fn ascii_ci_occurs_at(haystack: Seq<u8>, needle: Seq<u8>, i: int) -> bool {
    &&& 0 <= i
    &&& i + needle.len() <= haystack.len()
    &&& forall|k: int| 0 <= k < needle.len() ==> ascii_lower_byte(#[trigger] haystack[i + k]) == ascii_lower_byte(needle[k])
}

/// Whether the bytes at `start` are `needle`, ignoring ASCII case.
fn window_matches(haystack: &[u8], needle: &[u8], start: usize) -> (r: bool)
    ensures
        r == ascii_ci_occurs_at(haystack@, needle@, start as int),
{
    let n = needle.len();
    let hl = haystack.len();
    if start > hl || n > hl - start {
        return false;
    }
    let mut k: usize = 0;
    while k < n
        invariant
            k <= n,
            n == needle@.len(),
            hl == haystack@.len(),
            start + n <= hl,
            forall|j: int| 0 <= j < k ==> ascii_lower_byte(#[trigger] haystack@[start + j]) == ascii_lower_byte(needle@[j]),
        decreases n - k,
    {
        assert(start + k < haystack@.len());
        if to_ascii_lower(haystack[start + k]) != to_ascii_lower(needle[k]) {
            return false;
        }
        k += 1;
    }
    true
}

/// Whether `needle` occurs in `haystack` ignoring ASCII case; candidates
/// are found by scanning for the needle's first byte in either case.
pub fn contains_ascii_case_insensitive(haystack: &[u8], needle: &[u8]) -> (r: bool)
    requires
        needle@.len() > 0,
    ensures
        r == exists|i: int| ascii_ci_occurs_at(haystack@, needle@, i),
{
    let first_lower = to_ascii_lower(needle[0]);
    let first_upper = to_ascii_upper(needle[0]);
    let len = haystack.len();
    let mut pos: usize = 0;
    while pos <= len
        invariant
            pos <= len + 1,
            len == haystack@.len(),
            needle@.len() > 0,
            first_lower == ascii_lower_byte(needle@[0]),
            first_upper == ascii_upper_byte(needle@[0]),
            forall|s: int| 0 <= s < pos ==> !ascii_ci_occurs_at(haystack@, needle@, s),
        decreases len + 1 - pos,
    {
        let rest = slice_subrange(haystack, pos, len);
        let found = if first_lower == first_upper {
            memchr_first(first_lower, rest)
        } else {
            memchr2_first(first_lower, first_upper, rest)
        };
        match found {
            Some(p) => {
                let start = pos + p;
                if window_matches(haystack, needle, start) {
                    return true;
                }
                assert forall|s: int| pos <= s < start implies !ascii_ci_occurs_at(haystack@, needle@, s) by {
                    assert(rest@[s - pos] == haystack@[s]);
                    if ascii_ci_occurs_at(haystack@, needle@, s) {
                        assert(ascii_lower_byte(haystack@[s + 0]) == ascii_lower_byte(needle@[0]));
                    }
                }
                pos = start + 1;
            },
            None => {
                assert forall|s: int| 0 <= s implies !ascii_ci_occurs_at(haystack@, needle@, s) by {
                    if s >= pos && s < len {
                        assert(rest@[s - pos] == haystack@[s]);
                    }
                    if ascii_ci_occurs_at(haystack@, needle@, s) {
                        assert(ascii_lower_byte(haystack@[s + 0]) == ascii_lower_byte(needle@[0]));
                    }
                }
                return false;
            },
        }
    }
    false
}

// ─── Text matching ──────────────────────────────────────────────────────────

/// Whether a text holds the query: as it is, or in lower case when a
/// lower-cased query is given.
pub open spec fn text_contains(text: Seq<char>, query: Seq<char>, query_lower: Option<Seq<char>>) -> bool {
    match query_lower {
        Some(lower) => seq_contains(lowercase(text), lower),
        None => seq_contains(text, query),
    }
}

/// Whether a text holds the query (see [`text_contains`]).
pub fn contains_text(text: &str, query: &str, query_lower: Option<&str>) -> (r: bool)
    ensures
        r == text_contains(text@, query@, match query_lower { Some(l) => Some(l@), None => None }),
{
    match query_lower {
        Some(lower) => {
            let folded = str_to_lowercase(text);
            str_contains(folded.as_str(), lower)
        },
        None => str_contains(text, query),
    }
}

/// The byte length of the first `k` characters.
pub open spec fn byte_offset(c: Seq<char>, k: int) -> int {
    encode_utf8(c.take(k)).len() as int
}

/// Reading on from character `k`, having lower-cased `cand` so far: the end
/// of the first stretch whose lower case starts with `q`, unless the lower
/// case strays from `q` first.
pub open spec fn ci_scan(c: Seq<char>, k: int, cand: Seq<char>, q: Seq<char>) -> Option<int>
    decreases c.len() - k,
{
    if k < 0 || k >= c.len() {
        None
    } else {
        let next = cand + char_lowercase(c[k]);
        if q.is_prefix_of(next) {
            Some(k + 1)
        } else if !next.is_prefix_of(q) {
            None
        } else {
            ci_scan(c, k + 1, next, q)
        }
    }
}

/// The first character position from `s` on where a case-insensitive match
/// of `q` starts, with its end.
pub open spec fn ci_find(c: Seq<char>, s: int, q: Seq<char>) -> Option<(int, int)>
    decreases c.len() - s,
{
    if s < 0 || s >= c.len() {
        None
    } else {
        match ci_scan(c, s, Seq::empty(), q) {
            Some(e) => Some((s, e)),
            None => ci_find(c, s + 1, q),
        }
    }
}

/// The byte range of the first case-insensitive match of `query_lower`.
pub open spec fn spec_find_case_insensitive(text: Seq<char>, query_lower: Seq<char>) -> Option<(int, int)> {
    match ci_find(text, 0, query_lower) {
        Some((s, e)) => Some((byte_offset(text, s), byte_offset(text, e))),
        None => None,
    }
}

proof fn lemma_encode_concat(a: Seq<char>, b: Seq<char>)
    ensures
        encode_utf8(a + b) == encode_utf8(a) + encode_utf8(b),
    decreases a.len(),
{
    if a.len() == 0 {
        assert(a + b =~= b);
        assert(encode_utf8(a) =~= Seq::<u8>::empty());
        assert(encode_utf8(a) + encode_utf8(b) =~= encode_utf8(b));
    } else {
        lemma_encode_concat(a.drop_first(), b);
        assert((a + b).drop_first() =~= a.drop_first() + b);
        assert((a + b)[0] == a[0]);
        assert(encode_utf8(a + b) =~= encode_scalar(a[0] as u32) + encode_utf8(a.drop_first() + b));
        assert(encode_utf8(a) =~= encode_scalar(a[0] as u32) + encode_utf8(a.drop_first()));
    }
}

/// The byte offset of a character position grows by that character's width,
/// and never passes the whole text's length.
proof fn lemma_byte_offset_step(c: Seq<char>, k: int)
    requires
        0 <= k < c.len(),
    ensures
        byte_offset(c, k + 1) == byte_offset(c, k) + encode_scalar(c[k] as u32).len(),
        byte_offset(c, k + 1) <= encode_utf8(c).len(),
{
    lemma_encode_concat(c.take(k), seq![c[k]]);
    assert(c.take(k) + seq![c[k]] =~= c.take(k + 1));
    assert(seq![c[k]].drop_first() =~= Seq::<char>::empty());
    assert(encode_utf8(seq![c[k]]) =~= encode_scalar(c[k] as u32) + encode_utf8(Seq::<char>::empty()));
    lemma_encode_concat(c.take(k + 1), c.skip(k + 1));
    assert(c.take(k + 1) + c.skip(k + 1) =~= c);
}

/// The byte offset of a character position is a character boundary.
proof fn lemma_byte_offset_boundary(c: Seq<char>, k: int)
    requires
        0 <= k <= c.len(),
    ensures
        is_char_boundary(encode_utf8(c), byte_offset(c, k)),
    decreases k,
{
    let bytes = encode_utf8(c);
    if k > 0 {
        vstd::utf8::encode_utf8_first_scalar(c);
        assert(vstd::utf8::pop_first_scalar(bytes) =~= encode_utf8(c.drop_first()));
        lemma_byte_offset_boundary(c.drop_first(), k - 1);
        assert(c.take(k) =~= seq![c[0]] + c.drop_first().take(k - 1));
        lemma_encode_concat(seq![c[0]], c.drop_first().take(k - 1));
        assert(seq![c[0]].drop_first() =~= Seq::<char>::empty());
        assert(encode_utf8(seq![c[0]]) =~= encode_scalar(c[0] as u32) + encode_utf8(Seq::<char>::empty()));
        lemma_byte_offset_step(c, 0);
    }
}

/// The UTF-8 width of a character.
fn utf8_width(c: char) -> (r: usize)
    ensures
        r == encode_scalar(c as u32).len(),
        1 <= r <= 4,
{
    let v = c as u32;
    if v < 0x80 {
        1
    } else if v < 0x800 {
        2
    } else if v < 0x10000 {
        3
    } else {
        4
    }
}

/// Whether `a` is a prefix of `b`.
fn is_prefix(a: &Vec<char>, b: &Vec<char>) -> (r: bool)
    ensures
        r == a@.is_prefix_of(b@),
{
    if a.len() > b.len() {
        return false;
    }
    let mut i: usize = 0;
    while i < a.len()
        invariant
            i <= a@.len() <= b@.len(),
            forall|j: int| 0 <= j < i ==> a@[j] == b@[j],
        decreases a@.len() - i,
    {
        if a[i] != b[i] {
            return false;
        }
        i += 1;
    }
    assert(a@ =~= b@.subrange(0, a@.len() as int));
    true
}

/// The byte range of the first place where `text`, lower-cased one
/// character at a time, starts with `query_lower` (see
/// [`spec_find_case_insensitive`]).
pub fn find_case_insensitive(text: &str, query_lower: &str) -> (r: Option<(usize, usize)>)
    ensures
        match r {
            Some((s, e)) => spec_find_case_insensitive(text@, query_lower@) == Some((s as int, e as int)),
            None => spec_find_case_insensitive(text@, query_lower@) is None,
        },
        r matches Some((s, e)) ==> s < e <= text.spec_bytes().len()
            && is_char_boundary(text.spec_bytes(), s as int) && is_char_boundary(text.spec_bytes(), e as int),
{
    let c = str_to_chars(text);
    let q = str_to_chars(query_lower);
    let n = c.len();
    let total = byte_len(text);
    let mut s: usize = 0;
    let mut off_s: usize = 0;
    assert(c@.take(0) =~= Seq::<char>::empty());
    while s < n
        invariant
            n == c@.len(),
            c@ == text@,
            q@ == query_lower@,
            total == encode_utf8(c@).len(),
            total <= isize::MAX,
            s <= n,
            off_s == byte_offset(c@, s as int),
            ci_find(c@, 0, q@) == ci_find(c@, s as int, q@),
        decreases n - s,
    {
        let mut cand: Vec<char> = Vec::new();
        let mut k = s;
        let mut off_k = off_s;
        loop
            invariant_except_break
                s <= k < n,
                off_k == byte_offset(c@, k as int),
                ci_scan(c@, s as int, Seq::empty(), q@) == ci_scan(c@, k as int, cand@, q@),
            invariant
                n == c@.len(),
                c@ == text@,
                q@ == query_lower@,
                total == encode_utf8(c@).len(),
                total <= isize::MAX,
                s < n,
                off_s == byte_offset(c@, s as int),
                ci_find(c@, 0, q@) == ci_find(c@, s as int, q@),
            ensures
                ci_scan(c@, s as int, Seq::empty(), q@) is None,
            decreases n - k,
        {
            let lower = char_to_lowercase(c[k]);
            let ghost before = cand@;
            let mut j: usize = 0;
            while j < lower.len()
                invariant
                    j <= lower@.len(),
                    cand@ == before + lower@.take(j as int),
                decreases lower@.len() - j,
            {
                cand.push(lower[j]);
                j += 1;
                assert(cand@ =~= before + lower@.take(j as int));
            }
            assert(lower@.take(lower@.len() as int) =~= lower@);
            proof { lemma_byte_offset_step(c@, k as int); }
            off_k = off_k + utf8_width(c[k]);
            if is_prefix(&q, &cand) {
                proof {
                    lemma_byte_offset_boundary(c@, s as int);
                    lemma_byte_offset_boundary(c@, k as int + 1);
                    assert(cand@ == before + char_lowercase(c@[k as int]));
                    assert(ci_scan(c@, k as int, before, q@) == Some(k as int + 1));
                    assert(ci_find(c@, s as int, q@) == Some((s as int, k as int + 1)));
                    assert(ci_find(c@, 0, q@) == Some((s as int, k as int + 1)));
                    assert(spec_find_case_insensitive(text@, query_lower@) == Some((off_s as int, off_k as int)));
                    lemma_offsets_grow(c@, s as int, k as int + 1);
                }
                return Some((off_s, off_k));
            }
            if !is_prefix(&cand, &q) {
                break;
            }
            k += 1;
            if k >= n {
                break;
            }
        }
        proof { lemma_byte_offset_step(c@, s as int); }
        off_s = off_s + utf8_width(c[s]);
        s += 1;
    }
    None
}

/// Byte offsets grow with character positions.
proof fn lemma_offsets_grow(c: Seq<char>, a: int, b: int)
    requires
        0 <= a < b <= c.len(),
    ensures
        byte_offset(c, a) < byte_offset(c, b),
    decreases b - a,
{
    lemma_byte_offset_step(c, b - 1);
    if a < b - 1 {
        lemma_offsets_grow(c, a, b - 1);
    }
}

// ─── The preview around a match ─────────────────────────────────────────────

/// The smallest character boundary of `bytes` at or above `x`.
pub open spec fn boundary_at_or_above(bytes: Seq<u8>, x: int) -> int
    decreases bytes.len() - x,
{
    if x >= bytes.len() || is_char_boundary(bytes, x) {
        x
    } else {
        boundary_at_or_above(bytes, x + 1)
    }
}

/// The bytes of `...`.
pub open spec fn ellipsis() -> Seq<u8> {
    seq![0x2Eu8, 0x2Eu8, 0x2Eu8]
}

/// The byte range of the first match of the query in a text: found
/// case-insensitively when a lower-cased query is given, else exactly.
pub open spec fn match_range(text: Seq<char>, query: Seq<char>, query_lower: Option<Seq<char>>) -> Option<(int, int)> {
    match query_lower {
        Some(lower) => spec_find_case_insensitive(text, lower),
        None => match find_first(encode_utf8(text), encode_utf8(query)) {
            Some(i) => Some((i, i + encode_utf8(query).len())),
            None => None,
        },
    }
}

/// The preview of a match at bytes `ms..me`: up to 90 bytes on either
/// side, moved inwards to character boundaries, marked with `...` where
/// text was left out, and cut to 250 bytes at a character boundary.
pub open spec fn context_bytes(b: Seq<u8>, ms: int, me: int) -> Seq<u8> {
    let ps = boundary_at_or_above(b, if ms >= 90 { ms - 90 } else { 0 });
    let pe = boundary_at_or_below(b, if me + 90 < b.len() { me + 90 } else { b.len() as int });
    let preview = (if ps > 0 { ellipsis() } else { Seq::empty() }) + b.subrange(ps, pe)
        + (if pe < b.len() { ellipsis() } else { Seq::empty() });
    if preview.len() > 250 {
        preview.take(spec_truncate_len(preview, 250))
    } else {
        preview
    }
}

/// The bytes of the preview shown for a matching cell: the text around the
/// first match, or, without a match, the text cut to 200 bytes.
pub open spec fn spec_match_context(text: Seq<char>, query: Seq<char>, query_lower: Option<Seq<char>>) -> Seq<u8> {
    let b = encode_utf8(text);
    match match_range(text, query, query_lower) {
        Some((ms, me)) => context_bytes(b, ms, me),
        None => b.take(spec_truncate_len(b, 200)),
    }
}

proof fn lemma_above_at_most(b: Seq<u8>, x: int, y: int)
    requires
        x <= y,
        is_char_boundary(b, y),
    ensures
        boundary_at_or_above(b, x) <= y,
    decreases b.len() - x,
{
    if x < b.len() && !is_char_boundary(b, x) {
        if x < y {
            lemma_above_at_most(b, x + 1, y);
        }
    }
}

proof fn lemma_below_at_least(b: Seq<u8>, x: int, y: int)
    requires
        0 <= y <= x,
        is_char_boundary(b, y),
    ensures
        boundary_at_or_below(b, x) >= y,
    decreases x,
{
    if x > 0 && !is_char_boundary(b, x) {
        if y < x {
            lemma_below_at_least(b, x - 1, y);
        }
    }
}

proof fn lemma_ellipsis_bytes()
    ensures
        encode_utf8("..."@) == ellipsis(),
{
    reveal_strlit("...");
    let d = "..."@;
    assert(d =~= seq!['.', '.', '.']);
    assert(vstd::utf8::is_ascii_chars(d));
    vstd::utf8::is_ascii_chars_encode_utf8(d);
    assert(encode_utf8(d)[0] == d[0] as u8);
    assert(encode_utf8(d)[1] == d[1] as u8);
    assert(encode_utf8(d)[2] == d[2] as u8);
    assert(encode_utf8(d) =~= ellipsis());
}

/// The text around the first match of the query in a cell (see
/// [`spec_match_context`]).
pub fn extract_match_context(cell_text: &str, query: &str, query_lower: Option<&str>) -> (r: String)
    ensures
        encode_utf8(r@) == spec_match_context(cell_text@, query@, match query_lower { Some(l) => Some(l@), None => None }),
{
    let ghost b = cell_text.spec_bytes();
    let len = byte_len(cell_text);
    let ghost lower_view: Option<Seq<char>> = match query_lower { Some(l) => Some(l@), None => None };
    let found = match query_lower {
        Some(lower) => find_case_insensitive(cell_text, lower),
        None => match str_find(cell_text, query) {
            Some(start) => {
                proof { lemma_first_occurrence_unique(b, query.spec_bytes(), start as int); }
                Some((start, start + byte_len(query)))
            },
            None => None,
        },
    };
    assert(match found { Some((s, e)) => match_range(cell_text@, query@, lower_view) == Some((s as int, e as int)), None => match_range(cell_text@, query@, lower_view) is None });
    let (match_start, match_end) = match found {
        Some(range) => range,
        None => {
            return truncate_cell(cell_text, 200);
        },
    };
    let radius: usize = 90;
    let mut preview_start = match_start.saturating_sub(radius);
    proof { lemma_above_at_most(b, preview_start as int, match_start as int); }
    while !cell_text.is_char_boundary(preview_start)
        invariant
            preview_start <= match_start,
            b == cell_text.spec_bytes(),
            is_char_boundary(b, match_start as int),
            boundary_at_or_above(b, preview_start as int) == boundary_at_or_above(
                b,
                if match_start >= 90 { match_start - 90 } else { 0 },
            ),
        decreases match_start - preview_start,
    {
        preview_start += 1;
    }
    let mut preview_end = if match_end + radius < len { match_end + radius } else { len };
    proof { lemma_below_at_least(b, preview_end as int, match_end as int); }
    while !cell_text.is_char_boundary(preview_end)
        invariant
            match_end <= preview_end <= len,
            len == b.len(),
            b == cell_text.spec_bytes(),
            is_char_boundary(b, match_end as int),
            boundary_at_or_below(b, preview_end as int) == boundary_at_or_below(
                b,
                if match_end + 90 < b.len() { match_end + 90 } else { b.len() as int },
            ),
        decreases preview_end - match_end,
    {
        preview_end -= 1;
    }
    let (head, _) = cell_text.split_at(preview_end);
    proof {
        let hb = head.spec_bytes();
        assert(hb =~= b.subrange(0, preview_end as int));
        assert(valid_utf8(b));
        assert(valid_utf8(hb));
        lemma_above_at_most(b, if match_start >= 90 { match_start - 90 } else { 0 }, match_start as int);
        lemma_below_at_least(b, if match_end + 90 < b.len() { match_end + 90 } else { b.len() as int }, match_end as int);
        assert(preview_start <= match_start <= match_end <= preview_end);
        if preview_start < preview_end {
            assert(hb[preview_start as int] == b[preview_start as int]);
            vstd::utf8::is_char_boundary_iff_not_is_continuation_byte(b, preview_start as int);
            vstd::utf8::is_char_boundary_iff_not_is_continuation_byte(hb, preview_start as int);
        } else {
            vstd::utf8::is_char_boundary_start_end_of_seq(hb);
        }
    }
    let (_, middle) = head.split_at(preview_start);
    assert(middle.spec_bytes() =~= b.subrange(preview_start as int, preview_end as int));
    proof { lemma_ellipsis_bytes(); }
    let mut preview = String::new();
    if preview_start > 0 {
        preview.append("...");
    }
    let ghost lead = preview@;
    preview.append(middle);
    let ghost body = preview@;
    if preview_end < len {
        preview.append("...");
    }
    proof {
        lemma_encode_concat(lead, middle@);
        lemma_encode_concat(body, if preview_end < len { "..."@ } else { Seq::<char>::empty() });
        assert(lead =~= if preview_start > 0 { "..."@ } else { Seq::<char>::empty() });
        assert(preview@ =~= body + if preview_end < len { "..."@ } else { Seq::<char>::empty() });
        assert(encode_utf8(Seq::<char>::empty()) =~= Seq::<u8>::empty());
        assert(encode_utf8(preview@) =~= (if preview_start > 0 { ellipsis() } else { Seq::empty() })
            + b.subrange(preview_start as int, preview_end as int)
            + (if preview_end < len { ellipsis() } else { Seq::empty() }));
    }
    if byte_len(preview.as_str()) > 250 {
        truncate_cell(preview.as_str(), 250)
    } else {
        preview
    }
}

// ─── What a preview shows ───────────────────────────────────────────────────

proof fn lemma_above_props(b: Seq<u8>, x: int, y: int)
    requires
        0 <= x <= y <= b.len(),
        is_char_boundary(b, y),
    ensures
        x <= boundary_at_or_above(b, x) <= y,
        is_char_boundary(b, boundary_at_or_above(b, x)),
        forall|z: int| x <= z < boundary_at_or_above(b, x) ==> !is_char_boundary(b, z),
    decreases b.len() - x,
{
    if x < b.len() && !is_char_boundary(b, x) {
        lemma_above_props(b, x + 1, y);
    }
}

proof fn lemma_below_props(b: Seq<u8>, x: int, y: int)
    requires
        0 <= y <= x,
        is_char_boundary(b, y),
    ensures
        y <= boundary_at_or_below(b, x) <= x,
        is_char_boundary(b, boundary_at_or_below(b, x)),
        forall|z: int| boundary_at_or_below(b, x) < z <= x ==> !is_char_boundary(b, z),
    decreases x,
{
    if x > 0 && !is_char_boundary(b, x) {
        lemma_below_props(b, x - 1, y);
    }
}

proof fn lemma_below_range(b: Seq<u8>, x: int)
    requires
        x >= 0,
    ensures
        0 <= boundary_at_or_below(b, x) <= x,
    decreases x,
{
    if x > 0 && !is_char_boundary(b, x) {
        lemma_below_range(b, x - 1);
    }
}

/// An occurrence of one text's UTF-8 bytes in another's starts and ends on
/// character boundaries.
proof fn lemma_occurrence_boundaries(text: Seq<char>, query: Seq<char>, i: int)
    requires
        first_occurrence(encode_utf8(text), encode_utf8(query), i),
    ensures
        is_char_boundary(encode_utf8(text), i),
        is_char_boundary(encode_utf8(text), i + encode_utf8(query).len()),
{
    let b = encode_utf8(text);
    let q = encode_utf8(query);
    let m = i + q.len();
    vstd::utf8::encode_utf8_valid_utf8(text);
    vstd::utf8::encode_utf8_valid_utf8(query);
    vstd::utf8::is_char_boundary_start_end_of_seq(b);
    vstd::utf8::is_char_boundary_start_end_of_seq(q);
    if q.len() == 0 {
        assert(b.subrange(0, 0) =~= q);
        assert(occurs_at(b, q, 0));
        assert(i == 0);
    } else {
        assert(is_char_boundary(q, 0));
        assert(b.subrange(i, m) == q);
        assert(b[i] == b.subrange(i, m)[0]);
        assert(b[i] == q[0]);
        vstd::utf8::is_char_boundary_iff_not_is_continuation_byte(q, 0);
        vstd::utf8::is_char_boundary_iff_not_is_continuation_byte(b, i);
        if m < b.len() {
            let n = query.len() as int;
            assert(n > 0);
            let pre = query.take(n - 1);
            let c = query[n - 1];
            assert(pre + seq![c] =~= query);
            lemma_encode_concat(pre, seq![c]);
            assert(seq![c].drop_first() =~= Seq::<char>::empty());
            let es = encode_scalar(c as u32);
            assert(encode_utf8(seq![c]) =~= es + encode_utf8(Seq::<char>::empty()));
            assert(encode_utf8(seq![c]) =~= es);
            let t = encode_utf8(pre).len() as int;
            let w = es.len() as int;
            vstd::utf8::encode_utf8_first_scalar(seq![c]);
            assert(w >= 1);
            // the last character of the query starts a character in the text
            lemma_byte_offset_boundary(query, n - 1);
            assert(query.take(n - 1) =~= pre);
            vstd::utf8::is_char_boundary_iff_not_is_continuation_byte(q, t);
            let p = i + t;
            assert(b[p] == b.subrange(i, m)[t]);
            vstd::utf8::is_char_boundary_iff_not_is_continuation_byte(b, p);
            // its encoding in the text is as long as in the query
            let bs = b.subrange(p, b.len() as int);
            vstd::utf8::valid_utf8_split(b, p);
            assert(bs[0] == es[0]);
            assert(vstd::utf8::length_of_first_scalar(bs) == vstd::utf8::length_of_first_scalar(es));
            assert(vstd::utf8::length_of_first_scalar(bs) == w);
            assert(w < bs.len());
            reveal_with_fuel(is_char_boundary, 2);
            vstd::utf8::is_char_boundary_start_end_of_seq(vstd::utf8::pop_first_scalar(bs));
            assert(is_char_boundary(bs, w));
            vstd::utf8::is_char_boundary_iff_not_is_continuation_byte(bs, w);
            assert(bs[w] == b[m]);
            vstd::utf8::is_char_boundary_iff_not_is_continuation_byte(b, m);
        }
    }
}

/// What a case-sensitive search shows of a cell where the query occurs: the
/// cell's bytes from the first character boundary at most 90 bytes before
/// the first occurrence to the last one at most 90 bytes after it, with
/// `...` where bytes are left out at either end. The preview starts with
/// these bytes (it is cut only past 250 bytes), and it holds them whole,
/// the matched bytes among them, whenever the query takes at most 64 bytes.
pub proof fn law_preview_shows_the_match(text: Seq<char>, query: Seq<char>, i: int)
    requires
        first_occurrence(encode_utf8(text), encode_utf8(query), i),
    ensures
        ({
            let b = encode_utf8(text);
            let m = i + encode_utf8(query).len();
            let shown = spec_match_context(text, query, None);
            exists|s: int, e: int| #![trigger b.subrange(s, e)] {
                let full = (if s > 0 { ellipsis() } else { Seq::empty() }) + b.subrange(s, e)
                    + (if e < b.len() { ellipsis() } else { Seq::empty() });
                &&& 0 <= s <= i && i - s <= 90
                &&& m <= e <= b.len() && e - m <= 90
                &&& is_char_boundary(b, s) && is_char_boundary(b, e)
                &&& forall|z: int| 0 <= z < s && i - z <= 90 ==> !is_char_boundary(b, z)
                &&& forall|z: int| e < z <= b.len() && z - m <= 90 ==> !is_char_boundary(b, z)
                &&& shown.len() <= full.len() && shown == full.take(shown.len() as int)
                &&& (full.len() <= 250 ==> shown == full)
                &&& (encode_utf8(query).len() <= 64 ==> shown == full)
            }
        }),
{
    let b = encode_utf8(text);
    let q = encode_utf8(query);
    let m = i + q.len();
    lemma_first_occurrence_unique(b, q, i);
    assert(match_range(text, query, None) == Some((i, m)));
    lemma_occurrence_boundaries(text, query, i);
    let lo = if i >= 90 { i - 90 } else { 0 };
    let hi = if m + 90 < b.len() { m + 90 } else { b.len() as int };
    lemma_above_props(b, lo, i);
    lemma_below_props(b, hi, m);
    let s = boundary_at_or_above(b, lo);
    let e = boundary_at_or_below(b, hi);
    let full = (if s > 0 { ellipsis() } else { Seq::empty() }) + b.subrange(s, e)
        + (if e < b.len() { ellipsis() } else { Seq::empty() });
    let shown = spec_match_context(text, query, None);
    assert(shown == context_bytes(b, i, m));
    if full.len() > 250 {
        lemma_below_range(full, 250);
        assert(shown == full.take(spec_truncate_len(full, 250)));
    } else {
        assert(full.take(full.len() as int) =~= full);
    }
    assert(full.len() <= 6 + 180 + q.len());
}

} // verus!
