//! Text contents of files: which files are read, and the snippet around a
//! keyword shown with a result.

use vstd::prelude::*;
use vstd::string::*;
use vstd::utf8::{encode_utf8, decode_utf8, valid_utf8, is_char_boundary, is_ascii_chars};
use crate::stdx::{to_lowercase, unicode_lowercase};
use crate::text::{trim_whitespace, trim_ws};
use crate::text::{find_ascii_ignore_case, window_matches_both_lower, bytes_find, occurs_at, eq_lower, matches_lower_at};

verus! {

broadcast use vstd::utf8::group_utf8_lib;

/// The largest file whose contents are read.
pub const MAX_READ_BYTES: u64 = 10 * 1024 * 1024;

// ---------------------------------------------------------------------
// Which files are read
// ---------------------------------------------------------------------

/// Whether an extension is among the allowed ones: an ASCII extension is
/// compared with its letters lower-cased, any other after Unicode
/// lower-casing; the empty extension never is.
pub open spec fn ext_allowed(ext: Seq<char>, allowed: Seq<Seq<char>>) -> bool {
    if ext.len() == 0 {
        false
    } else if is_ascii_chars(ext) {
        exists|i: int| 0 <= i < allowed.len() && eq_lower(encode_utf8(ext), encode_utf8(#[trigger] allowed[i]))
    } else {
        exists|i: int| 0 <= i < allowed.len() && #[trigger] allowed[i] == unicode_lowercase(ext)
    }
}

/// Whether the contents of files with extension `ext` are indexed (see
/// `ext_allowed`).
pub fn extension_allowed(ext: &str, allowed_extensions: &[String]) -> (r: bool)
    ensures
        r == ext_allowed(ext@, crate::models::texts(allowed_extensions@)),
{
    let ghost al = crate::models::texts(allowed_extensions@);
    if ext.is_empty() {
        return false;
    }
    if ext.is_ascii() {
        let eb = ext.as_bytes();
        let mut i: usize = 0;
        while i < allowed_extensions.len()
            invariant
                al == crate::models::texts(allowed_extensions@),
                eb@ == encode_utf8(ext@),
                ext@.len() > 0,
                is_ascii_chars(ext@),
                i <= allowed_extensions@.len(),
                forall|k: int| 0 <= k < i ==> !eq_lower(encode_utf8(ext@), encode_utf8(#[trigger] al[k])),
            decreases allowed_extensions@.len() - i,
        {
            let ab = allowed_extensions[i].as_str().as_bytes();
            assert(al[i as int] == allowed_extensions@[i as int]@);
            if ab.len() == eb.len() && matches_lower_at(eb, ab, 0) {
                assert(eq_lower(encode_utf8(ext@), encode_utf8(al[i as int])));
                return true;
            }
            i += 1;
        }
        false
    } else {
        let lower = to_lowercase(ext);
        let mut i: usize = 0;
        while i < allowed_extensions.len()
            invariant
                al == crate::models::texts(allowed_extensions@),
                lower@ == unicode_lowercase(ext@),
                ext@.len() > 0,
                !is_ascii_chars(ext@),
                i <= allowed_extensions@.len(),
                forall|k: int| 0 <= k < i ==> #[trigger] al[k] != unicode_lowercase(ext@),
            decreases allowed_extensions@.len() - i,
        {
            assert(al[i as int] == allowed_extensions@[i as int]@);
            if allowed_extensions[i] == lower {
                assert(al[i as int] == unicode_lowercase(ext@));
                return true;
            }
            i += 1;
        }
        false
    }
}

/// Whether a file of `size` bytes is small enough to read: at most
/// `max_size` and at most 10 MiB.
pub fn content_size_allowed(size: u64, max_size: u64) -> (r: bool)
    ensures
        r == (size <= max_size && size <= MAX_READ_BYTES),
{
    !(size > max_size || size > MAX_READ_BYTES)
}

/// Calls `String::from_utf8`. Claimed: a text exactly when the bytes are
/// valid UTF-8, and then the decoded characters, as documented.
#[verifier::external_body]
fn string_from_utf8(bytes: Vec<u8>) -> (r: Option<String>)
    ensures
        match r {
            Some(s) => valid_utf8(bytes@) && s@ == decode_utf8(bytes@),
            None => !valid_utf8(bytes@),
        },
{
    String::from_utf8(bytes).ok()
}

/// The text of a file's bytes, when they are valid UTF-8.
pub fn content_from_bytes(bytes: Vec<u8>) -> (r: Option<String>)
    ensures
        match r {
            Some(s) => valid_utf8(bytes@) && s@ == decode_utf8(bytes@),
            None => !valid_utf8(bytes@),
        },
{
    string_from_utf8(bytes)
}

// ---------------------------------------------------------------------
// Character boundaries
// ---------------------------------------------------------------------

/// The largest character boundary at or below `i` (and the length).
pub open spec fn floor_bd(b: Seq<u8>, i: int) -> int
    decreases i,
{
    if i <= 0 {
        0
    } else if i > b.len() {
        floor_bd(b, b.len() as int)
    } else if is_char_boundary(b, i) {
        i
    } else {
        floor_bd(b, i - 1)
    }
}

/// The smallest character boundary at or above `i`, at most the length.
pub open spec fn ceil_bd(b: Seq<u8>, i: int) -> int
    decreases b.len() - i,
{
    if i >= b.len() {
        b.len() as int
    } else if is_char_boundary(b, i) {
        i
    } else {
        ceil_bd(b, i + 1)
    }
}

/// The largest character boundary at or below `idx`, within the text.
pub fn floor_char_boundary(s: &str, idx: usize) -> (r: usize)
    ensures
        r == floor_bd(s.spec_bytes(), idx as int),
        r <= s.spec_bytes().len(),
{
    let n = s.as_bytes().len();
    let mut i = if idx < n { idx } else { n };
    assert(floor_bd(s.spec_bytes(), idx as int) == floor_bd(s.spec_bytes(), i as int));
    while i > 0 && !s.is_char_boundary(i)
        invariant
            n == s.spec_bytes().len(),
            i <= n,
            floor_bd(s.spec_bytes(), idx as int) == floor_bd(s.spec_bytes(), i as int),
        decreases i,
    {
        i -= 1;
    }
    i
}

/// The smallest character boundary at or above `idx`, within the text.
pub fn ceil_char_boundary(s: &str, idx: usize) -> (r: usize)
    ensures
        r == ceil_bd(s.spec_bytes(), if idx < s.spec_bytes().len() { idx as int } else { s.spec_bytes().len() as int }),
        r <= s.spec_bytes().len(),
{
    let n = s.as_bytes().len();
    let mut i = if idx < n { idx } else { n };
    let ghost start = i;
    while i < n && !s.is_char_boundary(i)
        invariant
            n == s.spec_bytes().len(),
            i <= n,
            ceil_bd(s.spec_bytes(), start as int) == ceil_bd(s.spec_bytes(), i as int),
        decreases n - i,
    {
        i += 1;
    }
    i
}

// ---------------------------------------------------------------------
// Whitespace in UTF-8
// ---------------------------------------------------------------------

/// The length of the UTF-8 encoding of a `White_Space` character starting
/// at byte `p`, or 0: the ASCII tab, line feed, vertical tab, form feed,
/// carriage return and space; U+0085 and U+00A0; U+1680; U+2000 to U+200A,
/// U+2028, U+2029, U+202F; U+205F; U+3000.
pub open spec fn ws_len_at(b: Seq<u8>, p: int) -> int {
    if p < 0 || p >= b.len() {
        0
    } else if b[p] == 9 || b[p] == 10 || b[p] == 11 || b[p] == 12 || b[p] == 13 || b[p] == 32 {
        1
    } else if p + 1 < b.len() && b[p] == 0xC2 && (b[p + 1] == 0x85 || b[p + 1] == 0xA0) {
        2
    } else if p + 2 < b.len() && ((b[p] == 0xE1 && b[p + 1] == 0x9A && b[p + 2] == 0x80) || (b[p] == 0xE2 && b[p
        + 1] == 0x80 && ((0x80 <= b[p + 2] && b[p + 2] <= 0x8A) || b[p + 2] == 0xA8 || b[p + 2] == 0xA9 || b[p
        + 2] == 0xAF)) || (b[p] == 0xE2 && b[p + 1] == 0x81 && b[p + 2] == 0x9F) || (b[p] == 0xE3 && b[p + 1]
        == 0x80 && b[p + 2] == 0x80)) {
        3
    } else {
        0
    }
}

/// A `White_Space` character starts at byte `p`.
pub open spec fn ws_at(b: Seq<u8>, p: int) -> bool {
    is_char_boundary(b, p) && ws_len_at(b, p) > 0
}

/// The start of the last `White_Space` character before byte `end`.
pub open spec fn last_ws_before(b: Seq<u8>, end: int) -> Option<int>
    decreases end,
{
    if end <= 0 {
        None
    } else if ws_at(b, end - 1) {
        Some(end - 1)
    } else {
        last_ws_before(b, end - 1)
    }
}

/// The start of the first `White_Space` character at or after byte `start`.
pub open spec fn first_ws_from(b: Seq<u8>, start: int) -> Option<int>
    decreases b.len() - start,
{
    if start >= b.len() || start < 0 {
        None
    } else if ws_at(b, start) {
        Some(start)
    } else {
        first_ws_from(b, start + 1)
    }
}

/// The length of the whitespace encoding at `p` (see `ws_len_at`).
fn ws_len(b: &[u8], p: usize) -> (r: usize)
    requires
        p < b@.len(),
    ensures
        r == ws_len_at(b@, p as int),
{
    let n = b.len();
    let c = b[p];
    if c == 9 || c == 10 || c == 11 || c == 12 || c == 13 || c == 32 {
        1
    } else if p + 1 < n && c == 0xC2 && (b[p + 1] == 0x85 || b[p + 1] == 0xA0) {
        2
    } else if n - p > 2 && ((c == 0xE1 && b[p + 1] == 0x9A && b[p + 2] == 0x80) || (c == 0xE2 && b[p + 1] == 0x80
        && ((0x80 <= b[p + 2] && b[p + 2] <= 0x8A) || b[p + 2] == 0xA8 || b[p + 2] == 0xA9 || b[p + 2] == 0xAF))
        || (c == 0xE2 && b[p + 1] == 0x81 && b[p + 2] == 0x9F) || (c == 0xE3 && b[p + 1] == 0x80 && b[p + 2] == 0x80)) {
        3
    } else {
        0
    }
}

/// The start of the last whitespace character before `end`.
fn find_last_ws(s: &str, end: usize) -> (r: Option<usize>)
    requires
        end <= s.spec_bytes().len(),
    ensures
        match r {
            Some(p) => last_ws_before(s.spec_bytes(), end as int) == Some(p as int),
            None => last_ws_before(s.spec_bytes(), end as int) is None,
        },
{
    let b = s.as_bytes();
    let mut e = end;
    while e > 0
        invariant
            b@ == s.spec_bytes(),
            e <= end <= b@.len(),
            last_ws_before(b@, end as int) == last_ws_before(b@, e as int),
        decreases e,
    {
        if s.is_char_boundary(e - 1) && ws_len(b, e - 1) > 0 {
            return Some(e - 1);
        }
        e -= 1;
    }
    None
}

/// The start of the first whitespace character at or after `start`.
fn find_first_ws(s: &str, start: usize) -> (r: Option<usize>)
    requires
        start <= s.spec_bytes().len(),
    ensures
        match r {
            Some(p) => first_ws_from(s.spec_bytes(), start as int) == Some(p as int),
            None => first_ws_from(s.spec_bytes(), start as int) is None,
        },
{
    let b = s.as_bytes();
    let n = b.len();
    let mut p = start;
    while p < n
        invariant
            b@ == s.spec_bytes(),
            n == b@.len(),
            start <= p <= n,
            first_ws_from(b@, start as int) == first_ws_from(b@, p as int),
        decreases n - p,
    {
        if s.is_char_boundary(p) && ws_len(b, p) > 0 {
            return Some(p);
        }
        p += 1;
    }
    None
}

// ---------------------------------------------------------------------
// Snippets
// ---------------------------------------------------------------------

/// Where the snippet starts and ends:
/// `context` bytes around the match, widened to character boundaries, then
/// to the word boundaries around them.
pub open spec fn snippet_bounds(b: Seq<u8>, found: int, klen: int, context: int) -> (int, int) {
    let sh = if found >= context { found - context } else { 0 };
    let eh = if found + klen + context < b.len() { found + klen + context } else { b.len() as int };
    let s0 = floor_bd(b, sh);
    let e0 = ceil_bd(b, eh);
    let st = match last_ws_before(b, s0) {
        Some(p) => p + 1,
        None => s0,
    };
    let en = match first_ws_from(b, e0) {
        Some(p) => p,
        None => e0,
    };
    (st, en)
}

/// Reading the snippet would overflow or slice inside a character: the
/// sum of the match position, keyword length and context overflows, or the
/// whitespace before the start is more than one byte long.
pub open spec fn snippet_panics(b: Seq<u8>, found: int, klen: int, context: int) -> bool {
    found + klen + context > usize::MAX || ({
        let sh = if found >= context { found - context } else { 0 };
        let s0 = floor_bd(b, sh);
        last_ws_before(b, s0) matches Some(p) && ws_len_at(b, p) != 1
    })
}

/// The snippet: `...` when it does not start at the beginning, the trimmed
/// text between its bounds, and `...` when it does not reach the end.
pub open spec fn snippet_text(b: Seq<u8>, found: int, klen: int, context: int) -> Seq<char> {
    let (st, en) = snippet_bounds(b, found, klen, context);
    (if st > 0 { "..."@ } else { Seq::empty() }) + trim_ws(decode_utf8(b.subrange(st, en))) + (if en < b.len() {
        "..."@
    } else {
        Seq::empty()
    })
}

proof fn lemma_floor_bd(b: Seq<u8>, i: int)
    requires
        valid_utf8(b),
    ensures
        0 <= floor_bd(b, i) <= b.len(),
        floor_bd(b, i) <= i || i <= 0,
        is_char_boundary(b, floor_bd(b, i)),
    decreases i,
{
    vstd::utf8::is_char_boundary_start_end_of_seq(b);
    if i > 0 {
        if i > b.len() {
            lemma_floor_bd(b, b.len() as int);
        } else if !is_char_boundary(b, i) {
            lemma_floor_bd(b, i - 1);
        }
    }
}

proof fn lemma_ceil_bd(b: Seq<u8>, i: int)
    requires
        valid_utf8(b),
        0 <= i,
    ensures
        i <= ceil_bd(b, i) || i > b.len(),
        ceil_bd(b, i) <= b.len(),
        is_char_boundary(b, ceil_bd(b, i)),
    decreases b.len() - i,
{
    vstd::utf8::is_char_boundary_start_end_of_seq(b);
    if i < b.len() && !is_char_boundary(b, i) {
        lemma_ceil_bd(b, i + 1);
    }
}

proof fn lemma_last_ws(b: Seq<u8>, end: int)
    ensures
        last_ws_before(b, end) matches Some(p) ==> 0 <= p < end && ws_at(b, p),
    decreases end,
{
    if end > 0 && !ws_at(b, end - 1) {
        lemma_last_ws(b, end - 1);
    }
}

proof fn lemma_first_ws(b: Seq<u8>, start: int)
    ensures
        first_ws_from(b, start) matches Some(p) ==> start <= p < b.len() && ws_at(b, p),
    decreases b.len() - start,
{
    if 0 <= start < b.len() && !ws_at(b, start) {
        lemma_first_ws(b, start + 1);
    }
}

/// A byte after a one-byte character is a character boundary.
proof fn lemma_after_ascii_boundary(b: Seq<u8>, p: int)
    requires
        valid_utf8(b),
        0 <= p < b.len(),
        is_char_boundary(b, p),
        b[p] < 0x80,
    ensures
        is_char_boundary(b, p + 1),
{
    vstd::utf8::is_char_boundary_start_end_of_seq(b);
    if p + 1 < b.len() {
        vstd::utf8::valid_utf8_split(b, p);
        let s = b.subrange(p, b.len() as int);
        assert(s[0] == b[p]);
        reveal_with_fuel(is_char_boundary, 2);
        assert(is_char_boundary(s, 1));
        vstd::utf8::is_char_boundary_iff_not_is_continuation_byte(s, 1);
        assert(s[1] == b[p + 1]);
        vstd::utf8::is_char_boundary_iff_not_is_continuation_byte(b, p + 1);
    }
}

/// A boundary of a text is a boundary of its suffix from an earlier boundary.
proof fn lemma_boundary_in_suffix(b: Seq<u8>, a: int, x: int)
    requires
        valid_utf8(b),
        0 <= a <= x <= b.len(),
        is_char_boundary(b, a),
        is_char_boundary(b, x),
    ensures
        valid_utf8(b.subrange(a, b.len() as int)),
        is_char_boundary(b.subrange(a, b.len() as int), x - a),
{
    vstd::utf8::valid_utf8_split(b, a);
    let s = b.subrange(a, b.len() as int);
    vstd::utf8::is_char_boundary_start_end_of_seq(s);
    if x < b.len() {
        vstd::utf8::is_char_boundary_iff_not_is_continuation_byte(b, x);
        vstd::utf8::is_char_boundary_iff_not_is_continuation_byte(s, x - a);
    } else {
        assert(x - a == s.len());
    }
}

/// The snippet around a match at byte `found` of a keyword of `keyword_len`
/// bytes (see `snippet_text`).
pub fn snippet_at(content: &str, found: usize, keyword_len: usize, context_chars: usize) -> (r: String)
    requires
        !snippet_panics(content.spec_bytes(), found as int, keyword_len as int, context_chars as int),
    ensures
        r@ == snippet_text(content.spec_bytes(), found as int, keyword_len as int, context_chars as int),
{
    let ghost b = content.spec_bytes();
    let n = content.as_bytes().len();
    let start_hint = if found >= context_chars { found - context_chars } else { 0 };
    let sum = found + keyword_len + context_chars;
    let end_hint = if sum < n { sum } else { n };
    let start0 = floor_char_boundary(content, start_hint);
    let end0 = ceil_char_boundary(content, end_hint);
    proof {
        lemma_floor_bd(b, start_hint as int);
        lemma_ceil_bd(b, end_hint as int);
        lemma_last_ws(b, start0 as int);
        lemma_first_ws(b, end0 as int);
    }
    let start = match find_last_ws(content, start0) {
        Some(p) => {
            proof {
                vstd::utf8::is_char_boundary_iff_is_leading_byte(b, p as int);
                lemma_after_ascii_boundary(b, p as int);
            }
            p + 1
        },
        None => start0,
    };
    let end = match find_first_ws(content, end0) {
        Some(p) => p,
        None => end0,
    };
    assert(start <= end) by {
        if end_hint < start_hint {
            assert(end_hint == n);
        }
    }
    proof {
        lemma_boundary_in_suffix(b, start as int, end as int);
    }
    let (_, rest) = content.split_at(start);
    let (mid, _) = rest.split_at(end - start);
    assert(mid.spec_bytes() =~= b.subrange(start as int, end as int));
    proof {
        vstd::utf8::encode_utf8_decode_utf8(mid@);
    }
    let trimmed_text = trim_whitespace(mid);
    let trimmed = trimmed_text.as_str();
    let mut out = if start > 0 { String::from_str("...") } else { String::new() };
    out.append(trimmed);
    if end < n {
        out.append("...");
    }
    proof {
        reveal_strlit("...");
    }
    out
}

/// The snippet's bounds take in the whole match: it starts at or before
/// the match and ends at or after it, when the match lies within the text.
pub proof fn lemma_snippet_covers_match(b: Seq<u8>, found: int, klen: int, context: int)
    requires
        valid_utf8(b),
        0 <= found,
        0 <= klen,
        0 <= context,
        found + klen <= b.len(),
    ensures
        ({
            let (st, en) = snippet_bounds(b, found, klen, context);
            st <= found && found + klen <= en && en <= b.len()
        }),
{
    let sh = if found >= context { found - context } else { 0 };
    let eh = if found + klen + context < b.len() { found + klen + context } else { b.len() as int };
    lemma_floor_bd(b, sh);
    lemma_ceil_bd(b, eh);
    lemma_last_ws(b, floor_bd(b, sh));
    lemma_first_ws(b, ceil_bd(b, eh));
}

/// `i` is where the keyword is found: the first ASCII case-insensitive
/// match when both texts are ASCII, else the first occurrence of the
/// lower-cased keyword in the lower-cased content (a byte offset in the
/// lower-cased text).
pub open spec fn found_at(content: Seq<char>, keyword: Seq<char>, i: int) -> bool {
    if is_ascii_chars(content) && is_ascii_chars(keyword) {
        window_matches_both_lower(encode_utf8(content), encode_utf8(keyword), i) && forall|k: int| 0 <= k < i
            ==> !window_matches_both_lower(encode_utf8(content), encode_utf8(keyword), k)
    } else {
        let h = encode_utf8(unicode_lowercase(content));
        let n = encode_utf8(unicode_lowercase(keyword));
        occurs_at(h, n, i) && forall|k: int| 0 <= k < i ==> !occurs_at(h, n, k)
    }
}

/// The keyword is found nowhere (see `found_at`).
pub open spec fn not_found(content: Seq<char>, keyword: Seq<char>) -> bool {
    if is_ascii_chars(content) && is_ascii_chars(keyword) {
        forall|k: int| !window_matches_both_lower(encode_utf8(content), encode_utf8(keyword), k)
    } else {
        forall|k: int| !occurs_at(encode_utf8(unicode_lowercase(content)), encode_utf8(unicode_lowercase(keyword)), k)
    }
}

/// Where the keyword is found (see `found_at`).
fn find_keyword(content: &str, keyword: &str) -> (r: Option<usize>)
    ensures
        r matches Some(i) ==> found_at(content@, keyword@, i as int),
        r is None ==> not_found(content@, keyword@),
{
    if content.is_ascii() && keyword.is_ascii() {
        assert(is_ascii_chars(content@) && is_ascii_chars(keyword@));
        match find_ascii_ignore_case(content, keyword) {
            Some(i) => {
                assert(found_at(content@, keyword@, i as int));
                Some(i)
            },
            None => {
                assert forall|k: int| !window_matches_both_lower(encode_utf8(content@), encode_utf8(keyword@), k) by {
                    assert(!window_matches_both_lower(content.spec_bytes(), keyword.spec_bytes(), k));
                }
                None
            },
        }
    } else {
        let lc = to_lowercase(content);
        let lk = to_lowercase(keyword);
        assert(!(is_ascii_chars(content@) && is_ascii_chars(keyword@)));
        let hb = lc.as_str().as_bytes();
        let nb = lk.as_str().as_bytes();
        match bytes_find(hb, nb) {
            Some(i) => {
                assert(found_at(content@, keyword@, i as int));
                Some(i)
            },
            None => {
                assert forall|k: int| !occurs_at(encode_utf8(unicode_lowercase(content@)), encode_utf8(unicode_lowercase(keyword@)), k) by {
                    assert(!occurs_at(hb@, nb@, k));
                }
                None
            },
        }
    }
}

/// What `generate_snippet` answers: `None` for an empty content or
/// keyword or a keyword not found; else the snippet around the match.
pub open spec fn snippet_result(content: Seq<char>, keyword: Seq<char>, context: int, r: Option<String>) -> bool {
    if content.len() == 0 || keyword.len() == 0 {
        r is None
    } else {
        match r {
            None => not_found(content, keyword),
            Some(s) => exists|i: int| #[trigger] found_at(content, keyword, i) && s@ == snippet_text(
                encode_utf8(content),
                i,
                encode_utf8(keyword).len() as int,
                context,
            ),
        }
    }
}

/// Making the snippet reads no character boundary wrongly and overflows
/// nothing.
pub open spec fn snippet_safe(content: Seq<char>, keyword: Seq<char>, context: int) -> bool {
    forall|i: int| #[trigger] found_at(content, keyword, i) ==> !snippet_panics(
        encode_utf8(content),
        i,
        encode_utf8(keyword).len() as int,
        context,
    )
}

/// The snippet (see `snippet_result`), or `None` where making it would
/// slice inside a character or overflow.
pub fn try_generate_snippet(content: &str, keyword: &str, context_chars: usize) -> (r: Option<Option<String>>)
    ensures
        match r {
            Some(x) => snippet_result(content@, keyword@, context_chars as int, x),
            None => !snippet_safe(content@, keyword@, context_chars as int),
        },
{
    if content.is_empty() || keyword.is_empty() {
        return Some(None);
    }
    let found = match find_keyword(content, keyword) {
        Some(f) => f,
        None => return Some(None),
    };
    let n = content.as_bytes().len();
    let klen = keyword.as_bytes().len();
    if found > usize::MAX - klen || found + klen > usize::MAX - context_chars {
        return None;
    }
    let start_hint = if found >= context_chars { found - context_chars } else { 0 };
    let start0 = floor_char_boundary(content, start_hint);
    proof {
        lemma_last_ws(content.spec_bytes(), start0 as int);
    }
    match find_last_ws(content, start0) {
        Some(p) => {
            if ws_len(content.as_bytes(), p) != 1 {
                proof {
                    lemma_last_ws(content.spec_bytes(), start0 as int);
                }
                return None;
            }
        },
        None => {},
    }
    proof {
        lemma_last_ws(content.spec_bytes(), start0 as int);
    }
    let s = snippet_at(content, found, klen, context_chars);
    Some(Some(s))
}

/// The snippet around the first match of `keyword` in `content`, with
/// about `context_chars` bytes on each side (see `snippet_result`).
pub fn generate_snippet(content: &str, keyword: &str, context_chars: usize) -> (r: Option<String>)
    requires
        snippet_safe(content@, keyword@, context_chars as int),
    ensures
        snippet_result(content@, keyword@, context_chars as int, r),
{
    match try_generate_snippet(content, keyword, context_chars) {
        Some(x) => x,
        None => None,
    }
}

} // verus!

verus! {

/// No snippet comes out for `keyword`: an empty content or keyword, or no
/// match.
pub open spec fn no_snippet(content: Seq<char>, keyword: Seq<char>) -> bool {
    content.len() == 0 || keyword.len() == 0 || not_found(content, keyword)
}

/// The snippet of the first keyword that has one, trying the keywords in
/// order (see `snippet_result`); `None` where making a snippet for a
/// keyword tried would slice inside a character or overflow.
pub fn try_first_snippet(content: &str, keywords: &[String], context_chars: usize) -> (r: Option<Option<String>>)
    ensures
        ({
            let ks = crate::models::texts(keywords@);
            match r {
                None => exists|k: int| 0 <= k < ks.len() && (forall|j: int| 0 <= j < k ==> no_snippet(content@, #[trigger] ks[j]))
                    && !snippet_safe(content@, ks[k], context_chars as int),
                Some(None) => forall|j: int| 0 <= j < ks.len() ==> no_snippet(content@, #[trigger] ks[j]),
                Some(Some(s)) => exists|k: int| 0 <= k < ks.len() && (forall|j: int| 0 <= j < k ==> no_snippet(content@, #[trigger] ks[j]))
                    && snippet_result(content@, ks[k], context_chars as int, Some(s)),
            }
        }),
{
    let ghost ks = crate::models::texts(keywords@);
    let mut i: usize = 0;
    while i < keywords.len()
        invariant
            ks == crate::models::texts(keywords@),
            i <= keywords@.len(),
            forall|j: int| 0 <= j < i ==> no_snippet(content@, #[trigger] ks[j]),
        decreases keywords@.len() - i,
    {
        assert(ks[i as int] == keywords@[i as int]@);
        match try_generate_snippet(content, keywords[i].as_str(), context_chars) {
            None => return None,
            Some(Some(s)) => return Some(Some(s)),
            Some(None) => {},
        }
        i += 1;
    }
    Some(None)
}

} // verus!
