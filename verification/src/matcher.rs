//! Scoring a document's name and path against query keywords.

use vstd::prelude::*;
use vstd::string::*;
use vstd::utf8::{encode_utf8, is_ascii_chars};
use crate::models::{FileDocument, texts};
use crate::stdx::{to_lowercase, unicode_lowercase};
use crate::text::{eq_lower, starts_with_lower, contains_lower, matches_lower_at, ascii_contains_ignore_case, ascii_starts_with_ignore_case, bytes_eq, bytes_starts_with, bytes_find, occurs_at};

verus! {

/// The byte offset of the last `.` in `b`.
pub open spec fn last_dot(b: Seq<u8>) -> Option<int>
    decreases b.len(),
{
    if b.len() == 0 {
        None
    } else if b.last() == 46u8 {
        Some(b.len() - 1)
    } else {
        last_dot(b.drop_last())
    }
}

proof fn lemma_last_dot_range(b: Seq<u8>)
    ensures
        last_dot(b) matches Some(i) ==> 0 <= i < b.len() && b[i] == 46u8,
    decreases b.len(),
{
    if b.len() > 0 && b.last() != 46u8 {
        lemma_last_dot_range(b.drop_last());
    }
}

/// A name without its last `.` and what follows it.
pub open spec fn stem_of(b: Seq<u8>) -> Seq<u8> {
    match last_dot(b) {
        Some(i) => b.subrange(0, i),
        None => b,
    }
}

/// `n` occurs somewhere in `h`, byte for byte.
pub open spec fn contains_bytes(h: Seq<u8>, n: Seq<u8>) -> bool {
    exists|k: int| occurs_at(h, n, k)
}

/// `h` begins with `p`, byte for byte.
pub open spec fn starts_with_bytes(h: Seq<u8>, p: Seq<u8>) -> bool {
    p.len() <= h.len() && h.subrange(0, p.len() as int) == p
}

/// The points of a keyword against an ASCII name: an exact name 100, an
/// exact stem 90, a name prefix 75, inside the name 50, inside the path 25,
/// else 0 (letters compared lower-cased; the keyword is taken as lower case).
pub open spec fn ascii_points(name: Seq<u8>, path: Seq<u8>, kw: Seq<u8>) -> u32 {
    if eq_lower(name, kw) {
        100
    } else if eq_lower(stem_of(name), kw) {
        90
    } else if starts_with_lower(name, kw) {
        75
    } else if contains_lower(name, kw) {
        50
    } else if contains_lower(path, kw) {
        25
    } else {
        0
    }
}

/// The same scale on lower-cased UTF-8 names, compared byte for byte.
pub open spec fn unicode_points(name_lower: Seq<u8>, path_lower: Seq<u8>, kw: Seq<u8>) -> u32 {
    if name_lower == kw {
        100
    } else if stem_of(name_lower) == kw {
        90
    } else if starts_with_bytes(name_lower, kw) {
        75
    } else if contains_bytes(name_lower, kw) {
        50
    } else if contains_bytes(path_lower, kw) {
        25
    } else {
        0
    }
}

/// The points of a keyword against a document's name and path.
pub open spec fn keyword_points(name: Seq<char>, path: Seq<char>, kw: Seq<char>) -> u32 {
    if is_ascii_chars(name) && is_ascii_chars(kw) {
        ascii_points(encode_utf8(name), encode_utf8(path), encode_utf8(kw))
    } else {
        unicode_points(encode_utf8(unicode_lowercase(name)), encode_utf8(unicode_lowercase(path)), encode_utf8(kw))
    }
}

/// A keyword that the lower-cased path holds scores at least the 25 points
/// of a path hit, whether or not the name is ASCII, and a document whose
/// only keyword it is matches with at least those points. For an ASCII
/// name and keyword the path is lower-cased letter by letter, so there the
/// path is taken to be ASCII (the premise on ASCII text is what
/// `str::to_lowercase` is documented to do, and what its wrapper states at
/// every call).
pub proof fn lemma_path_hit_scores(name: Seq<char>, path: Seq<char>, kw: Seq<char>)
    requires
        contains_bytes(encode_utf8(unicode_lowercase(path)), encode_utf8(kw)),
        is_ascii_chars(path) ==> unicode_lowercase(path) == crate::text::ascii_lower_chars(path),
        is_ascii_chars(path) || !(is_ascii_chars(name) && is_ascii_chars(kw)),
    ensures
        keyword_points(name, path, kw) >= 25,
        match_of(name, path, seq![kw]).matched,
        match_of(name, path, seq![kw]).total >= 25,
        match_of(name, path, seq![kw]).count == 1,
{
    if is_ascii_chars(name) && is_ascii_chars(kw) {
        crate::text::lemma_ascii_lower_encode(path);
        crate::text::lemma_contains_lower_bytes(encode_utf8(path), encode_utf8(kw));
    }
    let kws = seq![kw];
    assert(kws[0] == kw);
    assert(points_sum(name, path, kws, 1) == points_sum(name, path, kws, 0) + keyword_points(name, path, kw));
}

/// The points say where the keyword was found in the lower-cased name and
/// path: the whole name gives 100, a name prefix at least 75, anywhere in
/// the name at least 50, anywhere in the path at least 25, and a keyword
/// found in neither scores 0; points never exceed 100. For an ASCII name and
/// keyword the path is lower-cased letter by letter, so the path clauses
/// take the path to be ASCII there. The premises on ASCII text are what
/// `str::to_lowercase` is documented to do.
pub proof fn lemma_points_by_place(name: Seq<char>, path: Seq<char>, kw: Seq<char>)
    requires
        is_ascii_chars(name) ==> unicode_lowercase(name) == crate::text::ascii_lower_chars(name),
        is_ascii_chars(path) ==> unicode_lowercase(path) == crate::text::ascii_lower_chars(path),
    ensures
        ({
            let nl = encode_utf8(unicode_lowercase(name));
            let pl = encode_utf8(unicode_lowercase(path));
            let k = encode_utf8(kw);
            let pts = keyword_points(name, path, kw);
            &&& pts <= 100
            &&& nl == k ==> pts == 100
            &&& starts_with_bytes(nl, k) ==> pts >= 75
            &&& contains_bytes(nl, k) ==> pts >= 50
            &&& (is_ascii_chars(path) || !(is_ascii_chars(name) && is_ascii_chars(kw))) ==> (contains_bytes(pl, k)
                ==> pts >= 25)
            &&& (is_ascii_chars(path) || !(is_ascii_chars(name) && is_ascii_chars(kw))) ==> (pts > 0
                ==> contains_bytes(nl, k) || contains_bytes(pl, k))
        }),
{
    let nl = encode_utf8(unicode_lowercase(name));
    let pl = encode_utf8(unicode_lowercase(path));
    let k = encode_utf8(kw);
    let nb = encode_utf8(name);
    let pb = encode_utf8(path);
    lemma_last_dot_range(nl);
    if nl == k {
        assert(nl.subrange(0, k.len() as int) =~= nl);
        assert(occurs_at(nl, k, 0));
    }
    if starts_with_bytes(nl, k) {
        assert(occurs_at(nl, k, 0));
    }
    if stem_of(nl) == k {
        assert(nl.subrange(0, k.len() as int) == k);
        assert(occurs_at(nl, k, 0));
    }
    if is_ascii_chars(name) && is_ascii_chars(kw) {
        crate::text::lemma_ascii_lower_encode(name);
        crate::text::lemma_eq_lower_bytes(nb, k);
        crate::text::lemma_starts_lower_bytes(nb, k);
        crate::text::lemma_contains_lower_bytes(nb, k);
        lemma_last_dot_range(nb);
        if crate::text::eq_lower(stem_of(nb), k) {
            crate::text::lemma_eq_lower_bytes(stem_of(nb), k);
            assert(nl.subrange(0, k.len() as int) =~= k) by {
                assert forall|t: int| 0 <= t < k.len() implies nl[t] == k[t] by {
                    assert(crate::text::lower_bytes(stem_of(nb))[t] == k[t]);
                    assert(stem_of(nb)[t] == nb[t]);
                }
            }
            assert(occurs_at(nl, k, 0));
        }
        if starts_with_bytes(nl, k) {
            assert(crate::text::starts_with_lower(nb, k));
        }
        if is_ascii_chars(path) {
            crate::text::lemma_ascii_lower_encode(path);
            crate::text::lemma_contains_lower_bytes(pb, k);
        }
    }
}

/// Whatever the name, a keyword's points never exceed 100, and a keyword
/// that the lower-cased name holds (a non-ASCII name or keyword) scores at
/// least the 50 points of a name hit.
pub proof fn lemma_name_hit_scores(name: Seq<char>, path: Seq<char>, kw: Seq<char>)
    ensures
        keyword_points(name, path, kw) <= 100,
        !(is_ascii_chars(name) && is_ascii_chars(kw)) && contains_bytes(encode_utf8(unicode_lowercase(name)),
            encode_utf8(kw)) ==> keyword_points(name, path, kw) >= 50,
{
    let nl = encode_utf8(unicode_lowercase(name));
    let kb = encode_utf8(kw);
    if !(is_ascii_chars(name) && is_ascii_chars(kw)) && contains_bytes(nl, kb) {
        if starts_with_bytes(nl, kb) {
        } else if stem_of(nl) == kb {
        } else if nl == kb {
        }
    }
}

/// The offset of the last `.` in `b`.
fn find_last_dot(b: &[u8]) -> (r: Option<usize>)
    ensures
        match r {
            Some(i) => last_dot(b@) == Some(i as int),
            None => last_dot(b@) is None,
        },
{
    let mut j: usize = b.len();
    assert(b@.subrange(0, j as int) =~= b@);
    while j > 0
        invariant
            j <= b@.len(),
            last_dot(b@) == last_dot(b@.subrange(0, j as int)),
        decreases j,
    {
        assert(b@.subrange(0, j as int).drop_last() =~= b@.subrange(0, j - 1));
        if b[j - 1] == 46u8 {
            return Some(j - 1);
        }
        j -= 1;
    }
    None
}

/// Whether `a` equals `b` once `a`'s ASCII letters are lower-cased.
fn bytes_eq_lower(a: &[u8], b: &[u8]) -> (r: bool)
    ensures
        r == eq_lower(a@, b@),
{
    if a.len() != b.len() {
        return false;
    }
    matches_lower_at(a, b, 0)
}

/// The bytes of a name without its extension.
fn stem_bytes(b: &[u8]) -> (r: &[u8])
    ensures
        r@ == stem_of(b@),
{
    proof {
        lemma_last_dot_range(b@);
    }
    match find_last_dot(b) {
        Some(i) => &b[0..i],
        None => b,
    }
}

/// Scores an ASCII name and its path (see `ascii_points`).
pub fn score_keyword_ascii(name: &str, path: &str, keyword_lower: &str) -> (r: u32)
    ensures
        r == ascii_points(name.spec_bytes(), path.spec_bytes(), keyword_lower.spec_bytes()),
{
    let nb = name.as_bytes();
    let kb = keyword_lower.as_bytes();
    if bytes_eq_lower(nb, kb) {
        return 100;
    }
    if bytes_eq_lower(stem_bytes(nb), kb) {
        return 90;
    }
    if ascii_starts_with_ignore_case(name, keyword_lower) {
        return 75;
    }
    if ascii_contains_ignore_case(name, keyword_lower) {
        return 50;
    }
    if ascii_contains_ignore_case(path, keyword_lower) {
        return 25;
    }
    0
}

/// Whether `n` occurs in `h`.
fn bytes_contains(h: &[u8], n: &[u8]) -> (r: bool)
    ensures
        r == contains_bytes(h@, n@),
{
    match bytes_find(h, n) {
        Some(i) => true,
        None => false,
    }
}

/// Scores a keyword against a document (see `keyword_points`).
pub fn score_keyword(doc: &FileDocument, keyword: &str) -> (r: u32)
    ensures
        r == keyword_points(doc.name@, doc.path@, keyword@),
{
    let name = doc.name.as_str();
    let path = doc.path.as_str();
    if name.is_ascii() && keyword.is_ascii() {
        return score_keyword_ascii(name, path, keyword);
    }
    let name_lower = to_lowercase(name);
    let path_lower = to_lowercase(path);
    let nb = name_lower.as_str().as_bytes();
    let pb = path_lower.as_str().as_bytes();
    let kb = keyword.as_bytes();
    if bytes_eq(nb, kb) {
        return 100;
    }
    if bytes_eq(stem_bytes(nb), kb) {
        return 90;
    }
    if bytes_starts_with(nb, kb) {
        return 75;
    }
    if bytes_contains(nb, kb) {
        return 50;
    }
    if bytes_contains(pb, kb) {
        return 25;
    }
    0
}

/// Whether a document matched every keyword, the sum of its points and
/// the number of keywords: its score is the sum over the count, and 1
/// when there are no keywords.
#[derive(Clone, Copy, Debug)]
pub struct MatchResult {
    pub matched: bool,
    pub total: u128,
    pub count: u64,
}

/// The summed points of the first `i` keywords.
pub open spec fn points_sum(name: Seq<char>, path: Seq<char>, kws: Seq<Seq<char>>, i: int) -> int
    decreases i,
{
    if i <= 0 {
        0
    } else {
        points_sum(name, path, kws, i - 1) + keyword_points(name, path, kws[i - 1])
    }
}

/// Every keyword scores above 0.
pub open spec fn all_keywords_hit(name: Seq<char>, path: Seq<char>, kws: Seq<Seq<char>>) -> bool {
    forall|k: int| 0 <= k < kws.len() ==> keyword_points(name, path, #[trigger] kws[k]) > 0
}

proof fn lemma_points_sum_bound(name: Seq<char>, path: Seq<char>, kws: Seq<Seq<char>>, i: int)
    requires
        0 <= i <= kws.len(),
    ensures
        0 <= points_sum(name, path, kws, i) <= 100 * i,
    decreases i,
{
    if i > 0 {
        lemma_points_sum_bound(name, path, kws, i - 1);
    }
}

/// The result of matching a document against keywords (see
/// `match_document`).
pub open spec fn match_of(name: Seq<char>, path: Seq<char>, kws: Seq<Seq<char>>) -> MatchResult {
    let hit = all_keywords_hit(name, path, kws);
    MatchResult {
        matched: hit,
        total: if hit { points_sum(name, path, kws, kws.len() as int) as u128 } else { 0 },
        count: kws.len() as u64,
    }
}

/// Matches a document against all keywords: it matches when every
/// keyword scores, and then its total is the sum of the points.
pub fn match_document(doc: &FileDocument, keywords: &[String]) -> (r: MatchResult)
    ensures
        r.count == keywords@.len(),
        r.matched == all_keywords_hit(doc.name@, doc.path@, texts(keywords@)),
        r.matched ==> r.total == points_sum(doc.name@, doc.path@, texts(keywords@), keywords@.len() as int),
        !r.matched ==> r.total == 0,
        r == match_of(doc.name@, doc.path@, texts(keywords@)),
{
    let ghost kws = texts(keywords@);
    let n = keywords.len();
    let mut total: u128 = 0;
    let mut i: usize = 0;
    while i < n
        invariant
            n == keywords@.len(),
            kws == texts(keywords@),
            i <= n,
            total == points_sum(doc.name@, doc.path@, kws, i as int),
            forall|k: int| 0 <= k < i ==> keyword_points(doc.name@, doc.path@, #[trigger] kws[k]) > 0,
        decreases n - i,
    {
        let s = score_keyword(doc, keywords[i].as_str());
        assert(kws[i as int] == keywords@[i as int]@);
        if s == 0 {
            return MatchResult { matched: false, total: 0, count: n as u64 };
        }
        proof {
            lemma_points_sum_bound(doc.name@, doc.path@, kws, i as int);
        }
        total = total + s as u128;
        i += 1;
    }
    MatchResult { matched: true, total, count: n as u64 }
}

} // verus!
