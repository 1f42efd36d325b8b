//! Byte-level, ASCII case-insensitive string helpers.

use vstd::prelude::*;
use vstd::string::StringSliceAdditionalSpecFns;
use vstd::string::is_ascii;
use vstd::utf8::is_char_boundary;
use crate::stdx::{to_lowercase, push_char, unicode_lowercase};

verus! {

/// ASCII lower-casing of one byte: `A`..`Z` become `a`..`z`, every other byte is kept.
pub open spec fn lower_byte(b: u8) -> u8 {
    if 65 <= b && b <= 90 {
        (b + 32) as u8
    } else {
        b
    }
}

/// ASCII lower-casing of a byte sequence.
pub open spec fn lower_bytes(s: Seq<u8>) -> Seq<u8> {
    s.map_values(|b: u8| lower_byte(b))
}

/// The `n.len()` bytes of `h` that start at `i`, lower-cased, are exactly `n`.
pub open spec fn window_matches_lower(h: Seq<u8>, n: Seq<u8>, i: int) -> bool {
    &&& 0 <= i
    &&& i + n.len() <= h.len()
    &&& forall|t: int| 0 <= t < n.len() ==> lower_byte(h[i + t]) == #[trigger] n[t]
}

/// `h` holds `n` somewhere, comparing `h` ASCII case-insensitively.
pub open spec fn contains_lower(h: Seq<u8>, n: Seq<u8>) -> bool {
    exists|i: int| window_matches_lower(h, n, i)
}

/// Lower-cases one ASCII letter byte; other bytes are kept.
pub fn to_lower_byte(b: u8) -> (r: u8)
    ensures
        r == lower_byte(b),
{
    if b >= 65 && b <= 90 {
        b + 32
    } else {
        b
    }
}

/// Whether the window of `h` at `i` matches `n` ASCII case-insensitively.
pub fn matches_lower_at(h: &[u8], n: &[u8], i: usize) -> (r: bool)
    requires
        i + n@.len() <= h@.len(),
    ensures
        r == window_matches_lower(h@, n@, i as int),
{
    let hl = h.len();
    let mut j: usize = 0;
    while j < n.len()
        invariant
            hl == h@.len(),
            i + n@.len() <= h@.len(),
            j <= n@.len(),
            forall|t: int| 0 <= t < j ==> lower_byte(h@[i + t]) == #[trigger] n@[t],
        decreases n@.len() - j,
    {
        if to_lower_byte(h[i + j]) != n[j] {
            assert(!window_matches_lower(h@, n@, i as int)) by {
                assert(lower_byte(h@[i + j as int]) != n@[j as int]);
            }
            return false;
        }
        j += 1;
    }
    true
}

/// Whether the bytes of `haystack`, ASCII-lower-cased, contain the bytes of
/// `needle_lower` (which is expected to be lower-case already).
pub fn ascii_contains_ignore_case(haystack: &str, needle_lower: &str) -> (r: bool)
    ensures
        r == contains_lower(haystack.spec_bytes(), needle_lower.spec_bytes()),
{
    let h = haystack.as_bytes();
    let n = needle_lower.as_bytes();
    if n.len() == 0 {
        assert(window_matches_lower(h@, n@, 0));
        return true;
    }
    if n.len() > h.len() {
        return false;
    }
    let limit = h.len() - n.len();
    let mut i: usize = 0;
    while i <= limit
        invariant
            h@ == haystack.spec_bytes(),
            n@ == needle_lower.spec_bytes(),
            limit == h@.len() - n@.len(),
            1 <= n@.len() <= h@.len(),
            h@.len() <= usize::MAX,
            i <= limit + 1,
            forall|k: int| 0 <= k < i ==> !window_matches_lower(h@, n@, k),
        decreases limit + 1 - i,
    {
        if matches_lower_at(h, n, i) {
            return true;
        }
        i += 1;
    }
    false
}

} // verus!

verus! {

/// Byte-wise equality of `a`, ASCII-lower-cased, with `b`.
pub open spec fn eq_lower(a: Seq<u8>, b: Seq<u8>) -> bool {
    a.len() == b.len() && window_matches_lower(a, b, 0)
}

/// `h` starts with `p` when `h` is ASCII-lower-cased.
pub open spec fn starts_with_lower(h: Seq<u8>, p: Seq<u8>) -> bool {
    p.len() <= h.len() && window_matches_lower(h, p, 0)
}

/// Whether `a`, ASCII-lower-cased, equals `b_lower` byte for byte.
pub fn ascii_eq_ignore_case(a: &str, b_lower: &str) -> (r: bool)
    ensures
        r == eq_lower(a.spec_bytes(), b_lower.spec_bytes()),
{
    let ab = a.as_bytes();
    let bb = b_lower.as_bytes();
    if ab.len() != bb.len() {
        return false;
    }
    matches_lower_at(ab, bb, 0)
}

/// Whether `haystack`, ASCII-lower-cased, starts with `prefix_lower`.
pub fn ascii_starts_with_ignore_case(haystack: &str, prefix_lower: &str) -> (r: bool)
    ensures
        r == starts_with_lower(haystack.spec_bytes(), prefix_lower.spec_bytes()),
{
    let h = haystack.as_bytes();
    let p = prefix_lower.as_bytes();
    if p.len() > h.len() {
        return false;
    }
    matches_lower_at(h, p, 0)
}

/// The window of `h` at `i` equals `n` when both are ASCII-lower-cased.
pub open spec fn window_matches_both_lower(h: Seq<u8>, n: Seq<u8>, i: int) -> bool {
    &&& 0 <= i
    &&& i + n.len() <= h.len()
    &&& forall|t: int| 0 <= t < n.len() ==> lower_byte(h[i + t]) == lower_byte(#[trigger] n[t])
}

fn matches_both_lower_at(h: &[u8], n: &[u8], i: usize) -> (r: bool)
    requires
        i + n@.len() <= h@.len(),
    ensures
        r == window_matches_both_lower(h@, n@, i as int),
{
    let hl = h.len();
    let mut j: usize = 0;
    while j < n.len()
        invariant
            hl == h@.len(),
            i + n@.len() <= h@.len(),
            j <= n@.len(),
            forall|t: int| 0 <= t < j ==> lower_byte(h@[i + t]) == lower_byte(#[trigger] n@[t]),
        decreases n@.len() - j,
    {
        if to_lower_byte(h[i + j]) != to_lower_byte(n[j]) {
            assert(!window_matches_both_lower(h@, n@, i as int)) by {
                assert(lower_byte(h@[i + j as int]) != lower_byte(n@[j as int]));
            }
            return false;
        }
        j += 1;
    }
    true
}

/// The byte offset of the first ASCII case-insensitive occurrence of
/// `needle` in `haystack`; `Some(0)` for an empty needle.
pub fn find_ascii_ignore_case(haystack: &str, needle: &str) -> (r: Option<usize>)
    ensures
        match r {
            Some(i) => window_matches_both_lower(haystack.spec_bytes(), needle.spec_bytes(), i as int)
                && forall|k: int| 0 <= k < i ==> !window_matches_both_lower(
                    haystack.spec_bytes(), needle.spec_bytes(), k),
            None => forall|k: int| !window_matches_both_lower(
                haystack.spec_bytes(), needle.spec_bytes(), k),
        },
{
    let h = haystack.as_bytes();
    let n = needle.as_bytes();
    if n.len() == 0 {
        assert(window_matches_both_lower(h@, n@, 0));
        return Some(0);
    }
    if n.len() > h.len() {
        return None;
    }
    let limit = h.len() - n.len();
    let mut i: usize = 0;
    while i <= limit
        invariant
            h@ == haystack.spec_bytes(),
            n@ == needle.spec_bytes(),
            limit == h@.len() - n@.len(),
            1 <= n@.len() <= h@.len(),
            h@.len() <= usize::MAX,
            i <= limit + 1,
            forall|k: int| 0 <= k < i ==> !window_matches_both_lower(h@, n@, k),
        decreases limit + 1 - i,
    {
        if matches_both_lower_at(h, n, i) {
            return Some(i);
        }
        i += 1;
    }
    None
}

} // verus!

verus! {

/// ASCII lower-casing of one character.
pub open spec fn lower_char(c: char) -> char {
    if 'A' <= c && c <= 'Z' {
        ((c as u32) + 32) as char
    } else {
        c
    }
}

/// ASCII text lower-cased character by character encodes as its bytes
/// lower-cased.
pub proof fn lemma_ascii_lower_encode(s: Seq<char>)
    requires
        vstd::utf8::is_ascii_chars(s),
    ensures
        vstd::utf8::is_ascii_chars(s.map_values(|c: char| lower_char(c))),
        vstd::utf8::encode_utf8(s.map_values(|c: char| lower_char(c))) == lower_bytes(vstd::utf8::encode_utf8(s)),
{
    let l = s.map_values(|c: char| lower_char(c));
    assert forall|i: int| 0 <= i < l.len() implies '\0' <= #[trigger] l[i] <= '\u{7f}' by {
        assert(l[i] == lower_char(s[i]));
        assert('\0' <= s[i] <= '\u{7f}');
    }
    vstd::utf8::is_ascii_chars_encode_utf8(s);
    vstd::utf8::is_ascii_chars_encode_utf8(l);
    let a = vstd::utf8::encode_utf8(l);
    let b = lower_bytes(vstd::utf8::encode_utf8(s));
    assert forall|i: int| 0 <= i < a.len() implies a[i] == b[i] by {
        assert(l[i] == lower_char(s[i]));
        assert(l[i] as u8 == a[i]);
        assert(s[i] as u8 == vstd::utf8::encode_utf8(s)[i]);
        assert('\0' <= s[i] <= '\u{7f}');
    }
    assert(a =~= b);
}

/// Holding `n` once ASCII-lower-cased is holding it, byte for byte, in the
/// lower-cased bytes.
pub proof fn lemma_contains_lower_bytes(h: Seq<u8>, n: Seq<u8>)
    ensures
        contains_lower(h, n) <==> exists|k: int| occurs_at(lower_bytes(h), n, k),
{
    if contains_lower(h, n) {
        let i = choose|i: int| window_matches_lower(h, n, i);
        assert(lower_bytes(h).subrange(i, i + n.len()) =~= n);
        assert(occurs_at(lower_bytes(h), n, i));
    }
    if exists|k: int| occurs_at(lower_bytes(h), n, k) {
        let k = choose|k: int| occurs_at(lower_bytes(h), n, k);
        assert forall|t: int| 0 <= t < n.len() implies lower_byte(h[k + t]) == #[trigger] n[t] by {
            assert(lower_bytes(h).subrange(k, k + n.len())[t] == n[t]);
        }
        assert(window_matches_lower(h, n, k));
    }
}

/// Equal once ASCII-lower-cased means the lower-cased bytes are equal.
pub proof fn lemma_eq_lower_bytes(a: Seq<u8>, b: Seq<u8>)
    ensures
        eq_lower(a, b) <==> lower_bytes(a) == b,
{
    if eq_lower(a, b) {
        assert forall|t: int| 0 <= t < b.len() implies lower_bytes(a)[t] == b[t] by {
            assert(lower_byte(a[0 + t]) == b[t]);
        }
        assert(lower_bytes(a) =~= b);
    }
    if lower_bytes(a) == b {
        assert forall|t: int| 0 <= t < b.len() implies lower_byte(a[0 + t]) == #[trigger] b[t] by {
            assert(lower_bytes(a)[t] == b[t]);
        }
    }
}

/// Starting with a prefix once ASCII-lower-cased means the lower-cased
/// bytes start with it.
pub proof fn lemma_starts_lower_bytes(a: Seq<u8>, b: Seq<u8>)
    ensures
        starts_with_lower(a, b) <==> (b.len() <= a.len() && lower_bytes(a).subrange(0, b.len() as int) == b),
{
    if starts_with_lower(a, b) {
        assert forall|t: int| 0 <= t < b.len() implies lower_bytes(a).subrange(0, b.len() as int)[t] == b[t] by {
            assert(lower_byte(a[0 + t]) == b[t]);
        }
        assert(lower_bytes(a).subrange(0, b.len() as int) =~= b);
    }
    if b.len() <= a.len() && lower_bytes(a).subrange(0, b.len() as int) == b {
        assert forall|t: int| 0 <= t < b.len() implies lower_byte(a[0 + t]) == #[trigger] b[t] by {
            assert(lower_bytes(a).subrange(0, b.len() as int)[t] == b[t]);
        }
    }
}

/// The characters of a string, in order.
pub fn chars_of(s: &str) -> (v: Vec<char>)
    ensures
        v@ == s@,
{
    let mut v: Vec<char> = Vec::new();
    for c in it: s.chars()
        invariant
            v@ == it.seq().take(it.index()),
    {
        v.push(c);
    }
    v
}

} // verus!

verus! {

/// Whether two byte slices are equal.
pub fn bytes_eq(a: &[u8], b: &[u8]) -> (r: bool)
    ensures
        r == (a@ == b@),
{
    if a.len() != b.len() {
        return false;
    }
    let mut i: usize = 0;
    while i < a.len()
        invariant
            a@.len() == b@.len(),
            i <= a@.len(),
            forall|k: int| 0 <= k < i ==> a@[k] == b@[k],
        decreases a@.len() - i,
    {
        if a[i] != b[i] {
            return false;
        }
        i += 1;
    }
    assert(a@ =~= b@);
    true
}

/// Whether `h` begins with `p`, byte for byte.
pub fn bytes_starts_with(h: &[u8], p: &[u8]) -> (r: bool)
    ensures
        r == (p@.len() <= h@.len() && h@.subrange(0, p@.len() as int) == p@),
{
    if p.len() > h.len() {
        return false;
    }
    bytes_eq(&h[0..p.len()], p)
}

/// Whether `h` ends with `s`, byte for byte.
pub fn bytes_ends_with(h: &[u8], s: &[u8]) -> (r: bool)
    ensures
        r == (s@.len() <= h@.len() && h@.subrange(h@.len() - s@.len(), h@.len() as int) == s@),
{
    if s.len() > h.len() {
        return false;
    }
    bytes_eq(&h[h.len() - s.len()..h.len()], s)
}

/// `n` occurs in `h` at byte offset `i`.
pub open spec fn occurs_at(h: Seq<u8>, n: Seq<u8>, i: int) -> bool {
    0 <= i && i + n.len() <= h.len() && h.subrange(i, i + n.len()) == n
}

/// The byte offset of the first occurrence of `n` in `h`.
pub fn bytes_find(h: &[u8], n: &[u8]) -> (r: Option<usize>)
    ensures
        match r {
            Some(i) => occurs_at(h@, n@, i as int) && forall|k: int| 0 <= k < i ==> !occurs_at(h@, n@, k),
            None => forall|k: int| !occurs_at(h@, n@, k),
        },
{
    if n.len() > h.len() {
        return None;
    }
    let limit = h.len() - n.len();
    let mut i: usize = 0;
    while i <= limit
        invariant
            limit == h@.len() - n@.len(),
            n@.len() <= h@.len(),
            h@.len() <= usize::MAX,
            i <= limit + 1,
            forall|k: int| 0 <= k < i ==> !occurs_at(h@, n@, k),
        decreases limit + 1 - i,
    {
        if bytes_eq(&h[i..i + n.len()], n) {
            return Some(i);
        }
        if i == limit {
            return None;
        }
        i += 1;
    }
    None
}

/// Byte-wise `a` and `b` agree after ASCII lower-casing both.
pub open spec fn eq_both_lower(a: Seq<u8>, b: Seq<u8>) -> bool {
    a.len() == b.len() && window_matches_both_lower(a, b, 0)
}

/// What `strip_prefix_ci` needs: slicing `s` after as many bytes as `prefix`
/// has is allowed.
pub open spec fn prefix_cut_ok(s: &str, prefix: &str) -> bool {
    s.spec_bytes().len() >= prefix.spec_bytes().len() ==> is_char_boundary(
        s.spec_bytes(),
        prefix.spec_bytes().len() as int,
    )
}

/// The rest of `s` after `prefix`, when `s` starts with `prefix` ASCII
/// case-insensitively.
pub fn strip_prefix_ci<'a>(s: &'a str, prefix: &str) -> (r: Option<&'a str>)
    requires
        prefix_cut_ok(s, prefix),
    ensures
        match r {
            Some(rest) => s.spec_bytes().len() >= prefix.spec_bytes().len() && eq_both_lower(
                s.spec_bytes().subrange(0, prefix.spec_bytes().len() as int),
                prefix.spec_bytes(),
            ) && rest.spec_bytes() == s.spec_bytes().subrange(
                prefix.spec_bytes().len() as int,
                s.spec_bytes().len() as int,
            ),
            None => !(s.spec_bytes().len() >= prefix.spec_bytes().len() && eq_both_lower(
                s.spec_bytes().subrange(0, prefix.spec_bytes().len() as int),
                prefix.spec_bytes(),
            )),
        },
{
    let sb = s.as_bytes();
    let pb = prefix.as_bytes();
    if sb.len() < pb.len() {
        return None;
    }
    let (head, rest) = s.split_at(pb.len());
    let hb = head.as_bytes();
    if hb.len() == pb.len() && matches_both_lower_at(hb, pb, 0) {
        Some(rest)
    } else {
        None
    }
}

/// The meaning of an exclusion pattern: `*` matches every name, `*x` the
/// names that end with `x`, `x*` the names that begin with `x`, anything
/// else only the name equal to it (all byte-wise).
pub open spec fn pattern_matches(name: Seq<u8>, pattern: Seq<u8>) -> bool {
    if pattern =~= seq![42u8] {
        true
    } else if pattern.len() >= 1 && pattern[0] == 42u8 {
        let suffix = pattern.subrange(1, pattern.len() as int);
        suffix.len() <= name.len() && name.subrange(name.len() - suffix.len(), name.len() as int)
            == suffix
    } else if pattern.len() >= 1 && pattern[pattern.len() - 1] == 42u8 {
        let prefix = pattern.subrange(0, pattern.len() - 1);
        prefix.len() <= name.len() && name.subrange(0, prefix.len() as int) == prefix
    } else {
        name == pattern
    }
}

/// Whether `name` matches the glob-like `pattern` (see `pattern_matches`).
pub fn matches_pattern(name: &str, pattern: &str) -> (r: bool)
    ensures
        r == pattern_matches(name.spec_bytes(), pattern.spec_bytes()),
{
    let nb = name.as_bytes();
    let pb = pattern.as_bytes();
    let pl = pb.len();
    if pl == 1 && pb[0] == 42u8 {
        assert(pb@ =~= seq![42u8]);
        return true;
    }
    assert(!(pb@ =~= seq![42u8]) ==> !(pl == 1 && pb@[0] == 42u8));
    if pl >= 1 && pb[0] == 42u8 {
        return bytes_ends_with(nb, &pb[1..pl]);
    }
    if pl >= 1 && pb[pl - 1] == 42u8 {
        return bytes_starts_with(nb, &pb[0..pl - 1]);
    }
    bytes_eq(nb, pb)
}

/// Lower-cases one ASCII letter; other characters are kept.
pub fn to_lower_char(c: char) -> (r: char)
    ensures
        r == lower_char(c),
{
    if 'A' <= c && c <= 'Z' {
        let b = c as u8;
        (b + 32) as char
    } else {
        c
    }
}

/// Lower-cases a string: ASCII letter by letter for an ASCII string, by the
/// Unicode mapping otherwise.
pub fn normalize_string(s: &str) -> (r: String)
    ensures
        is_ascii(s) ==> r@ == s@.map_values(|c: char| lower_char(c)),
        !is_ascii(s) ==> r@ == unicode_lowercase(s@),
{
    if s.is_ascii() {
        let chars = chars_of(s);
        let mut out = String::new();
        let mut i: usize = 0;
        while i < chars.len()
            invariant
                chars@ == s@,
                i <= chars@.len(),
                out@ == chars@.subrange(0, i as int).map_values(|c: char| lower_char(c)),
            decreases chars@.len() - i,
        {
            let c = to_lower_char(chars[i]);
            push_char(&mut out, c);
            i += 1;
            assert(out@ =~= chars@.subrange(0, i as int).map_values(|c: char| lower_char(c)));
        }
        assert(chars@.subrange(0, chars@.len() as int) =~= chars@);
        out
    } else {
        to_lowercase(s)
    }
}

} // verus!

verus! {

/// Lexicographic three-way comparison of byte sequences as -1, 0 or 1: the
/// first differing byte decides, and a proper prefix comes first.
pub open spec fn lex_sign(a: Seq<u8>, b: Seq<u8>) -> int
    decreases a.len(),
{
    if a.len() == 0 {
        if b.len() == 0 {
            0
        } else {
            -1
        }
    } else if b.len() == 0 {
        1
    } else if a[0] < b[0] {
        -1
    } else if a[0] > b[0] {
        1
    } else {
        lex_sign(a.drop_first(), b.drop_first())
    }
}

proof fn lemma_lex_sign_skip(a: Seq<u8>, b: Seq<u8>, k: int)
    requires
        0 <= k <= a.len(),
        k <= b.len(),
        forall|j: int| 0 <= j < k ==> a[j] == b[j],
    ensures
        lex_sign(a, b) == lex_sign(a.skip(k), b.skip(k)),
    decreases k,
{
    if k > 0 {
        lemma_lex_sign_skip(a.drop_first(), b.drop_first(), k - 1);
        assert(a.drop_first().skip(k - 1) =~= a.skip(k));
        assert(b.drop_first().skip(k - 1) =~= b.skip(k));
    } else {
        assert(a.skip(0) =~= a);
        assert(b.skip(0) =~= b);
    }
}

/// Compares `a` and `b` byte-wise after ASCII lower-casing both, as -1, 0 or 1.
pub fn ascii_order_sign(a: &str, b: &str) -> (r: i8)
    ensures
        r == lex_sign(lower_bytes(a.spec_bytes()), lower_bytes(b.spec_bytes())),
        -1 <= r <= 1,
{
    let ab = a.as_bytes();
    let bb = b.as_bytes();
    let min_len = if ab.len() < bb.len() { ab.len() } else { bb.len() };
    let ghost la = lower_bytes(ab@);
    let ghost lb = lower_bytes(bb@);
    let mut i: usize = 0;
    while i < min_len
        invariant
            ab@ == a.spec_bytes(),
            bb@ == b.spec_bytes(),
            la == lower_bytes(ab@),
            lb == lower_bytes(bb@),
            min_len <= ab@.len(),
            min_len <= bb@.len(),
            min_len == ab@.len() || min_len == bb@.len(),
            i <= min_len,
            forall|j: int| 0 <= j < i ==> la[j] == lb[j],
        decreases min_len - i,
    {
        let x = to_lower_byte(ab[i]);
        let y = to_lower_byte(bb[i]);
        assert(la[i as int] == x && lb[i as int] == y);
        if x != y {
            proof {
                lemma_lex_sign_skip(la, lb, i as int);
                assert(la.len() == ab@.len() && lb.len() == bb@.len());
                assert(la.skip(i as int).len() > 0 && lb.skip(i as int).len() > 0);
                assert(la.skip(i as int)[0] == x);
                assert(lb.skip(i as int)[0] == y);
            }
            return if x < y { -1 } else { 1 };
        }
        i += 1;
    }
    proof {
        lemma_lex_sign_skip(la, lb, i as int);
        assert(la.skip(i as int).len() == ab@.len() - i);
        assert(lb.skip(i as int).len() == bb@.len() - i);
    }
    if ab.len() < bb.len() {
        -1
    } else if ab.len() == bb.len() {
        0
    } else {
        1
    }
}

} // verus!

verus! {

/// ASCII lower-casing of a character sequence.
pub open spec fn ascii_lower_chars(s: Seq<char>) -> Seq<char> {
    s.map_values(|c: char| lower_char(c))
}

/// The string with its ASCII letters lower-cased, every other character kept.
pub fn ascii_lowercase(s: &str) -> (r: String)
    ensures
        r@ == ascii_lower_chars(s@),
{
    let chars = chars_of(s);
    let mut out = String::new();
    let mut i: usize = 0;
    while i < chars.len()
        invariant
            chars@ == s@,
            i <= chars@.len(),
            out@ == chars@.subrange(0, i as int).map_values(|c: char| lower_char(c)),
        decreases chars@.len() - i,
    {
        let c = to_lower_char(chars[i]);
        push_char(&mut out, c);
        i += 1;
        assert(out@ =~= chars@.subrange(0, i as int).map_values(|c: char| lower_char(c)));
    }
    assert(chars@.subrange(0, chars@.len() as int) =~= chars@);
    out
}

} // verus!

verus! {

/// Whether two texts are equal.
pub fn str_eq(a: &str, b: &str) -> (r: bool)
    ensures
        r == (a@ == b@),
{
    let r = bytes_eq(a.as_bytes(), b.as_bytes());
    proof {
        vstd::utf8::encode_utf8_decode_utf8(a@);
        vstd::utf8::encode_utf8_decode_utf8(b@);
    }
    r
}

} // verus!

verus! {

/// Whether two texts are equal once ASCII letters are lower-cased in both,
/// compared byte for byte.
pub fn eq_ignore_ascii_case(a: &str, b: &str) -> (r: bool)
    ensures
        r == eq_both_lower(a.spec_bytes(), b.spec_bytes()),
{
    let ab = a.as_bytes();
    let bb = b.as_bytes();
    if ab.len() != bb.len() {
        return false;
    }
    matches_both_lower_at(ab, bb, 0)
}

} // verus!

verus! {

/// The string of characters `v[from..to]`.
pub fn string_of_chars(v: &Vec<char>, from: usize, to: usize) -> (r: String)
    requires
        from <= to <= v@.len(),
    ensures
        r@ == v@.subrange(from as int, to as int),
{
    let mut out = String::new();
    let mut i: usize = from;
    while i < to
        invariant
            from <= i <= to <= v@.len(),
            out@ == v@.subrange(from as int, i as int),
        decreases to - i,
    {
        push_char(&mut out, v[i]);
        i += 1;
        assert(out@ =~= v@.subrange(from as int, i as int));
    }
    out
}

} // verus!

verus! {

/// The pieces of `s` between the separators `sep`, empty ones included.
pub open spec fn pieces(s: Seq<char>, sep: char) -> Seq<Seq<char>>
    decreases s.len(),
{
    if s.len() == 0 {
        seq![Seq::<char>::empty()]
    } else {
        let r = pieces(s.drop_last(), sep);
        if s.last() == sep {
            r.push(Seq::empty())
        } else {
            r.update(r.len() - 1, r.last().push(s.last()))
        }
    }
}

/// A text has at least one piece.
pub proof fn lemma_pieces_nonempty(s: Seq<char>, sep: char)
    ensures
        pieces(s, sep).len() >= 1,
    decreases s.len(),
{
    if s.len() > 0 {
        lemma_pieces_nonempty(s.drop_last(), sep);
    }
}

/// The pieces of a text between the separators `sep`.
pub fn split_on(s: &str, sep: char) -> (r: Vec<String>)
    ensures
        crate::models::texts(r@) == pieces(s@, sep),
{
    let cs = chars_of(s);
    let mut segs: Vec<String> = Vec::new();
    let mut cur = String::new();
    let mut i: usize = 0;
    assert(cs@.take(0) =~= Seq::<char>::empty());
    assert(crate::models::texts(segs@).push(cur@) =~= pieces(Seq::<char>::empty(), sep));
    while i < cs.len()
        invariant
            cs@ == s@,
            i <= cs@.len(),
            crate::models::texts(segs@).push(cur@) == pieces(cs@.take(i as int), sep),
        decreases cs@.len() - i,
    {
        let c = cs[i];
        let ghost before = crate::models::texts(segs@);
        let ghost cur0 = cur@;
        assert(cs@.take(i + 1).drop_last() =~= cs@.take(i as int));
        proof {
            lemma_pieces_nonempty(cs@.take(i as int), sep);
        }
        if c == sep {
            let done = cur;
            segs.push(done);
            cur = String::new();
            assert(crate::models::texts(segs@) =~= before.push(cur0));
            assert(crate::models::texts(segs@).push(cur@) =~= before.push(cur0).push(Seq::<char>::empty()));
        } else {
            push_char(&mut cur, c);
            assert(crate::models::texts(segs@).push(cur@) =~= before.push(cur0).update(before.len() as int, cur0.push(c)));
        }
        i += 1;
    }
    assert(cs@.take(cs@.len() as int) =~= cs@);
    let ghost before = crate::models::texts(segs@);
    let ghost last = cur@;
    segs.push(cur);
    assert(crate::models::texts(segs@) =~= before.push(last));
    segs
}

} // verus!

verus! {

/// Byte-wise comparison is antisymmetric: swapping the sides flips the sign.
pub proof fn lemma_lex_antisym(a: Seq<u8>, b: Seq<u8>)
    ensures
        lex_sign(a, b) == -lex_sign(b, a),
    decreases a.len(),
{
    if a.len() > 0 && b.len() > 0 && a[0] == b[0] {
        lemma_lex_antisym(a.drop_first(), b.drop_first());
    }
}

/// Byte-wise comparison is transitive, strictly when either step is strict.
pub proof fn lemma_lex_trans(a: Seq<u8>, b: Seq<u8>, c: Seq<u8>)
    requires
        lex_sign(a, b) <= 0,
        lex_sign(b, c) <= 0,
    ensures
        lex_sign(a, c) <= 0,
        lex_sign(a, b) < 0 || lex_sign(b, c) < 0 ==> lex_sign(a, c) < 0,
    decreases a.len(),
{
    if a.len() > 0 && b.len() > 0 && c.len() > 0 && a[0] == b[0] && b[0] == c[0] {
        lemma_lex_trans(a.drop_first(), b.drop_first(), c.drop_first());
    }
}

} // verus!

verus! {

/// The set of a sequence grows by the pushed element.
pub proof fn lemma_push_to_set<A>(s: Seq<A>, x: A)
    ensures
        s.push(x).to_set() == s.to_set().insert(x),
{
    assert forall|y: A| s.push(x).to_set().contains(y) <==> s.to_set().insert(x).contains(y) by {
        if s.push(x).contains(y) {
            let k = choose|k: int| 0 <= k < s.push(x).len() && s.push(x)[k] == y;
            if k < s.len() {
                assert(s[k] == y);
            }
        }
        if s.contains(y) {
            let k = choose|k: int| 0 <= k < s.len() && s[k] == y;
            assert(s.push(x)[k] == y);
        }
        if y == x {
            assert(s.push(x)[s.len() as int] == y);
        }
    }
    assert(s.push(x).to_set() =~= s.to_set().insert(x));
}

} // verus!

verus! {

/// The position of the last `c` in `s`.
pub open spec fn last_index_of(s: Seq<char>, c: char) -> Option<int>
    decreases s.len(),
{
    if s.len() == 0 {
        None
    } else if s.last() == c {
        Some(s.len() - 1)
    } else {
        last_index_of(s.drop_last(), c)
    }
}

/// The position found holds `c`.
pub proof fn lemma_last_index_range(s: Seq<char>, c: char)
    ensures
        last_index_of(s, c) matches Some(i) ==> 0 <= i < s.len() && s[i] == c,
    decreases s.len(),
{
    if s.len() > 0 && s.last() != c {
        lemma_last_index_range(s.drop_last(), c);
    }
}

/// The position of the last `c` in `cs`.
pub fn find_last(cs: &Vec<char>, c: char) -> (r: Option<usize>)
    ensures
        match r {
            Some(i) => last_index_of(cs@, c) == Some(i as int),
            None => last_index_of(cs@, c) is None,
        },
{
    let mut j: usize = cs.len();
    assert(cs@.subrange(0, j as int) =~= cs@);
    while j > 0
        invariant
            j <= cs@.len(),
            last_index_of(cs@, c) == last_index_of(cs@.subrange(0, j as int), c),
        decreases j,
    {
        assert(cs@.subrange(0, j as int).drop_last() =~= cs@.subrange(0, j - 1));
        if cs[j - 1] == c {
            return Some(j - 1);
        }
        j -= 1;
    }
    None
}

} // verus!

verus! {

/// The characters with the Unicode `White_Space` property.
pub open spec fn is_white_space(c: char) -> bool {
    ||| c == '\t' || c == '\n' || c == '\u{0B}' || c == '\u{0C}' || c == '\r' || c == ' '
    ||| c == '\u{85}' || c == '\u{A0}' || c == '\u{1680}'
    ||| ('\u{2000}' <= c && c <= '\u{200A}')
    ||| c == '\u{2028}' || c == '\u{2029}' || c == '\u{202F}' || c == '\u{205F}' || c == '\u{3000}'
}

/// Whether a character has the Unicode `White_Space` property, as
/// `char::is_whitespace` answers.
pub fn char_is_whitespace(c: char) -> (r: bool)
    ensures
        r == is_white_space(c),
{
    c == '\t' || c == '\n' || c == '\u{0B}' || c == '\u{0C}' || c == '\r' || c == ' ' || c == '\u{85}'
        || c == '\u{A0}' || c == '\u{1680}' || ('\u{2000}' <= c && c <= '\u{200A}') || c == '\u{2028}'
        || c == '\u{2029}' || c == '\u{202F}' || c == '\u{205F}' || c == '\u{3000}'
}

/// The characters left after dropping leading `White_Space` characters.
pub open spec fn trim_start_ws(s: Seq<char>) -> Seq<char>
    decreases s.len(),
{
    if s.len() > 0 && is_white_space(s[0]) {
        trim_start_ws(s.drop_first())
    } else {
        s
    }
}

/// The characters left after dropping trailing `White_Space` characters.
pub open spec fn trim_end_ws(s: Seq<char>) -> Seq<char>
    decreases s.len(),
{
    if s.len() > 0 && is_white_space(s.last()) {
        trim_end_ws(s.drop_last())
    } else {
        s
    }
}

/// The characters left after dropping leading and trailing `White_Space`
/// characters, as `str::trim` leaves them.
pub open spec fn trim_ws(s: Seq<char>) -> Seq<char> {
    trim_end_ws(trim_start_ws(s))
}

/// The text without its leading and trailing `White_Space` characters
/// (see `trim_ws`).
pub fn trim_whitespace(s: &str) -> (r: String)
    ensures
        r@ == trim_ws(s@),
{
    let cs = chars_of(s);
    let n = cs.len();
    let mut i: usize = 0;
    assert(cs@.subrange(0, n as int) =~= cs@);
    while i < n && char_is_whitespace(cs[i])
        invariant
            cs@ == s@,
            n == cs@.len(),
            i <= n,
            trim_start_ws(s@) == trim_start_ws(cs@.subrange(i as int, n as int)),
        decreases n - i,
    {
        assert(cs@.subrange(i as int, n as int).drop_first() =~= cs@.subrange(i + 1, n as int));
        i += 1;
    }
    let ghost front = cs@.subrange(i as int, n as int);
    assert(trim_start_ws(front) == front);
    let mut j: usize = n;
    while j > i && char_is_whitespace(cs[j - 1])
        invariant
            cs@ == s@,
            n == cs@.len(),
            i <= j <= n,
            front == cs@.subrange(i as int, n as int),
            trim_end_ws(front) == trim_end_ws(cs@.subrange(i as int, j as int)),
        decreases j,
    {
        assert(cs@.subrange(i as int, j as int).drop_last() =~= cs@.subrange(i as int, j - 1));
        j -= 1;
    }
    assert(trim_end_ws(cs@.subrange(i as int, j as int)) == cs@.subrange(i as int, j as int));
    string_of_chars(&cs, i, j)
}

} // verus!
