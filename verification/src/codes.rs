//! Trigram codes of names: the keys of the trigram index.

use vstd::prelude::*;
use vstd::string::StringSliceAdditionalSpecFns;
use vstd::string::is_ascii;
use vstd::utf8::encode_utf8;
use crate::stdx::{fx_hash, fx_hash_of, push_char, to_lowercase, unicode_lowercase, crc32, crc32_of};
use crate::text::{to_lower_byte, chars_of};

verus! {

/// A character below 128.
pub open spec fn is_ascii_char(c: char) -> bool {
    (c as u32) < 128
}

/// The code of a trigram: three 7-bit ASCII characters packed into 21 bits,
/// or, when one of them is not ASCII, the Fx hash of their UTF-8 bytes with
/// the top bit set.
pub open spec fn pack_spec(c0: char, c1: char, c2: char) -> u32 {
    if is_ascii_char(c0) && is_ascii_char(c1) && is_ascii_char(c2) {
        (((c0 as u32) & 0x7Fu32) << 14u32) | (((c1 as u32) & 0x7Fu32) << 7u32) | ((c2 as u32)
            & 0x7Fu32)
    } else {
        (fx_hash_of(encode_utf8(seq![c0, c1, c2]), usize::BITS) as u32) | 0x8000_0000u32
    }
}

/// Packs a trigram into a `u32` code (see `pack_spec`).
pub fn pack_trigram(c0: char, c1: char, c2: char) -> (r: u32)
    ensures
        r == pack_spec(c0, c1, c2),
{
    let a = c0 as u32;
    let b = c1 as u32;
    let c = c2 as u32;
    if a < 128 && b < 128 && c < 128 {
        ((a & 0x7F) << 14) | ((b & 0x7F) << 7) | (c & 0x7F)
    } else {
        let mut s = String::new();
        push_char(&mut s, c0);
        push_char(&mut s, c1);
        push_char(&mut s, c2);
        let st = s.as_str();
        assert(st@ =~= seq![c0, c1, c2]);
        let h = fx_hash(st.as_bytes());
        (h as u32) | 0x8000_0000
    }
}

/// Two distinct ASCII trigrams never share a code.
pub proof fn lemma_pack_ascii_injective(a0: char, a1: char, a2: char, b0: char, b1: char, b2: char)
    requires
        is_ascii_char(a0) && is_ascii_char(a1) && is_ascii_char(a2),
        is_ascii_char(b0) && is_ascii_char(b1) && is_ascii_char(b2),
        pack_spec(a0, a1, a2) == pack_spec(b0, b1, b2),
    ensures
        a0 == b0 && a1 == b1 && a2 == b2,
{
    let (x0, x1, x2) = (a0 as u32, a1 as u32, a2 as u32);
    let (y0, y1, y2) = (b0 as u32, b1 as u32, b2 as u32);
    assert(x0 < 128 && x1 < 128 && x2 < 128 && y0 < 128 && y1 < 128 && y2 < 128);
    assert(((x0 & 0x7F) << 14u32) | ((x1 & 0x7F) << 7u32) | (x2 & 0x7F) == ((y0 & 0x7F) << 14u32)
        | ((y1 & 0x7F) << 7u32) | (y2 & 0x7F) ==> x0 == y0 && x1 == y1 && x2 == y2) by (bit_vector)
        requires
            x0 < 128 && x1 < 128 && x2 < 128 && y0 < 128 && y1 < 128 && y2 < 128,
    ;
}

/// Strictly increasing.
pub open spec fn strictly_sorted(s: Seq<u32>) -> bool {
    forall|i: int, j: int| 0 <= i < j < s.len() ==> s[i] < s[j]
}

/// `r` holds exactly the values that occur in `raw`.
pub open spec fn same_values(r: Seq<u32>, raw: Seq<u32>) -> bool {
    forall|x: u32| r.contains(x) <==> raw.contains(x)
}

/// Inserts `x` into a strictly increasing vector, unless it is there already.
pub fn insert_sorted_unique(v: &mut Vec<u32>, x: u32)
    requires
        strictly_sorted(old(v)@),
    ensures
        strictly_sorted(final(v)@),
        forall|y: u32| final(v)@.contains(y) <==> (old(v)@.contains(y) || y == x),
{
    let mut i: usize = 0;
    while i < v.len() && v[i] < x
        invariant
            i <= v@.len(),
            forall|k: int| 0 <= k < i ==> v@[k] < x,
        decreases v@.len() - i,
    {
        i += 1;
    }
    if i < v.len() && v[i] == x {
        assert(v@.contains(x) && v@[i as int] == x);
        return;
    }
    let ghost old_v = v@;
    assert(old_v == old(v)@);
    v.insert(i, x);
    assert(v@ =~= old_v.subrange(0, i as int).push(x) + old_v.subrange(i as int, old_v.len() as int));
    assert forall|y: u32| v@.contains(y) <==> (old_v.contains(y) || y == x) by {
        if v@.contains(y) {
            let k = choose|k: int| 0 <= k < v@.len() && v@[k] == y;
            if k < i {
                assert(old_v[k] == y);
            } else if k > i {
                assert(old_v[k - 1] == y);
            }
        }
        if old_v.contains(y) {
            let k = choose|k: int| 0 <= k < old_v.len() && old_v[k] == y;
            if k < i {
                assert(v@[k] == y);
            } else {
                assert(v@[k + 1] == y);
            }
        }
        if y == x {
            assert(v@[i as int] == x);
        }
    }
    assert(strictly_sorted(v@));
    assert(forall|y: u32| v@.contains(y) <==> (old(v)@.contains(y) || y == x));
}

/// Sorts and de-duplicates a vector of codes.
pub fn sort_unique(raw: &Vec<u32>) -> (r: Vec<u32>)
    ensures
        strictly_sorted(r@),
        same_values(r@, raw@),
{
    let mut out: Vec<u32> = Vec::new();
    let mut i: usize = 0;
    while i < raw.len()
        invariant
            i <= raw@.len(),
            strictly_sorted(out@),
            forall|y: u32| out@.contains(y) <==> raw@.subrange(0, i as int).contains(y),
        decreases raw@.len() - i,
    {
        insert_sorted_unique(&mut out, raw[i]);
        proof {
            let s0 = raw@.subrange(0, i as int);
            let s1 = raw@.subrange(0, i + 1);
            assert(s1 =~= s0.push(raw@[i as int]));
            assert forall|y: u32| s1.contains(y) <==> (s0.contains(y) || y == raw@[i as int]) by {
                if s1.contains(y) {
                    let k = choose|k: int| 0 <= k < s1.len() && s1[k] == y;
                    if k < i {
                        assert(s0[k] == y);
                    }
                }
                if s0.contains(y) {
                    let k = choose|k: int| 0 <= k < s0.len() && s0[k] == y;
                    assert(s1[k] == y);
                }
                if y == raw@[i as int] {
                    assert(s1[i as int] == y);
                }
            }
        }
        i += 1;
    }
    assert(raw@.subrange(0, raw@.len() as int) =~= raw@);
    out
}

/// Two strictly increasing sequences with the same values are equal.
pub proof fn lemma_sorted_same_values_eq(a: Seq<u32>, b: Seq<u32>)
    requires
        strictly_sorted(a),
        strictly_sorted(b),
        forall|x: u32| a.contains(x) <==> b.contains(x),
    ensures
        a == b,
    decreases a.len() + b.len(),
{
    if a.len() == 0 {
        if b.len() > 0 {
            assert(b.contains(b[0]));
        }
        assert(a =~= b);
    } else if b.len() == 0 {
        assert(a.contains(a[0]));
    } else {
        assert(a.contains(a[0]));
        assert(b.contains(b[0]));
        let ka = choose|k: int| 0 <= k < a.len() && a[k] == b[0];
        let kb = choose|k: int| 0 <= k < b.len() && b[k] == a[0];
        if ka > 0 {
            assert(a[0] < a[ka]);
        }
        if kb > 0 {
            assert(b[0] < b[kb]);
        }
        assert(a[0] == b[0]);
        let ta = a.drop_first();
        let tb = b.drop_first();
        assert forall|x: u32| ta.contains(x) <==> tb.contains(x) by {
            if ta.contains(x) {
                let k = choose|k: int| 0 <= k < ta.len() && ta[k] == x;
                assert(a[k + 1] == x);
                assert(a.contains(x));
                let j = choose|j: int| 0 <= j < b.len() && b[j] == x;
                if j == 0 {
                    assert(a[0] < a[k + 1]);
                }
                assert(tb[j - 1] == x);
            }
            if tb.contains(x) {
                let k = choose|k: int| 0 <= k < tb.len() && tb[k] == x;
                assert(b[k + 1] == x);
                assert(b.contains(x));
                let j = choose|j: int| 0 <= j < a.len() && a[j] == x;
                if j == 0 {
                    assert(b[0] < b[k + 1]);
                }
                assert(ta[j - 1] == x);
            }
        }
        lemma_sorted_same_values_eq(ta, tb);
        assert(a =~= seq![a[0]] + ta);
        assert(b =~= seq![b[0]] + tb);
    }
}

} // verus!

verus! {

/// The code of the trigram that starts at `i`.
pub open spec fn code_at(l: Seq<char>, i: int) -> u32 {
    pack_spec(l[i], l[i + 1], l[i + 2])
}

/// The characters that trigrams are taken from: ASCII-lower-cased for an
/// ASCII name, Unicode-lower-cased otherwise.
pub open spec fn code_source(s: Seq<char>) -> Seq<char> {
    if vstd::utf8::is_ascii_chars(s) {
        s.map_values(|c: char| crate::text::lower_char(c))
    } else {
        unicode_lowercase(s)
    }
}

/// The set of trigram codes of a name: one padded code for a name of one or
/// two characters, the codes of all its three-character windows otherwise.
pub open spec fn code_set(s: Seq<char>) -> Set<u32> {
    let l = code_source(s);
    if s.len() == 0 || l.len() == 0 {
        Set::empty()
    } else if l.len() < 3 {
        set![pack_spec(l[0], if l.len() > 1 { l[1] } else { ' ' }, ' ')]
    } else {
        Set::new(|x: u32| exists|i: int| 0 <= i <= l.len() - 3 && code_at(l, i) == x)
    }
}

/// The lower-cased character of an ASCII byte.
fn lower_ascii_char(b: u8) -> (c: char)
    requires
        b < 128,
    ensures
        c == crate::text::lower_char(b as char),
        (c as u32) < 128,
{
    let l = to_lower_byte(b);
    l as char
}

/// The codes of the windows of `l`, in window order.
fn window_codes(l: &Vec<char>) -> (raw: Vec<u32>)
    requires
        l@.len() >= 3,
    ensures
        raw@.len() == l@.len() - 2,
        forall|i: int| 0 <= i < raw@.len() ==> raw@[i] == code_at(l@, i),
{
    let mut raw: Vec<u32> = Vec::new();
    let len = l.len();
    let n = len - 2;
    let mut i: usize = 0;
    while i < n
        invariant
            len == l@.len(),
            n == l@.len() - 2,
            i <= n,
            raw@.len() == i,
            forall|k: int| 0 <= k < i ==> raw@[k] == code_at(l@, k),
        decreases n - i,
    {
        raw.push(pack_trigram(l[i], l[i + 1], l[i + 2]));
        i += 1;
    }
    raw
}

/// The trigram codes of a name, strictly increasing (see `code_set`).
pub fn trigram_codes(s: &str) -> (r: Vec<u32>)
    ensures
        strictly_sorted(r@),
        forall|x: u32| r@.contains(x) <==> code_set(s@).contains(x),
        (r@.len() == 0) == (s@.len() == 0),
{
    if s.is_empty() {
        return Vec::new();
    }
    let l: Vec<char> = if s.is_ascii() {
        let bytes = s.as_bytes();
        proof {
            vstd::string::is_ascii_spec_bytes(s);
        }
        let mut v: Vec<char> = Vec::new();
        let mut i: usize = 0;
        while i < bytes.len()
            invariant
                is_ascii(s),
                bytes@ == Seq::new(s@.len(), |k: int| s@[k] as u8),
                i <= bytes@.len(),
                v@ == s@.subrange(0, i as int).map_values(|c: char| crate::text::lower_char(c)),
            decreases bytes@.len() - i,
        {
            proof {
                assert(vstd::utf8::is_ascii_chars(s@));
                assert((s@[i as int] as u32) < 128);
                assert(bytes@[i as int] as char == s@[i as int]);
            }
            let c = lower_ascii_char(bytes[i]);
            v.push(c);
            i += 1;
            assert(v@ =~= s@.subrange(0, i as int).map_values(|c: char| crate::text::lower_char(c)));
        }
        assert(s@.subrange(0, s@.len() as int) =~= s@);
        v
    } else {
        let lower = to_lowercase(s);
        chars_of(lower.as_str())
    };
    assert(l@ == code_source(s@));
    if l.len() < 3 {
        if l.len() == 0 {
            assert(s@.len() == 0);
            assert(code_set(s@) =~= Set::empty());
            return Vec::new();
        }
        let c0 = l[0];
        let c1 = if l.len() > 1 { l[1] } else { ' ' };
        let code = pack_trigram(c0, c1, ' ');
        let mut r: Vec<u32> = Vec::new();
        r.push(code);
        assert forall|x: u32| r@.contains(x) <==> code_set(s@).contains(x) by {
            if r@.contains(x) {
                let k = choose|k: int| 0 <= k < r@.len() && r@[k] == x;
                assert(k == 0);
            }
            if x == code {
                assert(r@[0] == x);
            }
        }
        return r;
    }
    let raw = window_codes(&l);
    let r = sort_unique(&raw);
    assert(raw@.contains(raw@[0]));
    assert forall|x: u32| r@.contains(x) <==> code_set(s@).contains(x) by {
        if raw@.contains(x) {
            let k = choose|k: int| 0 <= k < raw@.len() && raw@[k] == x;
            assert(code_at(l@, k) == x);
        }
        if code_set(s@).contains(x) {
            let k = choose|k: int| 0 <= k <= l@.len() - 3 && code_at(l@, k) == x;
            assert(raw@[k] == x);
        }
    }
    r
}

/// Names whose trigram sources agree (such as `hello` and `HELLO`) have
/// identical trigram codes.
pub proof fn lemma_codes_determined_by_source(a: Seq<char>, b: Seq<char>, ra: Seq<u32>, rb: Seq<u32>)
    requires
        a.len() > 0,
        b.len() > 0,
        code_source(a) == code_source(b),
        strictly_sorted(ra),
        strictly_sorted(rb),
        forall|x: u32| ra.contains(x) <==> code_set(a).contains(x),
        forall|x: u32| rb.contains(x) <==> code_set(b).contains(x),
    ensures
        ra == rb,
{
    assert(code_set(a) =~= code_set(b));
    lemma_sorted_same_values_eq(ra, rb);
}

/// The overlapping three-character windows of a lower-cased name, or the
/// whole lower-cased name when it is shorter than three characters.
pub fn generate_trigrams(s: &str) -> (r: Vec<String>)
    ensures
        unicode_lowercase(s@).len() < 3 && unicode_lowercase(s@).len() > 0 ==> r@.len() == 1
            && r@[0]@ == unicode_lowercase(s@),
        unicode_lowercase(s@).len() == 0 ==> r@.len() == 0,
        unicode_lowercase(s@).len() >= 3 ==> r@.len() == unicode_lowercase(s@).len() - 2 && forall|
            i: int,
        | 0 <= i < r@.len() ==> #[trigger] r@[i]@ == unicode_lowercase(s@).subrange(i, i + 3),
{
    let lower = to_lowercase(s);
    let chars = chars_of(lower.as_str());
    if chars.len() < 3 {
        if chars.len() > 0 {
            let mut r: Vec<String> = Vec::new();
            r.push(lower);
            return r;
        }
        return Vec::new();
    }
    let mut r: Vec<String> = Vec::new();
    let len = chars.len();
    let n = len - 2;
    let mut i: usize = 0;
    while i < n
        invariant
            len == chars@.len(),
            chars@ == unicode_lowercase(s@),
            n == chars@.len() - 2,
            i <= n,
            r@.len() == i,
            forall|k: int| 0 <= k < i ==> #[trigger] r@[k]@ == chars@.subrange(k, k + 3),
        decreases n - i,
    {
        let mut w = String::new();
        push_char(&mut w, chars[i]);
        push_char(&mut w, chars[i + 1]);
        push_char(&mut w, chars[i + 2]);
        assert(w@ =~= chars@.subrange(i as int, i + 3));
        r.push(w);
        i += 1;
    }
    r
}

/// The CRC-32 checksum of a trigram's UTF-8 bytes.
pub fn trigram_hash(trigram: &str) -> (r: u32)
    ensures
        r == crc32_of(trigram.spec_bytes()),
{
    crc32(trigram.as_bytes())
}

} // verus!
