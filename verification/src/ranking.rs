//! Ordering results by name, path, size or modification time.

use vstd::prelude::*;
use vstd::string::*;
use vstd::utf8::{encode_utf8, is_ascii_chars};
use crate::models::{DocView, FileDocument, SortField, SortOrder, docs_seq, ts_lt};
use crate::stdx::{to_lowercase, unicode_lowercase};
use crate::text::{lemma_push_to_set, lex_sign, lower_bytes, to_lower_byte, lemma_lex_antisym, lemma_lex_trans};

verus! {

/// The key a name is ordered by: an ASCII name with its letters
/// lower-cased (which is its Unicode lower-case form), any other name
/// after Unicode lower-casing; as UTF-8 bytes.
pub open spec fn name_key(name: Seq<char>) -> Seq<u8> {
    if is_ascii_chars(name) {
        lower_bytes(encode_utf8(name))
    } else {
        encode_utf8(unicode_lowercase(name))
    }
}

/// How two documents compare under a sort field, as -1, 0 or 1: names by
/// `name_key`, paths byte-wise, sizes and modification times by value.
pub open spec fn doc_order(field: SortField, a: DocView, b: DocView) -> int {
    match field {
        SortField::Name => lex_sign(name_key(a.name), name_key(b.name)),
        SortField::Path => lex_sign(encode_utf8(a.path), encode_utf8(b.path)),
        SortField::Size => if a.size < b.size {
            -1
        } else if a.size > b.size {
            1
        } else {
            0
        },
        SortField::Modified => if ts_lt(a.modified, b.modified) {
            -1
        } else if ts_lt(b.modified, a.modified) {
            1
        } else {
            0
        },
        SortField::Relevance => 0,
    }
}

proof fn lemma_order_antisym(field: SortField, a: DocView, b: DocView)
    ensures
        doc_order(field, a, b) == -doc_order(field, b, a),
{
    match field {
        SortField::Name => lemma_lex_antisym(name_key(a.name), name_key(b.name)),
        SortField::Path => lemma_lex_antisym(encode_utf8(a.path), encode_utf8(b.path)),
        _ => {},
    }
}

proof fn lemma_order_trans(field: SortField, a: DocView, b: DocView, c: DocView)
    requires
        doc_order(field, a, b) <= 0,
        doc_order(field, b, c) <= 0,
    ensures
        doc_order(field, a, c) <= 0,
        doc_order(field, a, b) < 0 || doc_order(field, b, c) < 0 ==> doc_order(field, a, c) < 0,
{
    match field {
        SortField::Name => lemma_lex_trans(name_key(a.name), name_key(b.name), name_key(c.name)),
        SortField::Path => lemma_lex_trans(encode_utf8(a.path), encode_utf8(b.path), encode_utf8(c.path)),
        _ => {},
    }
}

/// `r` lists the positions of `ds` in an order sorted by the field, and
/// documents that compare equal keep their relative order.
pub open spec fn sorted_stable(field: SortField, ds: Seq<DocView>, r: Seq<usize>) -> bool {
    &&& forall|a: int, b: int| 0 <= a < b < r.len() ==> doc_order(field, ds[r[a] as int], ds[r[b] as int]) <= 0
    &&& forall|a: int, b: int| 0 <= a < b < r.len() && doc_order(field, ds[r[a] as int], ds[r[b] as int]) == 0
        ==> r[a] < r[b]
}

/// `r` holds each position below `n` once.
pub open spec fn is_permutation(r: Seq<usize>, n: int) -> bool {
    &&& r.len() == n
    &&& r.no_duplicates()
    &&& forall|k: int| 0 <= k < r.len() ==> r[k] < n
}

/// Position `a` comes before position `b`: its document compares lower,
/// or equal and it is earlier.
pub open spec fn before(field: SortField, ds: Seq<DocView>, a: usize, b: usize) -> bool {
    doc_order(field, ds[a as int], ds[b as int]) < 0 || (doc_order(field, ds[a as int], ds[b as int]) == 0 && a < b)
}

/// Each position comes before every later one.
pub open spec fn sorted_by(field: SortField, ds: Seq<DocView>, s: Seq<usize>) -> bool {
    forall|i: int, j: int| 0 <= i < j < s.len() ==> before(field, ds, #[trigger] s[i], #[trigger] s[j])
}

proof fn lemma_before_trans(field: SortField, ds: Seq<DocView>, a: usize, b: usize, c: usize)
    requires
        before(field, ds, a, b),
        before(field, ds, b, c),
    ensures
        before(field, ds, a, c),
{
    lemma_order_trans(field, ds[a as int], ds[b as int], ds[c as int]);
}

proof fn lemma_before_total(field: SortField, ds: Seq<DocView>, a: usize, b: usize)
    requires
        a != b,
    ensures
        before(field, ds, a, b) != before(field, ds, b, a),
{
    lemma_order_antisym(field, ds[a as int], ds[b as int]);
}

proof fn lemma_before_irreflexive(field: SortField, ds: Seq<DocView>, a: usize)
    ensures
        !before(field, ds, a, a),
{
    lemma_order_antisym(field, ds[a as int], ds[a as int]);
}

/// A sorted list holds no position twice, and is sorted and stable.
proof fn lemma_sorted_by_stable(field: SortField, ds: Seq<DocView>, s: Seq<usize>)
    requires
        sorted_by(field, ds, s),
    ensures
        s.no_duplicates(),
        sorted_stable(field, ds, s),
{
    assert forall|i: int, j: int| 0 <= i < j < s.len() implies s[i] != s[j] by {
        lemma_before_irreflexive(field, ds, s[i]);
        assert(before(field, ds, s[i], s[j]));
    }
}

/// Three-way comparison of byte sequences (see `lex_sign`).
fn bytes_order(a: &[u8], b: &[u8]) -> (r: i8)
    ensures
        r == lex_sign(a@, b@),
{
    let n = if a.len() < b.len() { a.len() } else { b.len() };
    let mut i: usize = 0;
    assert(a@.skip(0) =~= a@);
    assert(b@.skip(0) =~= b@);
    while i < n
        invariant
            n <= a@.len() && n <= b@.len(),
            n == a@.len() || n == b@.len(),
            i <= n,
            lex_sign(a@, b@) == lex_sign(a@.skip(i as int), b@.skip(i as int)),
        decreases n - i,
    {
        assert(a@.skip(i as int)[0] == a@[i as int]);
        assert(b@.skip(i as int)[0] == b@[i as int]);
        if a[i] < b[i] {
            return -1;
        }
        if a[i] > b[i] {
            return 1;
        }
        assert(a@.skip(i as int).drop_first() =~= a@.skip(i + 1));
        assert(b@.skip(i as int).drop_first() =~= b@.skip(i + 1));
        i += 1;
    }
    if a.len() < b.len() {
        -1
    } else if a.len() == b.len() {
        0
    } else {
        1
    }
}

/// The bytes a document is ordered by under `Name` or `Path`; empty for
/// the other fields.
fn sort_key(field: SortField, d: &FileDocument) -> (r: Vec<u8>)
    ensures
        field == SortField::Name ==> r@ == name_key(d.name@),
        field == SortField::Path ==> r@ == encode_utf8(d.path@),
{
    match field {
        SortField::Name => {
            let name = d.name.as_str();
            if name.is_ascii() {
                let b = name.as_bytes();
                let mut out: Vec<u8> = Vec::new();
                let mut i: usize = 0;
                while i < b.len()
                    invariant
                        i <= b@.len(),
                        out@ == lower_bytes(b@.subrange(0, i as int)),
                    decreases b@.len() - i,
                {
                    out.push(to_lower_byte(b[i]));
                    i += 1;
                    assert(out@ =~= lower_bytes(b@.subrange(0, i as int)));
                }
                assert(b@.subrange(0, b@.len() as int) =~= b@);
                out
            } else {
                let lower = to_lowercase(name);
                crate::le::bytes_to_vec(lower.as_str().as_bytes())
            }
        },
        SortField::Path => crate::le::bytes_to_vec(d.path.as_str().as_bytes()),
        _ => Vec::new(),
    }
}

/// The keys of all documents.
fn sort_keys(field: SortField, docs: &[FileDocument]) -> (r: Vec<Vec<u8>>)
    ensures
        r@.len() == docs@.len(),
        forall|i: int| 0 <= i < docs@.len() ==> field == SortField::Name ==> (#[trigger] r@[i])@ == name_key(
            docs@[i].name@,
        ),
        forall|i: int| 0 <= i < docs@.len() ==> field == SortField::Path ==> (#[trigger] r@[i])@ == encode_utf8(
            docs@[i].path@,
        ),
{
    let mut out: Vec<Vec<u8>> = Vec::new();
    let mut i: usize = 0;
    while i < docs.len()
        invariant
            i <= docs@.len(),
            out@.len() == i,
            forall|k: int| 0 <= k < i ==> field == SortField::Name ==> (#[trigger] out@[k])@ == name_key(
                docs@[k].name@,
            ),
            forall|k: int| 0 <= k < i ==> field == SortField::Path ==> (#[trigger] out@[k])@ == encode_utf8(
                docs@[k].path@,
            ),
        decreases docs@.len() - i,
    {
        out.push(sort_key(field, &docs[i]));
        i += 1;
    }
    out
}

/// How the documents at `i` and `j` compare (see `doc_order`).
fn compare_at(field: SortField, docs: &[FileDocument], keys: &Vec<Vec<u8>>, i: usize, j: usize) -> (r: i8)
    requires
        i < docs@.len(),
        j < docs@.len(),
        keys@.len() == docs@.len(),
        forall|k: int| 0 <= k < docs@.len() ==> field == SortField::Name ==> (#[trigger] keys@[k])@ == name_key(
            docs@[k].name@,
        ),
        forall|k: int| 0 <= k < docs@.len() ==> field == SortField::Path ==> (#[trigger] keys@[k])@ == encode_utf8(
            docs@[k].path@,
        ),
    ensures
        r == doc_order(field, docs@[i as int]@, docs@[j as int]@),
{
    match field {
        SortField::Name => bytes_order(keys[i].as_slice(), keys[j].as_slice()),
        SortField::Path => bytes_order(keys[i].as_slice(), keys[j].as_slice()),
        SortField::Size => {
            if docs[i].size < docs[j].size {
                -1
            } else if docs[i].size > docs[j].size {
                1
            } else {
                0
            }
        },
        SortField::Modified => {
            if docs[i].modified.is_before(&docs[j].modified) {
                -1
            } else if docs[j].modified.is_before(&docs[i].modified) {
                1
            } else {
                0
            }
        },
        SortField::Relevance => 0,
    }
}

/// The comparator's facts about the keys.
pub open spec fn keys_match(field: SortField, docs: Seq<FileDocument>, keys: Seq<Vec<u8>>) -> bool {
    &&& keys.len() == docs.len()
    &&& forall|k: int| 0 <= k < docs.len() ==> field == SortField::Name ==> (#[trigger] keys[k])@ == name_key(
        docs[k].name@,
    )
    &&& forall|k: int| 0 <= k < docs.len() ==> field == SortField::Path ==> (#[trigger] keys[k])@ == encode_utf8(
        docs[k].path@,
    )
}

/// Whether position `a` comes before position `b` (see `before`).
fn comes_before(field: SortField, docs: &[FileDocument], keys: &Vec<Vec<u8>>, a: usize, b: usize) -> (r: bool)
    requires
        a < docs@.len(),
        b < docs@.len(),
        keys_match(field, docs@, keys@),
    ensures
        r == before(field, docs_seq(docs@), a, b),
{
    let c = compare_at(field, docs, keys, a, b);
    assert(docs_seq(docs@)[a as int] == docs@[a as int]@);
    assert(docs_seq(docs@)[b as int] == docs@[b as int]@);
    c < 0 || (c == 0 && a < b)
}

/// Merges two sorted lists of distinct positions into one sorted list
/// holding both.
fn merge(field: SortField, docs: &[FileDocument], keys: &Vec<Vec<u8>>, left: &Vec<usize>, right: &Vec<usize>)
    -> (r: Vec<usize>)
    requires
        keys_match(field, docs@, keys@),
        forall|k: int| 0 <= k < left@.len() ==> #[trigger] left@[k] < docs@.len(),
        forall|k: int| 0 <= k < right@.len() ==> #[trigger] right@[k] < docs@.len(),
        sorted_by(field, docs_seq(docs@), left@),
        sorted_by(field, docs_seq(docs@), right@),
        forall|a: int, b: int| 0 <= a < left@.len() && 0 <= b < right@.len() ==> left@[a] != right@[b],
    ensures
        sorted_by(field, docs_seq(docs@), r@),
        r@.len() == left@.len() + right@.len(),
        r@.to_set() == left@.to_set().union(right@.to_set()),
{
    let ghost ds = docs_seq(docs@);
    let mut out: Vec<usize> = Vec::new();
    let mut i: usize = 0;
    let mut j: usize = 0;
    assert(out@.to_set() =~= left@.take(0).to_set().union(right@.take(0).to_set()));
    while i < left.len() || j < right.len()
        invariant
            ds == docs_seq(docs@),
            keys_match(field, docs@, keys@),
            forall|k: int| 0 <= k < left@.len() ==> #[trigger] left@[k] < docs@.len(),
            forall|k: int| 0 <= k < right@.len() ==> #[trigger] right@[k] < docs@.len(),
            sorted_by(field, ds, left@),
            sorted_by(field, ds, right@),
            forall|a: int, b: int| 0 <= a < left@.len() && 0 <= b < right@.len() ==> left@[a] != right@[b],
            i <= left@.len(),
            j <= right@.len(),
            out@.len() == i + j,
            sorted_by(field, ds, out@),
            out@.to_set() == left@.take(i as int).to_set().union(right@.take(j as int).to_set()),
            out@.len() > 0 && i < left@.len() ==> before(field, ds, out@.last(), left@[i as int]),
            out@.len() > 0 && j < right@.len() ==> before(field, ds, out@.last(), right@[j as int]),
        decreases left@.len() + right@.len() - i - j,
    {
        let take_left = if i < left.len() && j < right.len() {
            comes_before(field, docs, keys, left[i], right[j])
        } else {
            i < left.len()
        };
        let ghost old_out = out@;
        let x = if take_left { left[i] } else { right[j] };
        proof {
            if i < left@.len() && j < right@.len() {
                lemma_before_total(field, ds, left@[i as int], right@[j as int]);
            }
        }
        out.push(x);
        proof {
            assert forall|a: int, b: int| 0 <= a < b < out@.len() implies before(field, ds, #[trigger] out@[a],
                #[trigger] out@[b]) by {
                if b == out@.len() - 1 && a < b {
                    if a < old_out.len() - 1 {
                        lemma_before_trans(field, ds, old_out[a], old_out.last(), x);
                    }
                } else {
                    assert(out@[a] == old_out[a] && out@[b] == old_out[b]);
                }
            }
        }
        if take_left {
            proof {
                assert(left@.take(i + 1) =~= left@.take(i as int).push(left@[i as int]));
                lemma_push_to_set(left@.take(i as int), left@[i as int]);
                lemma_push_to_set(old_out, x);
                assert(out@.to_set() =~= left@.take(i + 1).to_set().union(right@.take(j as int).to_set()));
                if i + 1 < left@.len() {
                    assert(before(field, ds, left@[i as int], left@[i + 1]));
                }
            }
            i += 1;
        } else {
            proof {
                assert(right@.take(j + 1) =~= right@.take(j as int).push(right@[j as int]));
                lemma_push_to_set(right@.take(j as int), right@[j as int]);
                lemma_push_to_set(old_out, x);
                assert(out@.to_set() =~= left@.take(i as int).to_set().union(right@.take(j + 1).to_set()));
                if j + 1 < right@.len() {
                    assert(before(field, ds, right@[j as int], right@[j + 1]));
                }
            }
            j += 1;
        }
    }
    assert(left@.take(left@.len() as int) =~= left@);
    assert(right@.take(right@.len() as int) =~= right@);
    out
}

/// Sorts distinct positions (see `sorted_by`).
fn merge_sort(field: SortField, docs: &[FileDocument], keys: &Vec<Vec<u8>>, v: &[usize]) -> (r: Vec<usize>)
    requires
        keys_match(field, docs@, keys@),
        forall|k: int| 0 <= k < v@.len() ==> #[trigger] v@[k] < docs@.len(),
        v@.no_duplicates(),
    ensures
        sorted_by(field, docs_seq(docs@), r@),
        r@.len() == v@.len(),
        r@.to_set() == v@.to_set(),
    decreases v@.len(),
{
    let n = v.len();
    if n <= 1 {
        return copy_positions(v);
    }
    let mid = n / 2;
    let left = merge_sort(field, docs, keys, &v[0..mid]);
    let right = merge_sort(field, docs, keys, &v[mid..n]);
    proof {
        let lv = v@.subrange(0, mid as int);
        let rv = v@.subrange(mid as int, n as int);
        assert forall|k: int| 0 <= k < left@.len() implies #[trigger] left@[k] < docs@.len() by {
            assert(left@.to_set().contains(left@[k]));
            assert(lv.to_set().contains(left@[k]));
        }
        assert forall|k: int| 0 <= k < right@.len() implies #[trigger] right@[k] < docs@.len() by {
            assert(right@.to_set().contains(right@[k]));
            assert(rv.to_set().contains(right@[k]));
        }
        assert forall|a: int, b: int| 0 <= a < left@.len() && 0 <= b < right@.len() implies left@[a] != right@[b] by {
            assert(left@.to_set().contains(left@[a]));
            assert(right@.to_set().contains(right@[b]));
            let p = choose|p: int| 0 <= p < lv.len() && lv[p] == left@[a];
            let q = choose|q: int| 0 <= q < rv.len() && rv[q] == right@[b];
            assert(v@[p] == lv[p] && v@[mid + q] == rv[q]);
        }
    }
    let r = merge(field, docs, keys, &left, &right);
    proof {
        assert(v@ =~= v@.subrange(0, mid as int) + v@.subrange(mid as int, n as int));
        assert(r@.to_set() =~= v@.to_set()) by {
            assert forall|x: usize| v@.to_set().contains(x) <==> (v@.subrange(0, mid as int).to_set().contains(x)
                || v@.subrange(mid as int, n as int).to_set().contains(x)) by {
                if v@.to_set().contains(x) {
                    let p = choose|p: int| 0 <= p < v@.len() && v@[p] == x;
                    if p < mid {
                        assert(v@.subrange(0, mid as int)[p] == x);
                    } else {
                        assert(v@.subrange(mid as int, n as int)[p - mid] == x);
                    }
                }
            }
        }
    }
    r
}

/// A copy of a short list of positions.
fn copy_positions(v: &[usize]) -> (r: Vec<usize>)
    ensures
        r@ == v@,
{
    let mut out: Vec<usize> = Vec::new();
    let mut i: usize = 0;
    while i < v.len()
        invariant
            i <= v@.len(),
            out@ == v@.subrange(0, i as int),
        decreases v@.len() - i,
    {
        out.push(v[i]);
        i += 1;
        assert(out@ =~= v@.subrange(0, i as int));
    }
    assert(v@.subrange(0, v@.len() as int) =~= v@);
    out
}

/// The order in which `rank_results` lists documents under a field other
/// than relevance: a stable ascending sort, reversed for the descending
/// order. Returns the positions of `docs` in that order.
pub fn rank_order(docs: &[FileDocument], sort_by: SortField, sort_order: SortOrder) -> (r: Vec<usize>)
    requires
        sort_by != SortField::Relevance,
    ensures
        is_permutation(r@, docs@.len() as int),
        sort_order == SortOrder::Ascending ==> sorted_stable(sort_by, docs_seq(docs@), r@),
        sort_order == SortOrder::Descending ==> sorted_stable(sort_by, docs_seq(docs@), r@.reverse()),
{
    let ghost ds = docs_seq(docs@);
    let keys = sort_keys(sort_by, docs);
    let n = docs.len();
    let mut all: Vec<usize> = Vec::new();
    let mut i: usize = 0;
    while i < n
        invariant
            n == docs@.len(),
            i <= n,
            all@.len() == i,
            forall|k: int| 0 <= k < i ==> #[trigger] all@[k] == k,
        decreases n - i,
    {
        all.push(i);
        i += 1;
    }
    assert(all@.no_duplicates());
    let r = merge_sort(sort_by, docs, &keys, all.as_slice());
    proof {
        lemma_sorted_by_stable(sort_by, ds, r@);
        assert forall|k: int| 0 <= k < r@.len() implies r@[k] < n by {
            assert(r@.to_set().contains(r@[k]));
            assert(all@.to_set().contains(r@[k]));
        }
    }
    if sort_order == SortOrder::Descending {
        let ghost asc = r@;
        let mut out: Vec<usize> = Vec::new();
        let mut k: usize = r.len();
        while k > 0
            invariant
                k <= asc.len(),
                asc == r@,
                out@.len() == asc.len() - k,
                forall|t: int| 0 <= t < out@.len() ==> out@[t] == asc[asc.len() - 1 - t],
            decreases k,
        {
            out.push(r[k - 1]);
            k -= 1;
        }
        proof {
            assert(out@.reverse() =~= asc);
            assert forall|x: int, y: int| 0 <= x < y < out@.len() implies out@[x] != out@[y] by {
                assert(out@[x] == asc[asc.len() - 1 - x]);
                assert(out@[y] == asc[asc.len() - 1 - y]);
            }
        }
        out
    } else {
        r
    }
}

} // verus!
