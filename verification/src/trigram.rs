//! The trigram inverted index: for each trigram code, the set of document
//! ids whose (lower-cased) name contains that trigram.

use std::collections::HashMap;
use vstd::std_specs::iter::IteratorSpec;
use roaring::RoaringTreemap;
use vstd::prelude::*;
use crate::text::lemma_push_to_set;
use crate::stdx::unicode_lowercase;
use crate::codes::{code_set, code_source, code_at, trigram_codes};
use crate::le::{u32_le, le32_at, lemma_u32_le_roundtrip, read_u32_le, push_u32_le, push_bytes};
use crate::treemap::{treemap_contents, treemap_decode, treemap_new, treemap_insert, treemap_remove, treemap_is_empty, treemap_clone, treemap_and_assign, treemap_len, treemap_to_vec, treemap_serialize, treemap_valid, treemap_from_bytes};

verus! {

broadcast use vstd::std_specs::hash::group_hash_axioms;

/// Posting lists keyed by trigram code.
pub struct TrigramIndex {
    postings: HashMap<u32, RoaringTreemap>,
}

/// `m` with document `id` added under each code of `cs`.
pub open spec fn with_doc(m: Map<u32, Set<u64>>, id: u64, cs: Set<u32>) -> Map<u32, Set<u64>> {
    Map::new(
        |c: u32| m.dom().contains(c) || cs.contains(c),
        |c: u32|
            if cs.contains(c) {
                (if m.dom().contains(c) {
                    m[c]
                } else {
                    Set::empty()
                }).insert(id)
            } else {
                m[c]
            },
    )
}

/// `m` with document `id` taken out of the lists of the codes `cs`; a list
/// that becomes empty is dropped.
pub open spec fn without_doc(m: Map<u32, Set<u64>>, id: u64, cs: Set<u32>) -> Map<u32, Set<u64>> {
    Map::new(
        |c: u32| m.dom().contains(c) && !(cs.contains(c) && m[c].remove(id) == Set::<u64>::empty()),
        |c: u32|
            if cs.contains(c) {
                m[c].remove(id)
            } else {
                m[c]
            },
    )
}

/// The postings of a list of `(id, name)` documents.
pub open spec fn postings_of(ds: Seq<(u64, Seq<char>)>) -> Map<u32, Set<u64>> {
    Map::new(
        |c: u32| exists|k: int| 0 <= k < ds.len() && #[trigger] code_set(ds[k].1).contains(c),
        |c: u32|
            Set::new(
                |id: u64|
                    exists|k: int|
                        0 <= k < ds.len() && ds[k].0 == id && #[trigger] code_set(ds[k].1).contains(c),
            ),
    )
}

/// The documents listed under every code of `cs`.
pub open spec fn query_set(m: Map<u32, Set<u64>>, cs: Set<u32>) -> Set<u64> {
    Set::new(|id: u64| forall|c: u32| #[trigger] cs.contains(c) ==> m.dom().contains(c) && m[c].contains(id))
}

/// The `(id, name)` pairs of a document slice, names as characters.
pub open spec fn docs_view(docs: Seq<(u64, &str)>) -> Seq<(u64, Seq<char>)> {
    docs.map_values(|p: (u64, &str)| (p.0, p.1@))
}

/// Adding a document code by code is adding it under all the codes at once.
pub proof fn lemma_with_doc_step(m: Map<u32, Set<u64>>, id: u64, cs: Set<u32>, c: u32)
    ensures
        with_doc(with_doc(m, id, cs), id, set![c]) == with_doc(m, id, cs.insert(c)),
{
    let a = with_doc(with_doc(m, id, cs), id, set![c]);
    let b = with_doc(m, id, cs.insert(c));
    assert(a.dom() =~= b.dom());
    assert forall|k: u32| a.dom().contains(k) implies a[k] == b[k] by {
        if k == c && cs.contains(k) {
            assert(a[k] =~= b[k]);
        }
    }
    assert(a =~= b);
}

/// Removing a document code by code is removing it under all the codes at once.
pub proof fn lemma_without_doc_step(m: Map<u32, Set<u64>>, id: u64, cs: Set<u32>, c: u32)
    ensures
        without_doc(without_doc(m, id, cs), id, set![c]) == without_doc(m, id, cs.insert(c)),
{
    let w = without_doc(m, id, cs);
    let a = without_doc(w, id, set![c]);
    let b = without_doc(m, id, cs.insert(c));
    assert forall|k: u32| a.dom().contains(k) <==> b.dom().contains(k) by {
        if k == c && cs.contains(k) && m.dom().contains(k) {
            assert(m[k].remove(id).remove(id) =~= m[k].remove(id));
        }
    }
    assert(a.dom() =~= b.dom());
    assert forall|k: u32| a.dom().contains(k) implies a[k] == b[k] by {
        if k == c && cs.contains(k) {
            assert(a[k] =~= b[k]);
        }
    }
    assert(a =~= b);
}

/// Indexing incrementally agrees with rebuilding: the postings of a list
/// with one more document are the postings of the list with that document
/// added.
pub proof fn lemma_postings_push(ds: Seq<(u64, Seq<char>)>, id: u64, name: Seq<char>)
    ensures
        postings_of(ds.push((id, name))) == with_doc(postings_of(ds), id, code_set(name)),
{
    let a = postings_of(ds.push((id, name)));
    let b = with_doc(postings_of(ds), id, code_set(name));
    let e = ds.push((id, name));
    assert forall|c: u32| a.dom().contains(c) <==> b.dom().contains(c) by {
        if a.dom().contains(c) {
            let k = choose|k: int| 0 <= k < e.len() && #[trigger] code_set(e[k].1).contains(c);
            if k < ds.len() {
                assert(code_set(ds[k].1).contains(c));
            }
        }
        if postings_of(ds).dom().contains(c) {
            let k = choose|k: int| 0 <= k < ds.len() && #[trigger] code_set(ds[k].1).contains(c);
            assert(code_set(e[k].1).contains(c));
        }
        if code_set(name).contains(c) {
            assert(code_set(e[ds.len() as int].1).contains(c));
        }
    }
    assert(a.dom() =~= b.dom());
    assert forall|c: u32| a.dom().contains(c) implies a[c] == b[c] by {
        assert forall|x: u64| a[c].contains(x) <==> b[c].contains(x) by {
            if a[c].contains(x) {
                let k = choose|k: int| 0 <= k < e.len() && e[k].0 == x && #[trigger] code_set(e[k].1).contains(c);
                if k < ds.len() {
                    assert(code_set(ds[k].1).contains(c));
                    assert(postings_of(ds).dom().contains(c));
                    assert(postings_of(ds)[c].contains(x));
                }
            }
            if b[c].contains(x) {
                if code_set(name).contains(c) && x == id {
                    assert(code_set(e[ds.len() as int].1).contains(c));
                } else {
                    assert(postings_of(ds).dom().contains(c));
                    assert(postings_of(ds)[c].contains(x));
                    let k = choose|k: int| 0 <= k < ds.len() && ds[k].0 == x && #[trigger] code_set(ds[k].1).contains(c);
                    assert(code_set(e[k].1).contains(c));
                }
            }
        }
        assert(a[c] =~= b[c]);
    }
    assert(a =~= b);
}

/// Lists holding the same documents have the same postings, whatever
/// their order and repetitions.
pub proof fn lemma_postings_same_elements(a: Seq<(u64, Seq<char>)>, b: Seq<(u64, Seq<char>)>)
    requires
        forall|x: (u64, Seq<char>)| a.contains(x) <==> b.contains(x),
    ensures
        postings_of(a) == postings_of(b),
{
    let pa = postings_of(a);
    let pb = postings_of(b);
    assert forall|c: u32| pa.dom().contains(c) <==> pb.dom().contains(c) by {
        if pa.dom().contains(c) {
            let k = choose|k: int| 0 <= k < a.len() && #[trigger] code_set(a[k].1).contains(c);
            assert(a.contains(a[k]));
            let j = choose|j: int| 0 <= j < b.len() && b[j] == a[k];
            assert(code_set(b[j].1).contains(c));
        }
        if pb.dom().contains(c) {
            let k = choose|k: int| 0 <= k < b.len() && #[trigger] code_set(b[k].1).contains(c);
            assert(b.contains(b[k]));
            let j = choose|j: int| 0 <= j < a.len() && a[j] == b[k];
            assert(code_set(a[j].1).contains(c));
        }
    }
    assert(pa.dom() =~= pb.dom());
    assert forall|c: u32| pa.dom().contains(c) implies pa[c] == pb[c] by {
        assert forall|x: u64| pa[c].contains(x) <==> pb[c].contains(x) by {
            if pa[c].contains(x) {
                let k = choose|k: int| 0 <= k < a.len() && a[k].0 == x && #[trigger] code_set(a[k].1).contains(c);
                assert(a.contains(a[k]));
                let j = choose|j: int| 0 <= j < b.len() && b[j] == a[k];
                assert(code_set(b[j].1).contains(c));
            }
            if pb[c].contains(x) {
                let k = choose|k: int| 0 <= k < b.len() && b[k].0 == x && #[trigger] code_set(b[k].1).contains(c);
                assert(b.contains(b[k]));
                let j = choose|j: int| 0 <= j < a.len() && a[j] == b[k];
                assert(code_set(a[j].1).contains(c));
            }
        }
        assert(pa[c] =~= pb[c]);
    }
    assert(pa =~= pb);
}

/// Removing a document whose id no other document has takes exactly its
/// entry out of the postings.
pub proof fn lemma_postings_remove(ds: Seq<(u64, Seq<char>)>, i: int)
    requires
        0 <= i < ds.len(),
        forall|j: int| 0 <= j < ds.len() && j != i ==> ds[j].0 != ds[i].0,
    ensures
        without_doc(postings_of(ds), ds[i].0, code_set(ds[i].1)) == postings_of(ds.remove(i)),
{
    let id = ds[i].0;
    let cs = code_set(ds[i].1);
    let p = postings_of(ds);
    let a = without_doc(p, id, cs);
    let r = ds.remove(i);
    let b = postings_of(r);
    assert forall|j: int| 0 <= j < r.len() implies #[trigger] r[j] == ds[if j < i { j } else { j + 1 }] by {}
    assert forall|c: u32| #[trigger] b.dom().contains(c) implies p.dom().contains(c) && p[c].remove(id) == b[c] by {
        let k = choose|k: int| 0 <= k < r.len() && #[trigger] code_set(r[k].1).contains(c);
        let k0 = if k < i { k } else { k + 1 };
        assert(r[k] == ds[k0]);
        assert(code_set(ds[k0].1).contains(c));
        assert forall|x: u64| p[c].remove(id).contains(x) <==> b[c].contains(x) by {
            if p[c].remove(id).contains(x) {
                let m = choose|m: int| 0 <= m < ds.len() && ds[m].0 == x && #[trigger] code_set(ds[m].1).contains(c);
                assert(m != i);
                let m0 = if m < i { m } else { m - 1 };
                assert(r[m0] == ds[m]);
                assert(code_set(r[m0].1).contains(c));
            }
            if b[c].contains(x) {
                let m = choose|m: int| 0 <= m < r.len() && r[m].0 == x && #[trigger] code_set(r[m].1).contains(c);
                let m0 = if m < i { m } else { m + 1 };
                assert(r[m] == ds[m0]);
                assert(code_set(ds[m0].1).contains(c));
                assert(m0 != i);
            }
        }
        assert(p[c].remove(id) =~= b[c]);
    }
    assert forall|c: u32| a.dom().contains(c) <==> b.dom().contains(c) by {
        if b.dom().contains(c) {
            if cs.contains(c) {
                let k = choose|k: int| 0 <= k < r.len() && #[trigger] code_set(r[k].1).contains(c);
                let k0 = if k < i { k } else { k + 1 };
                assert(r[k] == ds[k0]);
                assert(k0 != i);
                assert(b[c].contains(r[k].0));
            }
        }
        if a.dom().contains(c) && !b.dom().contains(c) {
            let k = choose|k: int| 0 <= k < ds.len() && #[trigger] code_set(ds[k].1).contains(c);
            if k != i {
                let k0 = if k < i { k } else { k - 1 };
                assert(r[k0] == ds[k]);
                assert(code_set(r[k0].1).contains(c));
            } else {
                assert(cs.contains(c));
                assert(p[c].remove(id) != Set::<u64>::empty());
                assert(exists|x: u64| p[c].remove(id).contains(x)) by {
                    if !(exists|x: u64| p[c].remove(id).contains(x)) {
                        assert(p[c].remove(id) =~= Set::<u64>::empty());
                    }
                }
                let x = choose|x: u64| p[c].remove(id).contains(x);
                let m = choose|m: int| 0 <= m < ds.len() && ds[m].0 == x && #[trigger] code_set(ds[m].1).contains(c);
                assert(m != i);
                let m0 = if m < i { m } else { m - 1 };
                assert(r[m0] == ds[m]);
                assert(code_set(r[m0].1).contains(c));
            }
        }
    }
    assert(a.dom() =~= b.dom());
    assert forall|c: u32| a.dom().contains(c) implies a[c] == b[c] by {
        if !cs.contains(c) {
            assert(p[c].remove(id) =~= p[c]) by {
                assert(!p[c].contains(id)) by {
                    if p[c].contains(id) {
                        let m = choose|m: int| 0 <= m < ds.len() && ds[m].0 == id && #[trigger] code_set(ds[m].1).contains(c);
                        assert(m == i);
                    }
                }
            }
        }
    }
    assert(a =~= b);
}

/// One serialized posting list: code, payload length, payload.
pub open spec fn enc_posting(code: u32, payload: Seq<u8>) -> Seq<u8> {
    u32_le(code) + u32_le(payload.len() as u32) + payload
}

/// The first `i` serialized posting lists.
pub open spec fn enc_postings(ks: Seq<u32>, ps: Seq<Seq<u8>>, i: nat) -> Seq<u8>
    decreases i,
{
    if i == 0 {
        Seq::empty()
    } else {
        enc_postings(ks, ps, (i - 1) as nat) + enc_posting(ks[i - 1], ps[i - 1])
    }
}

/// Reads serialized posting lists from `pos` on, at most `remaining` of
/// them, adding each list that decodes to a non-empty set to `acc`; stops
/// at the first list that does not fit in the data.
pub open spec fn parse_postings(data: Seq<u8>, pos: int, remaining: nat, acc: Map<u32, Set<u64>>) -> Map<u32, Set<u64>>
    decreases remaining,
{
    if remaining == 0 || pos < 0 || pos + 8 > data.len() {
        acc
    } else {
        let code = le32_at(data, pos) as u32;
        let rlen = le32_at(data, pos + 4);
        if pos + 8 + rlen > data.len() {
            acc
        } else {
            let payload = data.subrange(pos + 8, pos + 8 + rlen);
            let acc2 = match treemap_decode(payload) {
                Some(st) => if st != Set::<u64>::empty() {
                    acc.insert(code, st)
                } else {
                    acc
                },
                None => acc,
            };
            parse_postings(data, pos + 8 + rlen, (remaining - 1) as nat, acc2)
        }
    }
}

/// The postings a serialized trigram index holds: a little-endian `u32`
/// count, then that many posting lists.
pub open spec fn decode_postings(data: Seq<u8>) -> Map<u32, Set<u64>> {
    if data.len() < 4 {
        Map::empty()
    } else {
        parse_postings(data, 4, le32_at(data, 0) as nat, Map::empty())
    }
}

/// `m` restricted to the codes in `ks`.
pub open spec fn restrict(m: Map<u32, Set<u64>>, ks: Seq<u32>) -> Map<u32, Set<u64>> {
    m.restrict(ks.to_set())
}

proof fn lemma_enc_postings_len(ks: Seq<u32>, ps: Seq<Seq<u8>>, i: nat)
    ensures
        enc_postings(ks, ps, i).len() >= 8 * i,
    decreases i,
{
    if i > 0 {
        lemma_enc_postings_len(ks, ps, (i - 1) as nat);
    }
}

proof fn lemma_enc_postings_prefix(ks: Seq<u32>, ps: Seq<Seq<u8>>, i: nat, j: nat)
    requires
        i <= j,
    ensures
        enc_postings(ks, ps, i).len() <= enc_postings(ks, ps, j).len(),
        enc_postings(ks, ps, j).subrange(0, enc_postings(ks, ps, i).len() as int) == enc_postings(ks, ps, i),
    decreases j,
{
    if i < j {
        lemma_enc_postings_prefix(ks, ps, i, (j - 1) as nat);
        let a = enc_postings(ks, ps, (j - 1) as nat);
        let b = enc_posting(ks[j - 1], ps[j - 1]);
        assert((a + b).subrange(0, enc_postings(ks, ps, i).len() as int) =~= a.subrange(0, enc_postings(ks, ps, i).len() as int));
    } else {
        assert(enc_postings(ks, ps, j).subrange(0, enc_postings(ks, ps, j).len() as int) =~= enc_postings(ks, ps, j));
    }
}

/// The bytes of the `i`-th serialized list sit right after the first `i`.
proof fn lemma_posting_window(data: Seq<u8>, ks: Seq<u32>, ps: Seq<Seq<u8>>, i: nat)
    requires
        i < ks.len(),
        ks.len() == ps.len(),
        data == u32_le(ks.len() as u32) + enc_postings(ks, ps, ks.len()),
        ps[i as int].len() <= u32::MAX,
    ensures
        ({
            let pos: int = 4 + enc_postings(ks, ps, i).len() as int;
            let rlen: int = ps[i as int].len() as int;
            &&& pos + 8 + rlen <= data.len()
            &&& le32_at(data, pos) == ks[i as int]
            &&& le32_at(data, pos + 4) == rlen
            &&& data.subrange(pos + 8, pos + 8 + rlen) == ps[i as int]
            &&& enc_postings(ks, ps, i + 1).len() == enc_postings(ks, ps, i).len() + 8 + rlen
        }),
{
    let n = ks.len();
    let pos: int = 4 + enc_postings(ks, ps, i).len() as int;
    let e = enc_posting(ks[i as int], ps[i as int]);
    lemma_enc_postings_prefix(ks, ps, i + 1, n);
    let full = enc_postings(ks, ps, n);
    let upto = enc_postings(ks, ps, i + 1);
    assert(upto == enc_postings(ks, ps, i) + e);
    assert(data.subrange(pos, pos + e.len() as int) =~= e) by {
        assert(full.subrange(0, upto.len() as int) == upto);
        assert forall|t: int| 0 <= t < e.len() implies data[pos + t] == e[t] by {
            assert(data[pos + t] == full[enc_postings(ks, ps, i).len() + t]);
            assert(full[enc_postings(ks, ps, i).len() + t] == upto[enc_postings(ks, ps, i).len() + t]);
        }
    }
    let rlen: int = ps[i as int].len() as int;
    assert(data.subrange(pos, pos + 4) =~= u32_le(ks[i as int])) by {
        assert(data.subrange(pos, pos + 4) =~= e.subrange(0, 4));
    }
    assert(data.subrange(pos + 4, pos + 8) =~= u32_le(ps[i as int].len() as u32)) by {
        assert(data.subrange(pos + 4, pos + 8) =~= e.subrange(4, 8));
    }
    lemma_u32_le_roundtrip(ks[i as int], data, pos);
    lemma_u32_le_roundtrip(ps[i as int].len() as u32, data, pos + 4);
    assert(data.subrange(pos + 8, pos + 8 + rlen) =~= ps[i as int]) by {
        assert(data.subrange(pos + 8, pos + 8 + rlen) =~= e.subrange(8, 8 + rlen));
        assert(e.subrange(8, 8 + rlen) =~= ps[i as int]);
    }
}

/// Parsing the serialized lists `i..n` adds exactly those codes.
proof fn lemma_parse_postings(data: Seq<u8>, m: Map<u32, Set<u64>>, ks: Seq<u32>, ps: Seq<Seq<u8>>, i: nat)
    requires
        i <= ks.len(),
        ks.len() == ps.len(),
        ks.no_duplicates(),
        ks.to_set() == m.dom(),
        data == u32_le(ks.len() as u32) + enc_postings(ks, ps, ks.len()),
        forall|k: int| 0 <= k < ks.len() ==> #[trigger] ps[k].len() <= u32::MAX,
        forall|k: int| 0 <= k < ks.len() ==> treemap_decode(#[trigger] ps[k]) == Some(m[ks[k]]),
        forall|c: u32| #[trigger] m.dom().contains(c) ==> m[c] != Set::<u64>::empty(),
    ensures
        parse_postings(data, 4 + enc_postings(ks, ps, i).len() as int, (ks.len() - i) as nat, restrict(m, ks.take(i as int)))
            == m,
    decreases ks.len() - i,
{
    let n = ks.len();
    if i == n {
        assert(ks.take(i as int) =~= ks);
        assert(restrict(m, ks) =~= m);
    } else {
        let pos: int = 4 + enc_postings(ks, ps, i).len() as int;
        let rlen: int = ps[i as int].len() as int;
        let upto = enc_postings(ks, ps, i + 1);
        lemma_posting_window(data, ks, ps, i);
        assert(pos + 8 + rlen == 4 + upto.len());
        assert(m.dom().contains(ks[i as int]));
        let acc = restrict(m, ks.take(i as int));
        assert(restrict(m, ks.take(i + 1int)) =~= acc.insert(ks[i as int], m[ks[i as int]])) by {
            assert(ks.take(i + 1int) =~= ks.take(i as int).push(ks[i as int]));
            lemma_push_to_set(ks.take(i as int), ks[i as int]);
        }
        lemma_parse_postings(data, m, ks, ps, i + 1);
    }
}

proof fn lemma_enc_postings_same(ks: Seq<u32>, ps: Seq<Seq<u8>>, qs: Seq<Seq<u8>>, i: nat)
    requires
        i <= ps.len(),
        qs.len() == i + 1,
        ps.len() == i,
        forall|k: int| 0 <= k < i ==> ps[k] == qs[k],
    ensures
        enc_postings(ks, qs, i + 1) == enc_postings(ks, ps, i) + enc_posting(ks[i as int], qs[i as int]),
{
    lemma_enc_postings_agree(ks, ps, qs, i);
}

proof fn lemma_enc_postings_agree(ks: Seq<u32>, ps: Seq<Seq<u8>>, qs: Seq<Seq<u8>>, i: nat)
    requires
        forall|k: int| 0 <= k < i ==> ps[k] == qs[k],
    ensures
        enc_postings(ks, qs, i) == enc_postings(ks, ps, i),
    decreases i,
{
    if i > 0 {
        lemma_enc_postings_agree(ks, ps, qs, (i - 1) as nat);
    }
}

/// `data` is the binary form of `m`: the lists in the order `ks` (each code
/// once), the serialized treemap of each in `ps`.
pub open spec fn serialized_postings(m: Map<u32, Set<u64>>, ks: Seq<u32>, ps: Seq<Seq<u8>>, data: Seq<u8>) -> bool {
    &&& ks.no_duplicates()
    &&& ks.to_set() == m.dom()
    &&& ps.len() == ks.len()
    &&& forall|k: int| 0 <= k < ks.len() ==> treemap_decode(#[trigger] ps[k]) == Some(m[ks[k]])
    &&& forall|k: int| 0 <= k < ks.len() ==> (#[trigger] ps[k]).len() <= 8 + 8212 * m[ks[k]].len()
    &&& data == u32_le(ks.len() as u32) + enc_postings(ks, ps, ks.len())
}

/// The number of lists fits a `u32`, and so does the serialized size that a
/// list of each list's length can take (8 bytes plus 8212 per value).
pub open spec fn postings_small(m: Map<u32, Set<u64>>) -> bool {
    &&& m.dom().len() <= u32::MAX
    &&& forall|c: u32| #[trigger] m.dom().contains(c) ==> 8 + 8212 * m[c].len() <= u32::MAX
}

/// For postings of that size every field of the binary form fits.
pub proof fn lemma_small_postings_fit(m: Map<u32, Set<u64>>, ks: Seq<u32>, ps: Seq<Seq<u8>>, data: Seq<u8>)
    requires
        serialized_postings(m, ks, ps, data),
        postings_small(m),
    ensures
        posting_fields_fit(ks, ps),
{
    ks.unique_seq_to_set();
    assert forall|k: int| 0 <= k < ps.len() implies (#[trigger] ps[k]).len() <= u32::MAX by {
        assert(ks.to_set().contains(ks[k]));
        assert(ps[k].len() <= 8 + 8212 * m[ks[k]].len());
    }
}

/// The count of lists and every treemap's length fit their `u32` fields.
pub open spec fn posting_fields_fit(ks: Seq<u32>, ps: Seq<Seq<u8>>) -> bool {
    ks.len() <= u32::MAX && forall|k: int| 0 <= k < ps.len() ==> (#[trigger] ps[k]).len() <= u32::MAX
}

/// The binary form reads back as the postings, when the count and every
/// treemap's length fit their fields and no list is empty.
pub proof fn lemma_serialized_postings_decode(m: Map<u32, Set<u64>>, ks: Seq<u32>, ps: Seq<Seq<u8>>, data: Seq<u8>)
    requires
        serialized_postings(m, ks, ps, data),
        posting_fields_fit(ks, ps),
        forall|c: u32| #[trigger] m.dom().contains(c) ==> m[c] != Set::<u64>::empty(),
    ensures
        decode_postings(data) == m,
{
    let n = ks.len();
    lemma_enc_postings_len(ks, ps, n);
    assert(ks.take(0) =~= Seq::<u32>::empty());
    assert(restrict(m, ks.take(0)) =~= Map::<u32, Set<u64>>::empty());
    assert(data.subrange(0, 4) =~= u32_le(n as u32));
    lemma_u32_le_roundtrip(n as u32, data, 0);
    lemma_parse_postings(data, m, ks, ps, 0);
    assert(enc_postings(ks, ps, 0) =~= Seq::<u8>::empty());
}

/// The summed list sizes of the codes `ks`.
pub open spec fn sizes_sum(m: Map<u32, Set<u64>>, ks: Seq<u32>) -> nat
    decreases ks.len(),
{
    if ks.len() == 0 {
        0
    } else {
        sizes_sum(m, ks.drop_last()) + m[ks.last()].len()
    }
}

proof fn lemma_sizes_sum_prefix(m: Map<u32, Set<u64>>, ks: Seq<u32>, i: nat)
    requires
        i <= ks.len(),
    ensures
        sizes_sum(m, ks.take(i as int)) <= sizes_sum(m, ks),
    decreases ks.len() - i,
{
    if i < ks.len() {
        lemma_sizes_sum_prefix(m, ks.drop_last(), i);
        assert(ks.drop_last().take(i as int) =~= ks.take(i as int));
    } else {
        assert(ks.take(i as int) =~= ks);
    }
}

proof fn lemma_sizes_sum_remove(m: Map<u32, Set<u64>>, ks: Seq<u32>, j: int)
    requires
        0 <= j < ks.len(),
    ensures
        sizes_sum(m, ks) == sizes_sum(m, ks.remove(j)) + m[ks[j]].len(),
    decreases ks.len(),
{
    if j < ks.len() - 1 {
        lemma_sizes_sum_remove(m, ks.drop_last(), j);
        assert(ks.remove(j).drop_last() =~= ks.drop_last().remove(j));
        assert(ks.remove(j).last() == ks.last());
    } else {
        assert(ks.remove(j) =~= ks.drop_last());
    }
}

/// The summed list sizes do not depend on the order of the codes.
proof fn lemma_sizes_sum_order(m: Map<u32, Set<u64>>, a: Seq<u32>, b: Seq<u32>)
    requires
        a.no_duplicates(),
        b.no_duplicates(),
        a.to_set() == b.to_set(),
    ensures
        sizes_sum(m, a) == sizes_sum(m, b),
    decreases a.len(),
{
    a.unique_seq_to_set();
    b.unique_seq_to_set();
    if a.len() > 0 {
        let x = a.last();
        assert(a.to_set().contains(x));
        assert(b.to_set().contains(x));
        let j = choose|j: int| 0 <= j < b.len() && b[j] == x;
        let a2 = a.drop_last();
        let b2 = b.remove(j);
        assert(a2.no_duplicates());
        assert forall|p: int, q: int| 0 <= p < q < b2.len() implies b2[p] != b2[q] by {
            let p0 = if p < j { p } else { p + 1 };
            let q0 = if q < j { q } else { q + 1 };
            assert(b2[p] == b[p0] && b2[q] == b[q0]);
        }
        assert forall|y: u32| a2.to_set().contains(y) <==> b2.to_set().contains(y) by {
            if a2.to_set().contains(y) {
                let i = choose|i: int| 0 <= i < a2.len() && a2[i] == y;
                assert(a[i] == y);
                assert(y != x);
                assert(b.to_set().contains(y));
                let k = choose|k: int| 0 <= k < b.len() && b[k] == y;
                assert(k != j);
                let k0 = if k < j { k } else { k - 1 };
                assert(b2[k0] == y);
            }
            if b2.to_set().contains(y) {
                let k = choose|k: int| 0 <= k < b2.len() && b2[k] == y;
                let k0 = if k < j { k } else { k + 1 };
                assert(b[k0] == y);
                assert(y != x);
                assert(a.to_set().contains(y));
                let i = choose|i: int| 0 <= i < a.len() && a[i] == y;
                assert(i != a.len() - 1);
                assert(a2[i] == y);
            }
        }
        assert(a2.to_set() =~= b2.to_set());
        lemma_sizes_sum_order(m, a2, b2);
        lemma_sizes_sum_remove(m, b, j);
    }
}

/// The total number of postings: the list sizes summed over the codes.
pub open spec fn postings_total(m: Map<u32, Set<u64>>) -> nat {
    sizes_sum(m, choose|ks: Seq<u32>| ks.no_duplicates() && ks.to_set() == m.dom())
}

/// The lists of `m` that are not empty.
pub open spec fn nonempty_lists(m: Map<u32, Set<u64>>) -> Map<u32, Set<u64>> {
    Map::new(|c: u32| m.dom().contains(c) && m[c] != Set::<u64>::empty(), |c: u32| m[c])
}

/// Dropping empty lists changes no answer: every keyword finds the same
/// documents before and after `compact`.
pub proof fn lemma_compact_keeps_answers(m: Map<u32, Set<u64>>, cs: Set<u32>)
    ensures
        query_set(nonempty_lists(m), cs) == query_set(m, cs),
{
    let a = query_set(nonempty_lists(m), cs);
    let b = query_set(m, cs);
    assert forall|id: u64| a.contains(id) <==> b.contains(id) by {
        if b.contains(id) {
            assert forall|c: u32| #[trigger] cs.contains(c) implies nonempty_lists(m).dom().contains(c)
                && nonempty_lists(m)[c].contains(id) by {
                assert(m.dom().contains(c) && m[c].contains(id));
                assert(m[c] != Set::<u64>::empty()) by {
                    if m[c] == Set::<u64>::empty() {
                        assert(!Set::<u64>::empty().contains(id));
                    }
                }
            }
        }
    }
    assert(a =~= b);
}

/// Whether code `c` has a list in `m` that is not empty.
pub open spec fn list_nonempty(m: Map<u32, Set<u64>>) -> spec_fn(u32) -> bool {
    |c: u32| m.dom().contains(c) && m[c] != Set::<u64>::empty()
}

/// The codes of a finite set, each once, in some order.
proof fn lemma_enumerate_codes(s: Set<u32>) -> (ks: Seq<u32>)
    requires
        s.finite(),
    ensures
        ks.no_duplicates(),
        ks.to_set() == s,
    decreases s.len(),
{
    if s.len() == 0 {
        assert(s =~= Set::<u32>::empty());
        assert(Seq::<u32>::empty().to_set() =~= Set::<u32>::empty());
        Seq::empty()
    } else {
        let x = s.choose();
        let rest = lemma_enumerate_codes(s.remove(x));
        lemma_push_to_set(rest, x);
        assert(!rest.contains(x)) by {
            if rest.contains(x) {
                assert(rest.to_set().contains(x));
            }
        }
        assert(rest.push(x).to_set() =~= s);
        assert forall|i: int, j: int| 0 <= i < j < rest.push(x).len() implies rest.push(x)[i] != rest.push(x)[j] by {
            if j == rest.len() {
                assert(rest.contains(rest[i]));
            }
        }
        rest.push(x)
    }
}

/// Over codes that all have a list, the summed sizes equal those of the
/// non-empty lists among them: an empty list adds nothing.
proof fn lemma_sizes_sum_nonempty(m: Map<u32, Set<u64>>, ks: Seq<u32>)
    requires
        ks.no_duplicates(),
        forall|i: int| 0 <= i < ks.len() ==> m.dom().contains(#[trigger] ks[i]),
    ensures
        sizes_sum(m, ks) == sizes_sum(nonempty_lists(m), ks.filter(list_nonempty(m))),
        ks.filter(list_nonempty(m)).no_duplicates(),
        forall|c: u32| ks.filter(list_nonempty(m)).contains(c) <==> (ks.contains(c) && list_nonempty(m)(c)),
    decreases ks.len(),
{
    reveal(Seq::filter);
    let p = list_nonempty(m);
    if ks.len() > 0 {
        let d = ks.drop_last();
        let x = ks.last();
        assert forall|i: int| 0 <= i < d.len() implies m.dom().contains(#[trigger] d[i]) by {
            assert(d[i] == ks[i]);
        }
        lemma_sizes_sum_nonempty(m, d);
        let fd = d.filter(p);
        assert(ks.filter(p) == if p(x) { fd.push(x) } else { fd });
        assert(!d.contains(x)) by {
            if d.contains(x) {
                let k = choose|k: int| 0 <= k < d.len() && d[k] == x;
                assert(ks[k] == ks[ks.len() - 1]);
            }
        }
        assert forall|c: u32| ks.contains(c) <==> (d.contains(c) || c == x) by {
            if ks.contains(c) {
                let k = choose|k: int| 0 <= k < ks.len() && ks[k] == c;
                if k < ks.len() - 1 {
                    assert(d[k] == c);
                }
            }
            if d.contains(c) {
                let k = choose|k: int| 0 <= k < d.len() && d[k] == c;
                assert(ks[k] == c);
            }
            if c == x {
                assert(ks[ks.len() - 1] == c);
            }
        }
        assert(m.dom().contains(ks[ks.len() - 1]));
        if p(x) {
            let f = fd.push(x);
            assert(f.drop_last() =~= fd);
            assert(nonempty_lists(m)[x] == m[x]);
            assert forall|i: int, j: int| 0 <= i < j < f.len() implies f[i] != f[j] by {
                if j == fd.len() {
                    assert(fd.contains(fd[i]));
                }
            }
            assert forall|c: u32| f.contains(c) <==> (fd.contains(c) || c == x) by {
                if f.contains(c) {
                    let k = choose|k: int| 0 <= k < f.len() && f[k] == c;
                    if k < fd.len() {
                        assert(fd[k] == c);
                    }
                }
                if fd.contains(c) {
                    let k = choose|k: int| 0 <= k < fd.len() && fd[k] == c;
                    assert(f[k] == c);
                }
                if c == x {
                    assert(f[fd.len() as int] == c);
                }
            }
        } else {
            assert(m[x] =~= Set::<u64>::empty());
            assert(m[x].len() == 0);
        }
    }
}

/// Compacting keeps the number of postings: dropping the empty lists of a
/// finite index removes no posting.
pub proof fn lemma_compact_keeps_total(m: Map<u32, Set<u64>>)
    requires
        m.dom().finite(),
    ensures
        postings_total(nonempty_lists(m)) == postings_total(m),
{
    let ks = lemma_enumerate_codes(m.dom());
    assert forall|i: int| 0 <= i < ks.len() implies m.dom().contains(#[trigger] ks[i]) by {
        assert(ks.to_set().contains(ks[i]));
    }
    lemma_sizes_sum_nonempty(m, ks);
    let n = nonempty_lists(m);
    let fs = ks.filter(list_nonempty(m));
    assert forall|c: u32| fs.to_set().contains(c) <==> n.dom().contains(c) by {
        if n.dom().contains(c) {
            assert(ks.to_set().contains(c));
        }
    }
    assert(fs.to_set() =~= n.dom());
    let ka = choose|k: Seq<u32>| k.no_duplicates() && k.to_set() == m.dom();
    lemma_sizes_sum_order(m, ks, ka);
    let kb = choose|k: Seq<u32>| k.no_duplicates() && k.to_set() == n.dom();
    lemma_sizes_sum_order(n, fs, kb);
}

/// `m` with the empty lists of the codes `done` dropped.
pub open spec fn compacted_upto(m: Map<u32, Set<u64>>, done: Seq<u32>) -> Map<u32, Set<u64>> {
    Map::new(
        |c: u32| m.dom().contains(c) && !(done.to_set().contains(c) && m[c] == Set::<u64>::empty()),
        |c: u32| m[c],
    )
}

/// Every trigram code of a keyword is a code of a name whose trigram source
/// holds the keyword's trigram source (three characters or more) at `p`.
pub proof fn lemma_substring_codes(name: Seq<char>, kw: Seq<char>, p: int)
    requires
        name.len() > 0,
        kw.len() > 0,
        code_source(kw).len() >= 3,
        0 <= p,
        p + code_source(kw).len() <= code_source(name).len(),
        code_source(name).subrange(p, p + code_source(kw).len()) == code_source(kw),
    ensures
        forall|c: u32| #[trigger] code_set(kw).contains(c) ==> code_set(name).contains(c),
{
    let ln = code_source(name);
    let lk = code_source(kw);
    assert forall|c: u32| #[trigger] code_set(kw).contains(c) implies code_set(name).contains(c) by {
        let i = choose|i: int| 0 <= i <= lk.len() - 3 && code_at(lk, i) == c;
        assert(lk[i] == ln[p + i]);
        assert(lk[i + 1] == ln[p + i + 1]);
        assert(lk[i + 2] == ln[p + i + 2]);
        assert(code_at(ln, p + i) == c);
    }
}

/// A document added to the index is found by every keyword of three or more
/// characters that its lower-cased name contains.
pub proof fn lemma_added_document_found(m: Map<u32, Set<u64>>, id: u64, name: Seq<char>, kw: Seq<char>, p: int)
    requires
        name.len() > 0,
        kw.len() > 0,
        code_source(kw).len() >= 3,
        0 <= p,
        p + code_source(kw).len() <= code_source(name).len(),
        code_source(name).subrange(p, p + code_source(kw).len()) == code_source(kw),
    ensures
        query_set(with_doc(m, id, code_set(name)), code_set(kw)).contains(id),
{
    lemma_substring_codes(name, kw, p);
}

/// After `build`, a document is found by every keyword of three or more
/// characters that its lower-cased name contains.
pub proof fn lemma_built_document_found(ds: Seq<(u64, Seq<char>)>, k: int, kw: Seq<char>, p: int)
    requires
        0 <= k < ds.len(),
        ds[k].1.len() > 0,
        kw.len() > 0,
        code_source(kw).len() >= 3,
        0 <= p,
        p + code_source(kw).len() <= code_source(ds[k].1).len(),
        code_source(ds[k].1).subrange(p, p + code_source(kw).len()) == code_source(kw),
    ensures
        query_set(postings_of(ds), code_set(kw)).contains(ds[k].0),
{
    lemma_substring_codes(ds[k].1, kw, p);
    assert forall|c: u32| #[trigger] code_set(kw).contains(c) implies postings_of(ds).dom().contains(c)
        && postings_of(ds)[c].contains(ds[k].0) by {
        assert(code_set(ds[k].1).contains(c));
    }
}

/// After `build`, a document is found by every keyword whose Unicode
/// lower-cased form has three or more characters and occurs in the
/// lower-cased name. The premises on ASCII texts are what `to_lowercase`
/// is documented to do, and what its wrapper states at every call.
pub proof fn lemma_built_document_found_lowercase(ds: Seq<(u64, Seq<char>)>, k: int, kw: Seq<char>, p: int)
    requires
        0 <= k < ds.len(),
        ds[k].1.len() > 0,
        kw.len() > 0,
        unicode_lowercase(kw).len() >= 3,
        0 <= p,
        p + unicode_lowercase(kw).len() <= unicode_lowercase(ds[k].1).len(),
        unicode_lowercase(ds[k].1).subrange(p, p + unicode_lowercase(kw).len()) == unicode_lowercase(kw),
        vstd::utf8::is_ascii_chars(ds[k].1) ==> unicode_lowercase(ds[k].1) == ds[k].1.map_values(
            |c: char| crate::text::lower_char(c),
        ),
        vstd::utf8::is_ascii_chars(kw) ==> unicode_lowercase(kw) == kw.map_values(|c: char| crate::text::lower_char(c)),
    ensures
        query_set(postings_of(ds), code_set(kw)).contains(ds[k].0),
{
    assert(code_source(ds[k].1) == unicode_lowercase(ds[k].1));
    assert(code_source(kw) == unicode_lowercase(kw));
    lemma_built_document_found(ds, k, kw, p);
}

/// Removing a document undoes adding it: when no list holds `id` and no
/// list is empty, adding `id` under the codes `cs` and then removing it
/// from them gives back the same postings.
pub proof fn lemma_remove_undoes_add(m: Map<u32, Set<u64>>, id: u64, cs: Set<u32>)
    requires
        forall|c: u32| #[trigger] m.dom().contains(c) ==> !m[c].contains(id) && m[c] != Set::<u64>::empty(),
    ensures
        without_doc(with_doc(m, id, cs), id, cs) == m,
{
    let a = with_doc(m, id, cs);
    let b = without_doc(a, id, cs);
    assert forall|c: u32| b.dom().contains(c) <==> m.dom().contains(c) by {
        if cs.contains(c) {
            if m.dom().contains(c) {
                assert(a[c].remove(id) =~= m[c]);
            } else {
                assert(a[c].remove(id) =~= Set::<u64>::empty());
            }
        }
    }
    assert forall|c: u32| #[trigger] b.dom().contains(c) implies b[c] == m[c] by {
        if cs.contains(c) {
            assert(a[c].remove(id) =~= m[c]);
        }
    }
    assert(b =~= m);
}

impl View for TrigramIndex {
    type V = Map<u32, Set<u64>>;

    closed spec fn view(&self) -> Map<u32, Set<u64>> {
        self.postings@.map_values(|t: RoaringTreemap| treemap_contents(t))
    }
}

impl TrigramIndex {
    /// Every posting list is a well-formed treemap.
    pub closed spec fn lists_valid(&self) -> bool {
        forall|c: u32| #[trigger] self.postings@.dom().contains(c) ==> treemap_valid(self.postings@[c])
    }

    /// No posting list is empty, and each is well formed.
    pub open spec fn wf(&self) -> bool {
        &&& forall|c: u32| #[trigger] self@.dom().contains(c) ==> self@[c] != Set::<u64>::empty()
        &&& self.lists_valid()
    }

    /// An empty index.
    pub fn new() -> (r: Self)
        ensures
            r.wf(),
            r@ == Map::<u32, Set<u64>>::empty(),
    {
        let r = TrigramIndex { postings: HashMap::new() };
        assert(r@ =~= Map::<u32, Set<u64>>::empty());
        r
    }

    /// Adds `id` to the list of one code.
    fn add_to_code(&mut self, code: u32, id: u64)
        requires
            old(self).wf(),
        ensures
            final(self).wf(),
            final(self)@ == with_doc(old(self)@, id, set![code]),
    {
        let cur = self.postings.remove(&code);
        let mut t = match cur {
            Some(t) => t,
            None => treemap_new(),
        };
        treemap_insert(&mut t, id);
        assert(treemap_contents(t).contains(id));
        self.postings.insert(code, t);
        assert(self@ =~= with_doc(old(self)@, id, set![code]));
    }

    /// Takes `id` out of the list of one code, dropping the list if it empties.
    fn remove_from_code(&mut self, code: u32, id: u64)
        requires
            old(self).wf(),
        ensures
            final(self).wf(),
            final(self)@ == without_doc(old(self)@, id, set![code]),
    {
        let cur = self.postings.remove(&code);
        match cur {
            Some(t) => {
                let mut t = t;
                treemap_remove(&mut t, id);
                if !treemap_is_empty(&t) {
                    self.postings.insert(code, t);
                }
            },
            None => {},
        }
        assert(self@ =~= without_doc(old(self)@, id, set![code]));
    }

    /// Adds document `id` under every trigram code of `name`.
    pub fn add_document(&mut self, doc_id: u64, name: &str)
        requires
            old(self).wf(),
        ensures
            final(self).wf(),
            final(self)@ == with_doc(old(self)@, doc_id, code_set(name@)),
    {
        let codes = trigram_codes(name);
        let ghost start = self@;
        let mut j: usize = 0;
        while j < codes.len()
            invariant
                self.wf(),
                j <= codes@.len(),
                self@ == with_doc(start, doc_id, codes@.subrange(0, j as int).to_set()),
            decreases codes@.len() - j,
        {
            let ghost before = self@;
            self.add_to_code(codes[j], doc_id);
            proof {
                let s0 = codes@.subrange(0, j as int).to_set();
                let s1 = codes@.subrange(0, j + 1).to_set();
                assert(codes@.subrange(0, j + 1) =~= codes@.subrange(0, j as int).push(codes@[j as int]));
                lemma_push_to_set(codes@.subrange(0, j as int), codes@[j as int]);
                lemma_with_doc_step(start, doc_id, s0, codes@[j as int]);
            }
            j += 1;
        }
        proof {
            assert(codes@.subrange(0, codes@.len() as int) =~= codes@);
            assert(codes@.to_set() =~= code_set(name@));
        }
    }

    /// Takes document `id` out of the list of every trigram code of `name`.
    pub fn remove_document(&mut self, doc_id: u64, name: &str)
        requires
            old(self).wf(),
        ensures
            final(self).wf(),
            final(self)@ == without_doc(old(self)@, doc_id, code_set(name@)),
    {
        let codes = trigram_codes(name);
        let ghost start = self@;
        let mut j: usize = 0;
        while j < codes.len()
            invariant
                self.wf(),
                j <= codes@.len(),
                self@ == without_doc(start, doc_id, codes@.subrange(0, j as int).to_set()),
            decreases codes@.len() - j,
        {
            self.remove_from_code(codes[j], doc_id);
            proof {
                let s0 = codes@.subrange(0, j as int).to_set();
                let s1 = codes@.subrange(0, j + 1).to_set();
                assert(codes@.subrange(0, j + 1) =~= codes@.subrange(0, j as int).push(codes@[j as int]));
                lemma_push_to_set(codes@.subrange(0, j as int), codes@[j as int]);
                lemma_without_doc_step(start, doc_id, s0, codes@[j as int]);
            }
            j += 1;
        }
        proof {
            assert(codes@.subrange(0, codes@.len() as int) =~= codes@);
            assert(codes@.to_set() =~= code_set(name@));
        }
    }

    /// Removes every posting list.
    pub fn clear(&mut self)
        ensures
            final(self).wf(),
            final(self)@ == Map::<u32, Set<u64>>::empty(),
    {
        self.postings.clear();
        assert(self@ =~= Map::<u32, Set<u64>>::empty());
    }

    /// The number of distinct trigram codes.
    pub fn trigram_count(&self) -> (r: u64)
        ensures
            r == self@.dom().len(),
    {
        let n = self.postings.len();
        assert(self@.dom() =~= self.postings@.dom());
        n as u64
    }

    /// The codes that have a posting list, each once.
    fn keys_vec(&self) -> (r: Vec<u32>)
        ensures
            r@.no_duplicates(),
            r@.to_set() == self@.dom(),
    {
        let mut v: Vec<u32> = Vec::new();
        for k in it: self.postings.keys()
            invariant
                v@ == it.seq().take(it.index()).unref(),
                it.seq() == vstd::std_specs::hash::spec_keys_iter(&self.postings).remaining(),
        {
            v.push(*k);
            assert(v@ =~= it.seq().take(it.index() + 1).unref());
        }
        proof {
            let ks = vstd::std_specs::hash::spec_keys_iter(&self.postings).remaining().unref();
            assert(ks.to_set() == self.postings@.dom());
            assert(v@ == ks);
            assert(self@.dom() =~= self.postings@.dom());
        }
        v
    }

    /// Rebuilds the index from `(id, name)` documents: each code lists the
    /// documents whose name has it.
    pub fn build(&mut self, docs: &[(u64, &str)])
        ensures
            final(self).wf(),
            final(self)@ == postings_of(docs_view(docs@)),
    {
        if docs.len() == 0 {
            self.clear();
            assert(postings_of(docs_view(docs@)) =~= Map::<u32, Set<u64>>::empty());
            return;
        }
        let mut fresh = TrigramIndex::new();
        let ghost dv = docs_view(docs@);
        let mut i: usize = 0;
        proof {
            assert(postings_of(dv.take(0)) =~= Map::<u32, Set<u64>>::empty());
        }
        while i < docs.len()
            invariant
                dv == docs_view(docs@),
                i <= docs@.len(),
                fresh.wf(),
                fresh@ == postings_of(dv.take(i as int)),
            decreases docs@.len() - i,
        {
            let (id, name) = docs[i];
            fresh.add_document(id, name);
            proof {
                assert(dv[i as int] == (id, name@));
                assert(dv.take(i + 1) =~= dv.take(i as int).push((id, name@)));
                lemma_postings_push(dv.take(i as int), id, name@);
            }
            i += 1;
        }
        assert(dv.take(docs@.len() as int) =~= dv);
        self.postings = fresh.postings;
    }

    /// Looks `code` up; `None` when it has no list.
    fn list_of(&self, code: u32) -> (r: Option<&RoaringTreemap>)
        requires
            self.wf(),
        ensures
            match r {
                Some(t) => self@.dom().contains(code) && treemap_contents(*t) == self@[code]
                    && treemap_valid(*t),
                None => !self@.dom().contains(code),
            },
    {
        self.postings.get(&code)
    }

    /// The documents listed under every trigram code of `keyword`; `None`
    /// when the keyword has no trigram code (it is empty).
    pub fn query_bitmap(&self, keyword: &str) -> (r: Option<RoaringTreemap>)
        requires
            self.wf(),
        ensures
            match r {
                None => code_set(keyword@) == Set::<u32>::empty(),
                Some(t) => code_set(keyword@) != Set::<u32>::empty() && treemap_valid(t)
                    && treemap_contents(t) == query_set(self@, code_set(keyword@)),
            },
            r is None <==> keyword@.len() == 0,
    {
        let codes = trigram_codes(keyword);
        proof {
            assert(codes@.to_set() =~= code_set(keyword@));
        }
        if codes.len() == 0 {
            assert(code_set(keyword@) =~= Set::<u32>::empty());
            return None;
        }
        assert(code_set(keyword@).contains(codes@[0]));
        let mut best: usize = 0;
        let mut best_len: u64 = 0;
        let mut j: usize = 0;
        while j < codes.len()
            invariant
                codes@.to_set() == code_set(keyword@),
                j <= codes@.len(),
                codes@.len() > 0,
                code_set(keyword@).contains(codes@[0]),
                best < codes@.len(),
                j > 0 ==> best < j,
                forall|k: int| 0 <= k < j ==> self@.dom().contains(#[trigger] codes@[k]),
                self.wf(),
            decreases codes@.len() - j,
        {
            match self.list_of(codes[j]) {
                None => {
                    let empty = treemap_new();
                    assert(query_set(self@, code_set(keyword@)) =~= Set::<u64>::empty()) by {
                        assert(code_set(keyword@).contains(codes@[j as int]));
                    }
                    return Some(empty);
                },
                Some(t) => {
                    let l = treemap_len(t);
                    if j == 0 || l < best_len {
                        best = j;
                        best_len = l;
                    }
                },
            }
            j += 1;
        }
        let mut acc = match self.list_of(codes[best]) {
            Some(t) => treemap_clone(t),
            None => treemap_new(),
        };
        let ghost m = self@;
        let mut j: usize = 0;
        while j < codes.len()
            invariant
                m == self@,
                self.wf(),
                treemap_valid(acc),
                codes@.to_set() == code_set(keyword@),
                j <= codes@.len(),
                best < codes@.len(),
                forall|k: int| 0 <= k < codes@.len() ==> m.dom().contains(#[trigger] codes@[k]),
                forall|id: u64| treemap_contents(acc).contains(id) <==> (m[codes@[best as int]].contains(id)
                    && forall|k: int| 0 <= k < j ==> #[trigger] m[codes@[k]].contains(id)),
            ensures
                m == self@,
                self.wf(),
                treemap_valid(acc),
                codes@.to_set() == code_set(keyword@),
                j <= codes@.len(),
                best < codes@.len(),
                forall|k: int| 0 <= k < codes@.len() ==> m.dom().contains(#[trigger] codes@[k]),
                forall|id: u64| treemap_contents(acc).contains(id) <==> (m[codes@[best as int]].contains(id)
                    && forall|k: int| 0 <= k < j ==> #[trigger] m[codes@[k]].contains(id)),
                j == codes@.len() || treemap_contents(acc) == Set::<u64>::empty(),
            decreases codes@.len() - j,
        {
            if treemap_is_empty(&acc) {
                break;
            }
            if j != best {
                match self.list_of(codes[j]) {
                    Some(t) => treemap_and_assign(&mut acc, t),
                    None => {},
                }
            }
            proof {
                assert forall|id: u64| treemap_contents(acc).contains(id) <==> (m[codes@[best as int]].contains(id)
                    && forall|k: int| 0 <= k < j + 1 ==> #[trigger] m[codes@[k]].contains(id)) by {
                    if m[codes@[best as int]].contains(id) && (forall|k: int| 0 <= k < j ==> #[trigger] m[codes@[k]].contains(id)) && m[codes@[j as int]].contains(id) {
                        assert forall|k: int| 0 <= k < j + 1 implies #[trigger] m[codes@[k]].contains(id) by {
                            if k == j {
                            }
                        }
                    }
                }
            }
            j += 1;
        }
        proof {
            let q = query_set(m, code_set(keyword@));
            assert forall|id: u64| treemap_contents(acc).contains(id) <==> q.contains(id) by {
                if q.contains(id) {
                    assert forall|k: int| 0 <= k < codes@.len() implies #[trigger] m[codes@[k]].contains(id) by {
                        assert(code_set(keyword@).contains(codes@[k]));
                    }
                    assert(code_set(keyword@).contains(codes@[best as int]));
                }
                if treemap_contents(acc).contains(id) {
                    assert(j == codes@.len());
                    assert forall|c: u32| #[trigger] code_set(keyword@).contains(c) implies m.dom().contains(c)
                        && m[c].contains(id) by {
                        assert(codes@.contains(c));
                        let k = choose|k: int| 0 <= k < codes@.len() && codes@[k] == c;
                        assert(m[codes@[k]].contains(id));
                    }
                }
            }
            assert(treemap_contents(acc) =~= q);
        }
        Some(acc)
    }

    /// The ids of `query_bitmap`, in increasing order; empty when the
    /// keyword has no trigram code.
    pub fn query(&self, keyword: &str) -> (r: Vec<u64>)
        requires
            self.wf(),
        ensures
            forall|i: int, j: int| 0 <= i < j < r@.len() ==> r@[i] < r@[j],
            forall|id: u64| r@.contains(id) <==> (code_set(keyword@) != Set::<u32>::empty()
                && query_set(self@, code_set(keyword@)).contains(id)),
    {
        match self.query_bitmap(keyword) {
            Some(rt) => treemap_to_vec(&rt),
            None => Vec::new(),
        }
    }

    /// Replaces the contents of `out` with the result of `query`.
    pub fn query_into(&self, keyword: &str, out: &mut Vec<u64>)
        requires
            self.wf(),
        ensures
            forall|i: int, j: int| 0 <= i < j < final(out)@.len() ==> final(out)@[i] < final(out)@[j],
            forall|id: u64| final(out)@.contains(id) <==> (code_set(keyword@) != Set::<u32>::empty()
                && query_set(self@, code_set(keyword@)).contains(id)),
    {
        out.clear();
        let ids = self.query(keyword);
        let mut i: usize = 0;
        while i < ids.len()
            invariant
                i <= ids@.len(),
                out@ == ids@.subrange(0, i as int),
            decreases ids@.len() - i,
        {
            out.push(ids[i]);
            i += 1;
            assert(out@ =~= ids@.subrange(0, i as int));
        }
        assert(ids@.subrange(0, ids@.len() as int) =~= ids@);
    }

    /// Drops empty posting lists (there are none in a well-formed index).
    pub fn compact(&mut self)
        requires
            old(self).lists_valid(),
        ensures
            final(self).wf(),
            final(self)@ == nonempty_lists(old(self)@),
            old(self).wf() ==> final(self)@ == old(self)@,
    {
        let keys = self.keys_vec();
        let ghost start = self@;
        let mut i: usize = 0;
        while i < keys.len()
            invariant
                keys@.no_duplicates(),
                keys@.to_set() == start.dom(),
                i <= keys@.len(),
                self@ == compacted_upto(start, keys@.take(i as int)),
                self.lists_valid(),
            decreases keys@.len() - i,
        {
            let code = keys[i];
            let ghost before = self@;
            assert(start.dom().contains(code)) by {
                assert(keys@.to_set().contains(keys@[i as int]));
            }
            assert(!keys@.take(i as int).contains(code)) by {
                if keys@.take(i as int).contains(code) {
                    let j = choose|j: int| 0 <= j < i && keys@.take(i as int)[j] == code;
                    assert(keys@[j] == keys@[i as int]);
                }
            }
            assert(before.dom().contains(code) && before[code] == start[code]);
            let ghost pre = self.postings@;
            let cur = self.postings.remove(&code);
            match cur {
                Some(t) => {
                    assert(treemap_contents(t) == start[code]);
                    if !treemap_is_empty(&t) {
                        self.postings.insert(code, t);
                        assert(self@ =~= before);
                    } else {
                        assert(self@ =~= before.remove(code));
                    }
                },
                None => {
                    assert(!pre.dom().contains(code));
                },
            }
            proof {
                lemma_push_to_set(keys@.take(i as int), code);
                assert(keys@.take(i + 1) =~= keys@.take(i as int).push(code));
                assert(self@ =~= compacted_upto(start, keys@.take(i + 1)));
            }
            i += 1;
        }
        proof {
            assert(keys@.take(keys@.len() as int) =~= keys@);
            assert(self@ =~= nonempty_lists(start));
            assert(self.wf());
        }
    }

    /// The binary form: a little-endian `u32` count of lists, then per list
    /// its code, the length of its serialized treemap, and the treemap (see
    /// `serialized_postings`). When the count and every treemap's length fit
    /// their `u32` fields, `decode_postings` reads back exactly the index.
    pub fn serialize(&self) -> (r: Vec<u8>)
        requires
            self.wf(),
        ensures
            exists|ks: Seq<u32>, ps: Seq<Seq<u8>>| #[trigger] serialized_postings(self@, ks, ps, r@)
                && (posting_fields_fit(ks, ps) ==> decode_postings(r@) == self@),
            postings_small(self@) ==> decode_postings(r@) == self@,
    {
        let keys = self.keys_vec();
        let mut buf: Vec<u8> = Vec::new();
        let n = keys.len();
        push_u32_le(&mut buf, n as u32);
        let ghost mut ps: Seq<Seq<u8>> = Seq::empty();
        let ghost ks = keys@;
        let mut i: usize = 0;
        while i < n
            invariant
                n == keys@.len(),
                ks == keys@,
                ks.no_duplicates(),
                ks.to_set() == self@.dom(),
                i <= n,
                ps.len() == i,
                buf@ == u32_le(n as u32) + enc_postings(ks, ps, i as nat),
                forall|k: int| 0 <= k < i ==> treemap_decode(#[trigger] ps[k]) == Some(self@[ks[k]]),
                forall|k: int| 0 <= k < i ==> (#[trigger] ps[k]).len() <= 8 + 8212 * self@[ks[k]].len(),
                self.wf(),
            decreases n - i,
        {
            let code = keys[i];
            assert(self@.dom().contains(code)) by {
                assert(ks.to_set().contains(ks[i as int]));
            }
            let tmp = match self.list_of(code) {
                Some(t) => treemap_serialize(t),
                None => Vec::new(),
            };
            push_u32_le(&mut buf, code);
            push_u32_le(&mut buf, tmp.len() as u32);
            push_bytes(&mut buf, tmp.as_slice());
            let ghost old_ps = ps;
            proof {
                ps = ps.push(tmp@);
                assert(enc_postings(ks, ps, (i + 1) as nat) =~= enc_postings(ks, old_ps, i as nat) + enc_posting(code, tmp@)) by {
                    lemma_enc_postings_same(ks, old_ps, ps, i as nat);
                }
                assert(buf@ =~= u32_le(n as u32) + enc_postings(ks, ps, (i + 1) as nat));
            }
            i += 1;
        }
        proof {
            assert(serialized_postings(self@, ks, ps, buf@));
            if posting_fields_fit(ks, ps) {
                lemma_serialized_postings_decode(self@, ks, ps, buf@);
            }
            if postings_small(self@) {
                lemma_small_postings_fit(self@, ks, ps, buf@);
                lemma_serialized_postings_decode(self@, ks, ps, buf@);
            }
        }
        buf
    }

    /// Replaces the index with the postings that `data` holds (see
    /// `decode_postings`): fewer than 4 bytes give an empty index, a list
    /// that does not fit ends the reading, and lists that do not decode or
    /// decode to an empty set are skipped.
    pub fn deserialize(&mut self, data: &[u8])
        ensures
            final(self).wf(),
            final(self)@ == decode_postings(data@),
    {
        if data.len() < 4 {
            self.clear();
            return;
        }
        let count = read_u32_le(data, 0);
        let mut postings: HashMap<u32, RoaringTreemap> = HashMap::new();
        let mut pos: usize = 4;
        let mut k: u32 = 0;
        let ghost target = decode_postings(data@);
        let dl = data.len();
        assert(postings@.map_values(|t: RoaringTreemap| treemap_contents(t)) =~= Map::<u32, Set<u64>>::empty());
        while k < count
            invariant
                dl == data@.len(),
                4 <= pos <= data@.len(),
                k <= count,
                count == le32_at(data@, 0),
                target == decode_postings(data@),
                data@.len() >= 4,
                forall|c: u32| #[trigger] postings@.dom().contains(c) ==> treemap_contents(postings@[c]) != Set::<u64>::empty(),
                forall|c: u32| #[trigger] postings@.dom().contains(c) ==> treemap_valid(postings@[c]),
                target == parse_postings(data@, pos as int, (count - k) as nat,
                    postings@.map_values(|t: RoaringTreemap| treemap_contents(t))),
            ensures
                forall|c: u32| #[trigger] postings@.dom().contains(c) ==> treemap_contents(postings@[c]) != Set::<u64>::empty(),
                forall|c: u32| #[trigger] postings@.dom().contains(c) ==> treemap_valid(postings@[c]),
                target == postings@.map_values(|t: RoaringTreemap| treemap_contents(t)),
            decreases count - k,
        {
            if dl - pos < 8 {
                break;
            }
            let code = read_u32_le(data, pos);
            let rlen = read_u32_le(data, pos + 4) as usize;
            let start = pos + 8;
            if rlen > dl - start {
                break;
            }
            let slice = &data[start..start + rlen];
            let ghost before = postings@.map_values(|t: RoaringTreemap| treemap_contents(t));
            match treemap_from_bytes(slice) {
                Some(rt) => {
                    if !treemap_is_empty(&rt) {
                        postings.insert(code, rt);
                        assert(postings@.map_values(|t: RoaringTreemap| treemap_contents(t)) =~= before.insert(code, treemap_contents(rt)));
                    }
                },
                None => {},
            }
            pos = start + rlen;
            k += 1;
        }
        self.postings = postings;
    }

    /// The total number of postings over all lists.
    pub fn posting_count_sum(&self) -> (r: u64)
        requires
            self.wf(),
            postings_total(self@) <= u64::MAX,
        ensures
            r == postings_total(self@),
    {
        let keys = self.keys_vec();
        let mut total: u64 = 0;
        let mut i: usize = 0;
        proof {
            let ks = choose|ks: Seq<u32>| ks.no_duplicates() && ks.to_set() == self@.dom();
            assert(keys@.no_duplicates() && keys@.to_set() == self@.dom());
            lemma_sizes_sum_order(self@, keys@, ks);
        }
        assert(sizes_sum(self@, keys@) <= u64::MAX);
        while i < keys.len()
            invariant
                i <= keys@.len(),
                keys@.no_duplicates(),
                keys@.to_set() == self@.dom(),
                sizes_sum(self@, keys@) <= u64::MAX,
                total == sizes_sum(self@, keys@.take(i as int)),
                self.wf(),
            decreases keys@.len() - i,
        {
            let code = keys[i];
            assert(self@.dom().contains(code)) by {
                assert(keys@.to_set().contains(keys@[i as int]));
            }
            let l = match self.list_of(code) {
                Some(t) => treemap_len(t),
                None => 0,
            };
            proof {
                assert(keys@.take(i + 1).drop_last() =~= keys@.take(i as int));
                lemma_sizes_sum_prefix(self@, keys@, (i + 1) as nat);
            }
            total = total + l;
            i += 1;
        }
        assert(keys@.take(keys@.len() as int) =~= keys@);
        proof {
            let ks = choose|ks: Seq<u32>| ks.no_duplicates() && ks.to_set() == self@.dom();
            lemma_sizes_sum_order(self@, keys@, ks);
        }
        total
    }
}

impl Default for TrigramIndex {
    /// An empty index.
    fn default() -> (r: Self)
        ensures
            r.wf(),
            r@ == Map::<u32, Set<u64>>::empty(),
    {
        TrigramIndex::new()
    }
}

} // verus!
