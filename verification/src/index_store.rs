//! The in-memory document store searched at query time: the documents in
//! a vector, a path index and an id index into it, and the trigram and
//! bitmap indexes over the same documents.

use std::collections::HashMap;
use vstd::prelude::*;
use crate::bitmap::{BitmapIndex, BitmapModel, bitmap_add, bitmap_remove, bitmap_of, bitmap_docs_view, bitmap_empty,
    bitmap_set, lemma_bitmap_of_is_set, lemma_bitmap_set_remove, lemma_bitmap_set_same_elements};
use crate::codes::code_set;
use crate::text::ascii_lower_chars;
use crate::models::{FileDocument, DocView, docs_seq, copy_docs};
use crate::hashindex::PathIndex;
use crate::trigram::{TrigramIndex, with_doc, without_doc, postings_of, docs_view, lemma_postings_push,
    lemma_postings_remove, lemma_postings_same_elements};

verus! {

broadcast use vstd::std_specs::hash::group_hash_axioms;

/// What a store holds: its documents in order, the position of each path
/// and the position of each id.
pub struct StoreModel {
    pub docs: Seq<DocView>,
    pub paths: Map<Seq<char>, usize>,
    pub ids: Map<u64, usize>,
}

/// Every path and id points at a document that has it.
pub open spec fn model_wf(m: StoreModel) -> bool {
    &&& forall|p: Seq<char>| #[trigger] m.paths.dom().contains(p) ==> m.paths[p] < m.docs.len()
        && m.docs[m.paths[p] as int].path == p
    &&& forall|id: u64| #[trigger] m.ids.dom().contains(id) ==> m.ids[id] < m.docs.len()
        && m.docs[m.ids[id] as int].id == id
}

/// The position of each path, a later document winning.
pub open spec fn path_map_of(ds: Seq<DocView>) -> Map<Seq<char>, usize>
    decreases ds.len(),
{
    if ds.len() == 0 {
        Map::empty()
    } else {
        path_map_of(ds.drop_last()).insert(ds.last().path, (ds.len() - 1) as usize)
    }
}

/// The position of each id, a later document winning.
pub open spec fn id_map_of(ds: Seq<DocView>) -> Map<u64, usize>
    decreases ds.len(),
{
    if ds.len() == 0 {
        Map::empty()
    } else {
        id_map_of(ds.drop_last()).insert(ds.last().id, (ds.len() - 1) as usize)
    }
}

/// The `(id, lower-cased name)` pairs the trigram index is built from.
pub open spec fn name_pairs(ds: Seq<DocView>) -> Seq<(u64, Seq<char>)> {
    ds.map_values(|d: DocView| (d.id, d.name_lower))
}

/// The `(id, extension, is_dir)` triples the bitmap index is built from.
pub open spec fn ext_triples(ds: Seq<DocView>) -> Seq<(u64, Seq<char>, bool)> {
    ds.map_values(|d: DocView| (d.id, d.extension, d.is_dir))
}

/// The store after inserting `d`, or replacing the document with its path.
pub open spec fn upsert_model(m: StoreModel, d: DocView) -> StoreModel {
    if m.paths.dom().contains(d.path) {
        let idx = m.paths[d.path];
        StoreModel {
            docs: m.docs.update(idx as int, d),
            paths: m.paths,
            ids: m.ids.remove(m.docs[idx as int].id).insert(d.id, idx),
        }
    } else {
        let idx = m.docs.len() as usize;
        StoreModel {
            docs: m.docs.push(d),
            paths: m.paths.insert(d.path, idx),
            ids: m.ids.insert(d.id, idx),
        }
    }
}

/// The store after removing the document with path `p`: the last document
/// moves into its place.
pub open spec fn remove_model(m: StoreModel, p: Seq<char>) -> StoreModel {
    if !m.paths.dom().contains(p) {
        m
    } else {
        let idx = m.paths[p];
        let last = m.docs.len() - 1;
        let rem = m.docs[idx as int];
        if idx == last {
            StoreModel { docs: m.docs.drop_last(), paths: m.paths.remove(p), ids: m.ids.remove(rem.id) }
        } else {
            let moved = m.docs[last];
            StoreModel {
                docs: m.docs.update(idx as int, moved).drop_last(),
                paths: m.paths.remove(p).insert(moved.path, idx),
                ids: m.ids.remove(rem.id).insert(moved.id, idx),
            }
        }
    }
}

/// After an upsert the document is found by its path and by its id.
pub proof fn lemma_upsert_then_found(m: StoreModel, d: DocView)
    requires
        model_wf(m),
        m.docs.len() <= usize::MAX,
    ensures
        ({
            let m2 = upsert_model(m, d);
            &&& model_wf(m2)
            &&& m2.paths.dom().contains(d.path)
            &&& m2.docs[m2.paths[d.path] as int] == d
            &&& m2.ids.dom().contains(d.id)
            &&& m2.docs[m2.ids[d.id] as int] == d
        }),
{
    lemma_upsert_wf(m, d);
}

/// Upserting a path already present keeps the number of documents.
pub proof fn lemma_upsert_existing_keeps_len(m: StoreModel, d: DocView)
    requires
        model_wf(m),
        m.paths.dom().contains(d.path),
    ensures
        upsert_model(m, d).docs.len() == m.docs.len(),
{
}

/// A removal takes out exactly one document when the path was present, and
/// the path is then gone unless the document moved into the freed place
/// had the same path; an unknown path changes nothing.
pub proof fn lemma_remove_then_absent(m: StoreModel, p: Seq<char>)
    requires
        model_wf(m),
    ensures
        ({
            let m2 = remove_model(m, p);
            &&& model_wf(m2)
            &&& m.paths.dom().contains(p) ==> m2.docs.len() == m.docs.len() - 1
                && (m2.paths.dom().contains(p) <==> (m.paths[p] != m.docs.len() - 1 && m.docs.last().path == p))
            &&& !m.paths.dom().contains(p) ==> m2 == m
        }),
{
    lemma_remove_wf(m, p);
}

/// No two documents share an id.
pub open spec fn ids_distinct(ds: Seq<DocView>) -> bool {
    forall|i: int, j: int| 0 <= i < j < ds.len() ==> ds[i].id != ds[j].id
}

/// The trigram index of the store after an upsert, as `upsert` computes it.
pub open spec fn upsert_trigrams(m: StoreModel, t: Map<u32, Set<u64>>, d: DocView) -> Map<u32, Set<u64>> {
    if m.paths.dom().contains(d.path) {
        let old_doc = m.docs[m.paths[d.path] as int];
        with_doc(without_doc(t, old_doc.id, code_set(old_doc.name_lower)), d.id, code_set(d.name_lower))
    } else {
        with_doc(t, d.id, code_set(d.name_lower))
    }
}

/// The trigram index keeps answering for the documents held: when it holds
/// the postings of the documents and no two documents share an id,
/// upserting a document whose id only the document it replaces may have
/// leaves it holding the postings of the new documents, ids still distinct.
pub proof fn lemma_upsert_keeps_trigrams(m: StoreModel, t: Map<u32, Set<u64>>, d: DocView)
    requires
        model_wf(m),
        m.docs.len() <= usize::MAX,
        ids_distinct(m.docs),
        t == postings_of(name_pairs(m.docs)),
        forall|k: int| 0 <= k < m.docs.len() && #[trigger] m.docs[k].id == d.id ==> m.paths.dom().contains(d.path)
            && k == m.paths[d.path],
    ensures
        upsert_trigrams(m, t, d) == postings_of(name_pairs(upsert_model(m, d).docs)),
        ids_distinct(upsert_model(m, d).docs),
{
    let np = name_pairs(m.docs);
    let m2 = upsert_model(m, d);
    let e = (d.id, d.name_lower);
    if m.paths.dom().contains(d.path) {
        let idx = m.paths[d.path] as int;
        assert(np[idx] == (m.docs[idx].id, m.docs[idx].name_lower));
        assert forall|j: int| 0 <= j < np.len() && j != idx implies np[j].0 != np[idx].0 by {
            assert(np[j].0 == m.docs[j].id);
            if j < idx {
                assert(m.docs[j].id != m.docs[idx].id);
            } else {
                assert(m.docs[idx].id != m.docs[j].id);
            }
        }
        lemma_postings_remove(np, idx);
        lemma_postings_push(np.remove(idx), d.id, d.name_lower);
        let np2 = name_pairs(m2.docs);
        assert forall|x: (u64, Seq<char>)| np2.contains(x) <==> np.remove(idx).push(e).contains(x) by {
            if np2.contains(x) {
                let k = choose|k: int| 0 <= k < np2.len() && np2[k] == x;
                if k == idx {
                    assert(np.remove(idx).push(e)[np.len() - 1] == x);
                } else {
                    let k0 = if k < idx { k } else { k - 1 };
                    assert(np.remove(idx).push(e)[k0] == np[k]);
                }
            }
            if np.remove(idx).push(e).contains(x) {
                let k = choose|k: int| 0 <= k < np.len() && np.remove(idx).push(e)[k] == x;
                if k == np.len() - 1 {
                    assert(np2[idx] == x);
                } else {
                    let k0 = if k < idx { k } else { k + 1 };
                    assert(np2[k0] == x);
                }
            }
        }
        lemma_postings_same_elements(np2, np.remove(idx).push(e));
        assert forall|i: int, j: int| 0 <= i < j < m2.docs.len() implies m2.docs[i].id != m2.docs[j].id by {
            if i != idx && j != idx {
            }
        }
    } else {
        assert(name_pairs(m2.docs) =~= np.push(e));
        lemma_postings_push(np, d.id, d.name_lower);
    }
}

/// The trigram index keeps answering for the documents held after a
/// removal, when no two documents share an id.
pub proof fn lemma_remove_keeps_trigrams(m: StoreModel, t: Map<u32, Set<u64>>, p: Seq<char>)
    requires
        model_wf(m),
        ids_distinct(m.docs),
        t == postings_of(name_pairs(m.docs)),
        m.paths.dom().contains(p),
    ensures
        ({
            let rem = m.docs[m.paths[p] as int];
            without_doc(t, rem.id, code_set(rem.name_lower)) == postings_of(name_pairs(remove_model(m, p).docs))
        }),
        ids_distinct(remove_model(m, p).docs),
{
    let np = name_pairs(m.docs);
    let idx = m.paths[p] as int;
    let m2 = remove_model(m, p);
    let last = m.docs.len() - 1;
    assert forall|j: int| 0 <= j < np.len() && j != idx implies np[j].0 != np[idx].0 by {
        if j < idx {
            assert(m.docs[j].id != m.docs[idx].id);
        } else {
            assert(m.docs[idx].id != m.docs[j].id);
        }
    }
    lemma_postings_remove(np, idx);
    let np2 = name_pairs(m2.docs);
    let r = np.remove(idx);
    assert forall|x: (u64, Seq<char>)| np2.contains(x) <==> r.contains(x) by {
        if np2.contains(x) {
            let k = choose|k: int| 0 <= k < np2.len() && np2[k] == x;
            if idx != last && k == idx {
                assert(r[last - 1] == np[last]);
            } else {
                let k0 = if k < idx { k } else { k - 1 };
                if k > idx {
                    assert(r[k - 1] == np[k]);
                } else {
                    assert(r[k] == np[k]);
                }
            }
        }
        if r.contains(x) {
            let k = choose|k: int| 0 <= k < r.len() && r[k] == x;
            let k0 = if k < idx { k } else { k + 1 };
            assert(r[k] == np[k0]);
            if k0 == last && idx != last {
                assert(np2[idx] == x);
            } else {
                assert(np2[k0] == x);
            }
        }
    }
    lemma_postings_same_elements(np2, r);
    assert forall|i: int, j: int| 0 <= i < j < m2.docs.len() implies m2.docs[i].id != m2.docs[j].id by {
        if idx != last {
            if i == idx {
                assert(m2.docs[i] == m.docs[last]);
            } else if j == idx {
                assert(m2.docs[j] == m.docs[last]);
            }
        }
    }
}

/// The bitmap index of the store after an upsert, as `upsert` computes it.
pub open spec fn upsert_bitmaps(m: StoreModel, b: BitmapModel, d: DocView) -> BitmapModel {
    if m.paths.dom().contains(d.path) {
        let old_doc = m.docs[m.paths[d.path] as int];
        bitmap_add(bitmap_remove(b, old_doc.id, old_doc.extension), d.id, d.extension, d.is_dir)
    } else {
        bitmap_add(b, d.id, d.extension, d.is_dir)
    }
}

/// Adding a document to the bitmap sets of a list gives the bitmap sets of
/// the list with the document appended.
proof fn lemma_bitmap_set_push(ds: Seq<(u64, Seq<char>, bool)>, e: (u64, Seq<char>, bool))
    ensures
        bitmap_add(bitmap_set(ds), e.0, e.1, e.2) == bitmap_set(ds.push(e)),
{
    lemma_bitmap_of_is_set(ds);
    lemma_bitmap_of_is_set(ds.push(e));
    assert(ds.push(e).drop_last() =~= ds);
}

/// The bitmap index keeps answering for the documents held: when it holds
/// the bitmap sets of the documents and no two documents share an id,
/// upserting a document whose id only the document it replaces may have
/// leaves it holding the bitmap sets of the new documents.
pub proof fn lemma_upsert_keeps_bitmaps(m: StoreModel, b: BitmapModel, d: DocView)
    requires
        model_wf(m),
        m.docs.len() <= usize::MAX,
        ids_distinct(m.docs),
        b == bitmap_set(ext_triples(m.docs)),
        forall|k: int| 0 <= k < m.docs.len() && #[trigger] m.docs[k].id == d.id ==> m.paths.dom().contains(d.path)
            && k == m.paths[d.path],
    ensures
        upsert_bitmaps(m, b, d) == bitmap_set(ext_triples(upsert_model(m, d).docs)),
{
    let et = ext_triples(m.docs);
    let m2 = upsert_model(m, d);
    let e = (d.id, d.extension, d.is_dir);
    if m.paths.dom().contains(d.path) {
        let idx = m.paths[d.path] as int;
        assert(et[idx] == (m.docs[idx].id, m.docs[idx].extension, m.docs[idx].is_dir));
        assert forall|j: int| 0 <= j < et.len() && j != idx implies et[j].0 != et[idx].0 by {
            if j < idx {
                assert(m.docs[j].id != m.docs[idx].id);
            } else {
                assert(m.docs[idx].id != m.docs[j].id);
            }
        }
        lemma_bitmap_set_remove(et, idx);
        lemma_bitmap_set_push(et.remove(idx), e);
        let et2 = ext_triples(m2.docs);
        assert forall|x: (u64, Seq<char>, bool)| et2.contains(x) <==> et.remove(idx).push(e).contains(x) by {
            if et2.contains(x) {
                let k = choose|k: int| 0 <= k < et2.len() && et2[k] == x;
                if k == idx {
                    assert(et.remove(idx).push(e)[et.len() - 1] == x);
                } else {
                    let k0 = if k < idx { k } else { k - 1 };
                    assert(et.remove(idx).push(e)[k0] == et[k]);
                }
            }
            if et.remove(idx).push(e).contains(x) {
                let k = choose|k: int| 0 <= k < et.len() && et.remove(idx).push(e)[k] == x;
                if k == et.len() - 1 {
                    assert(et2[idx] == x);
                } else {
                    let k0 = if k < idx { k } else { k + 1 };
                    assert(et2[k0] == x);
                }
            }
        }
        lemma_bitmap_set_same_elements(et2, et.remove(idx).push(e));
    } else {
        assert(ext_triples(m2.docs) =~= et.push(e));
        lemma_bitmap_set_push(et, e);
    }
}

/// The bitmap index keeps answering for the documents held after a
/// removal, when no two documents share an id.
pub proof fn lemma_remove_keeps_bitmaps(m: StoreModel, b: BitmapModel, p: Seq<char>)
    requires
        model_wf(m),
        ids_distinct(m.docs),
        b == bitmap_set(ext_triples(m.docs)),
        m.paths.dom().contains(p),
    ensures
        ({
            let rem = m.docs[m.paths[p] as int];
            bitmap_remove(b, rem.id, rem.extension) == bitmap_set(ext_triples(remove_model(m, p).docs))
        }),
{
    let et = ext_triples(m.docs);
    let idx = m.paths[p] as int;
    let m2 = remove_model(m, p);
    let last = m.docs.len() - 1;
    assert forall|j: int| 0 <= j < et.len() && j != idx implies et[j].0 != et[idx].0 by {
        if j < idx {
            assert(m.docs[j].id != m.docs[idx].id);
        } else {
            assert(m.docs[idx].id != m.docs[j].id);
        }
    }
    lemma_bitmap_set_remove(et, idx);
    let et2 = ext_triples(m2.docs);
    let r = et.remove(idx);
    assert forall|x: (u64, Seq<char>, bool)| et2.contains(x) <==> r.contains(x) by {
        if et2.contains(x) {
            let k = choose|k: int| 0 <= k < et2.len() && et2[k] == x;
            if idx != last && k == idx {
                assert(r[last - 1] == et[last]);
            } else if k > idx {
                assert(r[k - 1] == et[k]);
            } else {
                assert(r[k] == et[k]);
            }
        }
        if r.contains(x) {
            let k = choose|k: int| 0 <= k < r.len() && r[k] == x;
            let k0 = if k < idx { k } else { k + 1 };
            assert(r[k] == et[k0]);
            if k0 == last && idx != last {
                assert(et2[idx] == x);
            } else {
                assert(et2[k0] == x);
            }
        }
    }
    lemma_bitmap_set_same_elements(et2, r);
}

/// Every document is indexed under its path and its id (so no two
/// documents share a path or an id).
pub open spec fn model_complete(m: StoreModel) -> bool {
    forall|k: int| 0 <= k < m.docs.len() ==> {
        &&& m.paths.dom().contains(#[trigger] m.docs[k].path)
        &&& m.paths[m.docs[k].path] == k
        &&& m.ids.dom().contains(m.docs[k].id)
        &&& m.ids[m.docs[k].id] == k
    }
}

/// The document is found in the store by its path and by its id.
pub open spec fn found_in(m: StoreModel, d: DocView) -> bool {
    &&& m.paths.dom().contains(d.path)
    &&& m.docs[m.paths[d.path] as int] == d
    &&& m.ids.dom().contains(d.id)
    &&& m.docs[m.ids[d.id] as int] == d
}

/// A removal on a store that indexes every document: the path and the id
/// of the removed document are gone, one document less is held, every
/// other document is still found by its path and by its id, and the store
/// still indexes every document.
pub proof fn lemma_remove_keeps_others(m: StoreModel, p: Seq<char>)
    requires
        model_wf(m),
        model_complete(m),
        m.paths.dom().contains(p),
    ensures
        model_complete(remove_model(m, p)),
        remove_model(m, p).docs.len() == m.docs.len() - 1,
        !remove_model(m, p).paths.dom().contains(p),
        !remove_model(m, p).ids.dom().contains(m.docs[m.paths[p] as int].id),
        forall|k: int| 0 <= k < m.docs.len() && k != m.paths[p] ==> found_in(remove_model(m, p), #[trigger] m.docs[k]),
{
    let m2 = remove_model(m, p);
    let idx = m.paths[p] as int;
    let rem = m.docs[idx];
    let last = m.docs.len() - 1;
    assert(m.docs[idx].path == p);
    assert(m.ids[rem.id] == idx);
    assert forall|k: int| 0 <= k < m.docs.len() && k != idx implies found_in(m2, #[trigger] m.docs[k]) by {
        assert(m.paths[m.docs[k].path] == k);
        assert(m.ids[m.docs[k].id] == k);
        assert(m.docs[k].path != p);
        assert(m.docs[k].id != rem.id);
        if k != last {
            assert(m.docs[k].path != m.docs[last].path) by {
                assert(m.paths[m.docs[last].path] == last);
            }
            assert(m.docs[k].id != m.docs[last].id) by {
                assert(m.ids[m.docs[last].id] == last);
            }
        }
    }
    assert forall|k: int| 0 <= k < m2.docs.len() implies {
        &&& m2.paths.dom().contains(#[trigger] m2.docs[k].path)
        &&& m2.paths[m2.docs[k].path] == k
        &&& m2.ids.dom().contains(m2.docs[k].id)
        &&& m2.ids[m2.docs[k].id] == k
    } by {
        if k == idx {
            assert(m2.docs[k] == m.docs[last]);
        } else {
            assert(m2.docs[k] == m.docs[k]);
            assert(m.paths[m.docs[k].path] == k);
            assert(m.ids[m.docs[k].id] == k);
            assert(m.docs[k].path != p);
            assert(m.docs[k].id != rem.id);
            assert(m.docs[k].path != m.docs[last].path) by {
                assert(m.paths[m.docs[last].path] == last);
            }
            assert(m.docs[k].id != m.docs[last].id) by {
                assert(m.ids[m.docs[last].id] == last);
            }
        }
    }
    if idx != last {
        assert(m.docs[last].path != p) by {
            assert(m.paths[m.docs[last].path] == last);
        }
        assert(m.docs[last].id != rem.id) by {
            assert(m.ids[m.docs[last].id] == last);
        }
    }
}

/// A store that indexes every document under its id holds no id twice.
proof fn lemma_complete_ids_distinct(m: StoreModel)
    requires
        model_complete(m),
    ensures
        ids_distinct(m.docs),
{
    assert forall|i: int, j: int| 0 <= i < j < m.docs.len() implies m.docs[i].id != m.docs[j].id by {
        assert(m.paths.dom().contains(m.docs[i].path));
        assert(m.paths.dom().contains(m.docs[j].path));
    }
}

/// Removal by path, on a store that indexes every document and whose
/// trigram and bitmap indexes are those of its documents. When the path is
/// held: one document less is held; the removed document's path and id are
/// gone from the store, and its id from every trigram list and every bitmap
/// set; every other document is still found by its path and by its id; the
/// store still indexes every document; and the two indexes, updated as
/// `remove` updates them, are those of the documents left. When the path
/// is not held, nothing changes.
pub proof fn lemma_remove_whole(m: StoreModel, t: Map<u32, Set<u64>>, b: BitmapModel, p: Seq<char>)
    requires
        model_wf(m),
        model_complete(m),
        t == postings_of(name_pairs(m.docs)),
        b == bitmap_set(ext_triples(m.docs)),
    ensures
        m.paths.dom().contains(p) ==> ({
            let idx = m.paths[p] as int;
            let rem = m.docs[idx];
            let m2 = remove_model(m, p);
            let t2 = without_doc(t, rem.id, code_set(rem.name_lower));
            let b2 = bitmap_remove(b, rem.id, rem.extension);
            &&& m2.docs.len() == m.docs.len() - 1
            &&& !m2.paths.dom().contains(p)
            &&& !m2.ids.dom().contains(rem.id)
            &&& forall|k: int| 0 <= k < m.docs.len() && k != idx ==> found_in(m2, #[trigger] m.docs[k])
            &&& model_complete(m2)
            &&& t2 == postings_of(name_pairs(m2.docs))
            &&& b2 == bitmap_set(ext_triples(m2.docs))
            &&& forall|c: u32| #[trigger] t2.dom().contains(c) ==> !t2[c].contains(rem.id)
            &&& forall|e: Seq<char>| #[trigger] b2.0.dom().contains(e) ==> !b2.0[e].contains(rem.id)
            &&& !b2.1.contains(rem.id)
            &&& !b2.2.contains(rem.id)
        }),
        !m.paths.dom().contains(p) ==> remove_model(m, p) == m,
{
    if m.paths.dom().contains(p) {
        let idx = m.paths[p] as int;
        let rem = m.docs[idx];
        let m2 = remove_model(m, p);
        lemma_complete_ids_distinct(m);
        lemma_remove_keeps_others(m, p);
        lemma_remove_keeps_trigrams(m, t, p);
        lemma_remove_keeps_bitmaps(m, b, p);
        let t2 = without_doc(t, rem.id, code_set(rem.name_lower));
        let b2 = bitmap_remove(b, rem.id, rem.extension);
        let np2 = name_pairs(m2.docs);
        let et2 = ext_triples(m2.docs);
        assert forall|k: int| 0 <= k < m2.docs.len() implies #[trigger] m2.docs[k].id != rem.id by {
            assert(m2.ids.dom().contains(m2.docs[k].id));
        }
        assert forall|c: u32| #[trigger] t2.dom().contains(c) implies !t2[c].contains(rem.id) by {
            if t2[c].contains(rem.id) {
                let k = choose|k: int| 0 <= k < np2.len() && np2[k].0 == rem.id && #[trigger] code_set(np2[k].1).contains(c);
                assert(m2.docs[k].id == rem.id);
            }
        }
        assert forall|e: Seq<char>| #[trigger] b2.0.dom().contains(e) implies !b2.0[e].contains(rem.id) by {
            if b2.0[e].contains(rem.id) {
                let k = choose|k: int| 0 <= k < et2.len() && et2[k].0 == rem.id && et2[k].1.len() > 0
                    && #[trigger] ascii_lower_chars(et2[k].1) == e;
                assert(m2.docs[k].id == rem.id);
            }
        }
        if b2.1.contains(rem.id) {
            let k = choose|k: int| 0 <= k < et2.len() && #[trigger] et2[k].0 == rem.id && !et2[k].2;
            assert(m2.docs[k].id == rem.id);
        }
        if b2.2.contains(rem.id) {
            let k = choose|k: int| 0 <= k < et2.len() && #[trigger] et2[k].0 == rem.id && et2[k].2;
            assert(m2.docs[k].id == rem.id);
        }
    }
}

proof fn lemma_upsert_wf(m: StoreModel, d: DocView)
    requires
        model_wf(m),
        m.docs.len() <= usize::MAX,
    ensures
        model_wf(upsert_model(m, d)),
{
    let m2 = upsert_model(m, d);
    if m.paths.dom().contains(d.path) {
        let idx = m.paths[d.path];
        assert forall|p: Seq<char>| #[trigger] m2.paths.dom().contains(p) implies m2.paths[p] < m2.docs.len()
            && m2.docs[m2.paths[p] as int].path == p by {
            if m.paths[p] == idx {
                assert(m.docs[idx as int].path == p);
            }
        }
        assert forall|id: u64| #[trigger] m2.ids.dom().contains(id) implies m2.ids[id] < m2.docs.len()
            && m2.docs[m2.ids[id] as int].id == id by {
            if id != d.id {
                assert(m.ids.dom().contains(id) && id != m.docs[idx as int].id);
            }
        }
    } else {
        assert forall|p: Seq<char>| #[trigger] m2.paths.dom().contains(p) implies m2.paths[p] < m2.docs.len()
            && m2.docs[m2.paths[p] as int].path == p by {
            if p != d.path {
                assert(m.paths.dom().contains(p));
            }
        }
        assert forall|id: u64| #[trigger] m2.ids.dom().contains(id) implies m2.ids[id] < m2.docs.len()
            && m2.docs[m2.ids[id] as int].id == id by {
            if id != d.id {
                assert(m.ids.dom().contains(id));
            }
        }
    }
}

proof fn lemma_remove_wf(m: StoreModel, p: Seq<char>)
    requires
        model_wf(m),
    ensures
        model_wf(remove_model(m, p)),
{
    if m.paths.dom().contains(p) {
        let m2 = remove_model(m, p);
        let idx = m.paths[p];
        let last = m.docs.len() - 1;
        let rem = m.docs[idx as int];
        assert forall|q: Seq<char>| #[trigger] m2.paths.dom().contains(q) implies m2.paths[q] < m2.docs.len()
            && m2.docs[m2.paths[q] as int].path == q by {
            if idx != last && q == m.docs[last].path {
            } else {
                assert(m.paths.dom().contains(q) && q != p);
                if m.paths[q] == idx {
                    assert(m.docs[idx as int].path == q);
                }
                if m.paths[q] == last {
                    assert(m.docs[last].path == q);
                }
            }
        }
        assert forall|id: u64| #[trigger] m2.ids.dom().contains(id) implies m2.ids[id] < m2.docs.len()
            && m2.docs[m2.ids[id] as int].id == id by {
            if idx != last && id == m.docs[last].id {
            } else {
                assert(m.ids.dom().contains(id) && id != rem.id);
                if m.ids[id] == idx {
                    assert(m.docs[idx as int].id == id);
                }
                if m.ids[id] == last {
                    assert(m.docs[last].id == id);
                }
            }
        }
    }
}

/// Documents with a path index, an id index, a trigram index over the
/// lower-cased names and a bitmap index over extensions and entry types.
pub struct IndexStore {
    documents: Vec<FileDocument>,
    path_index: PathIndex,
    id_index: HashMap<u64, usize>,
    trigram_index: TrigramIndex,
    bitmap_index: BitmapIndex,
}

impl IndexStore {
    /// The documents, paths and ids the store holds.
    pub closed spec fn model(&self) -> StoreModel {
        StoreModel { docs: docs_seq(self.documents@), paths: self.path_index.view(), ids: self.id_index@ }
    }

    /// The documents, in order.
    pub closed spec fn documents(&self) -> Seq<FileDocument> {
        self.documents@
    }

    /// What the trigram index holds.
    pub closed spec fn trigram_view(&self) -> Map<u32, Set<u64>> {
        self.trigram_index@
    }

    /// What the bitmap index holds.
    pub closed spec fn bitmap_view(&self) -> BitmapModel {
        self.bitmap_index@
    }

    /// The indexes agree with the documents they point at.
    pub closed spec fn wf(&self) -> bool {
        &&& self.path_index.wf()
        &&& self.trigram_index.wf()
        &&& self.bitmap_index.wf()
        &&& model_wf(self.model())
    }

    /// An empty store.
    pub fn new() -> (r: Self)
        ensures
            r.wf(),
            r.model().docs.len() == 0,
            r.model().paths == Map::<Seq<char>, usize>::empty(),
            r.model().ids == Map::<u64, usize>::empty(),
            r.trigram_view() == Map::<u32, Set<u64>>::empty(),
            r.bitmap_view() == bitmap_empty(),
    {
        let r = IndexStore {
            documents: Vec::new(),
            path_index: PathIndex::new(),
            id_index: HashMap::new(),
            trigram_index: TrigramIndex::new(),
            bitmap_index: BitmapIndex::new(),
        };
        assert(r.model().docs =~= Seq::<DocView>::empty());
        assert(r.model().paths =~= Map::<Seq<char>, usize>::empty());
        r
    }

    /// Replaces the contents with `docs` and rebuilds every index.
    pub fn load(&mut self, docs: Vec<FileDocument>)
        ensures
            final(self).wf(),
            final(self).model().docs == docs_seq(docs@),
            final(self).model().paths == path_map_of(docs_seq(docs@)),
            final(self).model().ids == id_map_of(docs_seq(docs@)),
            final(self).trigram_view() == postings_of(name_pairs(docs_seq(docs@))),
            final(self).bitmap_view() == bitmap_of(ext_triples(docs_seq(docs@))),
    {
        let ghost ds = docs_seq(docs@);
        let mut tri: Vec<(u64, &str)> = Vec::new();
        let mut bmp: Vec<(u64, &str, bool)> = Vec::new();
        let mut paths = PathIndex::new();
        let mut ids: HashMap<u64, usize> = HashMap::new();
        let mut i: usize = 0;
        assert(ds.take(0) =~= Seq::<DocView>::empty());
        assert(paths.view() =~= Map::<Seq<char>, usize>::empty());
        assert(ids@ =~= Map::<u64, usize>::empty());
        while i < docs.len()
            invariant
                ds == docs_seq(docs@),
                i <= docs@.len(),
                docs_view(tri@) == name_pairs(ds.take(i as int)),
                bitmap_docs_view(bmp@) == ext_triples(ds.take(i as int)),
                paths.wf(),
                paths.view() == path_map_of(ds.take(i as int)),
                ids@ == id_map_of(ds.take(i as int)),
            decreases docs@.len() - i,
        {
            let d = &docs[i];
            let ghost t0 = docs_view(tri@);
            let ghost b0 = bitmap_docs_view(bmp@);
            tri.push((d.id, d.name_lower.as_str()));
            bmp.push((d.id, d.extension.as_str(), d.is_dir));
            paths.insert(d.path.clone(), i);
            ids.insert(d.id, i);
            proof {
                assert(ds.take(i + 1).drop_last() =~= ds.take(i as int));
                assert(ds[i as int] == docs@[i as int]@);
                assert(docs_view(tri@) =~= t0.push((d.id, d.name_lower@)));
                assert(name_pairs(ds.take(i + 1)) =~= name_pairs(ds.take(i as int)).push((d.id, d.name_lower@)));
                assert(bitmap_docs_view(bmp@) =~= b0.push((d.id, d.extension@, d.is_dir)));
                assert(ext_triples(ds.take(i + 1)) =~= ext_triples(ds.take(i as int)).push((d.id, d.extension@, d.is_dir)));
            }
            i += 1;
        }
        assert(ds.take(docs@.len() as int) =~= ds);
        // the number of documents fits a `usize`
        let n = docs.len();
        self.trigram_index.build(tri.as_slice());
        self.bitmap_index.build(bmp.as_slice());
        self.documents = docs;
        self.path_index = paths;
        self.id_index = ids;
        proof {
            lemma_maps_of_wf(ds);
        }
    }

    /// Copies of all documents, in order.
    pub fn all_documents(&self) -> (r: Vec<FileDocument>)
        ensures
            docs_seq(r@) == self.model().docs,
    {
        copy_docs(self.documents.as_slice())
    }

    /// The document with id `id`, if the id index knows it.
    pub fn get_by_id(&self, id: u64) -> (r: Option<FileDocument>)
        requires
            self.wf(),
        ensures
            match r {
                Some(d) => self.model().ids.dom().contains(id) && d@ == self.model().docs[self.model().ids[id] as int],
                None => !self.model().ids.dom().contains(id),
            },
    {
        match self.id_index.get(&id) {
            Some(idx) => {
                let i = *idx;
                assert(self.model().docs[i as int] == self.documents@[i as int]@);
                Some(self.documents[i].copy())
            },
            None => None,
        }
    }

    /// The documents of the ids the id index knows, in the order asked.
    pub fn get_by_ids(&self, ids: &[u64]) -> (r: Vec<FileDocument>)
        requires
            self.wf(),
        ensures
            docs_seq(r@) == lookup_ids(self.model(), ids@),
    {
        let mut out: Vec<FileDocument> = Vec::new();
        let mut i: usize = 0;
        assert(ids@.take(0) =~= Seq::<u64>::empty());
        assert(docs_seq(out@) =~= Seq::<DocView>::empty());
        while i < ids.len()
            invariant
                self.wf(),
                i <= ids@.len(),
                docs_seq(out@) == lookup_ids(self.model(), ids@.take(i as int)),
            decreases ids@.len() - i,
        {
            let ghost before = docs_seq(out@);
            assert(ids@.take(i + 1).drop_last() =~= ids@.take(i as int));
            match self.get_by_id(ids[i]) {
                Some(d) => {
                    out.push(d);
                    assert(docs_seq(out@) =~= before.push(out@.last()@));
                },
                None => {},
            }
            i += 1;
        }
        assert(ids@.take(ids@.len() as int) =~= ids@);
        out
    }

    /// The number of documents.
    pub fn len(&self) -> (r: usize)
        ensures
            r == self.model().docs.len(),
    {
        self.documents.len()
    }

    /// Whether the store holds no document.
    pub fn is_empty(&self) -> (r: bool)
        ensures
            r == (self.model().docs.len() == 0),
    {
        self.documents.len() == 0
    }

    /// Inserts `doc`, or replaces the document with its path, keeping the
    /// trigram and bitmap indexes in step (see `upsert_model`).
    pub fn upsert(&mut self, doc: FileDocument)
        requires
            old(self).wf(),
        ensures
            final(self).wf(),
            final(self).model() == upsert_model(old(self).model(), doc@),
            final(self).trigram_view() == upsert_trigrams(old(self).model(), old(self).trigram_view(), doc@),
            final(self).bitmap_view() == upsert_bitmaps(old(self).model(), old(self).bitmap_view(), doc@),
    {
        let ghost m0 = self.model();
        // the number of documents fits a `usize`
        let n = self.documents.len();
        proof {
            lemma_upsert_wf(m0, doc@);
        }
        match self.path_index.get(doc.path.as_str()) {
            Some(idx) => {
                let old_id = self.documents[idx].id;
                self.trigram_index.remove_document(old_id, self.documents[idx].name_lower.as_str());
                self.bitmap_index.remove_document(old_id, self.documents[idx].extension.as_str());
                self.id_index.remove(&old_id);
                self.id_index.insert(doc.id, idx);
                let copy = doc.copy();
                self.documents.set(idx, copy);
                assert(self.model().docs =~= m0.docs.update(idx as int, doc@));
            },
            None => {
                let idx = self.documents.len();
                self.path_index.insert(doc.path.clone(), idx);
                self.id_index.insert(doc.id, idx);
                self.documents.push(doc.copy());
                assert(self.model().docs =~= m0.docs.push(doc@));
            },
        }
        self.trigram_index.add_document(doc.id, doc.name_lower.as_str());
        self.bitmap_index.add_document(doc.id, doc.extension.as_str(), doc.is_dir);
    }

    /// Removes the document with path `path`, moving the last document into
    /// its place (see `remove_model`); false when the path is unknown.
    pub fn remove(&mut self, path: &str) -> (r: bool)
        requires
            old(self).wf(),
        ensures
            final(self).wf(),
            r == old(self).model().paths.dom().contains(path@),
            final(self).model() == remove_model(old(self).model(), path@),
            r ==> ({
                let rem = old(self).model().docs[old(self).model().paths[path@] as int];
                &&& final(self).trigram_view() == without_doc(old(self).trigram_view(), rem.id, code_set(rem.name_lower))
                &&& final(self).bitmap_view() == bitmap_remove(old(self).bitmap_view(), rem.id, rem.extension)
            }),
            !r ==> final(self).trigram_view() == old(self).trigram_view() && final(self).bitmap_view()
                == old(self).bitmap_view(),
    {
        let ghost m0 = self.model();
        proof {
            lemma_remove_wf(m0, path@);
        }
        match self.path_index.remove(path) {
            Some(idx) => {
                let rid = self.documents[idx].id;
                self.trigram_index.remove_document(rid, self.documents[idx].name_lower.as_str());
                self.bitmap_index.remove_document(rid, self.documents[idx].extension.as_str());
                self.id_index.remove(&rid);
                let last_idx = self.documents.len() - 1;
                if idx != last_idx {
                    let moved_path = self.documents[last_idx].path.clone();
                    let moved_id = self.documents[last_idx].id;
                    let moved = self.documents.pop();
                    match moved {
                        Some(m) => {
                            self.documents.set(idx, m);
                        },
                        None => {},
                    }
                    self.path_index.insert(moved_path, idx);
                    self.id_index.insert(moved_id, idx);
                    assert(self.model().docs =~= m0.docs.update(idx as int, m0.docs[last_idx as int]).drop_last());
                } else {
                    self.documents.pop();
                    assert(self.model().docs =~= m0.docs.drop_last());
                }
                true
            },
            None => {
                assert(self.path_index.view() =~= m0.paths);
                false
            },
        }
    }

    /// Whether a document has path `path`.
    pub fn contains(&self, path: &str) -> (r: bool)
        requires
            self.wf(),
        ensures
            r == self.model().paths.dom().contains(path@),
    {
        self.path_index.get(path).is_some()
    }

    /// Copies of the documents that `f` accepts, in order.
    pub fn search_with<F: Fn(&FileDocument) -> bool>(&self, f: F) -> (r: Vec<FileDocument>)
        requires
            forall|d: &FileDocument| #[trigger] f.requires((d,)),
        ensures
            exists|sel: Seq<int>| #[trigger] selects(self.documents(), sel, r@, f),
    {
        let mut out: Vec<FileDocument> = Vec::new();
        let ghost mut sel: Seq<int> = Seq::empty();
        let mut i: usize = 0;
        while i < self.documents.len()
            invariant
                forall|d: &FileDocument| #[trigger] f.requires((d,)),
                i <= self.documents@.len(),
                sel.len() == out@.len(),
                forall|k: int| 0 <= k < sel.len() ==> 0 <= #[trigger] sel[k] < i,
                forall|a: int, b: int| 0 <= a < b < sel.len() ==> sel[a] < sel[b],
                forall|k: int| 0 <= k < sel.len() ==> (#[trigger] out@[k])@ == self.documents@[sel[k]]@
                    && f.ensures((&self.documents@[sel[k]],), true),
                forall|j: int| 0 <= j < i && !sel.contains(j) ==> f.ensures((&#[trigger] self.documents@[j],), false),
            decreases self.documents@.len() - i,
        {
            let d = &self.documents[i];
            let keep = f(d);
            let ghost old_sel = sel;
            let ghost old_out = out@;
            assert(f.ensures((&self.documents@[i as int],), keep));
            if keep {
                out.push(d.copy());
                proof {
                    sel = sel.push(i as int);
                    assert forall|k: int| 0 <= k < sel.len() implies (#[trigger] out@[k])@ == self.documents@[sel[k]]@
                        && f.ensures((&self.documents@[sel[k]],), true) by {
                        if k < old_sel.len() {
                            assert(out@[k] == old_out[k]);
                            assert(sel[k] == old_sel[k]);
                        }
                    }
                }
            }
            proof {
                assert forall|j: int| 0 <= j < i + 1 && !sel.contains(j) implies f.ensures((&#[trigger] self.documents@[j],), false) by {
                    if j == i {
                        if keep {
                            assert(sel[sel.len() - 1] == j);
                        }
                    } else if old_sel.contains(j) {
                        let k = choose|k: int| 0 <= k < old_sel.len() && old_sel[k] == j;
                        assert(sel[k] == j);
                    }
                }
            }
            i += 1;
        }
        assert(selects(self.documents(), sel, out@, f));
        out
    }

    /// The trigram index over the lower-cased names.
    pub fn trigram_index(&self) -> (r: &TrigramIndex)
        ensures
            r@ == self.trigram_view(),
            self.wf() ==> r.wf(),
    {
        &self.trigram_index
    }

    /// The bitmap index over extensions and entry types.
    pub fn bitmap_index(&self) -> (r: &BitmapIndex)
        ensures
            r@ == self.bitmap_view(),
            self.wf() ==> r.wf(),
    {
        &self.bitmap_index
    }

    /// Replaces the trigram index with what `data` holds.
    pub fn deserialize_trigrams(&mut self, data: &[u8])
        requires
            old(self).wf(),
        ensures
            final(self).wf(),
            final(self).trigram_view() == crate::trigram::decode_postings(data@),
            final(self).bitmap_view() == old(self).bitmap_view(),
            final(self).model() == old(self).model(),
    {
        self.trigram_index.deserialize(data);
    }

    /// Replaces the bitmap index with what `data` holds.
    pub fn deserialize_bitmaps(&mut self, data: &[u8])
        requires
            old(self).wf(),
        ensures
            final(self).wf(),
            final(self).bitmap_view() == crate::bitmap::decode_bitmap(data@),
            final(self).trigram_view() == old(self).trigram_view(),
            final(self).model() == old(self).model(),
    {
        self.bitmap_index.deserialize(data);
    }

    /// Empties the store and its indexes.
    pub fn clear(&mut self)
        ensures
            final(self).wf(),
            final(self).model().docs.len() == 0,
            final(self).model().paths == Map::<Seq<char>, usize>::empty(),
            final(self).model().ids == Map::<u64, usize>::empty(),
            final(self).trigram_view() == Map::<u32, Set<u64>>::empty(),
            final(self).bitmap_view() == bitmap_empty(),
    {
        self.documents.clear();
        self.path_index.clear();
        self.id_index.clear();
        self.trigram_index.clear();
        self.bitmap_index.clear();
        assert(self.model().docs =~= Seq::<DocView>::empty());
        assert(self.model().paths =~= Map::<Seq<char>, usize>::empty());
    }
}

/// `out` holds copies of the documents at the strictly increasing
/// positions `sel`, which are exactly those that `f` accepts.
pub open spec fn selects<F: Fn(&FileDocument) -> bool>(docs: Seq<FileDocument>, sel: Seq<int>, out: Seq<FileDocument>, f: F) -> bool {
    &&& sel.len() == out.len()
    &&& forall|a: int, b: int| 0 <= a < b < sel.len() ==> sel[a] < sel[b]
    &&& forall|k: int| 0 <= k < sel.len() ==> 0 <= #[trigger] sel[k] < docs.len() && out[k]@ == docs[sel[k]]@
        && f.ensures((&docs[sel[k]],), true)
    &&& forall|j: int| 0 <= j < docs.len() && !sel.contains(j) ==> f.ensures((&#[trigger] docs[j],), false)
}

/// The documents of the known ids among `ids`, in order.
pub open spec fn lookup_ids(m: StoreModel, ids: Seq<u64>) -> Seq<DocView>
    decreases ids.len(),
{
    if ids.len() == 0 {
        Seq::empty()
    } else {
        let rest = lookup_ids(m, ids.drop_last());
        if m.ids.dom().contains(ids.last()) {
            rest.push(m.docs[m.ids[ids.last()] as int])
        } else {
            rest
        }
    }
}

/// The maps built from a list of documents point at documents that have
/// the path or id.
proof fn lemma_maps_of_wf(ds: Seq<DocView>)
    requires
        ds.len() <= usize::MAX,
    ensures
        model_wf(StoreModel { docs: ds, paths: path_map_of(ds), ids: id_map_of(ds) }),
    decreases ds.len(),
{
    if ds.len() > 0 {
        lemma_maps_of_wf(ds.drop_last());
        let m = StoreModel { docs: ds, paths: path_map_of(ds), ids: id_map_of(ds) };
        let m0 = StoreModel { docs: ds.drop_last(), paths: path_map_of(ds.drop_last()), ids: id_map_of(ds.drop_last()) };
        assert forall|p: Seq<char>| #[trigger] m.paths.dom().contains(p) implies m.paths[p] < m.docs.len()
            && m.docs[m.paths[p] as int].path == p by {
            if p != ds.last().path {
                assert(m0.paths.dom().contains(p));
            }
        }
        assert forall|id: u64| #[trigger] m.ids.dom().contains(id) implies m.ids[id] < m.docs.len()
            && m.docs[m.ids[id] as int].id == id by {
            if id != ds.last().id {
                assert(m0.ids.dom().contains(id));
            }
        }
    }
}

impl Default for IndexStore {
    /// An empty store.
    fn default() -> (r: Self)
        ensures
            r.wf(),
            r.model().docs.len() == 0,
    {
        IndexStore::new()
    }
}

} // verus!
