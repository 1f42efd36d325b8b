//! Bitmap filter indexes: the documents of each extension, the files and
//! the directories.

use std::sync::Arc;
use std::collections::HashSet;
use roaring::RoaringTreemap;
use vstd::prelude::*;
use crate::stdx::{utf8_lossy, string_from_utf8_lossy};
use crate::le::{u32_le, u16_le, le32_at, le16_at, lemma_u32_le_roundtrip, lemma_u16_le_roundtrip, read_u32_le, read_u16_le, push_u32_le, push_u16_le, push_bytes};
use vstd::string::StringSliceAdditionalSpecFns;
use vstd::utf8::encode_utf8;
use crate::strmap::{StrMap, map_of, lemma_map_of_dom};
use crate::text::{ascii_lowercase, ascii_lower_chars};
use crate::treemap::{treemap_contents, treemap_decode, treemap_new, treemap_insert, treemap_remove, treemap_is_empty, treemap_clone, treemap_contains, treemap_to_vec, treemap_serialize, treemap_valid, treemap_from_bytes};

verus! {

broadcast use vstd::std_specs::hash::group_hash_axioms;

/// What a bitmap index holds: the ids per lower-cased extension, the file
/// ids and the directory ids.
pub type BitmapModel = (Map<Seq<char>, Set<u64>>, Set<u64>, Set<u64>);

/// The model after adding document `id` with extension `ext`.
pub open spec fn bitmap_add(m: BitmapModel, id: u64, ext: Seq<char>, is_dir: bool) -> BitmapModel {
    let exts = if ext.len() == 0 {
        m.0
    } else {
        let k = ascii_lower_chars(ext);
        m.0.insert(k, (if m.0.dom().contains(k) { m.0[k] } else { Set::empty() }).insert(id))
    };
    (exts, if is_dir { m.1 } else { m.1.insert(id) }, if is_dir { m.2.insert(id) } else { m.2 })
}

/// The model after removing document `id` with extension `ext`; an
/// extension left without documents is dropped.
pub open spec fn bitmap_remove(m: BitmapModel, id: u64, ext: Seq<char>) -> BitmapModel {
    let k = ascii_lower_chars(ext);
    let exts = if ext.len() == 0 || !m.0.dom().contains(k) {
        m.0
    } else if m.0[k].remove(id) == Set::<u64>::empty() {
        m.0.remove(k)
    } else {
        m.0.insert(k, m.0[k].remove(id))
    };
    (exts, m.1.remove(id), m.2.remove(id))
}

/// The empty model.
pub open spec fn bitmap_empty() -> BitmapModel {
    (Map::empty(), Set::empty(), Set::empty())
}

/// The model of `(id, extension, is_dir)` documents added in order.
pub open spec fn bitmap_of(ds: Seq<(u64, Seq<char>, bool)>) -> BitmapModel
    decreases ds.len(),
{
    if ds.len() == 0 {
        bitmap_empty()
    } else {
        let d = ds.last();
        bitmap_add(bitmap_of(ds.drop_last()), d.0, d.1, d.2)
    }
}

/// No extension maps to an empty set: true of every index built, added to,
/// removed from or cleared, and of one read back from data that holds no
/// empty list.
pub open spec fn bitmap_lists_nonempty(m: BitmapModel) -> bool {
    forall|k: Seq<char>| #[trigger] m.0.dom().contains(k) ==> m.0[k] != Set::<u64>::empty()
}

/// Adding a document keeps every extension list non-empty.
pub proof fn lemma_bitmap_add_nonempty(m: BitmapModel, id: u64, ext: Seq<char>, is_dir: bool)
    requires
        bitmap_lists_nonempty(m),
    ensures
        bitmap_lists_nonempty(bitmap_add(m, id, ext, is_dir)),
{
    let a = bitmap_add(m, id, ext, is_dir);
    assert forall|k: Seq<char>| #[trigger] a.0.dom().contains(k) implies a.0[k] != Set::<u64>::empty() by {
        if ext.len() > 0 && k == ascii_lower_chars(ext) {
            assert(a.0[k].contains(id));
        }
    }
}

/// Removing a document keeps every extension list non-empty.
pub proof fn lemma_bitmap_remove_nonempty(m: BitmapModel, id: u64, ext: Seq<char>)
    requires
        bitmap_lists_nonempty(m),
    ensures
        bitmap_lists_nonempty(bitmap_remove(m, id, ext)),
{
}

/// A built index has no empty extension list.
pub proof fn lemma_bitmap_of_nonempty(ds: Seq<(u64, Seq<char>, bool)>)
    ensures
        bitmap_lists_nonempty(bitmap_of(ds)),
    decreases ds.len(),
{
    if ds.len() > 0 {
        lemma_bitmap_of_nonempty(ds.drop_last());
        let d = ds.last();
        lemma_bitmap_add_nonempty(bitmap_of(ds.drop_last()), d.0, d.1, d.2);
    }
}

/// Removing a document undoes adding it, when `id` was in none of the
/// tables and no extension list was empty (see `bitmap_lists_nonempty`).
pub proof fn lemma_bitmap_remove_undoes_add(m: BitmapModel, id: u64, ext: Seq<char>, is_dir: bool)
    requires
        !m.1.contains(id),
        !m.2.contains(id),
        bitmap_lists_nonempty(m),
        forall|k: Seq<char>| #[trigger] m.0.dom().contains(k) ==> !m.0[k].contains(id),
    ensures
        bitmap_remove(bitmap_add(m, id, ext, is_dir), id, ext) == m,
{
    let a = bitmap_add(m, id, ext, is_dir);
    let b = bitmap_remove(a, id, ext);
    assert(b.1 =~= m.1);
    assert(b.2 =~= m.2);
    if ext.len() > 0 {
        let k = ascii_lower_chars(ext);
        if m.0.dom().contains(k) {
            assert(a.0[k].remove(id) =~= m.0[k]);
            assert(a.0[k].remove(id) != Set::<u64>::empty());
            assert(b.0 =~= m.0);
        } else {
            assert(a.0[k].remove(id) =~= Set::<u64>::empty());
            assert(b.0 =~= m.0);
        }
    }
}

/// A document added is listed under its lower-cased extension (when it has
/// one) and among the files or the directories.
pub proof fn lemma_bitmap_added_found(m: BitmapModel, id: u64, ext: Seq<char>, is_dir: bool)
    ensures
        ({
            let a = bitmap_add(m, id, ext, is_dir);
            &&& ext.len() > 0 ==> a.0.dom().contains(ascii_lower_chars(ext)) && a.0[ascii_lower_chars(ext)].contains(id)
            &&& is_dir ==> a.2.contains(id)
            &&& !is_dir ==> a.1.contains(id)
        }),
{
}

/// What a list of `(id, extension, is_dir)` documents puts in a bitmap
/// index, as sets: under each lower-cased extension the documents that
/// have it, and the files and the directories.
pub open spec fn bitmap_set(ds: Seq<(u64, Seq<char>, bool)>) -> BitmapModel {
    (
        Map::new(
            |k: Seq<char>| exists|j: int| 0 <= j < ds.len() && ds[j].1.len() > 0 && #[trigger] ascii_lower_chars(ds[j].1) == k,
            |k: Seq<char>| Set::new(|id: u64| exists|j: int| 0 <= j < ds.len() && ds[j].0 == id && ds[j].1.len() > 0
                && #[trigger] ascii_lower_chars(ds[j].1) == k),
        ),
        Set::new(|id: u64| exists|j: int| 0 <= j < ds.len() && #[trigger] ds[j].0 == id && !ds[j].2),
        Set::new(|id: u64| exists|j: int| 0 <= j < ds.len() && #[trigger] ds[j].0 == id && ds[j].2),
    )
}

/// Building adds the documents one by one; as sets, the result is what
/// `bitmap_set` describes.
pub proof fn lemma_bitmap_of_is_set(ds: Seq<(u64, Seq<char>, bool)>)
    ensures
        bitmap_of(ds) == bitmap_set(ds),
    decreases ds.len(),
{
    if ds.len() == 0 {
        let b = bitmap_set(ds);
        assert(b.0 =~= Map::<Seq<char>, Set<u64>>::empty());
        assert(b.1 =~= Set::<u64>::empty());
        assert(b.2 =~= Set::<u64>::empty());
    } else {
        let init = ds.drop_last();
        let d = ds.last();
        lemma_bitmap_of_is_set(init);
        let a = bitmap_add(bitmap_set(init), d.0, d.1, d.2);
        let b = bitmap_set(ds);
        let n = ds.len() - 1;
        assert(ds[n] == d);
        assert forall|j: int| 0 <= j < init.len() implies #[trigger] init[j] == ds[j] by {}
        assert forall|id: u64| a.1.contains(id) <==> b.1.contains(id) by {
            if b.1.contains(id) {
                let j = choose|j: int| 0 <= j < ds.len() && #[trigger] ds[j].0 == id && !ds[j].2;
                if j < n {
                    assert(init[j].0 == id);
                }
            }
            if bitmap_set(init).1.contains(id) {
                let j = choose|j: int| 0 <= j < init.len() && #[trigger] init[j].0 == id && !init[j].2;
                assert(ds[j].0 == id);
            }
        }
        assert forall|id: u64| a.2.contains(id) <==> b.2.contains(id) by {
            if b.2.contains(id) {
                let j = choose|j: int| 0 <= j < ds.len() && #[trigger] ds[j].0 == id && ds[j].2;
                if j < n {
                    assert(init[j].0 == id);
                }
            }
            if bitmap_set(init).2.contains(id) {
                let j = choose|j: int| 0 <= j < init.len() && #[trigger] init[j].0 == id && init[j].2;
                assert(ds[j].0 == id);
            }
        }
        assert(a.1 =~= b.1);
        assert(a.2 =~= b.2);
        let mi = bitmap_set(init).0;
        assert forall|k: Seq<char>| a.0.dom().contains(k) <==> b.0.dom().contains(k) by {
            if b.0.dom().contains(k) {
                let j = choose|j: int| 0 <= j < ds.len() && ds[j].1.len() > 0 && #[trigger] ascii_lower_chars(ds[j].1) == k;
                if j < n {
                    assert(init[j] == ds[j]);
                    assert(mi.dom().contains(k));
                }
            }
            if mi.dom().contains(k) {
                let j = choose|j: int| 0 <= j < init.len() && init[j].1.len() > 0 && #[trigger] ascii_lower_chars(init[j].1) == k;
                assert(ds[j] == init[j]);
            }
        }
        assert(a.0.dom() =~= b.0.dom());
        assert forall|k: Seq<char>| a.0.dom().contains(k) implies a.0[k] == b.0[k] by {
            assert forall|id: u64| a.0[k].contains(id) <==> b.0[k].contains(id) by {
                if b.0[k].contains(id) {
                    let j = choose|j: int| 0 <= j < ds.len() && ds[j].0 == id && ds[j].1.len() > 0
                        && #[trigger] ascii_lower_chars(ds[j].1) == k;
                    if j < n {
                        assert(init[j] == ds[j]);
                        assert(mi.dom().contains(k));
                        assert(mi[k].contains(id));
                    }
                }
                if mi.dom().contains(k) && mi[k].contains(id) {
                    let j = choose|j: int| 0 <= j < init.len() && init[j].0 == id && init[j].1.len() > 0
                        && #[trigger] ascii_lower_chars(init[j].1) == k;
                    assert(ds[j] == init[j]);
                }
            }
            assert(a.0[k] =~= b.0[k]);
        }
        assert(a.0 =~= b.0);
    }
}

/// Lists holding the same documents give the same bitmap sets.
pub proof fn lemma_bitmap_set_same_elements(a: Seq<(u64, Seq<char>, bool)>, b: Seq<(u64, Seq<char>, bool)>)
    requires
        forall|x: (u64, Seq<char>, bool)| a.contains(x) <==> b.contains(x),
    ensures
        bitmap_set(a) == bitmap_set(b),
{
    let ba = bitmap_set(a);
    let bb = bitmap_set(b);
    assert forall|id: u64| ba.1.contains(id) <==> bb.1.contains(id) by {
        if ba.1.contains(id) {
            let j = choose|j: int| 0 <= j < a.len() && #[trigger] a[j].0 == id && !a[j].2;
            assert(a.contains(a[j]));
            let k = choose|k: int| 0 <= k < b.len() && b[k] == a[j];
        }
        if bb.1.contains(id) {
            let j = choose|j: int| 0 <= j < b.len() && #[trigger] b[j].0 == id && !b[j].2;
            assert(b.contains(b[j]));
            let k = choose|k: int| 0 <= k < a.len() && a[k] == b[j];
        }
    }
    assert forall|id: u64| ba.2.contains(id) <==> bb.2.contains(id) by {
        if ba.2.contains(id) {
            let j = choose|j: int| 0 <= j < a.len() && #[trigger] a[j].0 == id && a[j].2;
            assert(a.contains(a[j]));
            let k = choose|k: int| 0 <= k < b.len() && b[k] == a[j];
        }
        if bb.2.contains(id) {
            let j = choose|j: int| 0 <= j < b.len() && #[trigger] b[j].0 == id && b[j].2;
            assert(b.contains(b[j]));
            let k = choose|k: int| 0 <= k < a.len() && a[k] == b[j];
        }
    }
    assert forall|k: Seq<char>| ba.0.dom().contains(k) <==> bb.0.dom().contains(k) by {
        if ba.0.dom().contains(k) {
            let j = choose|j: int| 0 <= j < a.len() && a[j].1.len() > 0 && #[trigger] ascii_lower_chars(a[j].1) == k;
            assert(a.contains(a[j]));
            let i = choose|i: int| 0 <= i < b.len() && b[i] == a[j];
            assert(ascii_lower_chars(b[i].1) == k);
        }
        if bb.0.dom().contains(k) {
            let j = choose|j: int| 0 <= j < b.len() && b[j].1.len() > 0 && #[trigger] ascii_lower_chars(b[j].1) == k;
            assert(b.contains(b[j]));
            let i = choose|i: int| 0 <= i < a.len() && a[i] == b[j];
            assert(ascii_lower_chars(a[i].1) == k);
        }
    }
    assert forall|k: Seq<char>| ba.0.dom().contains(k) implies ba.0[k] == bb.0[k] by {
        assert forall|id: u64| ba.0[k].contains(id) <==> bb.0[k].contains(id) by {
            if ba.0[k].contains(id) {
                let j = choose|j: int| 0 <= j < a.len() && a[j].0 == id && a[j].1.len() > 0
                    && #[trigger] ascii_lower_chars(a[j].1) == k;
                assert(a.contains(a[j]));
                let i = choose|i: int| 0 <= i < b.len() && b[i] == a[j];
                assert(ascii_lower_chars(b[i].1) == k);
            }
            if bb.0[k].contains(id) {
                let j = choose|j: int| 0 <= j < b.len() && b[j].0 == id && b[j].1.len() > 0
                    && #[trigger] ascii_lower_chars(b[j].1) == k;
                assert(b.contains(b[j]));
                let i = choose|i: int| 0 <= i < a.len() && a[i] == b[j];
                assert(ascii_lower_chars(a[i].1) == k);
            }
        }
        assert(ba.0[k] =~= bb.0[k]);
    }
    assert(ba.0 =~= bb.0);
    assert(ba.1 =~= bb.1);
    assert(ba.2 =~= bb.2);
}

/// A list other than the removed document's own extension is the same
/// before and after removing the document.
proof fn lemma_bitmap_set_other_key(ds: Seq<(u64, Seq<char>, bool)>, i: int, k: Seq<char>)
    requires
        0 <= i < ds.len(),
        ds[i].1.len() == 0 || k != ascii_lower_chars(ds[i].1),
    ensures
        bitmap_set(ds).0.dom().contains(k) <==> bitmap_set(ds.remove(i)).0.dom().contains(k),
        bitmap_set(ds).0.dom().contains(k) ==> bitmap_set(ds).0[k] == bitmap_set(ds.remove(i)).0[k],
{
    let m = bitmap_set(ds);
    let r = ds.remove(i);
    let mr = bitmap_set(r);
    assert forall|j: int| 0 <= j < r.len() implies #[trigger] r[j] == ds[if j < i { j } else { j + 1 }] by {}
    if m.0.dom().contains(k) {
        let j = choose|j: int| 0 <= j < ds.len() && ds[j].1.len() > 0 && #[trigger] ascii_lower_chars(ds[j].1) == k;
        assert(j != i);
        let j0 = if j < i { j } else { j - 1 };
        assert(r[j0] == ds[j]);
        assert(ascii_lower_chars(r[j0].1) == k);
        assert forall|x: u64| m.0[k].contains(x) <==> mr.0[k].contains(x) by {
            if m.0[k].contains(x) {
                let q = choose|q: int| 0 <= q < ds.len() && ds[q].0 == x && ds[q].1.len() > 0
                    && #[trigger] ascii_lower_chars(ds[q].1) == k;
                assert(q != i);
                let q0 = if q < i { q } else { q - 1 };
                assert(r[q0] == ds[q]);
                assert(ascii_lower_chars(r[q0].1) == k);
            }
            if mr.0[k].contains(x) {
                let q = choose|q: int| 0 <= q < r.len() && r[q].0 == x && r[q].1.len() > 0
                    && #[trigger] ascii_lower_chars(r[q].1) == k;
                let q0 = if q < i { q } else { q + 1 };
                assert(r[q] == ds[q0]);
                assert(ascii_lower_chars(ds[q0].1) == k);
            }
        }
        assert(m.0[k] =~= mr.0[k]);
    }
    if mr.0.dom().contains(k) {
        let j = choose|j: int| 0 <= j < r.len() && r[j].1.len() > 0 && #[trigger] ascii_lower_chars(r[j].1) == k;
        let j0 = if j < i { j } else { j + 1 };
        assert(r[j] == ds[j0]);
        assert(ascii_lower_chars(ds[j0].1) == k);
    }
}

/// The removed document's own extension list loses exactly its id.
proof fn lemma_bitmap_set_own_key(ds: Seq<(u64, Seq<char>, bool)>, i: int)
    requires
        0 <= i < ds.len(),
        ds[i].1.len() > 0,
        forall|j: int| 0 <= j < ds.len() && j != i ==> ds[j].0 != ds[i].0,
    ensures
        ({
            let key = ascii_lower_chars(ds[i].1);
            let m = bitmap_set(ds);
            let mr = bitmap_set(ds.remove(i));
            &&& m.0.dom().contains(key)
            &&& m.0[key].remove(ds[i].0) == Set::<u64>::empty() ==> !mr.0.dom().contains(key)
            &&& m.0[key].remove(ds[i].0) != Set::<u64>::empty() ==> mr.0.dom().contains(key) && mr.0[key]
                == m.0[key].remove(ds[i].0)
        }),
{
    let id = ds[i].0;
    let key = ascii_lower_chars(ds[i].1);
    let m = bitmap_set(ds);
    let r = ds.remove(i);
    let mr = bitmap_set(r);
    assert forall|j: int| 0 <= j < r.len() implies #[trigger] r[j] == ds[if j < i { j } else { j + 1 }] by {}
    assert(m.0.dom().contains(key));
    assert forall|x: u64| m.0[key].remove(id).contains(x) implies mr.0.dom().contains(key) && mr.0[key].contains(x) by {
        let q = choose|q: int| 0 <= q < ds.len() && ds[q].0 == x && ds[q].1.len() > 0
            && #[trigger] ascii_lower_chars(ds[q].1) == key;
        assert(q != i);
        let q0 = if q < i { q } else { q - 1 };
        assert(r[q0] == ds[q]);
        assert(ascii_lower_chars(r[q0].1) == key);
    }
    assert forall|x: u64| mr.0.dom().contains(key) && mr.0[key].contains(x) implies m.0[key].remove(id).contains(x) by {
        let q = choose|q: int| 0 <= q < r.len() && r[q].0 == x && r[q].1.len() > 0
            && #[trigger] ascii_lower_chars(r[q].1) == key;
        let q0 = if q < i { q } else { q + 1 };
        assert(r[q] == ds[q0]);
        assert(ascii_lower_chars(ds[q0].1) == key);
        assert(q0 != i);
    }
    if mr.0.dom().contains(key) {
        let j = choose|j: int| 0 <= j < r.len() && r[j].1.len() > 0 && #[trigger] ascii_lower_chars(r[j].1) == key;
        assert(mr.0[key].contains(r[j].0));
        assert(m.0[key].remove(id).contains(r[j].0));
        assert(m.0[key].remove(id) != Set::<u64>::empty());
        assert(mr.0[key] =~= m.0[key].remove(id));
    } else if m.0[key].remove(id) != Set::<u64>::empty() {
        assert(exists|x: u64| m.0[key].remove(id).contains(x)) by {
            if !(exists|x: u64| m.0[key].remove(id).contains(x)) {
                assert(m.0[key].remove(id) =~= Set::<u64>::empty());
            }
        }
        let x = choose|x: u64| m.0[key].remove(id).contains(x);
        let q = choose|q: int| 0 <= q < ds.len() && ds[q].0 == x && ds[q].1.len() > 0
            && #[trigger] ascii_lower_chars(ds[q].1) == key;
        assert(q != i);
        let q0 = if q < i { q } else { q - 1 };
        assert(r[q0] == ds[q]);
        assert(ascii_lower_chars(r[q0].1) == key);
        assert(mr.0.dom().contains(key));
    }
}

/// Removing a document whose id no other document has takes exactly its
/// entries out of the bitmap sets.
pub proof fn lemma_bitmap_set_remove(ds: Seq<(u64, Seq<char>, bool)>, i: int)
    requires
        0 <= i < ds.len(),
        forall|j: int| 0 <= j < ds.len() && j != i ==> ds[j].0 != ds[i].0,
    ensures
        bitmap_remove(bitmap_set(ds), ds[i].0, ds[i].1) == bitmap_set(ds.remove(i)),
{
    let id = ds[i].0;
    let ext = ds[i].1;
    let key = ascii_lower_chars(ext);
    let m = bitmap_set(ds);
    let r = ds.remove(i);
    let mr = bitmap_set(r);
    let a = bitmap_remove(m, id, ext);
    assert forall|j: int| 0 <= j < r.len() implies #[trigger] r[j] == ds[if j < i { j } else { j + 1 }] by {}
    assert forall|x: u64| a.1.contains(x) <==> mr.1.contains(x) by {
        if a.1.contains(x) {
            let j = choose|j: int| 0 <= j < ds.len() && #[trigger] ds[j].0 == x && !ds[j].2;
            assert(j != i);
            let j0 = if j < i { j } else { j - 1 };
            assert(r[j0] == ds[j]);
        }
        if mr.1.contains(x) {
            let j = choose|j: int| 0 <= j < r.len() && #[trigger] r[j].0 == x && !r[j].2;
            let j0 = if j < i { j } else { j + 1 };
            assert(r[j] == ds[j0]);
        }
    }
    assert forall|x: u64| a.2.contains(x) <==> mr.2.contains(x) by {
        if a.2.contains(x) {
            let j = choose|j: int| 0 <= j < ds.len() && #[trigger] ds[j].0 == x && ds[j].2;
            assert(j != i);
            let j0 = if j < i { j } else { j - 1 };
            assert(r[j0] == ds[j]);
        }
        if mr.2.contains(x) {
            let j = choose|j: int| 0 <= j < r.len() && #[trigger] r[j].0 == x && r[j].2;
            let j0 = if j < i { j } else { j + 1 };
            assert(r[j] == ds[j0]);
        }
    }
    assert(a.1 =~= mr.1);
    assert(a.2 =~= mr.2);
    if ext.len() > 0 {
        lemma_bitmap_set_own_key(ds, i);
    }
    assert forall|k: Seq<char>| a.0.dom().contains(k) <==> mr.0.dom().contains(k) by {
        if ext.len() == 0 || k != key {
            lemma_bitmap_set_other_key(ds, i, k);
        }
    }
    assert forall|k: Seq<char>| #[trigger] a.0.dom().contains(k) implies a.0[k] == mr.0[k] by {
        if ext.len() == 0 || k != key {
            lemma_bitmap_set_other_key(ds, i, k);
        }
    }
    assert(a.0 =~= mr.0);
}

/// The documents of a slice, extensions as characters.
pub open spec fn bitmap_docs_view(docs: Seq<(u64, &str, bool)>) -> Seq<(u64, Seq<char>, bool)> {
    docs.map_values(|d: (u64, &str, bool)| (d.0, d.1@, d.2))
}

/// One serialized extension list: name length (`u16`), name bytes,
/// treemap length (`u32`), treemap bytes.
pub open spec fn enc_ext(name: Seq<u8>, payload: Seq<u8>) -> Seq<u8> {
    u16_le(name.len() as u16) + name + u32_le(payload.len() as u32) + payload
}

/// The first `i` serialized extension lists.
pub open spec fn enc_exts(ns: Seq<Seq<u8>>, ps: Seq<Seq<u8>>, i: nat) -> Seq<u8>
    decreases i,
{
    if i == 0 {
        Seq::empty()
    } else {
        enc_exts(ns, ps, (i - 1) as nat) + enc_ext(ns[i - 1], ps[i - 1])
    }
}

/// A serialized set: its length (`u32`), then its bytes.
pub open spec fn enc_set(payload: Seq<u8>) -> Seq<u8> {
    u32_le(payload.len() as u32) + payload
}

/// Reads at most `remaining` extension lists from `pos` on, inserting each
/// that decodes into `acc`; stops where a field does not fit. Returns where
/// reading stopped and the lists read.
pub open spec fn parse_exts(data: Seq<u8>, pos: int, remaining: nat, acc: Map<Seq<char>, Set<u64>>) -> (int, Map<Seq<char>, Set<u64>>)
    decreases remaining,
{
    if remaining == 0 || pos < 0 || pos + 2 > data.len() {
        (pos, acc)
    } else {
        let elen = le16_at(data, pos);
        let p1 = pos + 2;
        if p1 + elen > data.len() {
            (p1, acc)
        } else {
            let name = utf8_lossy(data.subrange(p1, p1 + elen));
            let p2 = p1 + elen;
            if p2 + 4 > data.len() {
                (p2, acc)
            } else {
                let rlen = le32_at(data, p2);
                let p3 = p2 + 4;
                if p3 + rlen > data.len() {
                    (p3, acc)
                } else {
                    let acc2 = match treemap_decode(data.subrange(p3, p3 + rlen)) {
                        Some(st) => acc.insert(name, st),
                        None => acc,
                    };
                    parse_exts(data, p3 + rlen, (remaining - 1) as nat, acc2)
                }
            }
        }
    }
}

/// The set a decoded treemap holds, or the empty set.
pub open spec fn decoded_or_empty(bytes: Seq<u8>) -> Set<u64> {
    match treemap_decode(bytes) {
        Some(st) => st,
        None => Set::empty(),
    }
}

/// What a serialized bitmap index holds: a `u32` count of extension lists,
/// the lists, then the file set and the directory set; anything cut short
/// reads as empty.
pub open spec fn decode_bitmap(data: Seq<u8>) -> BitmapModel {
    if data.len() < 4 {
        bitmap_empty()
    } else {
        let (pos, exts) = parse_exts(data, 4, le32_at(data, 0) as nat, Map::empty());
        if pos + 4 > data.len() {
            (exts, Set::empty(), Set::empty())
        } else {
            let flen = le32_at(data, pos);
            let p = pos + 4;
            if p + flen > data.len() {
                (exts, Set::empty(), Set::empty())
            } else {
                let files = decoded_or_empty(data.subrange(p, p + flen));
                let q = p + flen;
                if q + 4 > data.len() {
                    (exts, files, Set::empty())
                } else {
                    let dlen = le32_at(data, q);
                    let q2 = q + 4;
                    if q2 + dlen > data.len() {
                        (exts, files, Set::empty())
                    } else {
                        (exts, files, decoded_or_empty(data.subrange(q2, q2 + dlen)))
                    }
                }
            }
        }
    }
}

/// The contents of each entry's treemap.
pub open spec fn entry_sets(es: Seq<(Seq<char>, RoaringTreemap)>) -> Seq<(Seq<char>, Set<u64>)> {
    es.map_values(|e: (Seq<char>, RoaringTreemap)| (e.0, treemap_contents(e.1)))
}

proof fn lemma_map_of_sets(es: Seq<(Seq<char>, RoaringTreemap)>)
    ensures
        map_of(es).map_values(|t: RoaringTreemap| treemap_contents(t)) == map_of(entry_sets(es)),
    decreases es.len(),
{
    if es.len() > 0 {
        lemma_map_of_sets(es.drop_last());
        assert(entry_sets(es).drop_last() =~= entry_sets(es.drop_last()));
        assert(map_of(es).map_values(|t: RoaringTreemap| treemap_contents(t)) =~= map_of(entry_sets(es)));
    } else {
        assert(map_of(es).map_values(|t: RoaringTreemap| treemap_contents(t)) =~= map_of(entry_sets(es)));
    }
}

proof fn lemma_enc_exts_len(ns: Seq<Seq<u8>>, ps: Seq<Seq<u8>>, i: nat)
    ensures
        enc_exts(ns, ps, i).len() >= 6 * i,
    decreases i,
{
    if i > 0 {
        lemma_enc_exts_len(ns, ps, (i - 1) as nat);
    }
}

proof fn lemma_enc_exts_prefix(ns: Seq<Seq<u8>>, ps: Seq<Seq<u8>>, i: nat, j: nat)
    requires
        i <= j,
    ensures
        enc_exts(ns, ps, i).len() <= enc_exts(ns, ps, j).len(),
        enc_exts(ns, ps, j).subrange(0, enc_exts(ns, ps, i).len() as int) == enc_exts(ns, ps, i),
    decreases j,
{
    if i < j {
        lemma_enc_exts_prefix(ns, ps, i, (j - 1) as nat);
        let a = enc_exts(ns, ps, (j - 1) as nat);
        let b = enc_ext(ns[j - 1], ps[j - 1]);
        assert((a + b).subrange(0, enc_exts(ns, ps, i).len() as int) =~= a.subrange(0, enc_exts(ns, ps, i).len() as int));
    } else {
        assert(enc_exts(ns, ps, j).subrange(0, enc_exts(ns, ps, j).len() as int) =~= enc_exts(ns, ps, j));
    }
}

proof fn lemma_enc_exts_agree(ns: Seq<Seq<u8>>, ps: Seq<Seq<u8>>, ms: Seq<Seq<u8>>, qs: Seq<Seq<u8>>, i: nat)
    requires
        forall|k: int| 0 <= k < i ==> ns[k] == ms[k] && ps[k] == qs[k],
    ensures
        enc_exts(ms, qs, i) == enc_exts(ns, ps, i),
    decreases i,
{
    if i > 0 {
        lemma_enc_exts_agree(ns, ps, ms, qs, (i - 1) as nat);
    }
}

/// The fields of one serialized extension list read back as written.
proof fn lemma_ext_fields(data: Seq<u8>, pos: int, name: Seq<u8>, payload: Seq<u8>)
    requires
        0 <= pos,
        pos + 6 + name.len() + payload.len() <= data.len(),
        data.subrange(pos, pos + 6 + name.len() + payload.len()) == enc_ext(name, payload),
        name.len() <= u16::MAX,
        payload.len() <= u32::MAX,
    ensures
        le16_at(data, pos) == name.len(),
        data.subrange(pos + 2, pos + 2 + name.len()) == name,
        le32_at(data, pos + 2 + name.len()) == payload.len(),
        data.subrange(pos + 6 + name.len(), pos + 6 + name.len() + payload.len()) == payload,
{
    let e = enc_ext(name, payload);
    let nl = name.len() as int;
    let pl = payload.len() as int;
    assert(data.subrange(pos, pos + 2) =~= e.subrange(0, 2));
    assert(e.subrange(0, 2) =~= u16_le(name.len() as u16));
    lemma_u16_le_roundtrip(name.len() as u16, data, pos);
    assert(data.subrange(pos + 2, pos + 2 + nl) =~= e.subrange(2, 2 + nl));
    assert(e.subrange(2, 2 + nl) =~= name);
    assert(data.subrange(pos + 2 + nl, pos + 6 + nl) =~= e.subrange(2 + nl, 6 + nl));
    assert(e.subrange(2 + nl, 6 + nl) =~= u32_le(payload.len() as u32));
    lemma_u32_le_roundtrip(payload.len() as u32, data, pos + 2 + nl);
    assert(data.subrange(pos + 6 + nl, pos + 6 + nl + pl) =~= e.subrange(6 + nl, 6 + nl + pl));
    assert(e.subrange(6 + nl, 6 + nl + pl) =~= payload);
}

/// Reading the serialized lists `i..n` back inserts exactly those entries.
proof fn lemma_parse_exts(data: Seq<u8>, es: Seq<(Seq<char>, Set<u64>)>, ns: Seq<Seq<u8>>, ps: Seq<Seq<u8>>, i: nat)
    requires
        i <= es.len(),
        ns.len() == es.len(),
        ps.len() == es.len(),
        forall|k: int| 0 <= k < es.len() ==> (#[trigger] ps[k]).len() <= u32::MAX,
        4 + enc_exts(ns, ps, es.len()).len() as int <= data.len(),
        data.subrange(4, 4 + enc_exts(ns, ps, es.len()).len() as int) == enc_exts(ns, ps, es.len()),
        forall|k: int| 0 <= k < es.len() ==> #[trigger] ns[k] == encode_utf8(es[k].0),
        forall|k: int| 0 <= k < es.len() ==> (#[trigger] ns[k]).len() <= u16::MAX,
        forall|k: int| 0 <= k < es.len() ==> treemap_decode(#[trigger] ps[k]) == Some(es[k].1),
    ensures
        parse_exts(data, 4 + enc_exts(ns, ps, i).len() as int, (es.len() - i) as nat, map_of(es.take(i as int)))
            == (4 + enc_exts(ns, ps, es.len()).len() as int, map_of(es)),
    decreases es.len() - i,
{
    let n = es.len();
    if i == n {
        assert(es.take(i as int) =~= es);
    } else {
        let full = enc_exts(ns, ps, n);
        let before = enc_exts(ns, ps, i);
        let e = enc_ext(ns[i as int], ps[i as int]);
        let pos: int = 4 + before.len() as int;
        lemma_enc_exts_prefix(ns, ps, i + 1, n);
        assert(enc_exts(ns, ps, i + 1) == before + e);
        assert(data.subrange(pos, pos + e.len()) =~= e) by {
            assert forall|t: int| 0 <= t < e.len() implies data[pos + t] == e[t] by {
                assert(data[pos + t] == data.subrange(4, 4 + full.len() as int)[before.len() + t]);
                assert(full[before.len() + t] == full.subrange(0, enc_exts(ns, ps, i + 1).len() as int)[before.len() + t]);
            }
        }
        lemma_ext_fields(data, pos, ns[i as int], ps[i as int]);
        let nl = ns[i as int].len() as int;
        broadcast use vstd::utf8::encode_utf8_valid_utf8, vstd::utf8::encode_utf8_decode_utf8;
        assert(utf8_lossy(data.subrange(pos + 2, pos + 2 + nl)) == es[i as int].0);
        assert(map_of(es.take(i + 1int)) == map_of(es.take(i as int)).insert(es[i as int].0, es[i as int].1)) by {
            assert(es.take(i + 1int).drop_last() =~= es.take(i as int));
        }
        lemma_parse_exts(data, es, ns, ps, i + 1);
    }
}

/// A serialized index reads back as the entries and the two sets it was
/// A serialized index reads back as the entries and the two sets it was
/// written from, when every length fits its field.
#[verifier::rlimit(30)]
proof fn lemma_decode_serialized(data: Seq<u8>, es: Seq<(Seq<char>, Set<u64>)>, ns: Seq<Seq<u8>>, ps: Seq<Seq<u8>>,
    fb: Seq<u8>, db: Seq<u8>)
    requires
        ns.len() == es.len(),
        ps.len() == es.len(),
        bitmap_fields_fit(ns, ps, fb, db),
        data == u32_le(es.len() as u32) + enc_exts(ns, ps, es.len()) + enc_set(fb) + enc_set(db),
        forall|k: int| 0 <= k < es.len() ==> #[trigger] ns[k] == encode_utf8(es[k].0),
        forall|k: int| 0 <= k < es.len() ==> treemap_decode(#[trigger] ps[k]) == Some(es[k].1),
    ensures
        decode_bitmap(data) == (map_of(es), decoded_or_empty(fb), decoded_or_empty(db)),
{
    let n = es.len();
    let full = enc_exts(ns, ps, n);
    let pos: int = 4 + full.len() as int;
    let fl = fb.len() as int;
    let q: int = pos + 4 + fl;
    assert(data.len() == q + 4 + db.len());
    assert(data.subrange(0, 4) =~= u32_le(n as u32));
    lemma_u32_le_roundtrip(n as u32, data, 0);
    assert(data.subrange(4, pos) =~= full);
    assert(es.take(0) =~= Seq::<(Seq<char>, Set<u64>)>::empty());
    lemma_parse_exts(data, es, ns, ps, 0);
    assert(parse_exts(data, 4, le32_at(data, 0) as nat, Map::empty()) == (pos, map_of(es)));
    assert(data.subrange(pos, pos + 4) =~= u32_le(fb.len() as u32));
    lemma_u32_le_roundtrip(fb.len() as u32, data, pos);
    assert(le32_at(data, pos) == fl);
    assert(data.subrange(pos + 4, q) =~= fb);
    assert(data.subrange(q, q + 4) =~= u32_le(db.len() as u32));
    lemma_u32_le_roundtrip(db.len() as u32, data, q);
    assert(le32_at(data, q) == db.len());
    assert(data.subrange(q + 4, q + 4 + db.len()) =~= db);
}

/// Every length fits its field: the count of lists (`u32`), each name
/// (`u16`), each list's treemap and the two sets (`u32`).
pub open spec fn bitmap_fields_fit(ns: Seq<Seq<u8>>, ps: Seq<Seq<u8>>, fb: Seq<u8>, db: Seq<u8>) -> bool {
    &&& ns.len() <= u32::MAX
    &&& forall|k: int| 0 <= k < ns.len() ==> (#[trigger] ns[k]).len() <= u16::MAX
    &&& forall|k: int| 0 <= k < ps.len() ==> (#[trigger] ps[k]).len() <= u32::MAX
    &&& fb.len() <= u32::MAX
    &&& db.len() <= u32::MAX
}

/// `data` is the binary form of `m`: the extension lists `es` (each
/// extension once), their UTF-8 names `ns` and serialized treemaps `ps`,
/// then the serialized file set `fb` and directory set `db`.
pub open spec fn serialized_bitmaps(m: BitmapModel, es: Seq<(Seq<char>, Set<u64>)>, ns: Seq<Seq<u8>>,
    ps: Seq<Seq<u8>>, fb: Seq<u8>, db: Seq<u8>, data: Seq<u8>) -> bool {
    &&& crate::strmap::keys_unique(es)
    &&& map_of(es) == m.0
    &&& ns.len() == es.len()
    &&& ps.len() == es.len()
    &&& forall|k: int| 0 <= k < es.len() ==> #[trigger] ns[k] == encode_utf8(es[k].0)
    &&& forall|k: int| 0 <= k < es.len() ==> treemap_decode(#[trigger] ps[k]) == Some(es[k].1)
    &&& forall|k: int| 0 <= k < es.len() ==> (#[trigger] ps[k]).len() <= 8 + 8212 * es[k].1.len()
    &&& treemap_decode(fb) == Some(m.1)
    &&& treemap_decode(db) == Some(m.2)
    &&& fb.len() <= 8 + 8212 * m.1.len()
    &&& db.len() <= 8 + 8212 * m.2.len()
    &&& data == u32_le(es.len() as u32) + enc_exts(ns, ps, es.len()) + enc_set(fb) + enc_set(db)
}

/// The number of extension lists fits a `u32`, every extension's UTF-8 name
/// fits a `u16` length, and the serialized size that each set can take (8
/// bytes plus 8212 per value) fits a `u32`.
pub open spec fn bitmap_small(m: BitmapModel) -> bool {
    &&& m.0.dom().len() <= u32::MAX
    &&& forall|e: Seq<char>| #[trigger] m.0.dom().contains(e) ==> encode_utf8(e).len() <= u16::MAX
        && 8 + 8212 * m.0[e].len() <= u32::MAX
    &&& 8 + 8212 * m.1.len() <= u32::MAX
    &&& 8 + 8212 * m.2.len() <= u32::MAX
}

/// For an index of that size every field of the binary form fits.
pub proof fn lemma_small_bitmaps_fit(m: BitmapModel, es: Seq<(Seq<char>, Set<u64>)>, ns: Seq<Seq<u8>>,
    ps: Seq<Seq<u8>>, fb: Seq<u8>, db: Seq<u8>, data: Seq<u8>)
    requires
        serialized_bitmaps(m, es, ns, ps, fb, db, data),
        bitmap_small(m),
    ensures
        bitmap_fields_fit(ns, ps, fb, db),
{
    crate::strmap::lemma_map_of_len(es);
    assert forall|k: int| 0 <= k < ns.len() implies (#[trigger] ns[k]).len() <= u16::MAX by {
        crate::strmap::lemma_map_of_value(es, k);
    }
    assert forall|k: int| 0 <= k < ps.len() implies (#[trigger] ps[k]).len() <= u32::MAX by {
        crate::strmap::lemma_map_of_value(es, k);
        assert(ps[k].len() <= 8 + 8212 * es[k].1.len());
    }
}

/// The binary form reads back as the index, when every length fits its
/// field.
pub proof fn lemma_serialized_bitmaps_decode(m: BitmapModel, es: Seq<(Seq<char>, Set<u64>)>, ns: Seq<Seq<u8>>,
    ps: Seq<Seq<u8>>, fb: Seq<u8>, db: Seq<u8>, data: Seq<u8>)
    requires
        serialized_bitmaps(m, es, ns, ps, fb, db, data),
        bitmap_fields_fit(ns, ps, fb, db),
    ensures
        decode_bitmap(data) == m,
{
    lemma_decode_serialized(data, es, ns, ps, fb, db);
}

/// Data cut short right after the extension lists reads back as those
/// lists, with no files and no directories.
pub proof fn lemma_serialized_bitmaps_cut(m: BitmapModel, es: Seq<(Seq<char>, Set<u64>)>, ns: Seq<Seq<u8>>,
    ps: Seq<Seq<u8>>, fb: Seq<u8>, db: Seq<u8>, data: Seq<u8>, j: int)
    requires
        serialized_bitmaps(m, es, ns, ps, fb, db, data),
        bitmap_fields_fit(ns, ps, fb, db),
        0 <= j < 4,
    ensures
        decode_bitmap(data.take(4 + enc_exts(ns, ps, es.len()).len() + j)) == (m.0, Set::<u64>::empty(),
            Set::<u64>::empty()),
{
    let n = es.len();
    let full = enc_exts(ns, ps, n);
    let pos: int = 4 + full.len() as int;
    let cut = data.take(pos + j);
    assert(data.len() == pos + 4 + fb.len() + 4 + db.len());
    assert(cut.len() == pos + j);
    lemma_enc_exts_len(ns, ps, n);
    assert(cut.subrange(0, 4) =~= u32_le(n as u32));
    lemma_u32_le_roundtrip(n as u32, cut, 0);
    assert(cut.subrange(4, pos) =~= full);
    assert(es.take(0) =~= Seq::<(Seq<char>, Set<u64>)>::empty());
    lemma_parse_exts(cut, es, ns, ps, 0);
    assert(parse_exts(cut, 4, le32_at(cut, 0) as nat, Map::empty()) == (pos, map_of(es)));
}

/// The values of a treemap as a hash set.
pub fn to_hash_set(t: &RoaringTreemap) -> (r: HashSet<u64>)
    ensures
        r@ == treemap_contents(*t),
{
    let v = treemap_to_vec(t);
    let mut h: HashSet<u64> = HashSet::new();
    let mut i: usize = 0;
    while i < v.len()
        invariant
            i <= v@.len(),
            h@ == v@.subrange(0, i as int).to_set(),
        decreases v@.len() - i,
    {
        h.insert(v[i]);
        proof {
            assert(v@.subrange(0, i + 1) =~= v@.subrange(0, i as int).push(v@[i as int]));
            crate::text::lemma_push_to_set(v@.subrange(0, i as int), v@[i as int]);
        }
        i += 1;
    }
    assert(v@.subrange(0, v@.len() as int) =~= v@);
    assert(h@ =~= treemap_contents(*t));
    h
}

/// Bitmap indexes for extension and entry-type filters.
pub struct BitmapIndex {
    extension_map: StrMap<RoaringTreemap>,
    file_set: RoaringTreemap,
    dir_set: RoaringTreemap,
}

impl View for BitmapIndex {
    type V = BitmapModel;

    closed spec fn view(&self) -> BitmapModel {
        (
            self.extension_map.view().map_values(|t: RoaringTreemap| treemap_contents(t)),
            treemap_contents(self.file_set),
            treemap_contents(self.dir_set),
        )
    }
}

impl BitmapIndex {
    /// The extension table has no key twice, and every treemap is well
    /// formed.
    pub closed spec fn wf(&self) -> bool {
        &&& self.extension_map.wf()
        &&& treemap_valid(self.file_set)
        &&& treemap_valid(self.dir_set)
        &&& forall|k: Seq<char>| #[trigger] self.extension_map.view().dom().contains(k)
            ==> treemap_valid(self.extension_map.view()[k])
    }

    /// An empty index.
    pub fn new() -> (r: Self)
        ensures
            r.wf(),
            r@ == bitmap_empty(),
            bitmap_lists_nonempty(r@),
    {
        let r = BitmapIndex {
            extension_map: StrMap::new(),
            file_set: treemap_new(),
            dir_set: treemap_new(),
        };
        assert(r@.0 =~= Map::<Seq<char>, Set<u64>>::empty());
        r
    }

    /// Rebuilds the index from `(id, extension, is_dir)` documents.
    pub fn build(&mut self, docs: &[(u64, &str, bool)])
        ensures
            final(self).wf(),
            final(self)@ == bitmap_of(bitmap_docs_view(docs@)),
            bitmap_lists_nonempty(final(self)@),
    {
        proof {
            lemma_bitmap_of_nonempty(bitmap_docs_view(docs@));
        }
        let mut exts: StrMap<RoaringTreemap> = StrMap::new();
        let mut files = treemap_new();
        let mut dirs = treemap_new();
        let ghost dv = bitmap_docs_view(docs@);
        let mut i: usize = 0;
        proof {
            assert(dv.take(0) =~= Seq::<(u64, Seq<char>, bool)>::empty());
            assert(exts.view().map_values(|t: RoaringTreemap| treemap_contents(t)) =~= Map::<Seq<char>, Set<u64>>::empty());
        }
        while i < docs.len()
            invariant
                dv == bitmap_docs_view(docs@),
                i <= docs@.len(),
                exts.wf(),
                treemap_valid(files),
                treemap_valid(dirs),
                forall|k: Seq<char>| #[trigger] exts.view().dom().contains(k) ==> treemap_valid(exts.view()[k]),
                bitmap_of(dv.take(i as int)) == (exts.view().map_values(|t: RoaringTreemap| treemap_contents(t)),
                    treemap_contents(files), treemap_contents(dirs)),
            decreases docs@.len() - i,
        {
            let (id, ext, is_dir) = docs[i];
            let ghost before = (exts.view().map_values(|t: RoaringTreemap| treemap_contents(t)),
                treemap_contents(files), treemap_contents(dirs));
            if is_dir {
                treemap_insert(&mut dirs, id);
            } else {
                treemap_insert(&mut files, id);
            }
            if !ext.is_empty() {
                let key = ascii_lowercase(ext);
                let cur = exts.remove(key.as_str());
                let mut t = match cur {
                    Some(t) => t,
                    None => treemap_new(),
                };
                treemap_insert(&mut t, id);
                exts.insert(key, t);
            }
            proof {
                assert(dv[i as int] == (id, ext@, is_dir));
                assert(dv.take(i + 1).drop_last() =~= dv.take(i as int));
                let after = (exts.view().map_values(|t: RoaringTreemap| treemap_contents(t)),
                    treemap_contents(files), treemap_contents(dirs));
                assert(after.0 =~= bitmap_add(before, id, ext@, is_dir).0);
            }
            i += 1;
        }
        assert(dv.take(docs@.len() as int) =~= dv);
        self.extension_map = exts;
        self.file_set = files;
        self.dir_set = dirs;
    }

    /// Adds document `id`: to the directories or the files, and, when the
    /// extension is not empty, under its lower-cased extension.
    pub fn add_document(&mut self, doc_id: u64, ext: &str, is_dir: bool)
        requires
            old(self).wf(),
        ensures
            final(self).wf(),
            final(self)@ == bitmap_add(old(self)@, doc_id, ext@, is_dir),
            bitmap_lists_nonempty(old(self)@) ==> bitmap_lists_nonempty(final(self)@),
    {
        proof {
            if bitmap_lists_nonempty(old(self)@) {
                lemma_bitmap_add_nonempty(old(self)@, doc_id, ext@, is_dir);
            }
        }
        let ghost before = self@;
        if is_dir {
            treemap_insert(&mut self.dir_set, doc_id);
        } else {
            treemap_insert(&mut self.file_set, doc_id);
        }
        if !ext.is_empty() {
            let key = ascii_lowercase(ext);
            let cur = self.extension_map.remove(key.as_str());
            let mut t = match cur {
                Some(t) => t,
                None => treemap_new(),
            };
            treemap_insert(&mut t, doc_id);
            self.extension_map.insert(key, t);
        }
        assert(self@.0 =~= bitmap_add(before, doc_id, ext@, is_dir).0);
    }

    /// Removes document `id` from the files, the directories and the list
    /// of its lower-cased extension, dropping that list if it empties.
    pub fn remove_document(&mut self, doc_id: u64, ext: &str)
        requires
            old(self).wf(),
        ensures
            final(self).wf(),
            final(self)@ == bitmap_remove(old(self)@, doc_id, ext@),
            bitmap_lists_nonempty(old(self)@) ==> bitmap_lists_nonempty(final(self)@),
    {
        proof {
            if bitmap_lists_nonempty(old(self)@) {
                lemma_bitmap_remove_nonempty(old(self)@, doc_id, ext@);
            }
        }
        let ghost before = self@;
        if treemap_contains(&self.file_set, doc_id) {
            treemap_remove(&mut self.file_set, doc_id);
        }
        if treemap_contains(&self.dir_set, doc_id) {
            treemap_remove(&mut self.dir_set, doc_id);
        }
        assert(treemap_contents(self.file_set) =~= before.1.remove(doc_id));
        assert(treemap_contents(self.dir_set) =~= before.2.remove(doc_id));
        if !ext.is_empty() {
            let key = ascii_lowercase(ext);
            let cur = self.extension_map.remove(key.as_str());
            match cur {
                Some(t) => {
                    let mut t = t;
                    treemap_remove(&mut t, doc_id);
                    if !treemap_is_empty(&t) {
                        self.extension_map.insert(key, t);
                    }
                },
                None => {},
            }
        }
        assert(self@.0 =~= bitmap_remove(before, doc_id, ext@).0);
    }

    /// The documents with extension `ext` (compared lower-cased), if any.
    pub fn get_by_extension_arc(&self, ext: &str) -> (r: Option<Arc<RoaringTreemap>>)
        requires
            self.wf(),
        ensures
            match r {
                Some(t) => self@.0.dom().contains(ascii_lower_chars(ext@)) && treemap_contents(*t)
                    == self@.0[ascii_lower_chars(ext@)] && treemap_valid(*t),
                None => !self@.0.dom().contains(ascii_lower_chars(ext@)),
            },
    {
        let key = ascii_lowercase(ext);
        match self.extension_map.get(key.as_str()) {
            Some(t) => Some(Arc::new(treemap_clone(t))),
            None => None,
        }
    }

    /// The file documents.
    pub fn get_files_arc(&self) -> (r: Arc<RoaringTreemap>)
        requires
            self.wf(),
        ensures
            treemap_contents(*r) == self@.1,
            treemap_valid(*r),
    {
        Arc::new(treemap_clone(&self.file_set))
    }

    /// The directory documents.
    pub fn get_dirs_arc(&self) -> (r: Arc<RoaringTreemap>)
        requires
            self.wf(),
        ensures
            treemap_contents(*r) == self@.2,
            treemap_valid(*r),
    {
        Arc::new(treemap_clone(&self.dir_set))
    }

    /// The documents with extension `ext`, as a hash set.
    pub fn get_by_extension(&self, ext: &str) -> (r: Option<HashSet<u64>>)
        requires
            self.wf(),
        ensures
            match r {
                Some(s) => self@.0.dom().contains(ascii_lower_chars(ext@)) && s@ == self@.0[ascii_lower_chars(ext@)],
                None => !self@.0.dom().contains(ascii_lower_chars(ext@)),
            },
    {
        match self.get_by_extension_arc(ext) {
            Some(t) => Some(to_hash_set(&*t)),
            None => None,
        }
    }

    /// The file documents, as a hash set.
    pub fn get_files(&self) -> (r: HashSet<u64>)
        ensures
            r@ == self@.1,
    {
        to_hash_set(&self.file_set)
    }

    /// The directory documents, as a hash set.
    pub fn get_dirs(&self) -> (r: HashSet<u64>)
        ensures
            r@ == self@.2,
    {
        to_hash_set(&self.dir_set)
    }

    /// Empties every table.
    pub fn clear(&mut self)
        ensures
            final(self).wf(),
            final(self)@ == bitmap_empty(),
            bitmap_lists_nonempty(final(self)@),
    {
        self.extension_map.clear();
        self.file_set = treemap_new();
        self.dir_set = treemap_new();
        assert(self@.0 =~= Map::<Seq<char>, Set<u64>>::empty());
    }

    /// The binary form: a little-endian `u32` count of extension lists, each
    /// list as its UTF-8 name behind a `u16` length and its treemap behind a
    /// `u32` length, then the file set and the directory set, each behind a
    /// `u32` length (see `serialized_bitmaps`). When every length fits its
    /// field, `decode_bitmap` reads back exactly the index.
    pub fn serialize(&self) -> (r: Vec<u8>)
        requires
            self.wf(),
        ensures
            exists|es: Seq<(Seq<char>, Set<u64>)>, ns: Seq<Seq<u8>>, ps: Seq<Seq<u8>>, fb: Seq<u8>, db: Seq<u8>|
                #[trigger] serialized_bitmaps(self@, es, ns, ps, fb, db, r@) && (bitmap_fields_fit(ns, ps, fb, db)
                ==> decode_bitmap(r@) == self@),
            bitmap_small(self@) ==> decode_bitmap(r@) == self@,
    {
        let n = self.extension_map.len();
        let mut buf: Vec<u8> = Vec::new();
        push_u32_le(&mut buf, n as u32);
        let ghost es = entry_sets(self.extension_map.entries());
        let ghost mut ns: Seq<Seq<u8>> = Seq::empty();
        let ghost mut ps: Seq<Seq<u8>> = Seq::empty();
        let mut i: usize = 0;
        while i < n
            invariant
                n == es.len(),
                es == entry_sets(self.extension_map.entries()),
                i <= n,
                ns.len() == i,
                ps.len() == i,
                buf@ == u32_le(n as u32) + enc_exts(ns, ps, i as nat),
                forall|k: int| 0 <= k < i ==> #[trigger] ns[k] == encode_utf8(es[k].0),
                forall|k: int| 0 <= k < i ==> treemap_decode(#[trigger] ps[k]) == Some(es[k].1),
                forall|k: int| 0 <= k < i ==> (#[trigger] ps[k]).len() <= 8 + 8212 * es[k].1.len(),
                self.wf(),
            decreases n - i,
        {
            let key = self.extension_map.key_at(i);
            proof {
                crate::strmap::lemma_map_of_value(self.extension_map.entries(), i as int);
                let k = self.extension_map.entries()[i as int].0;
                assert(self.extension_map.view().dom().contains(k));
                assert(treemap_valid(self.extension_map.entries()[i as int].1));
            }
            let eb = key.as_str().as_bytes();
            let tmp = treemap_serialize(self.extension_map.value_at(i));
            let ghost before = buf@;
            push_u16_le(&mut buf, eb.len() as u16);
            push_bytes(&mut buf, eb);
            push_u32_le(&mut buf, tmp.len() as u32);
            push_bytes(&mut buf, tmp.as_slice());
            proof {
                let ns0 = ns;
                let ps0 = ps;
                ns = ns.push(eb@);
                ps = ps.push(tmp@);
                assert(enc_exts(ns, ps, i as nat) == enc_exts(ns0, ps0, i as nat)) by {
                    lemma_enc_exts_agree(ns0, ps0, ns, ps, i as nat);
                }
                assert(buf@ =~= u32_le(n as u32) + enc_exts(ns, ps, (i + 1) as nat));
            }
            i += 1;
        }
        let fb = treemap_serialize(&self.file_set);
        let db = treemap_serialize(&self.dir_set);
        let ghost head = buf@;
        push_u32_le(&mut buf, fb.len() as u32);
        push_bytes(&mut buf, fb.as_slice());
        push_u32_le(&mut buf, db.len() as u32);
        push_bytes(&mut buf, db.as_slice());
        proof {
            lemma_map_of_sets(self.extension_map.entries());
            assert(buf@ == head + enc_set(fb@) + enc_set(db@));
            assert(crate::strmap::keys_unique(es)) by {
                assert forall|a: int, b: int| 0 <= a < b < es.len() implies es[a].0 != es[b].0 by {
                    assert(es[a].0 == self.extension_map.entries()[a].0);
                    assert(es[b].0 == self.extension_map.entries()[b].0);
                }
            }
            assert(serialized_bitmaps(self@, es, ns, ps, fb@, db@, buf@));
            if bitmap_fields_fit(ns, ps, fb@, db@) {
                lemma_serialized_bitmaps_decode(self@, es, ns, ps, fb@, db@, buf@);
            }
            if bitmap_small(self@) {
                lemma_small_bitmaps_fit(self@, es, ns, ps, fb@, db@, buf@);
                lemma_serialized_bitmaps_decode(self@, es, ns, ps, fb@, db@, buf@);
            }
        }
        buf
    }

    /// Replaces the index with what `data` holds (see `decode_bitmap`).
    pub fn deserialize(&mut self, data: &[u8])
        ensures
            final(self).wf(),
            final(self)@ == decode_bitmap(data@),
    {
        let dl = data.len();
        if dl < 4 {
            self.clear();
            return;
        }
        let ext_count = read_u32_le(data, 0);
        let mut pos: usize = 4;
        let mut ext_map: StrMap<RoaringTreemap> = StrMap::new();
        let ghost target = parse_exts(data@, 4, ext_count as nat, Map::empty());
        let mut k: u32 = 0;
        assert(ext_map.view().map_values(|t: RoaringTreemap| treemap_contents(t)) =~= Map::<Seq<char>, Set<u64>>::empty());
        while k < ext_count
            invariant_except_break
                target == parse_exts(data@, pos as int, (ext_count - k) as nat,
                    ext_map.view().map_values(|t: RoaringTreemap| treemap_contents(t))),
            invariant
                dl == data@.len(),
                4 <= pos <= dl,
                k <= ext_count,
                ext_map.wf(),
                forall|e: Seq<char>| #[trigger] ext_map.view().dom().contains(e) ==> treemap_valid(ext_map.view()[e]),
            ensures
                4 <= pos <= dl,
                ext_map.wf(),
                forall|e: Seq<char>| #[trigger] ext_map.view().dom().contains(e) ==> treemap_valid(ext_map.view()[e]),
                target == (pos as int, ext_map.view().map_values(|t: RoaringTreemap| treemap_contents(t))),
            decreases ext_count - k,
        {
            let ghost acc0 = ext_map.view().map_values(|t: RoaringTreemap| treemap_contents(t));
            if dl - pos < 2 {
                break;
            }
            let elen = read_u16_le(data, pos) as usize;
            let p1 = pos + 2;
            if elen > dl - p1 {
                pos = p1;
                break;
            }
            let ext = string_from_utf8_lossy(&data[p1..p1 + elen]);
            let p2 = p1 + elen;
            if dl - p2 < 4 {
                pos = p2;
                break;
            }
            let rlen = read_u32_le(data, p2) as usize;
            let p3 = p2 + 4;
            if rlen > dl - p3 {
                pos = p3;
                break;
            }
            let ghost ext_chars = ext@;
            proof {
                assert(data@.subrange(p1 as int, p1 + elen) == data@.subrange(p1 as int, p1 + elen));
            }
            match treemap_from_bytes(&data[p3..p3 + rlen]) {
                Some(rt) => {
                    let ghost st = treemap_contents(rt);
                    ext_map.insert(ext, rt);
                    assert(ext_map.view().map_values(|t: RoaringTreemap| treemap_contents(t)) =~= acc0.insert(ext_chars, st));
                },
                None => {},
            }
            pos = p3 + rlen;
            k = k + 1;
        }
        let ghost exts = ext_map.view().map_values(|t: RoaringTreemap| treemap_contents(t));
        self.extension_map = ext_map;
        if dl - pos < 4 {
            self.file_set = treemap_new();
            self.dir_set = treemap_new();
            return;
        }
        let flen = read_u32_le(data, pos) as usize;
        pos = pos + 4;
        if flen > dl - pos {
            self.file_set = treemap_new();
            self.dir_set = treemap_new();
            return;
        }
        let files = match treemap_from_bytes(&data[pos..pos + flen]) {
            Some(t) => t,
            None => treemap_new(),
        };
        pos = pos + flen;
        self.file_set = files;
        if dl - pos < 4 {
            self.dir_set = treemap_new();
            return;
        }
        let dlen = read_u32_le(data, pos) as usize;
        pos = pos + 4;
        if dlen > dl - pos {
            self.dir_set = treemap_new();
            return;
        }
        let dirs = match treemap_from_bytes(&data[pos..pos + dlen]) {
            Some(t) => t,
            None => treemap_new(),
        };
        self.dir_set = dirs;
    }
}

impl Default for BitmapIndex {
    /// An empty index.
    fn default() -> (r: Self)
        ensures
            r.wf(),
            r@ == bitmap_empty(),
    {
        BitmapIndex::new()
    }
}

} // verus!
