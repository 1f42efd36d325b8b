//! Contracts for the `roaring::RoaringTreemap` operations the indexes use.
//! A treemap is modelled by the set of `u64` values it holds, and by whether
//! it is well formed: the lookups and updates are stated for well-formed
//! treemaps only, and treemaps read from bytes are rebuilt before use.

use roaring::RoaringTreemap;
use vstd::prelude::*;

verus! {

#[verifier::external_type_specification]
#[verifier::external_body]
pub struct ExRoaringTreemap(RoaringTreemap);

/// The values a treemap holds: those that walking its bitmaps and their
/// containers yields.
pub uninterp spec fn treemap_contents(t: RoaringTreemap) -> Set<u64>;

/// Whether a treemap has the shape that `RoaringTreemap`'s own operations
/// build and keep, and that its lookups rely on: no bitmap of it is empty; in
/// each bitmap the containers are sorted by key, each key occurs once, no
/// container is empty, and a container is stored as an array exactly when it
/// holds at most 4096 values. `deserialize_from` does not check the order,
/// the uniqueness or the non-emptiness of containers, so a decoded treemap
/// need not have this shape.
pub uninterp spec fn treemap_valid(t: RoaringTreemap) -> bool;

/// What `RoaringTreemap::deserialize_from` reads from a byte sequence: the
/// set it encodes, or `None` when the bytes are not a valid encoding.
pub uninterp spec fn treemap_decode(bytes: Seq<u8>) -> Option<Set<u64>>;

/// Calls `RoaringTreemap::new`. Claimed: the treemap is empty and well formed.
#[verifier::external_body]
pub(crate) fn treemap_new() -> (r: RoaringTreemap)
    ensures
        treemap_valid(r),
        treemap_contents(r) == Set::<u64>::empty(),
{
    RoaringTreemap::new()
}

/// Calls `RoaringTreemap::insert` on a well-formed treemap. Claimed: the
/// value is added, the treemap stays well formed, and the result says
/// whether the value was absent before.
#[verifier::external_body]
pub(crate) fn treemap_insert(t: &mut RoaringTreemap, v: u64) -> (r: bool)
    requires
        treemap_valid(*old(t)),
    ensures
        treemap_valid(*final(t)),
        treemap_contents(*final(t)) == treemap_contents(*old(t)).insert(v),
        r == !treemap_contents(*old(t)).contains(v),
{
    t.insert(v)
}

/// Calls `RoaringTreemap::remove` on a well-formed treemap. Claimed: the
/// value is removed, the treemap stays well formed, and the result says
/// whether the value was present before.
#[verifier::external_body]
pub(crate) fn treemap_remove(t: &mut RoaringTreemap, v: u64) -> (r: bool)
    requires
        treemap_valid(*old(t)),
    ensures
        treemap_valid(*final(t)),
        treemap_contents(*final(t)) == treemap_contents(*old(t)).remove(v),
        r == treemap_contents(*old(t)).contains(v),
{
    t.remove(v)
}

/// Calls `RoaringTreemap::contains` on a well-formed treemap. Claimed:
/// membership of the value.
#[verifier::external_body]
pub(crate) fn treemap_contains(t: &RoaringTreemap, v: u64) -> (r: bool)
    requires
        treemap_valid(*t),
    ensures
        r == treemap_contents(*t).contains(v),
{
    t.contains(v)
}

/// Calls `RoaringTreemap::len` on a well-formed treemap. Claimed: the
/// number of values in the set.
#[verifier::external_body]
pub(crate) fn treemap_len(t: &RoaringTreemap) -> (r: u64)
    requires
        treemap_valid(*t),
    ensures
        r as nat == treemap_contents(*t).len(),
{
    t.len()
}

/// Calls `RoaringTreemap::is_empty` on a well-formed treemap. Claimed:
/// whether the set is empty.
#[verifier::external_body]
pub(crate) fn treemap_is_empty(t: &RoaringTreemap) -> (r: bool)
    requires
        treemap_valid(*t),
    ensures
        r == (treemap_contents(*t) == Set::<u64>::empty()),
{
    t.is_empty()
}

/// Calls `RoaringTreemap::clone` (derived: the copy has the same bitmaps
/// and containers). Claimed: the copy holds the same values and is well
/// formed exactly when the original is.
#[verifier::external_body]
pub(crate) fn treemap_clone(t: &RoaringTreemap) -> (r: RoaringTreemap)
    ensures
        treemap_valid(r) == treemap_valid(*t),
        treemap_contents(r) == treemap_contents(*t),
{
    t.clone()
}

/// Calls `&RoaringTreemap & &RoaringTreemap` on well-formed treemaps.
/// Claimed: the result is the intersection, well formed.
#[verifier::external_body]
pub(crate) fn treemap_and(a: &RoaringTreemap, b: &RoaringTreemap) -> (r: RoaringTreemap)
    requires
        treemap_valid(*a),
        treemap_valid(*b),
    ensures
        treemap_valid(r),
        treemap_contents(r) == treemap_contents(*a).intersect(treemap_contents(*b)),
{
    a & b
}

/// Calls `RoaringTreemap &= &RoaringTreemap` on well-formed treemaps.
/// Claimed: the left side becomes the intersection and stays well formed.
#[verifier::external_body]
pub(crate) fn treemap_and_assign(a: &mut RoaringTreemap, b: &RoaringTreemap)
    requires
        treemap_valid(*old(a)),
        treemap_valid(*b),
    ensures
        treemap_valid(*final(a)),
        treemap_contents(*final(a)) == treemap_contents(*old(a)).intersect(treemap_contents(*b)),
{
    *a &= b
}

/// Calls `RoaringTreemap::iter` and collects. Claimed: the vector holds
/// exactly the treemap's values; on a well-formed treemap they come out in
/// strictly increasing order (the bitmaps are walked in key order, and so
/// are their sorted containers), each value once.
#[verifier::external_body]
pub(crate) fn treemap_to_vec(t: &RoaringTreemap) -> (r: Vec<u64>)
    ensures
        treemap_valid(*t) ==> forall|i: int, j: int| 0 <= i < j < r@.len() ==> r@[i] < r@[j],
        forall|v: u64| r@.contains(v) <==> treemap_contents(*t).contains(v),
{
    t.iter().collect()
}

/// Calls `RoaringTreemap::serialize_into` on a fresh `Vec` (writing into a
/// `Vec` does not fail) for a well-formed treemap. Claimed: `deserialize_from`
/// on the bytes gives back the same values, as the crate documents; and the
/// bytes are at most 8 plus 8212 per value. The format writes an 8-byte
/// count, then per bitmap a 4-byte key and 8 header bytes, then per
/// container 8 bytes of description and offset and at most 8192 bytes of
/// values; a well-formed treemap has no more bitmaps, nor containers, than
/// values.
#[verifier::external_body]
pub(crate) fn treemap_serialize(t: &RoaringTreemap) -> (r: Vec<u8>)
    requires
        treemap_valid(*t),
    ensures
        treemap_decode(r@) == Some(treemap_contents(*t)),
        r@.len() <= 8 + 8212 * treemap_contents(*t).len(),
{
    let mut buf: Vec<u8> = Vec::new();
    t.serialize_into(&mut buf).expect("writing into a Vec does not fail");
    buf
}

/// Calls `RoaringTreemap::deserialize_from` on a byte slice. Claimed: the
/// result is a treemap exactly when the bytes decode, holding the decoded
/// values. Nothing is claimed of its shape: see `treemap_from_bytes`.
#[verifier::external_body]
pub(crate) fn treemap_deserialize(bytes: &[u8]) -> (r: Option<RoaringTreemap>)
    ensures
        match r {
            Some(t) => treemap_decode(bytes@) == Some(treemap_contents(t)),
            None => treemap_decode(bytes@) is None,
        },
{
    RoaringTreemap::deserialize_from(bytes).ok()
}

/// Decodes a treemap and rebuilds it value by value, so that what comes out
/// is well formed whatever the order of the containers in the bytes.
pub fn treemap_from_bytes(bytes: &[u8]) -> (r: Option<RoaringTreemap>)
    ensures
        match r {
            Some(t) => treemap_valid(t) && treemap_decode(bytes@) == Some(treemap_contents(t)),
            None => treemap_decode(bytes@) is None,
        },
{
    match treemap_deserialize(bytes) {
        None => None,
        Some(raw) => {
            let vals = treemap_to_vec(&raw);
            let mut t = treemap_new();
            let mut i: usize = 0;
            while i < vals.len()
                invariant
                    i <= vals@.len(),
                    treemap_valid(t),
                    forall|v: u64| treemap_contents(t).contains(v) <==> vals@.take(i as int).contains(v),
                decreases vals@.len() - i,
            {
                treemap_insert(&mut t, vals[i]);
                proof {
                    assert(vals@.take(i + 1) =~= vals@.take(i as int).push(vals@[i as int]));
                    assert forall|v: u64| treemap_contents(t).contains(v) <==> vals@.take(i + 1).contains(v) by {
                        if v == vals@[i as int] {
                            assert(vals@.take(i + 1)[i as int] == v);
                        } else if vals@.take(i + 1).contains(v) {
                            let k = choose|k: int| 0 <= k < i + 1 && #[trigger] vals@.take(i + 1)[k] == v;
                            assert(vals@.take(i as int)[k] == v);
                        }
                    }
                }
                i += 1;
            }
            assert(vals@.take(vals@.len() as int) =~= vals@);
            assert(treemap_contents(t) =~= treemap_contents(raw));
            Some(t)
        }
    }
}

} // verus!
