//! A map from strings to positions, bucketed by the Fx hash of each
//! string's UTF-8 bytes; each bucket is a small `StrMap`.

use std::collections::HashMap;
use vstd::prelude::*;
use vstd::string::*;
use vstd::utf8::encode_utf8;
use crate::stdx::{fx_hash, fx_hash_of};
use crate::strmap::StrMap;

verus! {

broadcast use vstd::std_specs::hash::group_hash_axioms;

/// The bucket of a key.
pub open spec fn key_hash(k: Seq<char>) -> u64 {
    fx_hash_of(encode_utf8(k), usize::BITS)
}

/// Positions by path text.
pub struct PathIndex {
    buckets: HashMap<u64, StrMap<usize>>,
}

impl PathIndex {
    /// The map the buckets hold together.
    pub closed spec fn view(&self) -> Map<Seq<char>, usize> {
        Map::new(
            |k: Seq<char>| self.buckets@.contains_key(key_hash(k)) && self.buckets@[key_hash(k)].view().contains_key(k),
            |k: Seq<char>| self.buckets@[key_hash(k)].view()[k],
        )
    }

    /// Each bucket has no key twice and holds only keys that hash to it.
    pub closed spec fn wf(&self) -> bool {
        forall|h: u64| #[trigger] self.buckets@.contains_key(h) ==> self.buckets@[h].wf() && forall|k: Seq<char>|
            #[trigger] self.buckets@[h].view().contains_key(k) ==> key_hash(k) == h
    }

    /// An empty index.
    pub fn new() -> (r: Self)
        ensures
            r.wf(),
            r.view() == Map::<Seq<char>, usize>::empty(),
    {
        let r = PathIndex { buckets: HashMap::new() };
        assert(r.view() =~= Map::<Seq<char>, usize>::empty());
        r
    }

    /// The position stored for `key`.
    pub fn get(&self, key: &str) -> (r: Option<usize>)
        requires
            self.wf(),
        ensures
            match r {
                Some(v) => self.view().contains_key(key@) && v == self.view()[key@],
                None => !self.view().contains_key(key@),
            },
    {
        let h = fx_hash(key.as_bytes());
        match self.buckets.get(&h) {
            Some(b) => match b.get(key) {
                Some(v) => Some(*v),
                None => None,
            },
            None => None,
        }
    }

    /// Stores `v` for `key`.
    pub fn insert(&mut self, key: String, v: usize)
        requires
            old(self).wf(),
        ensures
            final(self).wf(),
            final(self).view() == old(self).view().insert(key@, v),
    {
        let ghost k = key@;
        let h = fx_hash(key.as_str().as_bytes());
        let ghost before = self.buckets@;
        let mut b = match self.buckets.remove(&h) {
            Some(b) => b,
            None => StrMap::new(),
        };
        let ghost bv0 = b.view();
        b.insert(key, v);
        self.buckets.insert(h, b);
        proof {
            assert forall|hh: u64| #[trigger] self.buckets@.contains_key(hh) implies self.buckets@[hh].wf() && forall|
                kk: Seq<char>,
            | #[trigger] self.buckets@[hh].view().contains_key(kk) ==> key_hash(kk) == hh by {
                if hh == h {
                    assert forall|kk: Seq<char>| #[trigger] self.buckets@[hh].view().contains_key(kk) implies key_hash(kk)
                        == hh by {
                        if kk != k {
                            assert(bv0.contains_key(kk));
                            assert(before.contains_key(h));
                        }
                    }
                } else {
                    assert(before.contains_key(hh));
                }
            }
            assert forall|kk: Seq<char>| self.view().contains_key(kk) <==> old(self).view().insert(k, v).contains_key(kk) by {
                if key_hash(kk) == h && kk != k {
                    if before.contains_key(h) {
                        assert(bv0 == before[h].view());
                    }
                }
            }
            assert forall|kk: Seq<char>| #[trigger] self.view().contains_key(kk) implies self.view()[kk] == old(
                self,
            ).view().insert(k, v)[kk] by {
                if key_hash(kk) == h && kk != k {
                    assert(bv0 == before[h].view());
                }
            }
            assert(self.view() =~= old(self).view().insert(k, v));
        }
    }

    /// Takes the position stored for `key` out.
    pub fn remove(&mut self, key: &str) -> (r: Option<usize>)
        requires
            old(self).wf(),
        ensures
            final(self).wf(),
            final(self).view() == old(self).view().remove(key@),
            match r {
                Some(v) => old(self).view().contains_key(key@) && v == old(self).view()[key@],
                None => !old(self).view().contains_key(key@),
            },
    {
        let h = fx_hash(key.as_bytes());
        let ghost before = self.buckets@;
        match self.buckets.remove(&h) {
            Some(b) => {
                let mut b = b;
                let ghost bv0 = b.view();
                let r = b.remove(key);
                self.buckets.insert(h, b);
                proof {
                    assert forall|hh: u64| #[trigger] self.buckets@.contains_key(hh) implies self.buckets@[hh].wf()
                        && forall|kk: Seq<char>| #[trigger] self.buckets@[hh].view().contains_key(kk) ==> key_hash(kk)
                        == hh by {
                        if hh == h {
                            assert forall|kk: Seq<char>| #[trigger] self.buckets@[hh].view().contains_key(kk) implies key_hash(
                                kk,
                            ) == hh by {
                                assert(bv0.contains_key(kk));
                            }
                        } else {
                            assert(before.contains_key(hh));
                        }
                    }
                    assert(self.view() =~= old(self).view().remove(key@));
                }
                r
            },
            None => {
                assert(old(self).view().remove(key@) =~= old(self).view());
                None
            },
        }
    }

    /// Removes every entry.
    pub fn clear(&mut self)
        ensures
            final(self).wf(),
            final(self).view() == Map::<Seq<char>, usize>::empty(),
    {
        self.buckets.clear();
        assert(self.view() =~= Map::<Seq<char>, usize>::empty());
    }
}

} // verus!
