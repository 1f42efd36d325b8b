//! A bounded cache of query results, evicting in insertion order.

use vstd::prelude::*;
use vstd::string::*;
use crate::models::texts;
use crate::strmap::{StrMap, lemma_map_of_len};

verus! {

/// What a cache holds: its entries, the keys in the order they were put
/// (a key put twice is listed twice), and its capacity.
pub struct CacheModel<V> {
    pub map: Map<Seq<char>, V>,
    pub order: Seq<Seq<char>>,
    pub max: usize,
}

/// Drops the oldest keys while the cache is full.
pub open spec fn evict<V>(map: Map<Seq<char>, V>, order: Seq<Seq<char>>, max: usize) -> (Map<Seq<char>, V>, Seq<Seq<char>>)
    decreases order.len(),
{
    if map.dom().len() >= max && order.len() > 0 {
        evict(map.remove(order[0]), order.drop_first(), max)
    } else {
        (map, order)
    }
}

/// The cache after putting `v` under `k`: the oldest keys are dropped
/// while it is full, then the entry is stored and its key listed last.
pub open spec fn put_model<V>(c: CacheModel<V>, k: Seq<char>, v: V) -> CacheModel<V> {
    let (m, o) = evict(c.map, c.order, c.max);
    CacheModel { map: m.insert(k, v), order: o.push(k), max: c.max }
}

/// Every stored key is listed in the order.
pub open spec fn cache_model_wf<V>(c: CacheModel<V>) -> bool {
    &&& c.map.dom().finite()
    &&& forall|k: Seq<char>| #[trigger] c.map.dom().contains(k) ==> c.order.contains(k)
}

/// A value just put is found under its key.
pub proof fn lemma_put_then_get<V>(c: CacheModel<V>, k: Seq<char>, v: V)
    ensures
        put_model(c, k, v).map.dom().contains(k),
        put_model(c, k, v).map[k] == v,
{
}

proof fn lemma_evict<V>(map: Map<Seq<char>, V>, order: Seq<Seq<char>>, max: usize)
    requires
        map.dom().finite(),
        forall|k: Seq<char>| #[trigger] map.dom().contains(k) ==> order.contains(k),
    ensures
        ({
            let (m, o) = evict(map, order, max);
            &&& m.dom().finite()
            &&& forall|k: Seq<char>| #[trigger] m.dom().contains(k) ==> o.contains(k)
            &&& m.dom().len() < max || o.len() == 0
            &&& o.len() == 0 ==> m.dom().len() == 0
        }),
    decreases order.len(),
{
    if map.dom().len() >= max && order.len() > 0 {
        let m2 = map.remove(order[0]);
        let o2 = order.drop_first();
        assert forall|k: Seq<char>| #[trigger] m2.dom().contains(k) implies o2.contains(k) by {
            assert(order.contains(k));
            let i = choose|i: int| 0 <= i < order.len() && order[i] == k;
            assert(i != 0);
            assert(o2[i - 1] == k);
        }
        lemma_evict(m2, o2, max);
    } else if order.len() == 0 {
        assert(map.dom() =~= Set::<Seq<char>>::empty()) by {
            assert forall|k: Seq<char>| !map.dom().contains(k) by {
                if map.dom().contains(k) {
                    assert(order.contains(k));
                }
            }
        }
    }
}

/// A cache that lists every stored key never holds more than its capacity
/// after a put, and keeps listing every stored key.
pub proof fn lemma_put_bounded<V>(c: CacheModel<V>, k: Seq<char>, v: V)
    requires
        cache_model_wf(c),
        c.max >= 1,
    ensures
        cache_model_wf(put_model(c, k, v)),
        put_model(c, k, v).map.dom().len() <= c.max,
{
    lemma_evict(c.map, c.order, c.max);
    let (m, o) = evict(c.map, c.order, c.max);
    let c2 = put_model(c, k, v);
    assert forall|x: Seq<char>| #[trigger] c2.map.dom().contains(x) implies c2.order.contains(x) by {
        if x == k {
            assert(c2.order[c2.order.len() - 1] == k);
        } else {
            assert(o.contains(x));
            let i = choose|i: int| 0 <= i < o.len() && o[i] == x;
            assert(c2.order[i] == x);
        }
    }
}

/// Cached values by query text, at most `max_entries` of them, the oldest
/// put evicted first.
pub struct QueryCache<V> {
    entries: StrMap<V>,
    max_entries: usize,
    order: Vec<String>,
}

impl<V> QueryCache<V> {
    /// The entries, the order of the keys and the capacity.
    pub closed spec fn model(&self) -> CacheModel<V> {
        CacheModel { map: self.entries.view(), order: texts(self.order@), max: self.max_entries }
    }

    /// The entry table has no key twice.
    pub closed spec fn wf(&self) -> bool {
        self.entries.wf()
    }

    /// An empty cache of capacity `max_entries`.
    pub fn new(max_entries: usize) -> (r: Self)
        ensures
            r.wf(),
            r.model().map == Map::<Seq<char>, V>::empty(),
            r.model().order.len() == 0,
            r.model().max == max_entries,
    {
        let r = QueryCache { entries: StrMap::new(), max_entries, order: Vec::new() };
        assert(r.model().map =~= Map::<Seq<char>, V>::empty());
        r
    }

    /// The value cached for `query`.
    pub fn get(&self, query: &str) -> (r: Option<&V>)
        requires
            self.wf(),
        ensures
            match r {
                Some(v) => self.model().map.dom().contains(query@) && *v == self.model().map[query@],
                None => !self.model().map.dom().contains(query@),
            },
    {
        self.entries.get(query)
    }

    /// Stores `results` under `query` (see `put_model`).
    pub fn put(&mut self, query: String, results: V)
        requires
            old(self).wf(),
        ensures
            final(self).wf(),
            final(self).model() == put_model(old(self).model(), query@, results),
    {
        let ghost start = self.model();
        let ghost target = evict(start.map, start.order, start.max);
        proof {
            lemma_map_of_len(self.entries.entries());
        }
        while self.entries.len() >= self.max_entries && self.order.len() > 0
            invariant
                self.wf(),
                self.max_entries == start.max,
                evict(self.model().map, self.model().order, self.max_entries) == target,
                self.entries.view().dom().finite(),
                self.entries.view().dom().len() == self.entries.entries().len(),
            decreases self.order@.len(),
        {
            let ghost before = self.model();
            let oldest = self.order.remove(0);
            self.entries.remove(oldest.as_str());
            proof {
                lemma_map_of_len(self.entries.entries());
                assert(self.model().order =~= before.order.drop_first());
            }
        }
        let ghost kq = query@;
        self.entries.insert(query.clone(), results);
        let ghost o = self.model().order;
        self.order.push(query);
        assert(self.model().order =~= o.push(kq));
    }

    /// Empties the cache.
    pub fn clear(&mut self)
        ensures
            final(self).wf(),
            final(self).model().map == Map::<Seq<char>, V>::empty(),
            final(self).model().order.len() == 0,
            final(self).model().max == old(self).model().max,
    {
        self.entries.clear();
        self.order.clear();
        assert(self.model().map =~= Map::<Seq<char>, V>::empty());
    }

    /// The number of cached entries.
    pub fn len(&self) -> (r: usize)
        requires
            self.wf(),
        ensures
            r == self.model().map.dom().len(),
    {
        proof {
            lemma_map_of_len(self.entries.entries());
        }
        self.entries.len()
    }

    /// Whether nothing is cached.
    pub fn is_empty(&self) -> (r: bool)
        requires
            self.wf(),
        ensures
            r == (self.model().map.dom().len() == 0),
    {
        proof {
            lemma_map_of_len(self.entries.entries());
        }
        self.entries.len() == 0
    }
}

impl<V> Default for QueryCache<V> {
    /// An empty cache of capacity 128.
    fn default() -> (r: Self)
        ensures
            r.wf(),
            r.model().map == Map::<Seq<char>, V>::empty(),
            r.model().order.len() == 0,
            r.model().max == 128,
    {
        QueryCache::new(128)
    }
}

} // verus!
