//! A small map keyed by strings, kept as a vector of entries in insertion
//! order with no key twice.

use vstd::prelude::*;

verus! {

/// The map that a list of entries denotes; a later entry for a key wins.
pub open spec fn map_of<V>(es: Seq<(Seq<char>, V)>) -> Map<Seq<char>, V>
    decreases es.len(),
{
    if es.len() == 0 {
        Map::empty()
    } else {
        map_of(es.drop_last()).insert(es.last().0, es.last().1)
    }
}

/// No key occurs twice.
pub open spec fn keys_unique<V>(es: Seq<(Seq<char>, V)>) -> bool {
    forall|i: int, j: int| 0 <= i < j < es.len() ==> es[i].0 != es[j].0
}

/// The keys of the entries, in order.
pub open spec fn keys_of<V>(es: Seq<(Seq<char>, V)>) -> Seq<Seq<char>> {
    es.map_values(|e: (Seq<char>, V)| e.0)
}

/// A key is in the map exactly when some entry has it.
pub proof fn lemma_map_of_dom<V>(es: Seq<(Seq<char>, V)>)
    ensures
        forall|k: Seq<char>| map_of(es).dom().contains(k) <==> exists|i: int| 0 <= i < es.len() && es[i].0 == k,
    decreases es.len(),
{
    if es.len() > 0 {
        lemma_map_of_dom(es.drop_last());
        assert forall|k: Seq<char>| map_of(es).dom().contains(k) <==> exists|i: int| 0 <= i < es.len() && es[i].0 == k by {
            if map_of(es.drop_last()).dom().contains(k) {
                let i = choose|i: int| 0 <= i < es.drop_last().len() && es.drop_last()[i].0 == k;
                assert(es[i].0 == k);
            }
            if exists|i: int| 0 <= i < es.len() && es[i].0 == k {
                let i = choose|i: int| 0 <= i < es.len() && es[i].0 == k;
                if i < es.len() - 1 {
                    assert(es.drop_last()[i].0 == k);
                }
            }
        }
    }
}

/// With unique keys, the map sends each entry's key to its value.
pub proof fn lemma_map_of_value<V>(es: Seq<(Seq<char>, V)>, i: int)
    requires
        keys_unique(es),
        0 <= i < es.len(),
    ensures
        map_of(es).dom().contains(es[i].0),
        map_of(es)[es[i].0] == es[i].1,
    decreases es.len(),
{
    if i < es.len() - 1 {
        lemma_map_of_value(es.drop_last(), i);
    }
}

/// Replacing the value of entry `i` replaces the key's value.
pub proof fn lemma_map_of_update<V>(es: Seq<(Seq<char>, V)>, i: int, v: V)
    requires
        keys_unique(es),
        0 <= i < es.len(),
    ensures
        map_of(es.update(i, (es[i].0, v))) == map_of(es).insert(es[i].0, v),
    decreases es.len(),
{
    let n = es.len();
    if i == n - 1 {
        assert(es.update(i, (es[i].0, v)).drop_last() =~= es.drop_last());
    } else {
        lemma_map_of_update(es.drop_last(), i, v);
        assert(es.update(i, (es[i].0, v)).drop_last() =~= es.drop_last().update(i, (es[i].0, v)));
        assert(es[n - 1].0 != es[i].0);
        assert(map_of(es.update(i, (es[i].0, v))) =~= map_of(es).insert(es[i].0, v));
    }
}

/// Removing entry `i` removes its key.
pub proof fn lemma_map_of_remove<V>(es: Seq<(Seq<char>, V)>, i: int)
    requires
        keys_unique(es),
        0 <= i < es.len(),
    ensures
        map_of(es.remove(i)) == map_of(es).remove(es[i].0),
    decreases es.len(),
{
    let n = es.len();
    lemma_map_of_dom(es.drop_last());
    if i == n - 1 {
        assert(es.remove(i) =~= es.drop_last());
        assert(!map_of(es.drop_last()).dom().contains(es[i].0)) by {
            if map_of(es.drop_last()).dom().contains(es[i].0) {
                let j = choose|j: int| 0 <= j < es.drop_last().len() && es.drop_last()[j].0 == es[i].0;
                assert(es[j].0 == es[i].0);
            }
        }
        assert(map_of(es.drop_last()) =~= map_of(es).remove(es[i].0));
    } else {
        lemma_map_of_remove(es.drop_last(), i);
        assert(es.remove(i).drop_last() =~= es.drop_last().remove(i));
        assert(es.remove(i).last() == es.last());
        assert(es[n - 1].0 != es[i].0);
        assert(map_of(es.remove(i)) =~= map_of(es).remove(es[i].0));
    }
}

/// With unique keys, the map has one key per entry.
pub proof fn lemma_map_of_len<V>(es: Seq<(Seq<char>, V)>)
    requires
        keys_unique(es),
    ensures
        map_of(es).dom().finite(),
        map_of(es).dom().len() == es.len(),
    decreases es.len(),
{
    if es.len() > 0 {
        let init = es.drop_last();
        assert(keys_unique(init));
        lemma_map_of_len(init);
        lemma_map_of_dom(init);
        assert(!map_of(init).dom().contains(es.last().0)) by {
            if map_of(init).dom().contains(es.last().0) {
                let i = choose|i: int| 0 <= i < init.len() && init[i].0 == es.last().0;
                assert(es[i].0 == es[es.len() - 1].0);
            }
        }
    }
}

/// Removing an entry keeps the keys unique.
pub proof fn lemma_keys_unique_remove<V>(es: Seq<(Seq<char>, V)>, i: int)
    requires
        keys_unique(es),
        0 <= i < es.len(),
    ensures
        keys_unique(es.remove(i)),
{
    assert forall|a: int, b: int| 0 <= a < b < es.remove(i).len() implies es.remove(i)[a].0 != es.remove(i)[b].0 by {
        let a2 = if a < i { a } else { a + 1 };
        let b2 = if b < i { b } else { b + 1 };
        assert(es.remove(i)[a] == es[a2]);
        assert(es.remove(i)[b] == es[b2]);
    }
}

/// A map from strings to values.
pub struct StrMap<V> {
    entries: Vec<(String, V)>,
}

impl<V> StrMap<V> {
    /// The entries, keys as characters, in insertion order.
    pub closed spec fn entries(&self) -> Seq<(Seq<char>, V)> {
        self.entries@.map_values(|e: (String, V)| (e.0@, e.1))
    }

    /// The map the entries denote.
    pub open spec fn view(&self) -> Map<Seq<char>, V> {
        map_of(self.entries())
    }

    /// No key twice.
    pub open spec fn wf(&self) -> bool {
        keys_unique(self.entries())
    }

    /// An empty map.
    pub fn new() -> (r: Self)
        ensures
            r.wf(),
            r.entries() == Seq::<(Seq<char>, V)>::empty(),
    {
        let r = StrMap { entries: Vec::new() };
        assert(r.entries() =~= Seq::<(Seq<char>, V)>::empty());
        r
    }

    /// The number of entries.
    pub fn len(&self) -> (r: usize)
        ensures
            r == self.entries().len(),
    {
        self.entries.len()
    }

    /// The position of `key` among the entries.
    pub fn find(&self, key: &str) -> (r: Option<usize>)
        requires
            self.wf(),
        ensures
            match r {
                Some(i) => i < self.entries().len() && self.entries()[i as int].0 == key@,
                None => !self.view().dom().contains(key@),
            },
    {
        let k = String::from_str(key);
        let mut i: usize = 0;
        while i < self.entries.len()
            invariant
                k@ == key@,
                i <= self.entries@.len(),
                forall|j: int| 0 <= j < i ==> self.entries()[j].0 != key@,
            decreases self.entries@.len() - i,
        {
            if self.entries[i].0 == k {
                return Some(i);
            }
            i += 1;
        }
        proof {
            lemma_map_of_dom(self.entries());
        }
        None
    }

    /// The key of entry `i`.
    pub fn key_at(&self, i: usize) -> (r: &String)
        requires
            i < self.entries().len(),
        ensures
            r@ == self.entries()[i as int].0,
    {
        &self.entries[i].0
    }

    /// The value of entry `i`.
    pub fn value_at(&self, i: usize) -> (r: &V)
        requires
            i < self.entries().len(),
        ensures
            *r == self.entries()[i as int].1,
    {
        &self.entries[i].1
    }

    /// The value under `key`.
    pub fn get(&self, key: &str) -> (r: Option<&V>)
        requires
            self.wf(),
        ensures
            match r {
                Some(v) => self.view().dom().contains(key@) && *v == self.view()[key@],
                None => !self.view().dom().contains(key@),
            },
    {
        match self.find(key) {
            Some(i) => {
                proof {
                    lemma_map_of_value(self.entries(), i as int);
                }
                Some(&self.entries[i].1)
            },
            None => None,
        }
    }

    /// Sets the value under `key`: in place when the key is there, as a new
    /// last entry otherwise.
    pub fn insert(&mut self, key: String, v: V)
        requires
            old(self).wf(),
        ensures
            final(self).wf(),
            final(self).view() == old(self).view().insert(key@, v),
            old(self).view().dom().contains(key@) ==> keys_of(final(self).entries()) == keys_of(old(self).entries()),
            !old(self).view().dom().contains(key@) ==> final(self).entries() == old(self).entries().push((key@, v)),
    {
        match self.find(key.as_str()) {
            Some(i) => {
                let ghost es = self.entries();
                proof {
                    lemma_map_of_update(es, i as int, v);
                    lemma_map_of_value(es, i as int);
                }
                let ghost kk = key@;
                self.entries.set(i, (key, v));
                assert(self.entries() =~= es.update(i as int, (es[i as int].0, v)));
                assert(keys_of(self.entries()) =~= keys_of(es));
                assert(es[i as int].0 == kk);
            },
            None => {
                let ghost es = self.entries();
                proof {
                    lemma_map_of_dom(es);
                }
                let ghost kk = key@;
                self.entries.push((key, v));
                assert(self.entries() =~= es.push((kk, v)));
                assert(es.push((kk, v)).drop_last() =~= es);
                assert(self.view() == map_of(es).insert(kk, v));
            },
        }
    }

    /// Takes the entry for `key` out, keeping the order of the others.
    pub fn remove(&mut self, key: &str) -> (r: Option<V>)
        requires
            old(self).wf(),
        ensures
            final(self).wf(),
            final(self).view() == old(self).view().remove(key@),
            match r {
                Some(v) => old(self).view().dom().contains(key@) && v == old(self).view()[key@]
                    && final(self).entries().len() == old(self).entries().len() - 1,
                None => !old(self).view().dom().contains(key@) && final(self).entries() == old(self).entries(),
            },
    {
        match self.find(key) {
            Some(i) => {
                let ghost es = self.entries();
                proof {
                    lemma_map_of_remove(es, i as int);
                    lemma_map_of_value(es, i as int);
                    lemma_keys_unique_remove(es, i as int);
                }
                let e = self.entries.remove(i);
                assert(self.entries() =~= es.remove(i as int));
                Some(e.1)
            },
            None => {
                assert(old(self).view().remove(key@) =~= old(self).view());
                None
            },
        }
    }

    /// Removes every entry.
    pub fn clear(&mut self)
        ensures
            final(self).wf(),
            final(self).entries() == Seq::<(Seq<char>, V)>::empty(),
    {
        self.entries.clear();
        assert(self.entries() =~= Seq::<(Seq<char>, V)>::empty());
    }
}

} // verus!
