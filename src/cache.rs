//! The cache: a key index, a slot arena and a recency chain kept in step.
use std::collections::HashMap;
use std::hash::Hash;
use vstd::prelude::*;
use vstd::std_specs::hash::obeys_key_model;

use crate::chain::Chain;
use crate::model::{after_get, after_put, distinct_keys, has_key, position_of, value_of};

verus! {

/// The reason a cache could not be built.
#[derive(Debug, Clone, Copy, PartialEq, Eq, Structural)]
pub enum CacheError {
    /// The capacity asked for was zero.
    InvalidCapacity,
}

/// What the cache needs of its key type: its hash is deterministic, its
/// `==` is equality, and a clone of a key is that same key.
pub open spec fn key_model<K: Clone>() -> bool {
    &&& obeys_key_model::<K>()
    &&& forall|a: K, b: K| #[trigger] call_ensures(K::clone, (&a,), b) ==> a == b
}

/// The entries that slots in order `o` hold, as key/value pairs.
pub open spec fn entries<K, V>(o: Seq<usize>, keys: Seq<K>, values: Seq<V>) -> Seq<(K, V)> {
    o.map_values(|p: usize| (keys[p as int], values[p as int]))
}

/// A cache of at most `size` entries that evicts the least recently used
/// entry when a new key comes in while it is full.
///
/// Slot `p` holds `keys[p]` and `values[p]`; `index` maps each stored key to
/// its slot, and `chain` orders the slots by their last use.
pub struct LRUCache<K, V> {
    index: HashMap<K, usize>,
    keys: Vec<K>,
    values: Vec<V>,
    chain: Chain,
    size: usize,
}

impl<K, V> View for LRUCache<K, V> {
    type V = Seq<(K, V)>;

    /// The entries, from the least to the most recently used.
    closed spec fn view(&self) -> Seq<(K, V)> {
        entries(self.chain.order@, self.keys@, self.values@)
    }
}

impl<K: Eq + Hash + Clone, V> LRUCache<K, V> {
    /// The number of entries that the cache can hold.
    pub closed spec fn capacity(&self) -> nat {
        self.size as nat
    }

    /// The cache's internal invariant: index, slots and chain agree.
    pub closed spec fn wf(&self) -> bool {
        let n = self.keys@.len();
        &&& key_model::<K>()
        &&& self.chain.wf()
        &&& self.chain.order@.len() == n
        &&& self.values@.len() == n
        &&& 0 < self.size
        &&& n <= self.size
        &&& forall|p: int|
            0 <= p < n ==> self.index@.contains_key(#[trigger] self.keys@[p])
                && self.index@[self.keys@[p]] == p
        &&& forall|k: K| #[trigger]
            self.index@.contains_key(k) ==> self.index@[k] < n && self.keys@[self.index@[k] as int]
                == k
    }

    /// A well-formed cache holds at most its capacity of entries, under
    /// distinct keys.
    pub proof fn lemma_wf(&self)
        requires
            self.wf(),
        ensures
            self@.len() <= self.capacity(),
            distinct_keys(self@),
    {
        let o = self.chain.order@;
        let n = o.len() as int;
        assert forall|i: int, j: int|
            0 <= i < n && 0 <= j < n && i != j implies (#[trigger] self@[i]).0 != (
            #[trigger] self@[j]).0 by {
            assert(o[i] < n && self.chain.rank@[o[i] as int] == i);
            assert(o[j] < n && self.chain.rank@[o[j] as int] == j);
            assert(self.index@[self.keys@[o[i] as int]] == o[i]);
            assert(self.index@[self.keys@[o[j] as int]] == o[j]);
        }
    }

    /// Where a key stands in the entries, read off the index.
    proof fn lemma_lookup(&self, k: K)
        requires
            self.wf(),
        ensures
            self.index@.contains_key(k) <==> has_key(self@, k),
            self.index@.contains_key(k) ==> position_of(self@, k) == self.chain.rank@[self.index@[k] as int]
                && self.chain.order@[position_of(self@, k)] == self.index@[k],
    {
        self.lemma_wf();
        let o = self.chain.order@;
        let n = o.len() as int;
        if self.index@.contains_key(k) {
            let p = self.index@[k] as int;
            let r = self.chain.rank@[p];
            assert(0 <= r < n && o[r] == p);
            assert(self@[r].0 == k);
            let i = position_of(self@, k);
            assert(self@[i].0 == k);
        } else if has_key(self@, k) {
            let i = choose|i: int| 0 <= i < self@.len() && (#[trigger] self@[i]).0 == k;
            assert(o[i] < n);
            assert(self.index@.contains_key(self.keys@[o[i] as int]));
        }
    }

    /// An empty cache that holds at most `size` entries; a capacity of zero
    /// is refused.
    pub fn new(size: usize) -> (r: Result<LRUCache<K, V>, CacheError>)
        requires
            key_model::<K>(),
        ensures
            match r {
                Ok(c) => size > 0 && c.wf() && c@ == Seq::<(K, V)>::empty() && c.capacity() == size,
                Err(e) => size == 0 && e == CacheError::InvalidCapacity,
            },
    {
        if size == 0 {
            return Err(CacheError::InvalidCapacity);
        }
        let c = LRUCache {
            index: HashMap::new(),
            keys: Vec::new(),
            values: Vec::new(),
            chain: Chain::new(),
            size,
        };
        assert(c@ =~= Seq::<(K, V)>::empty());
        Ok(c)
    }

    /// Reads the value under `k`. A hit makes `k` the most recently used
    /// key; a miss changes nothing.
    pub fn get(&mut self, k: &K) -> (r: Option<&V>)
        requires
            old(self).wf(),
        ensures
            final(self).wf(),
            final(self).capacity() == old(self).capacity(),
            final(self)@ == after_get(old(self)@, *k),
            match r {
                Some(v) => value_of(old(self)@, *k) == Some(*v),
                None => value_of(old(self)@, *k) == None::<V>,
            },
    {
        proof {
            self.lemma_lookup(*k);
        }
        let found = match self.index.get(k) {
            Some(p) => Some(*p),
            None => None,
        };
        match found {
            None => None,
            Some(p) => {
                let ghost s = self@;
                let ghost r = self.chain.rank@[p as int];
                self.chain.promote(p);
                assert(self@ =~= s.remove(r).push(s[r]));
                Some(&self.values[p])
            },
        }
    }

    /// Writes `v` under `k`, which becomes the most recently used key. A new
    /// key in a full cache first evicts the least recently used entry.
    pub fn put(&mut self, k: &K, v: V)
        requires
            old(self).wf(),
        ensures
            final(self).wf(),
            final(self).capacity() == old(self).capacity(),
            final(self)@ == after_put(old(self)@, old(self).capacity(), *k, v),
            final(self)@.len() <= final(self).capacity(),
    {
        proof {
            self.lemma_lookup(*k);
        }
        let ghost s = self@;
        let found = match self.index.get(k) {
            Some(p) => Some(*p),
            None => None,
        };
        match found {
            Some(p) => {
                let ghost r = self.chain.rank@[p as int];
                self.values[p] = v;
                self.chain.promote(p);
                assert(self@ =~= s.remove(r).push((*k, v)));
            },
            None => {
                let n = self.keys.len();
                if n < self.size {
                    self.keys.push(k.clone());
                    self.values.push(v);
                    self.chain.push_head();
                    self.index.insert(k.clone(), n);
                    assert(self@ =~= s.push((*k, v)));
                } else {
                    let p = self.chain.tail().unwrap();
                    self.index.remove(&self.keys[p]);
                    self.keys[p] = k.clone();
                    self.values[p] = v;
                    self.chain.promote(p);
                    self.index.insert(k.clone(), p);
                    assert(self@ =~= s.subrange(1, s.len() as int).push((*k, v)));
                }
            },
        }
        proof {
            self.lemma_wf();
        }
    }
}

} // verus!
