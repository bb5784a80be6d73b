//! A cache that remembers, for each key, the value computed for it.

use std::collections::HashMap;
use std::hash::Hash;
use vstd::prelude::*;
use vstd::std_specs::hash::obeys_key_model;

verus! {

broadcast use vstd::std_specs::hash::group_hash_axioms;

/// Cache that remembers the result for each key.
pub struct Cache<K, V> {
    inner: HashMap<K, V>,
}

impl<K, V> View for Cache<K, V> {
    type V = Map<K, V>;

    closed spec fn view(&self) -> Map<K, V> {
        self.inner@
    }
}

impl<K, V> Default for Cache<K, V> {
    fn default() -> (r: Self)
        ensures
            r@ == Map::<K, V>::empty(),
    {
        Cache { inner: HashMap::new() }
    }
}

impl<K: Eq + Hash + Clone, V: Clone> Cache<K, V> {
    /// Retrieves the value of `key`, or computes it with `f`, remembers it and
    /// returns it. `f` runs only for a key that the cache does not hold yet.
    pub fn get_or_insert_with<F: FnOnce(K) -> V>(&mut self, key: K, f: F) -> (r: V)
        requires
            obeys_key_model::<K>(),
            forall|k: K| f.requires((k,)),
        ensures
            old(self)@.contains_key(key) ==> final(self)@ == old(self)@ && cloned(old(self)@[key], r),
            !old(self)@.contains_key(key) ==> exists|k: K, v: V|
                {
                    &&& cloned(key, k)
                    &&& f.ensures((k,), v)
                    &&& final(self)@ == old(self)@.insert(key, v)
                    &&& cloned(v, r)
                },
    {
        match self.inner.get(&key) {
            Some(v) => {
                return v.clone();
            },
            None => {},
        }
        let k = key.clone();
        let v = f(k);
        let r = v.clone();
        self.inner.insert(key, v);
        r
    }
}

} // verus!
