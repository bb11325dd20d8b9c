//! A memoizing key/value cache: the result for each key is computed at most
//! once and remembered.

use std::collections::HashMap;
use vstd::prelude::*;

verus! {

broadcast use vstd::std_specs::hash::group_hash_axioms;

/// Cache that remembers the result for each key.
#[derive(Debug)]
pub struct Cache<V> {
    data: HashMap<u64, V>,
}

impl<V: Copy> Cache<V> {
    /// The remembered results.
    pub closed spec fn view(&self) -> Map<u64, V> {
        self.data@
    }

    /// Creates an empty cache.
    pub fn new() -> (r: Self)
        ensures
            r@ == Map::<u64, V>::empty(),
    {
        Cache { data: HashMap::new() }
    }

    /// Retrieve the value or insert a new one created by `f`.
    ///
    /// `f` is run only once for each key: a key already remembered comes
    /// back without calling `f` at all.
    pub fn get_or_insert_with<F: FnOnce(u64) -> V>(&mut self, key: u64, f: F) -> (r: V)
        requires
            !old(self)@.contains_key(key) ==> f.requires((key,)),
        ensures
            old(self)@.contains_key(key) ==> r == old(self)@[key] && final(self)@ == old(self)@,
            !old(self)@.contains_key(key) ==> f.ensures((key,), r) && final(self)@ == old(
                self,
            )@.insert(key, r),
    {
        let cached = self.data.get(&key);
        match cached {
            Some(v) => *v,
            None => {
                let v = f(key);
                self.data.insert(key, v);
                v
            },
        }
    }
}

impl<V: Copy> Default for Cache<V> {
    /// Same as `new`.
    fn default() -> (r: Self)
        ensures
            r@ == Map::<u64, V>::empty(),
    {
        Self::new()
    }
}

} // verus!
