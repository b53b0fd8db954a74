//! A pool of values addressed by small integer keys.
//!
//! The keys play the part of heap addresses: a key that is handed out stays valid until the value
//! under it is removed, and may be handed out again afterwards.

use vstd::prelude::*;

verus! {

/// A pool of values, each under a key that no other value of the pool has.
#[verifier::reject_recursive_types(V)]
pub struct Slab<V> {
    /// The slot of each key; a slot without a value is vacant.
    slots: Vec<Option<V>>,
    /// The keys of the vacant slots.
    free: Vec<usize>,
}

impl<V> View for Slab<V> {
    type V = Map<usize, V>;

    closed spec fn view(&self) -> Map<usize, V> {
        Map::new(
            |k: usize| k < self.slots@.len() && self.slots@[k as int] is Some,
            |k: usize| self.slots@[k as int]->0,
        )
    }
}

impl<V> Slab<V> {
    /// The free list names every vacant slot, once.
    pub closed spec fn wf(&self) -> bool {
        &&& forall|i: int|
            #![trigger self.free@[i]]
            0 <= i < self.free@.len() ==> self.free@[i] < self.slots@.len()
                && self.slots@[self.free@[i] as int] is None
        &&& forall|i: int, j: int|
            #![trigger self.free@[i], self.free@[j]]
            0 <= i < j < self.free@.len() ==> self.free@[i] != self.free@[j]
        &&& forall|k: usize|
            #![trigger self.slots@[k as int]]
            k < self.slots@.len() && self.slots@[k as int] is None ==> self.free@.contains(k)
    }

    /// An empty pool.
    pub fn new() -> (slab: Self)
        ensures
            slab.wf(),
            slab@ == Map::<usize, V>::empty(),
    {
        let slab = Slab { slots: Vec::new(), free: Vec::new() };
        assert(slab@ =~= Map::<usize, V>::empty());
        slab
    }

    /// Puts `value` under a fresh key and returns the key.
    pub fn insert(&mut self, value: V) -> (key: usize)
        requires
            old(self).wf(),
        ensures
            final(self).wf(),
            !old(self)@.dom().contains(key),
            final(self)@ == old(self)@.insert(key, value),
    {
        match self.free.pop() {
            Some(key) => {
                assert(key == old(self).free@[old(self).free@.len() - 1]);
                self.slots[key] = Some(value);
                proof {
                    assert(self@ =~= old(self)@.insert(key, value));
                    assert forall|k: usize|
                        #![trigger self.slots@[k as int]]
                        k < self.slots@.len() && self.slots@[k as int] is None
                        implies self.free@.contains(k) by {
                        assert(old(self).slots@[k as int] is None);
                        let free = old(self).free@;
                        let i = choose|i: int| 0 <= i < free.len() && free[i] == k;
                        assert(self.free@[i] == k);
                    }
                }
                key
            },
            None => {
                let key: usize = self.slots.len();
                self.slots.push(Some(value));
                assert(self@ =~= old(self)@.insert(key, value));
                key
            },
        }
    }

    /// Takes the value under `key` out of the pool.
    pub fn remove(&mut self, key: usize) -> (value: V)
        requires
            old(self).wf(),
            old(self)@.dom().contains(key),
        ensures
            final(self).wf(),
            value == old(self)@[key],
            final(self)@ == old(self)@.remove(key),
    {
        let slot = self.slots[key].take();
        self.free.push(key);
        proof {
            assert(self@ =~= old(self)@.remove(key));
            assert forall|k: usize|
                #![trigger self.slots@[k as int]]
                k < self.slots@.len() && self.slots@[k as int] is None
                implies self.free@.contains(k) by {
                if k == key {
                    assert(self.free@[self.free@.len() - 1] == key);
                } else {
                    assert(old(self).slots@[k as int] is None);
                    let free = old(self).free@;
                    let i = choose|i: int| 0 <= i < free.len() && free[i] == k;
                    assert(self.free@[i] == k);
                }
            }
        }
        slot.unwrap()
    }

    /// The value under `key`.
    pub fn get(&self, key: usize) -> (value: &V)
        requires
            self@.dom().contains(key),
        ensures
            *value == self@[key],
    {
        self.slots[key].as_ref().unwrap()
    }

    /// The value under `key`, to be changed in place.
    pub fn get_mut(&mut self, key: usize) -> (value: &mut V)
        requires
            old(self).wf(),
            old(self)@.dom().contains(key),
        ensures
            *value == old(self)@[key],
            final(self).wf(),
            final(self)@ == old(self)@.insert(key, *final(value)),
    {
        self.slots[key].as_mut().unwrap()
    }
}

} // verus!
