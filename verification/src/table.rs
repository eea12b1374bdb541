//! Small keyed collections by packet id: a table of handlers and a set of
//! ids, each id held once, over std's hash map.
use vstd::prelude::*;
use std::collections::HashMap;
use vstd::std_specs::hash::{builds_valid_hashers, obeys_key_model};

verus! {

/// Values keyed by packet id.
pub struct IdTable<T> {
    map: HashMap<u16, T>,
}

impl<T: Copy> IdTable<T> {
    /// The table's map obeys the hash table's model.
    pub closed spec fn wf(&self) -> bool {
        &&& obeys_key_model::<u16>()
        &&& builds_valid_hashers::<std::hash::RandomState>()
    }

    /// The value of each id.
    pub closed spec fn view(&self) -> Map<u16, T> {
        self.map@
    }

    pub fn new() -> (t: IdTable<T>)
        ensures
            t.wf(),
            t.view() == Map::<u16, T>::empty(),
    {
        broadcast use vstd::std_specs::hash::group_hash_axioms;
        IdTable { map: HashMap::new() }
    }

    /// The value of `id`, if it has one.
    pub fn get(&self, id: u16) -> (r: Option<T>)
        requires
            self.wf(),
        ensures
            r == (if self.view().contains_key(id) { Some(self.view()[id]) } else { None::<T> }),
    {
        broadcast use vstd::std_specs::hash::group_hash_axioms;
        match self.map.get(&id) {
            Some(v) => Some(*v),
            None => None,
        }
    }

    /// Whether `id` has a value.
    pub fn contains(&self, id: u16) -> (b: bool)
        requires
            self.wf(),
        ensures
            b == self.view().contains_key(id),
    {
        self.get(id).is_some()
    }

    /// Gives `id` the value `v`; `id` must have none yet.
    pub fn insert(&mut self, id: u16, v: T)
        requires
            old(self).wf(),
            !old(self).view().contains_key(id),
        ensures
            final(self).wf(),
            final(self).view() == old(self).view().insert(id, v),
            final(self).view().dom().len() == old(self).view().dom().len() + 1,
    {
        broadcast use vstd::std_specs::hash::group_hash_axioms;
        self.map.insert(id, v);
        proof {
            assert(old(self).view().dom().finite());
            assert(self.view().dom() =~= old(self).view().dom().insert(id));
        }
    }

    /// Finitely many ids have a value.
    pub proof fn lemma_finite(&self)
        requires
            self.wf(),
        ensures
            self.view().dom().finite(),
    {
        broadcast use vstd::std_specs::hash::group_hash_axioms;
    }

    /// How many ids have a value.
    pub fn len(&self) -> (n: usize)
        requires
            self.wf(),
        ensures
            n == self.view().dom().len(),
            n <= 65536,
    {
        broadcast use vstd::std_specs::hash::group_hash_axioms;
        proof {
            let all = Set::<u16>::range_inclusive(0u16, 65535u16);
            <u16 as vstd::set_lib::FiniteRange>::range_properties(0u16, 65535u16);
            assert(self.view().dom().subset_of(all));
            vstd::set_lib::lemma_len_subset(self.view().dom(), all);
            assert(!Set::<u16>::range(0u16, 65535u16).contains(65535u16));
            assert(all.len() == 65536) by {
                assert(all =~= Set::<u16>::range(0u16, 65535u16).insert(65535u16));
            }
        }
        self.map.len()
    }
}

} // verus!
