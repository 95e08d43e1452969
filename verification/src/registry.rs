//! A registry of descriptors that hands out one handle per registration and
//! stores each distinct descriptor once.
use crate::slots::{
    handle_slots, handle_slots_get, handle_slots_insert, handle_slots_len, handle_slots_new, live_key, slot_index,
    HandleSlots,
};
use crate::types::{Descriptor, SlotHandle};
use std::marker::PhantomData;
use vstd::prelude::*;

verus! {

/// Holds all unique values and one instance (handle) per registration.
///
/// Each distinct value is stored once in `values`, in the order in which it
/// was first registered; `instance` maps every handle to the position of its
/// value there.
pub struct InstanceRegistry<H, V> {
    values: Vec<V>,
    instance: HandleSlots,
    handle: PhantomData<H>,
}

/// Some handle leads to position `i`.
spec fn position_in_use(m: Map<u64, usize>, i: int) -> bool {
    exists|k: u64| #[trigger] m.dom().contains(k) && m[k] == i
}

impl<H: SlotHandle, V: Descriptor> InstanceRegistry<H, V> {
    /// The registry's internal consistency.
    pub closed spec fn wf(&self) -> bool {
        let m = handle_slots(self.instance);
        &&& m.dom().finite()
        &&& forall|k: u64| #[trigger] m.dom().contains(k) ==> live_key(k) && m[k] < self.values.len()
        &&& forall|k: u64, j: u64|
            #[trigger] m.dom().contains(k) && #[trigger] m.dom().contains(j) && k != j
                ==> slot_index(k) != slot_index(j)
        &&& forall|i: int, j: int|
            0 <= i < self.values.len() && 0 <= j < self.values.len() && i != j
                ==> self.values@[i] != self.values@[j]
        &&& self.values.len() <= m.len()
        &&& forall|i: int| 0 <= i < self.values.len() ==> #[trigger] position_in_use(m, i)
    }

    /// What the registry holds: for each handle's key, the value it stands for.
    pub closed spec fn view(&self) -> Map<u64, V> {
        handle_slots(self.instance).map_values(|i: usize| self.values@[i as int])
    }

    /// The distinct values registered so far, in order of first registration.
    pub closed spec fn unique_values(&self) -> Seq<V> {
        self.values@
    }

    /// The number of handles handed out.
    pub closed spec fn len(&self) -> nat {
        handle_slots(self.instance).len()
    }

    /// Distinct handles of a registry name distinct slots.
    pub proof fn lemma_distinct_slots(&self)
        requires
            self.wf(),
        ensures
            forall|k: u64, j: u64|
                #[trigger] self@.dom().contains(k) && #[trigger] self@.dom().contains(j) && k != j
                    ==> slot_index(k) != slot_index(j),
    {
    }

    /// Each distinct value is stored once, and the stored values are exactly
    /// the values of the handles handed out.
    pub proof fn lemma_unique_values(&self)
        requires
            self.wf(),
        ensures
            self.unique_values().no_duplicates(),
            self.unique_values().to_set() == self@.values(),
    {
        let m = handle_slots(self.instance);
        assert forall|v: V| self.unique_values().to_set().contains(v) <==> self@.values().contains(v) by {
            if self.unique_values().to_set().contains(v) {
                assert(self.unique_values().contains(v));
                let i = choose|i: int| 0 <= i < self.values@.len() && self.values@[i] == v;
                assert(position_in_use(m, i));
                let k = choose|k: u64| #[trigger] m.dom().contains(k) && m[k] == i;
                assert(self@.dom().contains(k));
                assert(self@[k] == v);
            }
            if self@.values().contains(v) {
                let k = choose|k: u64| #[trigger] self@.dom().contains(k) && self@[k] == v;
                assert(self.values@[m[k] as int] == v);
                assert(self.unique_values().contains(v));
            }
        }
        assert(self.unique_values().to_set() =~= self@.values());
    }

    /// An empty registry.
    pub fn new() -> (r: Self)
        ensures
            r.wf(),
            r@ == Map::<u64, V>::empty(),
            r.unique_values() == Seq::<V>::empty(),
            r.len() == 0,
    {
        let r = InstanceRegistry { values: Vec::new(), instance: handle_slots_new(), handle: PhantomData };
        assert(r@ =~= Map::<u64, V>::empty());
        r
    }

    /// Registers `new_value` and returns a fresh handle for it. A value equal to
    /// one registered before is not stored again: the new handle shares it.
    pub fn insert(&mut self, new_value: V) -> (h: H)
        requires
            old(self).wf(),
            old(self).len() + 2 <= u32::MAX,
        ensures
            final(self).wf(),
            !old(self)@.dom().contains(h.key()),
            final(self)@ == old(self)@.insert(h.key(), new_value),
            final(self).len() == old(self).len() + 1,
            final(self).unique_values() == (if old(self).unique_values().contains(new_value) {
                old(self).unique_values()
            } else {
                old(self).unique_values().push(new_value)
            }),
    {
        let ghost old_values = self.values@;
        let ghost old_map = handle_slots(self.instance);
        let mut i: usize = 0;
        let mut found: Option<usize> = None;
        while i < self.values.len()
            invariant
                self.values@ == old_values,
                i <= self.values.len(),
                found is None ==> forall|j: int| 0 <= j < i ==> self.values@[j] != new_value,
                found matches Some(f) ==> f < self.values.len() && self.values@[f as int] == new_value,
            decreases self.values.len() - i,
        {
            if found.is_none() && self.values[i].same(&new_value) {
                found = Some(i);
            }
            i = i + 1;
        }
        let unique = match found {
            Some(f) => f,
            None => {
                self.values.push(new_value);
                self.values.len() - 1
            },
        };
        proof {
            if found is None {
                assert(!old_values.contains(new_value));
            }
        }
        let k = handle_slots_insert(&mut self.instance, unique);
        let h = H::from_live_key(k);
        proof {
            let m = handle_slots(self.instance);
            assert forall|key: u64| #[trigger] m.dom().contains(key) implies live_key(key) && m[key]
                < self.values.len() by {
                if key != k {
                    assert(old_map.dom().contains(key));
                }
            }
            assert forall|i: int| 0 <= i < self.values.len() implies #[trigger] position_in_use(m, i) by {
                if i == unique {
                    assert(m.dom().contains(k) && m[k] == i);
                } else {
                    assert(position_in_use(old_map, i));
                    let key = choose|key: u64| #[trigger] old_map.dom().contains(key) && old_map[key] == i;
                    assert(m.dom().contains(key) && m[key] == i);
                }
            }
            assert forall|key: u64| old_map.dom().contains(key) implies self.values@[old_map[key] as int]
                == old_values[old_map[key] as int] by {}
            assert(self@ =~= old_map.map_values(|i: usize| old_values[i as int]).insert(k, new_value));
        }
        h
    }

    /// The number of handles handed out.
    pub fn handle_count(&self) -> (n: usize)
        ensures
            n == self.len(),
    {
        handle_slots_len(&self.instance)
    }

    /// The distinct values registered so far, in order of first registration.
    pub fn distinct_values(&self) -> (r: &Vec<V>)
        ensures
            r@ == self.unique_values(),
    {
        &self.values
    }

    /// The value a handle stands for, if this registry handed it out.
    pub fn get(&self, handle: H) -> (r: Option<&V>)
        requires
            self.wf(),
        ensures
            match r {
                Some(v) => self@.dom().contains(handle.key()) && *v == self@[handle.key()],
                None => !self@.dom().contains(handle.key()),
            },
    {
        let key = handle.as_ffi();
        match handle_slots_get(&self.instance, key) {
            Some(unique) => Some(&self.values[unique]),
            None => None,
        }
    }
}

} // verus!
