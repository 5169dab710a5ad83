//! Storage for resources of one type, addressed by handle.

use std::collections::HashMap;
use vstd::prelude::*;
use crate::resource::handle::Handle;

verus! {

broadcast use vstd::std_specs::hash::group_hash_axioms;

/// The resources of one type, each under the identifier it was given when it
/// was stored. Identifiers are handed out in increasing order and never
/// reused.
pub struct AssetStorage<T> {
    next_id: u32,
    assets: HashMap<u32, T>,
}

impl<T> View for AssetStorage<T> {
    type V = Map<u32, T>;

    /// The stored resources by identifier.
    closed spec fn view(&self) -> Map<u32, T> {
        self.assets@
    }
}

impl<T> AssetStorage<T> {
    /// The identifier that the next stored resource will get.
    pub closed spec fn next_id(&self) -> u32 {
        self.next_id
    }

    /// Every identifier in use was handed out before.
    pub open spec fn wf(&self) -> bool {
        forall|id: u32| self@.contains_key(id) ==> id < self.next_id()
    }

    /// Creates an empty storage.
    pub fn new() -> (storage: AssetStorage<T>)
        ensures
            storage@ == Map::<u32, T>::empty(),
            storage.next_id() == 0,
            storage.wf(),
    {
        AssetStorage { next_id: 0, assets: HashMap::new() }
    }

    /// Returns `true` while there are identifiers left to hand out.
    pub fn has_room(&self) -> (room: bool)
        ensures
            room == (self.next_id() < u32::MAX),
    {
        self.next_id < u32::MAX
    }

    /// Stores a value and returns a handle to it. The handle is new: nothing
    /// was stored under it before.
    pub fn insert(&mut self, value: T) -> (handle: Handle<T>)
        requires
            old(self).wf(),
            old(self).next_id() < u32::MAX,
        ensures
            final(self).wf(),
            handle@ == old(self).next_id(),
            !old(self)@.contains_key(handle@),
            final(self)@ == old(self)@.insert(handle@, value),
            final(self).next_id() == old(self).next_id() + 1,
    {
        let id = self.next_id;
        self.next_id += 1;
        self.assets.insert(id, value);
        proof {
            assert forall|other: u32| self@.contains_key(other) implies other < self.next_id() by {
                if other != id {
                    assert(old(self)@.contains_key(other));
                }
            }
        }
        Handle::new(id)
    }

    /// Retrieves a reference to the resource behind `handle`, or `None` if missing.
    pub fn get(&self, handle: Handle<T>) -> (found: Option<&T>)
        ensures
            match found {
                Some(value) => self@.contains_key(handle@) && *value == self@[handle@],
                None => !self@.contains_key(handle@),
            },
    {
        self.assets.get(&handle.id())
    }

    /// Removes and returns the resource behind `handle`, or `None` if missing.
    pub fn remove(&mut self, handle: Handle<T>) -> (removed: Option<T>)
        ensures
            old(self).wf() ==> final(self).wf(),
            final(self)@ == old(self)@.remove(handle@),
            final(self).next_id() == old(self).next_id(),
            match removed {
                Some(value) => old(self)@.contains_key(handle@) && value == old(self)@[handle@],
                None => !old(self)@.contains_key(handle@),
            },
    {
        let removed = self.assets.remove(&handle.id());
        proof {
            if old(self).wf() {
                assert forall|other: u32| self@.contains_key(other) implies other
                    < self.next_id() by {
                    assert(old(self)@.contains_key(other));
                }
            }
        }
        removed
    }
}

} // verus!
