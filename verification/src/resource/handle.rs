//! Typed identifiers for stored resources.

use std::marker::PhantomData;
use vstd::prelude::*;
use vstd::std_specs::cmp::PartialEqSpecImpl;

verus! {

/// Lightweight typed identifier for a resource held in a resource store.
///
/// The type parameter only says what kind of resource the identifier names;
/// two handles are equal exactly if their identifiers are.
#[derive(Debug)]
pub struct Handle<T> {
    id: u32,
    _marker: PhantomData<T>,
}

impl<T> View for Handle<T> {
    type V = u32;

    /// The identifier.
    closed spec fn view(&self) -> u32 {
        self.id
    }
}

impl<T> Handle<T> {
    /// Makes the handle with the given identifier.
    pub fn new(id: u32) -> (handle: Handle<T>)
        ensures
            handle@ == id,
    {
        Handle { id, _marker: PhantomData }
    }

    /// Returns the identifier.
    pub fn id(&self) -> (id: u32)
        ensures
            id == self@,
    {
        self.id
    }
}

impl<T> Copy for Handle<T> {

}

impl<T> Clone for Handle<T> {
    fn clone(&self) -> (copy: Handle<T>)
        ensures
            copy == *self,
    {
        *self
    }
}

impl<T> PartialEq for Handle<T> {
    fn eq(&self, other: &Handle<T>) -> (equal: bool) {
        self.id == other.id
    }
}

impl<T> PartialEqSpecImpl for Handle<T> {
    open spec fn obeys_eq_spec() -> bool {
        true
    }

    open spec fn eq_spec(&self, other: &Handle<T>) -> bool {
        self@ == other@
    }
}

impl<T> Eq for Handle<T> {

}

/// `u32`'s implementation of `Hash::hash` in the standard library, which feeds
/// the value to the hasher. Nothing is claimed of what the hasher then holds.
pub assume_specification<H>[ <u32 as std::hash::Hash>::hash ](value: &u32, state: &mut H) where
    H: std::hash::Hasher,
;

impl<T> std::hash::Hash for Handle<T> {
    fn hash<H: std::hash::Hasher>(&self, state: &mut H) {
        self.id.hash(state);
    }
}

} // verus!
