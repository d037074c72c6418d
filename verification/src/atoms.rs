//! An operation's payload storage: smallvec's small vector, which keeps the
//! usual few atoms inline and spills to the heap past that. The vector is
//! held opaquely; everything the core knows of a payload goes through
//! `payload_model` and the wrappers below.

use vstd::prelude::*;
use smallvec::SmallVec;
use crate::token::Atom;

verus! {

/// An ordered payload of atoms, backed by smallvec's small vector with
/// three inline slots.
#[verifier::external_body]
#[derive(PartialEq, Debug)]
pub struct Payload {
    items: SmallVec<[Atom; 3]>,
}

/// The atoms a payload holds, oldest first.
pub uninterp spec fn payload_model(v: Payload) -> Seq<Atom>;

impl Payload {
    /// Relies on `SmallVec::new`: the fresh vector is empty.
    #[verifier::external_body]
    pub fn new() -> (r: Payload)
        ensures
            payload_model(r) == Seq::<Atom>::empty(),
    {
        Payload { items: SmallVec::new() }
    }

    /// Relies on `SmallVec::push`: the item is appended after the ones held.
    #[verifier::external_body]
    pub fn push(&mut self, a: Atom)
        ensures
            payload_model(*final(self)) == payload_model(*old(self)).push(a),
    {
        self.items.push(a)
    }

    /// Relies on `SmallVec::len`: the number of items held.
    #[verifier::external_body]
    pub fn len(&self) -> (n: usize)
        ensures
            n == payload_model(*self).len(),
    {
        self.items.len()
    }

    /// Relies on `SmallVec`'s slice indexing: the item at the given position.
    #[verifier::external_body]
    pub fn get(&self, i: usize) -> (a: &Atom)
        requires
            i < payload_model(*self).len(),
        ensures
            *a == payload_model(*self)[i as int],
    {
        &self.items[i]
    }
}

} // verus!
