//! Typed identifiers: an [`Id<T>`] is a number tagged with the kind of thing
//! it identifies, so that identifiers of different kinds cannot be mixed.

use std::marker::PhantomData;
use vstd::prelude::*;

verus! {

/// Marks the kinds of thing an [`Id`] may identify.
pub trait EntityType {

}

/// The kind of thing that lives in the world and observes it. It only tags
/// identifiers: no code holds or inspects a value of it.
#[derive(Eq, PartialEq, Hash, Clone, Copy, Debug)]
pub enum Entity {
    Tag,
}

impl EntityType for Entity {

}

/// An identifier of a `T`.
#[derive(Hash, PartialEq, Eq, Debug)]
pub struct Id<T: EntityType> {
    id: usize,
    phantom: PhantomData<T>,
}

impl<T: EntityType> Copy for Id<T> {

}

impl<T: EntityType> Clone for Id<T> {
    fn clone(&self) -> (r: Self)
        ensures
            r == *self,
    {
        *self
    }
}

impl<T: EntityType> Id<T> {
    /// The number this identifier wraps.
    pub closed spec fn value(self) -> usize {
        self.id
    }

    /// The identifier of the `T` numbered `id`.
    pub fn new(id: usize) -> (r: Self)
        ensures
            r == Self::numbered(id),
            r.value() == id,
    {
        Id { id, phantom: PhantomData }
    }

    /// The number this identifier was made from.
    pub fn index(&self) -> (n: usize)
        ensures
            n == self.value(),
    {
        self.id
    }

    /// The identifier made from the number `id`.
    pub closed spec fn numbered(id: usize) -> Self {
        Id { id, phantom: PhantomData }
    }

    /// The identifier made from a number wraps that number.
    pub proof fn lemma_numbered(id: usize)
        ensures
            Self::numbered(id).value() == id,
    {
    }

    /// Two identifiers of the same kind are equal exactly when their numbers are.
    pub proof fn lemma_value_injective(a: Self, b: Self)
        ensures
            a.value() == b.value() <==> a == b,
    {
    }
}

} // verus!
