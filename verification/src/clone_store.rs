use vstd::prelude::*;

use crate::archetype::ComponentValue;
use crate::entities::Entity;
use crate::world::{Cloners, World};

verus! {

/// Collects the component types that worlds made with the resulting `CloneStore` clone.
pub struct CloneStoreBuilder {
    cloners: Cloners,
}

/// The component types a world clones.
pub struct CloneStore {
    cloners: Cloners,
}

impl CloneStoreBuilder {
    pub closed spec fn view(&self) -> Seq<u64> {
        self.cloners@
    }

    pub fn build(self) -> (r: CloneStore)
        ensures
            r@ == self@,
    {
        CloneStore { cloners: self.cloners }
    }

    /// Declares that components of type `type_id` can be cloned.
    pub fn register_type(&mut self, type_id: u64)
        ensures
            final(self)@ == old(self)@.push(type_id),
    {
        self.cloners.register_clone_type(type_id);
    }
}

impl CloneStore {
    pub closed spec fn view(&self) -> Seq<u64> {
        self.cloners@
    }

    /// A builder with no component type declared yet.
    pub fn new() -> (r: CloneStoreBuilder)
        ensures
            r@ == Seq::<u64>::empty(),
    {
        CloneStoreBuilder { cloners: Cloners::new() }
    }

    /// Whether components of type `type_id` are cloned.
    pub fn get(&self, type_id: u64) -> (r: bool)
        ensures
            r == self@.contains(type_id),
    {
        self.cloners.contains(type_id)
    }
}

impl<V> World<V> {
    /// A world with no entities that clones the component types of `clone_store`.
    pub fn new_with_clone_store(clone_store: CloneStore) -> (r: World<V>)
        ensures
            r.wf(),
            r@ == Map::<Entity, Option<Map<u64, ComponentValue<V>>>>::empty(),
            r.cloners_spec() == clone_store@,
    {
        World::new_with_cloners(clone_store.cloners)
    }
}

} // verus!
