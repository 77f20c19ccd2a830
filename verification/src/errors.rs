use vstd::prelude::*;

verus! {

/// Why a query or a system could not be run.
#[derive(Debug, Clone, Copy, PartialEq, Eq, Structural)]
pub enum Error {
    NoMatchingEntities,
    /// No archetype holds the component type with this id.
    MissingComponent(u64),
    MustRunExclusively,
    /// The component type with this id is already borrowed in a conflicting way.
    CouldNotBorrowComponent(u64),
}

#[derive(Debug, Clone, Copy, PartialEq, Eq, Structural)]
pub enum FetchError {
    ComponentAlreadyBorrowed(ComponentAlreadyBorrowed),
    ComponentDoesNotExist(ComponentDoesNotExist),
}

/// The component type with this id is already borrowed from the archetype.
#[derive(Debug, Clone, Copy, PartialEq, Eq, Structural)]
pub struct ComponentAlreadyBorrowed(pub u64);

impl ComponentAlreadyBorrowed {
    pub fn new(type_id: u64) -> (r: Self)
        ensures
            r.0 == type_id,
    {
        Self(type_id)
    }
}

/// The component type with this id does not exist.
#[derive(Debug, Clone, Copy, PartialEq, Eq, Structural)]
pub struct ComponentDoesNotExist(pub u64);

impl ComponentDoesNotExist {
    pub fn new(type_id: u64) -> (r: Self)
        ensures
            r.0 == type_id,
    {
        Self(type_id)
    }
}

} // verus!
