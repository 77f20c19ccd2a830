use vstd::prelude::*;

use crate::queries::{QueryInfoTrait, Resource, ResourceBorrows};

verus! {

/// A system parameter that asks for the whole world, mutably. A system with it runs only
/// through `FunctionSystem::run_exclusive`, and only as its one parameter; it blocks every
/// other system while it runs.
#[derive(Clone, Copy, Debug)]
pub struct ExclusiveWorld {}

/// What an `ExclusiveWorld` parameter needs before the system runs: nothing.
#[derive(Clone, Copy, Debug)]
pub struct ExclusiveWorldQueryInfo {}

impl QueryInfoTrait for ExclusiveWorldQueryInfo {
    open spec fn borrows_defined(&self) -> bool {
        true
    }

    /// An exclusive system borrows no single channel: it holds the whole world instead.
    fn borrows(&self) -> (r: ResourceBorrows)
        ensures
            r.reads@ == Seq::<Resource>::empty(),
            r.writes@ == Seq::<Resource>::empty(),
    {
        ResourceBorrows::new()
    }
}

} // verus!
