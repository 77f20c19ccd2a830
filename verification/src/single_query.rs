use vstd::prelude::*;

use crate::archetype::ComponentValue;
use crate::entities::Entity;
use crate::errors::Error;
use crate::queries::{QueryInfoTrait, Resource, ResourceBorrows};
use crate::storage_lookup::{is_matching_result, lemma_index_of_sorted, strictly_sorted, Filter, FilterType};
use crate::world::{row_map, World};

verus! {

/// `a` is the first archetype that has a component of type `t`.
pub open spec fn first_archetype_with(type_ids: Seq<Seq<u64>>, t: u64, a: int) -> bool {
    &&& 0 <= a < type_ids.len()
    &&& type_ids[a].contains(t)
    &&& forall|b: int| 0 <= b < a ==> !(#[trigger] type_ids[b]).contains(t)
}

/// Where a query for a single component finds it: the channel of its type in the first
/// archetype that has that type.
#[derive(Clone, Copy, Debug)]
pub struct SingleQueryInfo {
    pub archetype_index: usize,
    pub channel_index: usize,
    pub type_id: u64,
    pub write: bool,
}

impl SingleQueryInfo {
    pub open spec fn valid_for<V>(&self, world: World<V>) -> bool {
        &&& world.wf()
        &&& first_archetype_with(world.archetype_type_ids(), self.type_id, self.archetype_index as int)
        &&& self.channel_index as int == world.archetype_type_ids()[self.archetype_index as int].index_of(self.type_id)
    }

    pub open spec fn resource(&self) -> Resource {
        (self.archetype_index, self.channel_index)
    }

    /// The entity whose component the query gives: the first one of the archetype.
    pub open spec fn spec_entity<V>(&self, world: World<V>) -> Entity {
        world.archetype_seq()[self.archetype_index as int].entity_seq()[0]
    }

    /// The archetype holds an entity, so the query has a component to give.
    pub open spec fn has_entity<V>(&self, world: World<V>) -> bool {
        world.archetype_seq()[self.archetype_index as int].entity_seq().len() > 0
    }

    proof fn lemma_first_entity<V>(&self, world: World<V>)
        requires
            self.valid_for(world),
            self.has_entity(world),
        ensures
            world@.contains_key(self.spec_entity(world)),
            world@[self.spec_entity(world)] is Some,
            world.components_of(self.spec_entity(world)).contains_key(self.type_id),
    {
        let a = self.archetype_index as int;
        assert(world.archetype_type_ids()[a] == world.archetype_seq()[a].type_id_seq());
        assert(world.row_ok(a, 0));
        let e = self.spec_entity(world);
        assert(world.entities_spec().is_live(e));
        assert(world@.contains_key(e));
        assert(world@[e] == Some(row_map(world.archetype_seq()[a], 0)));
    }
}

impl QueryInfoTrait for SingleQueryInfo {
    open spec fn borrows_defined(&self) -> bool {
        true
    }

    /// The channel the query borrows, for reading or for writing.
    fn borrows(&self) -> (r: ResourceBorrows)
        ensures
            self.write ==> r.writes@ == seq![self.resource()] && r.reads@ == Seq::<Resource>::empty(),
            !self.write ==> r.reads@ == seq![self.resource()] && r.writes@ == Seq::<Resource>::empty(),
    {
        let mut r = ResourceBorrows::new();
        if self.write {
            r.writes.push((self.archetype_index, self.channel_index));
        } else {
            r.reads.push((self.archetype_index, self.channel_index));
        }
        proof {
            if self.write {
                assert(r.writes@ =~= seq![self.resource()]);
            } else {
                assert(r.reads@ =~= seq![self.resource()]);
            }
        }
        r
    }

}

impl<V> World<V> {
    /// Finds the single component of type `type_id` that a system parameter `&T` (or
    /// `&mut T` if `write`) receives: `MissingComponent` if no archetype has that type.
    pub fn single_query_info(&self, type_id: u64, write: bool) -> (r: Result<SingleQueryInfo, Error>)
        requires
            self.wf(),
            self.archetype_seq().len() < usize::MAX,
        ensures
            r is Ok <==> exists|a: int| 0 <= a < self.archetype_type_ids().len() && (#[trigger] self.archetype_type_ids()[a]).contains(type_id),
            r matches Ok(i) ==> i.valid_for(*self) && i.type_id == type_id && i.write == write,
            r matches Err(e) ==> e == Error::MissingComponent(type_id),
    {
        let mut filters: Vec<Filter> = Vec::new();
        filters.push(Filter { filter_type: FilterType::With, type_id });
        let empty: Vec<Filter> = Vec::new();
        assert(empty@ =~= Seq::<Filter>::empty());
        proof {
            assert(self.lookup_spec().archetypes().len() == self.archetype_seq().len());
            assert(filters@[0].filter_type == FilterType::With);
            self.lookup_spec().lemma_with_goes_first(filters@);
        }
        let archetypes = self.storage_lookup().get_matching_archetypes(filters.as_slice(), empty.as_slice());
        let ghost tids = self.archetype_type_ids();
        proof {
            assert(is_matching_result(tids, filters@, Seq::empty(), archetypes@));
        }
        if archetypes.len() == 0 {
            proof {
                assert forall|a: int| 0 <= a < tids.len() implies !(#[trigger] tids[a]).contains(type_id) by {
                    if tids[a].contains(type_id) {
                        assert(crate::storage_lookup::filter_passes(tids[a], filters@[0]));
                        assert(crate::storage_lookup::archetype_passes(tids[a], filters@, Seq::empty()));
                    }
                }
            }
            return Err(Error::MissingComponent(type_id));
        }
        let m = &archetypes[0];
        let ghost a = m.archetype_index as int;
        proof {
            assert(a < tids.len());
            assert(crate::storage_lookup::filter_passes(tids[a], filters@[0]));
            assert forall|b: int| 0 <= b < a implies !(#[trigger] tids[b]).contains(type_id) by {
                if tids[b].contains(type_id) {
                    assert(crate::storage_lookup::filter_passes(tids[b], filters@[0]));
                    assert(crate::storage_lookup::archetype_passes(tids[b], filters@, Seq::empty()));
                    let j = choose|j: int| 0 <= j < archetypes@.len() && archetypes@[j].archetype_index == b;
                    if j > 0 {
                        assert(archetypes@[0].archetype_index < archetypes@[j].archetype_index);
                    }
                }
            }
            assert(m.channels@[0] == crate::storage_lookup::expected_channel(tids[a], filters@[0]));
            self.lemma_bounded();
            self.lemma_wf();
            assert(tids[a] == self.archetype_seq()[a].type_id_seq());
            self.archetype_seq()[a].lemma_bounded();
        }
        let channel_index = match m.channels[0] {
            Some(c) => c,
            None => {
                return Err(Error::MissingComponent(type_id));
            },
        };
        Ok(SingleQueryInfo { archetype_index: m.archetype_index, channel_index, type_id, write })
    }
}

/// A system parameter `&T`: the component of type `T` of the first entity that has one.
pub struct Single {
    pub info: SingleQueryInfo,
}

impl Single {
    pub fn get<'a, V>(&self, world: &'a World<V>) -> (r: &'a ComponentValue<V>)
        requires
            self.info.valid_for(*world),
            self.info.has_entity(*world),
        ensures
            *r == world.components_of(self.info.spec_entity(*world))[self.info.type_id],
    {
        proof {
            self.info.lemma_first_entity(*world);
        }
        let arch = world.borrow_archetype(self.info.archetype_index);
        let e = arch.entities()[0];
        world.get_component(e, self.info.type_id).unwrap()
    }
}

/// A system parameter `&mut T`: the component of type `T` of the first entity that has one.
pub struct SingleMut {
    pub info: SingleQueryInfo,
}

impl SingleMut {
    pub fn get<'a, V>(&self, world: &'a mut World<V>) -> (r: &'a mut ComponentValue<V>)
        requires
            self.info.valid_for(*old(world)),
            self.info.has_entity(*old(world)),
        ensures
            *r == old(world).components_of(self.info.spec_entity(*old(world)))[self.info.type_id],
            World::replaced_at(*old(world), *final(world), self.info.spec_entity(*old(world)), self.info.type_id, *final(r)),
    {
        proof {
            self.info.lemma_first_entity(*world);
        }
        let arch = world.borrow_archetype(self.info.archetype_index);
        let e = arch.entities()[0];
        world.get_component_mut(e, self.info.type_id).unwrap()
    }
}

} // verus!
