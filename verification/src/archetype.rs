use vstd::prelude::*;

use crate::entities::{Entities, Entity};
use crate::hierarchy::HierarchyNode;

verus! {

/// The value of one component of an entity: either a hierarchy node, which the world itself
/// understands, or a value of the user's component type `V`.
#[derive(Clone, Debug, PartialEq)]
pub enum ComponentValue<V> {
    Hierarchy(HierarchyNode),
    Value(V),
}

/// All components of one type in one archetype, one per entity of the archetype.
pub struct ComponentChannelStorage<V> {
    pub(crate) type_id: u64,
    pub(crate) component_channel: Vec<ComponentValue<V>>,
    /// Whether the components of this channel are copied when the world is cloned.
    pub(crate) cloneable: bool,
}

impl<V> ComponentChannelStorage<V> {
    pub closed spec fn spec_type_id(&self) -> u64 {
        self.type_id
    }

    pub closed spec fn values(&self) -> Seq<ComponentValue<V>> {
        self.component_channel@
    }

    pub closed spec fn is_cloneable(&self) -> bool {
        self.cloneable
    }

    pub fn new(type_id: u64, cloneable: bool) -> (r: Self)
        ensures
            r.spec_type_id() == type_id,
            r.values() == Seq::<ComponentValue<V>>::empty(),
            r.is_cloneable() == cloneable,
    {
        Self { type_id, component_channel: Vec::new(), cloneable }
    }

    /// An empty channel for the same component type.
    pub fn new_same_type(&self) -> (r: Self)
        ensures
            r.spec_type_id() == self.spec_type_id(),
            r.values() == Seq::<ComponentValue<V>>::empty(),
            r.is_cloneable() == self.is_cloneable(),
    {
        Self { type_id: self.type_id, component_channel: Vec::new(), cloneable: self.cloneable }
    }

    pub fn channel_mut(&mut self) -> (r: &mut Vec<ComponentValue<V>>)
        ensures
            r@ == old(self).values(),
            final(self).values() == final(r)@,
            final(self).spec_type_id() == old(self).spec_type_id(),
            final(self).is_cloneable() == old(self).is_cloneable(),
    {
        &mut self.component_channel
    }

    pub fn channel(&self) -> (r: &Vec<ComponentValue<V>>)
        ensures
            r@ == self.values(),
    {
        &self.component_channel
    }

    pub fn get_type_id(&self) -> (r: u64)
        ensures
            r == self.spec_type_id(),
    {
        self.type_id
    }
}

/// The entities that have exactly one set of component types, and their components:
/// one channel per component type, and row `r` of every channel belongs to entity `r`.
pub struct Archetype<V> {
    pub(crate) entities: Vec<Entity>,
    pub(crate) channels: Vec<ComponentChannelStorage<V>>,
}

/// The component type ids of a sequence of channels.
pub open spec fn channel_type_ids<V>(channels: Seq<ComponentChannelStorage<V>>) -> Seq<u64> {
    Seq::new(channels.len(), |c: int| channels[c].spec_type_id())
}

impl<V> Archetype<V> {
    pub closed spec fn entity_seq(&self) -> Seq<Entity> {
        self.entities@
    }

    pub closed spec fn channel_seq(&self) -> Seq<ComponentChannelStorage<V>> {
        self.channels@
    }

    /// The component type ids of the channels, in channel order.
    pub open spec fn type_id_seq(&self) -> Seq<u64> {
        channel_type_ids(self.channel_seq())
    }

    /// The values of channel `c`.
    pub open spec fn column(&self, c: int) -> Seq<ComponentValue<V>> {
        self.channel_seq()[c].values()
    }

    /// The components of the entity in row `r`, in channel order.
    pub open spec fn row(&self, r: int) -> Seq<ComponentValue<V>> {
        Seq::new(self.channel_seq().len(), |c: int| self.column(c)[r])
    }

    /// Every channel has one value per entity.
    pub open spec fn wf(&self) -> bool {
        forall|c: int| 0 <= c < self.channel_seq().len() ==> #[trigger] self.column(c).len() == self.entity_seq().len()
    }

    pub proof fn lemma_bounded(&self)
        ensures
            self.entity_seq().len() <= usize::MAX,
            self.channel_seq().len() <= usize::MAX,
    {
        assert(self.entities.len() == self.entity_seq().len());
        assert(self.channels.len() == self.channel_seq().len());
    }

    pub fn new() -> (r: Self)
        ensures
            r.wf(),
            r.entity_seq() == Seq::<Entity>::empty(),
            r.channel_seq() == Seq::<ComponentChannelStorage<V>>::empty(),
    {
        Self { entities: Vec::new(), channels: Vec::new() }
    }

    pub fn type_ids(&self) -> (r: Vec<u64>)
        ensures
            r@ == self.type_id_seq(),
    {
        let mut r: Vec<u64> = Vec::new();
        let mut c: usize = 0;
        while c < self.channels.len()
            invariant
                c <= self.channels@.len(),
                r@ == self.type_id_seq().subrange(0, c as int),
            decreases self.channels@.len() - c,
        {
            r.push(self.channels[c].get_type_id());
            c = c + 1;
            assert(r@ =~= self.type_id_seq().subrange(0, c as int));
        }
        assert(r@ =~= self.type_id_seq());
        r
    }

    pub fn entities(&self) -> (r: &Vec<Entity>)
        ensures
            r@ == self.entity_seq(),
    {
        &self.entities
    }

    pub fn channel_count(&self) -> (r: usize)
        ensures
            r == self.channel_seq().len(),
    {
        self.channels.len()
    }

    /// Adds an empty channel for the same component type as `c`. The archetype must not
    /// hold entities yet.
    pub fn new_channel_same_type(&mut self, c: &ComponentChannelStorage<V>)
        requires
            old(self).entity_seq().len() == 0,
            old(self).wf(),
        ensures
            final(self).wf(),
            final(self).entity_seq() == old(self).entity_seq(),
            final(self).channel_seq().len() == old(self).channel_seq().len() + 1,
            forall|i: int| 0 <= i < old(self).channel_seq().len() ==> #[trigger] final(self).channel_seq()[i] == old(self).channel_seq()[i],
            final(self).channel_seq().last().spec_type_id() == c.spec_type_id(),
            final(self).channel_seq().last().values() == Seq::<ComponentValue<V>>::empty(),
            final(self).channel_seq().last().is_cloneable() == c.is_cloneable(),
    {
        self.channels.push(c.new_same_type());
        proof {
            assert forall|i: int| 0 <= i < self.channel_seq().len() implies #[trigger] self.column(i).len() == self.entity_seq().len() by {
                if i < old(self).channel_seq().len() {
                    assert(self.channel_seq()[i] == old(self).channel_seq()[i]);
                    assert(old(self).column(i).len() == 0);
                }
            }
        }
    }

    /// Adds an empty channel for component type `type_id`. The archetype must not hold entities yet.
    pub fn push_new_channel(&mut self, type_id: u64, cloneable: bool)
        requires
            old(self).entity_seq().len() == 0,
            old(self).wf(),
        ensures
            final(self).wf(),
            final(self).entity_seq() == old(self).entity_seq(),
            final(self).channel_seq().len() == old(self).channel_seq().len() + 1,
            forall|i: int| 0 <= i < old(self).channel_seq().len() ==> #[trigger] final(self).channel_seq()[i] == old(self).channel_seq()[i],
            final(self).channel_seq().last().spec_type_id() == type_id,
            final(self).channel_seq().last().values() == Seq::<ComponentValue<V>>::empty(),
            final(self).channel_seq().last().is_cloneable() == cloneable,
    {
        self.channels.push(ComponentChannelStorage::new(type_id, cloneable));
        proof {
            assert forall|i: int| 0 <= i < self.channel_seq().len() implies #[trigger] self.column(i).len() == self.entity_seq().len() by {
                if i < old(self).channel_seq().len() {
                    assert(self.channel_seq()[i] == old(self).channel_seq()[i]);
                    assert(old(self).column(i).len() == 0);
                }
            }
        }
    }

    /// Removes row `index` from every channel and from the entity list, moving the last row
    /// into its place, and returns the components it held.
    pub fn take_row(&mut self, index: usize) -> (r: Vec<ComponentValue<V>>)
        requires
            old(self).wf(),
            index < old(self).entity_seq().len(),
        ensures
            final(self).wf(),
            r@ == old(self).row(index as int),
            final(self).entity_seq() == old(self).entity_seq().update(index as int, old(self).entity_seq().last()).drop_last(),
            final(self).type_id_seq() == old(self).type_id_seq(),
            final(self).channel_seq().len() == old(self).channel_seq().len(),
            forall|c: int| 0 <= c < old(self).channel_seq().len() ==> #[trigger] final(self).column(c)
                == old(self).column(c).update(index as int, old(self).column(c).last()).drop_last(),
            forall|c: int| 0 <= c < old(self).channel_seq().len() ==> #[trigger] final(self).channel_seq()[c].is_cloneable()
                == old(self).channel_seq()[c].is_cloneable(),
    {
        let mut removed: Vec<ComponentValue<V>> = Vec::new();
        let mut c: usize = 0;
        while c < self.channels.len()
            invariant
                c <= self.channels@.len(),
                self.channels@.len() == old(self).channels@.len(),
                index < old(self).entity_seq().len(),
                old(self).wf(),
                self.entities@ == old(self).entities@,
                removed@ == old(self).row(index as int).subrange(0, c as int),
                forall|i: int| 0 <= i < self.channels@.len() ==> #[trigger] self.channels@[i].spec_type_id() == old(self).channels@[i].spec_type_id(),
                forall|i: int| 0 <= i < self.channels@.len() ==> #[trigger] self.channels@[i].is_cloneable() == old(self).channels@[i].is_cloneable(),
                forall|i: int| 0 <= i < c ==> #[trigger] self.channels@[i].values()
                    == old(self).column(i).update(index as int, old(self).column(i).last()).drop_last(),
                forall|i: int| c <= i < self.channels@.len() ==> #[trigger] self.channels@[i] == old(self).channels@[i],
            decreases self.channels@.len() - c,
        {
            let ghost before = self.channels@[c as int];
            assert(before == old(self).channels@[c as int]);
            assert(old(self).column(c as int).len() == old(self).entity_seq().len());
            let value = self.channels[c].channel_mut().swap_remove(index);
            removed.push(value);
            c = c + 1;
            assert(removed@ =~= old(self).row(index as int).subrange(0, c as int));
        }
        self.entities.swap_remove(index);
        proof {
            assert(removed@ =~= old(self).row(index as int));
            assert(self.type_id_seq() =~= old(self).type_id_seq());
        }
        removed
    }

    /// Removes row `index`, moving the last row into its place.
    pub fn swap_remove(&mut self, index: usize)
        requires
            old(self).wf(),
            index < old(self).entity_seq().len(),
        ensures
            final(self).wf(),
            final(self).entity_seq() == old(self).entity_seq().update(index as int, old(self).entity_seq().last()).drop_last(),
            final(self).type_id_seq() == old(self).type_id_seq(),
            final(self).channel_seq().len() == old(self).channel_seq().len(),
            forall|c: int| 0 <= c < old(self).channel_seq().len() ==> #[trigger] final(self).column(c)
                == old(self).column(c).update(index as int, old(self).column(c).last()).drop_last(),
    {
        let _ = self.take_row(index);
    }

    /// Appends a row: the entity and one component per channel, in channel order.
    pub fn push_row(&mut self, entity: Entity, values: Vec<ComponentValue<V>>)
        requires
            old(self).wf(),
            values@.len() == old(self).channel_seq().len(),
        ensures
            final(self).wf(),
            final(self).entity_seq() == old(self).entity_seq().push(entity),
            final(self).type_id_seq() == old(self).type_id_seq(),
            final(self).channel_seq().len() == old(self).channel_seq().len(),
            forall|c: int| 0 <= c < old(self).channel_seq().len() ==> #[trigger] final(self).column(c)
                == old(self).column(c).push(values@[c]),
            forall|c: int| 0 <= c < old(self).channel_seq().len() ==> #[trigger] final(self).channel_seq()[c].is_cloneable()
                == old(self).channel_seq()[c].is_cloneable(),
    {
        let mut values = values;
        let ghost all_values = values@;
        let mut c: usize = self.channels.len();
        // Values are taken from the back, so the channels are filled from the last one.
        while c > 0
            invariant
                c <= self.channels@.len(),
                self.channels@.len() == old(self).channels@.len(),
                values@ == all_values.subrange(0, c as int),
                all_values.len() == old(self).channels@.len(),
                old(self).wf(),
                self.entities@ == old(self).entities@,
                forall|i: int| 0 <= i < self.channels@.len() ==> #[trigger] self.channels@[i].spec_type_id() == old(self).channels@[i].spec_type_id(),
                forall|i: int| 0 <= i < self.channels@.len() ==> #[trigger] self.channels@[i].is_cloneable() == old(self).channels@[i].is_cloneable(),
                forall|i: int| c <= i < self.channels@.len() ==> #[trigger] self.channels@[i].values()
                    == old(self).column(i).push(all_values[i]),
                forall|i: int| 0 <= i < c ==> #[trigger] self.channels@[i] == old(self).channels@[i],
            decreases c,
        {
            c = c - 1;
            let value = values.pop().unwrap();
            assert(value == all_values[c as int]);
            self.channels[c].channel_mut().push(value);
            assert(values@ =~= all_values.subrange(0, c as int));
        }
        self.entities.push(entity);
        proof {
            assert(self.type_id_seq() =~= old(self).type_id_seq());
        }
    }

    /// The position of the channel for component type `type_id`, if there is one.
    pub fn channel_index(&self, type_id: u64) -> (r: Option<usize>)
        ensures
            match r {
                Some(c) => c < self.channel_seq().len() && self.type_id_seq()[c as int] == type_id
                    && forall|i: int| 0 <= i < c ==> self.type_id_seq()[i] != type_id,
                None => !self.type_id_seq().contains(type_id),
            },
    {
        let mut c: usize = 0;
        while c < self.channels.len()
            invariant
                c <= self.channels@.len(),
                forall|i: int| 0 <= i < c ==> self.type_id_seq()[i] != type_id,
            decreases self.channels@.len() - c,
        {
            if self.channels[c].get_type_id() == type_id {
                return Some(c);
            }
            c = c + 1;
        }
        None
    }

    /// The component of type `type_id` of the entity in row `entity_index`.
    pub fn get_component(&self, entity_index: usize, type_id: u64) -> (r: Option<&ComponentValue<V>>)
        requires
            self.wf(),
            entity_index < self.entity_seq().len(),
        ensures
            match r {
                Some(v) => self.type_id_seq().contains(type_id) && forall|c: int|
                    0 <= c < self.channel_seq().len() && self.type_id_seq()[c] == type_id
                        && (forall|i: int| 0 <= i < c ==> self.type_id_seq()[i] != type_id) ==> *v == self.column(c)[entity_index as int],
                None => !self.type_id_seq().contains(type_id),
            },
    {
        match self.channel_index(type_id) {
            Some(c) => {
                assert(self.column(c as int).len() == self.entity_seq().len());
                Some(&self.channels[c].component_channel[entity_index])
            },
            None => None,
        }
    }

    /// The component in channel `channel` of the entity in row `entity_index`.
    pub fn component_at(&self, channel: usize, entity_index: usize) -> (v: &ComponentValue<V>)
        requires
            self.wf(),
            channel < self.channel_seq().len(),
            entity_index < self.entity_seq().len(),
        ensures
            *v == self.column(channel as int)[entity_index as int],
    {
        assert(self.column(channel as int).len() == self.entity_seq().len());
        &self.channels[channel].component_channel[entity_index]
    }

    /// Mutable access to the component in channel `channel` of the entity in row `entity_index`.
    pub fn component_at_mut(&mut self, channel: usize, entity_index: usize) -> (v: &mut ComponentValue<V>)
        requires
            old(self).wf(),
            channel < old(self).channel_seq().len(),
            entity_index < old(self).entity_seq().len(),
        ensures
            *v == old(self).column(channel as int)[entity_index as int],
            final(self).entity_seq() == old(self).entity_seq(),
            final(self).channel_seq().len() == old(self).channel_seq().len(),
            final(self).type_id_seq() == old(self).type_id_seq(),
            final(self).column(channel as int) == old(self).column(channel as int).update(entity_index as int, *final(v)),
            forall|d: int| 0 <= d < old(self).channel_seq().len() && d != channel ==> #[trigger] final(self).channel_seq()[d] == old(self).channel_seq()[d],
            final(self).channel_seq()[channel as int].is_cloneable() == old(self).channel_seq()[channel as int].is_cloneable(),
    {
        assert(self.column(channel as int).len() == self.entity_seq().len());
        let ch = &mut self.channels[channel];
        let values = &mut ch.component_channel;
        &mut values[entity_index]
    }

    /// Mutable access to the component of type `type_id` of the entity in row `entity_index`.
    pub fn get_component_mut(&mut self, entity_index: usize, type_id: u64) -> (r: Result<&mut ComponentValue<V>, ()>)
        requires
            old(self).wf(),
            entity_index < old(self).entity_seq().len(),
        ensures
            match r {
                Ok(v) => old(self).type_id_seq().contains(type_id) && forall|c: int|
                    0 <= c < old(self).channel_seq().len() && old(self).type_id_seq()[c] == type_id
                        && (forall|i: int| 0 <= i < c ==> old(self).type_id_seq()[i] != type_id) ==> {
                        &&& *v == old(self).column(c)[entity_index as int]
                        &&& final(self).entity_seq() == old(self).entity_seq()
                        &&& final(self).channel_seq().len() == old(self).channel_seq().len()
                        &&& final(self).type_id_seq() == old(self).type_id_seq()
                        &&& final(self).column(c) == old(self).column(c).update(entity_index as int, *final(v))
                        &&& forall|d: int| 0 <= d < old(self).channel_seq().len() && d != c ==> #[trigger] final(self).channel_seq()[d] == old(self).channel_seq()[d]
                        &&& final(self).channel_seq()[c].is_cloneable() == old(self).channel_seq()[c].is_cloneable()
                    },
                Err(_) => !old(self).type_id_seq().contains(type_id) && *final(self) == *old(self),
            },
    {
        match self.channel_index(type_id) {
            Some(c) => {
                assert(self.column(c as int).len() == self.entity_seq().len());
                let channel = &mut self.channels[c];
                let values = &mut channel.component_channel;
                Ok(&mut values[entity_index])
            },
            None => Err(()),
        }
    }
}

/// No old entity and no new entity occurs twice.
pub open spec fn pairs_distinct(pairs: Seq<(Entity, Entity)>) -> bool {
    forall|i: int, j: int| 0 <= i < j < pairs.len() ==> pairs[i].0 != pairs[j].0 && pairs[i].1 != pairs[j].1
}

/// Gives each entity of one world a new entity in another, the same new entity each time.
pub struct EntityMigrator {
    /// Each old entity migrated so far with its new entity.
    old_to_new_entities: Vec<(Entity, Entity)>,
    new_entities_manager: Entities,
}

impl EntityMigrator {
    /// The entities migrated so far, as pairs (old entity, new entity), oldest first.
    pub closed spec fn pairs(&self) -> Seq<(Entity, Entity)> {
        self.old_to_new_entities@
    }

    /// The entities of the world the new entities belong to.
    pub closed spec fn manager(&self) -> Entities {
        self.new_entities_manager
    }

    /// No old entity twice, no new entity twice, every new entity live.
    pub closed spec fn wf(&self) -> bool {
        &&& self.new_entities_manager.wf()
        &&& pairs_distinct(self.old_to_new_entities@)
        &&& forall|i: int| 0 <= i < self.old_to_new_entities@.len() ==> self.new_entities_manager.is_live(#[trigger] self.old_to_new_entities@[i].1)
    }

    pub proof fn lemma_wf(&self)
        requires
            self.wf(),
        ensures
            self.manager().wf(),
            pairs_distinct(self.pairs()),
            forall|i: int| 0 <= i < self.pairs().len() ==> self.manager().is_live(#[trigger] self.pairs()[i].1),
    {
    }

    /// Takes out the entities the new entities belong to, leaving `replacement`; the migrator
    /// can give out no entity until `put_manager` gives them back.
    pub fn take_manager(&mut self, replacement: Entities) -> (r: Entities)
        requires
            old(self).wf(),
        ensures
            r == old(self).manager(),
            r.wf(),
            final(self).pairs() == old(self).pairs(),
            final(self).manager() == replacement,
            pairs_distinct(old(self).pairs()),
            forall|i: int| 0 <= i < old(self).pairs().len() ==> r.is_live(#[trigger] old(self).pairs()[i].1),
    {
        let mut m = replacement;
        std::mem::swap(&mut self.new_entities_manager, &mut m);
        m
    }

    /// Gives back entities in which every new entity is live.
    pub fn put_manager(&mut self, manager: Entities) -> (r: Entities)
        requires
            pairs_distinct(old(self).pairs()),
            manager.wf(),
            forall|i: int| 0 <= i < old(self).pairs().len() ==> manager.is_live(#[trigger] old(self).pairs()[i].1),
        ensures
            final(self).wf(),
            final(self).pairs() == old(self).pairs(),
            final(self).manager() == manager,
            r == old(self).manager(),
    {
        let mut m = manager;
        std::mem::swap(&mut self.new_entities_manager, &mut m);
        m
    }

    /// `post` is `pre` after more migrations: the earlier pairs are kept, the new entities
    /// are fresh, unplaced handles, and the entities only grew.
    pub open spec fn extends(post: EntityMigrator, pre: EntityMigrator) -> bool {
        &&& post.wf()
        &&& pre.pairs().len() <= post.pairs().len()
        &&& forall|i: int| 0 <= i < pre.pairs().len() ==> #[trigger] post.pairs()[i] == pre.pairs()[i]
        &&& Entities::grows(pre.manager(), post.manager())
        &&& forall|i: int| pre.pairs().len() <= i < post.pairs().len() ==> !pre.manager().is_live(#[trigger] post.pairs()[i].1)
        &&& forall|e: Entity| #[trigger] post.manager().is_live(e) && !pre.manager().is_live(e) ==> exists|i: int|
            pre.pairs().len() <= i < post.pairs().len() && post.pairs()[i].1 == e
    }

    pub proof fn lemma_extends_refl(m: EntityMigrator)
        requires
            m.wf(),
        ensures
            Self::extends(m, m),
    {
        Entities::lemma_grows_refl(m.manager());
    }

    pub proof fn lemma_extends_trans(a: EntityMigrator, b: EntityMigrator, c: EntityMigrator)
        requires
            Self::extends(b, a),
            Self::extends(c, b),
        ensures
            Self::extends(c, a),
    {
        Entities::lemma_grows_trans(a.manager(), b.manager(), c.manager());
        assert forall|i: int| a.pairs().len() <= i < c.pairs().len() implies !a.manager().is_live(#[trigger] c.pairs()[i].1) by {
            if i < b.pairs().len() {
                assert(c.pairs()[i] == b.pairs()[i]);
            } else {
                assert(!b.manager().is_live(c.pairs()[i].1));
            }
        }
        assert forall|e: Entity| #[trigger] c.manager().is_live(e) && !a.manager().is_live(e) implies exists|i: int|
            a.pairs().len() <= i < c.pairs().len() && c.pairs()[i].1 == e by {
            if b.manager().is_live(e) {
                let i = choose|i: int| a.pairs().len() <= i < b.pairs().len() && b.pairs()[i].1 == e;
                assert(c.pairs()[i] == b.pairs()[i]);
            } else {
                let i = choose|i: int| b.pairs().len() <= i < c.pairs().len() && c.pairs()[i].1 == e;
            }
        }
    }

    /// The new entity given to `old`, if it was migrated.
    pub open spec fn new_of(&self, old: Entity) -> Option<Entity> {
        if exists|i: int| 0 <= i < self.pairs().len() && self.pairs()[i].0 == old {
            Some(self.pairs()[choose|i: int| 0 <= i < self.pairs().len() && self.pairs()[i].0 == old].1)
        } else {
            None
        }
    }

    /// A migrator that starts from the pairs (old entity, new entity) of `old_to_new_entities`
    /// and gives further new entities out of `new_entities_manager`.
    pub fn new(old_to_new_entities: Vec<(Entity, Entity)>, new_entities_manager: Entities) -> (r: Self)
        requires
            new_entities_manager.wf(),
            pairs_distinct(old_to_new_entities@),
            forall|i: int| 0 <= i < old_to_new_entities@.len() ==> new_entities_manager.is_live(#[trigger] old_to_new_entities@[i].1),
        ensures
            r.wf(),
            r.pairs() == old_to_new_entities@,
            r.manager() == new_entities_manager,
    {
        Self { old_to_new_entities, new_entities_manager }
    }

    /// The new entity for `old_entity`: the one given before, or a new handle the first time.
    pub fn migrate(&mut self, old_entity: Entity) -> (new_entity: Entity)
        requires
            old(self).wf(),
        ensures
            Self::extends(*final(self), *old(self)),
            final(self).new_of(old_entity) == Some(new_entity),
            old(self).new_of(old_entity) is Some ==> *final(self) == *old(self),
            old(self).new_of(old_entity) is None ==> final(self).pairs() == old(self).pairs().push((old_entity, new_entity)),
            forall|o: Entity| o != old_entity ==> #[trigger] final(self).new_of(o) == old(self).new_of(o),
    {
        let mut i: usize = 0;
        while i < self.old_to_new_entities.len()
            invariant
                i <= self.old_to_new_entities@.len(),
                self.wf(),
                *self == *old(self),
                forall|j: int| 0 <= j < i ==> self.old_to_new_entities@[j].0 != old_entity,
            decreases self.old_to_new_entities@.len() - i,
        {
            let (from, to) = self.old_to_new_entities[i];
            if from == old_entity {
                proof {
                    Self::lemma_extends_refl(*self);
                    assert(self.pairs()[i as int].0 == old_entity);
                    let k = choose|k: int| 0 <= k < self.pairs().len() && self.pairs()[k].0 == old_entity;
                    assert(k == i) by {
                        if k != i {
                            assert(self.old_to_new_entities@[k].0 != self.old_to_new_entities@[i as int].0);
                        }
                    }
                }
                return to;
            }
            i = i + 1;
        }
        let ghost pre = *self;
        let new_entity = self.new_entities_manager.new_entity_handle();
        proof {
            Entities::lemma_handed_out_grows(pre.manager(), self.new_entities_manager, new_entity);
        }
        self.old_to_new_entities.push((old_entity, new_entity));
        proof {
            let n = pre.pairs().len() as int;
            assert forall|e: Entity| #[trigger] self.manager().is_live(e) && !pre.manager().is_live(e) implies exists|i: int|
                pre.pairs().len() <= i < self.pairs().len() && self.pairs()[i].1 == e by {
                assert(e == new_entity);
                assert(self.pairs()[n].1 == e);
            }
            assert(!(exists|k: int| 0 <= k < pre.pairs().len() && pre.pairs()[k].0 == old_entity));
            assert forall|a: int, b: int| 0 <= a < b < self.old_to_new_entities@.len() implies self.old_to_new_entities@[a].0
                != self.old_to_new_entities@[b].0 && self.old_to_new_entities@[a].1 != self.old_to_new_entities@[b].1 by {
                if b == n {
                    assert(pre.manager().is_live(pre.pairs()[a].1));
                }
            }
            assert forall|k: int| 0 <= k < self.old_to_new_entities@.len() implies self.new_entities_manager.is_live(#[trigger] self.old_to_new_entities@[k].1) by {
                if k < n {
                    assert(pre.manager().is_live(pre.pairs()[k].1));
                }
            }
            assert(self.pairs()[n].0 == old_entity);
            let k = choose|k: int| 0 <= k < self.pairs().len() && self.pairs()[k].0 == old_entity;
            assert(k == n);
            assert forall|o: Entity| o != old_entity implies #[trigger] self.new_of(o) == pre.new_of(o) by {
                if exists|k: int| 0 <= k < self.pairs().len() && self.pairs()[k].0 == o {
                    let k = choose|k: int| 0 <= k < self.pairs().len() && self.pairs()[k].0 == o;
                    assert(k < n);
                    assert(pre.pairs()[k].0 == o);
                    let k2 = choose|k2: int| 0 <= k2 < pre.pairs().len() && pre.pairs()[k2].0 == o;
                    if k != k2 {
                        assert(pre.pairs()[k].0 != pre.pairs()[k2].0);
                    }
                }
                if exists|k: int| 0 <= k < pre.pairs().len() && pre.pairs()[k].0 == o {
                    let k = choose|k: int| 0 <= k < pre.pairs().len() && pre.pairs()[k].0 == o;
                    assert(self.pairs()[k].0 == o);
                }
            }
        }
        new_entity
    }

    /// The new entities given out, in the order they were given.
    pub fn new_entities(&self) -> (r: Vec<Entity>)
        ensures
            r@ == Seq::new(self.pairs().len(), |i: int| self.pairs()[i].1),
    {
        let mut r: Vec<Entity> = Vec::new();
        let mut i: usize = 0;
        while i < self.old_to_new_entities.len()
            invariant
                i <= self.old_to_new_entities@.len(),
                r@ == Seq::new(i as nat, |j: int| self.pairs()[j].1),
            decreases self.old_to_new_entities@.len() - i,
        {
            r.push(self.old_to_new_entities[i].1);
            i = i + 1;
            assert(r@ =~= Seq::new(i as nat, |j: int| self.pairs()[j].1));
        }
        r
    }
}

/// A component that can be cloned into another world: the entities it names are replaced by
/// their new entities, which `entity_migrator` gives out.
pub trait WorldClone: Sized {
    /// `r` is a clone of this component made while the migrator went from `before` to
    /// `after`: what each type means by its clone (nothing, unless the type says).
    open spec fn is_world_clone(&self, before: EntityMigrator, after: EntityMigrator, r: Self) -> bool {
        true
    }

    fn world_clone(&self, entity_migrator: &mut EntityMigrator) -> (r: Self)
        requires
            old(entity_migrator).wf(),
        ensures
            EntityMigrator::extends(*final(entity_migrator), *old(entity_migrator)),
            self.is_world_clone(*old(entity_migrator), *final(entity_migrator), r),
    ;
}

/// `post` holds the pairs of `pre` first, and no old or new entity twice.
pub open spec fn pairs_extend(post: EntityMigrator, pre: EntityMigrator) -> bool {
    &&& pairs_distinct(post.pairs())
    &&& pre.pairs().len() <= post.pairs().len()
    &&& forall|i: int| 0 <= i < pre.pairs().len() ==> #[trigger] post.pairs()[i] == pre.pairs()[i]
}

/// A migrator that went on from another holds its pairs first.
pub proof fn lemma_pairs_extend(post: EntityMigrator, pre: EntityMigrator)
    requires
        EntityMigrator::extends(post, pre),
    ensures
        pairs_extend(post, pre),
{
    post.lemma_wf();
}

/// `c` is a clone of `v` made at some point while a migrator went from `start` to `end`:
/// the pairs of `start` were there, and those made later stayed until `end`.
pub open spec fn cloned_during<T: WorldClone>(start: EntityMigrator, end: EntityMigrator, v: T, c: T) -> bool {
    exists|a: EntityMigrator, b: EntityMigrator|
        #![trigger v.is_world_clone(a, b, c)]
        pairs_extend(a, start) && EntityMigrator::extends(b, a) && pairs_extend(end, b)
            && v.is_world_clone(a, b, c)
}

/// A clone made while a migrator went from `start` to `mid` was made before it reached `end`.
pub proof fn lemma_cloned_during_later<T: WorldClone>(start: EntityMigrator, mid: EntityMigrator, end: EntityMigrator, v: T, c: T)
    requires
        cloned_during(start, mid, v, c),
        pairs_extend(end, mid),
    ensures
        cloned_during(start, end, v, c),
{
    let (a, b) = choose|a: EntityMigrator, b: EntityMigrator|
        #![trigger v.is_world_clone(a, b, c)]
        pairs_extend(a, start) && EntityMigrator::extends(b, a) && pairs_extend(mid, b)
            && v.is_world_clone(a, b, c);
    assert(pairs_extend(end, b));
}

/// A clone made after a migrator reached `start` was made after any earlier point too.
pub proof fn lemma_cloned_during_earlier<T: WorldClone>(first: EntityMigrator, start: EntityMigrator, end: EntityMigrator, v: T, c: T)
    requires
        cloned_during(start, end, v, c),
        pairs_extend(start, first),
    ensures
        cloned_during(first, end, v, c),
{
    let (a, b) = choose|a: EntityMigrator, b: EntityMigrator|
        #![trigger v.is_world_clone(a, b, c)]
        pairs_extend(a, start) && EntityMigrator::extends(b, a) && pairs_extend(end, b)
            && v.is_world_clone(a, b, c);
    assert(pairs_extend(a, first));
}

/// The entity a cloned link names: the new entity of the linked one.
pub open spec fn link_cloned(link: Option<Entity>, after: EntityMigrator, r: Option<Entity>) -> bool {
    match link {
        None => r is None,
        Some(e) => r is Some && r == after.new_of(e),
    }
}

/// The new entity of an optional link, migrating it if needed.
fn migrate_link(link: Option<Entity>, entity_migrator: &mut EntityMigrator) -> (r: Option<Entity>)
    requires
        old(entity_migrator).wf(),
    ensures
        EntityMigrator::extends(*final(entity_migrator), *old(entity_migrator)),
        link is None ==> r is None && *final(entity_migrator) == *old(entity_migrator),
        link matches Some(e) ==> final(entity_migrator).new_of(e) is Some && r == final(entity_migrator).new_of(e),
        forall|o: Entity| link != Some(o) ==> #[trigger] final(entity_migrator).new_of(o) == old(entity_migrator).new_of(o),
{
    match link {
        Some(e) => Some(entity_migrator.migrate(e)),
        None => {
            proof {
                EntityMigrator::lemma_extends_refl(*entity_migrator);
            }
            None
        },
    }
}

impl WorldClone for HierarchyNode {
    /// The same node, with each linked entity replaced by its new entity.
    open spec fn is_world_clone(&self, before: EntityMigrator, after: EntityMigrator, r: Self) -> bool {
        &&& link_cloned(self.parent, after, r.parent)
        &&& link_cloned(self.last_child, after, r.last_child)
        &&& link_cloned(self.next_sibling, after, r.next_sibling)
        &&& link_cloned(self.previous_sibling, after, r.previous_sibling)
    }

    fn world_clone(&self, entity_migrator: &mut EntityMigrator) -> (r: Self)
        ensures
            self.parent is None <==> r.parent is None,
            self.last_child is None <==> r.last_child is None,
            self.next_sibling is None <==> r.next_sibling is None,
            self.previous_sibling is None <==> r.previous_sibling is None,
            self.parent matches Some(e) ==> r.parent == final(entity_migrator).new_of(e),
            self.last_child matches Some(e) ==> r.last_child == final(entity_migrator).new_of(e),
            self.next_sibling matches Some(e) ==> r.next_sibling == final(entity_migrator).new_of(e),
            self.previous_sibling matches Some(e) ==> r.previous_sibling == final(entity_migrator).new_of(e),
    {
        let ghost m0 = *entity_migrator;
        let parent = migrate_link(self.parent, entity_migrator);
        let ghost m1 = *entity_migrator;
        let last_child = migrate_link(self.last_child, entity_migrator);
        let ghost m2 = *entity_migrator;
        let next_sibling = migrate_link(self.next_sibling, entity_migrator);
        let ghost m3 = *entity_migrator;
        let previous_sibling = migrate_link(self.previous_sibling, entity_migrator);
        proof {
            EntityMigrator::lemma_extends_trans(m0, m1, m2);
            EntityMigrator::lemma_extends_trans(m0, m2, m3);
            EntityMigrator::lemma_extends_trans(m0, m3, *entity_migrator);
            lemma_new_of_kept(m1, m2, *entity_migrator, self.parent);
            lemma_new_of_kept(m2, m3, *entity_migrator, self.last_child);
            lemma_new_of_kept(m3, *entity_migrator, *entity_migrator, self.next_sibling);
        }
        HierarchyNode { parent, last_child, next_sibling, previous_sibling }
    }
}

/// Once migrated, an entity keeps its new entity.
proof fn lemma_new_of_kept(a: EntityMigrator, b: EntityMigrator, c: EntityMigrator, link: Option<Entity>)
    requires
        a.wf(),
        EntityMigrator::extends(b, a),
        EntityMigrator::extends(c, b),
        link matches Some(e) ==> a.new_of(e) is Some,
    ensures
        link matches Some(e) ==> c.new_of(e) == a.new_of(e),
{
    if let Some(e) = link {
        lemma_new_of_stable(a, b, e);
        lemma_new_of_stable(b, c, e);
    }
}

/// Extending a migrator keeps the new entities it gave.
pub proof fn lemma_new_of_stable(a: EntityMigrator, b: EntityMigrator, e: Entity)
    requires
        EntityMigrator::extends(b, a),
        a.wf(),
        a.new_of(e) is Some,
    ensures
        b.new_of(e) == a.new_of(e),
{
    let k = choose|k: int| 0 <= k < a.pairs().len() && a.pairs()[k].0 == e;
    assert(b.pairs()[k] == a.pairs()[k]);
    let k2 = choose|k2: int| 0 <= k2 < b.pairs().len() && b.pairs()[k2].0 == e;
    if k2 != k {
        assert(b.pairs()[k].0 != b.pairs()[k2].0);
    }
}

/// A migrator whose pairs begin with those of another gives the same new entities.
pub proof fn lemma_new_of_kept_later(a: EntityMigrator, b: EntityMigrator, e: Entity)
    requires
        pairs_extend(b, a),
        a.new_of(e) is Some,
    ensures
        b.new_of(e) == a.new_of(e),
{
    assert forall|i: int, j: int| 0 <= i < j < a.pairs().len() implies a.pairs()[i].0 != a.pairs()[j].0 && a.pairs()[i].1 != a.pairs()[j].1 by {
        assert(b.pairs()[i] == a.pairs()[i] && b.pairs()[j] == a.pairs()[j]);
    }
    let k = choose|k: int| 0 <= k < a.pairs().len() && a.pairs()[k].0 == e;
    assert(b.pairs()[k] == a.pairs()[k]);
    let k2 = choose|k2: int| 0 <= k2 < b.pairs().len() && b.pairs()[k2].0 == e;
    if k2 != k {
        assert(b.pairs()[k].0 != b.pairs()[k2].0);
    }
}

proof fn lemma_link_kept_later(link: Option<Entity>, b: EntityMigrator, end: EntityMigrator, r: Option<Entity>)
    requires
        link_cloned(link, b, r),
        pairs_extend(end, b),
    ensures
        link_cloned(link, end, r),
{
    if let Some(e) = link {
        lemma_new_of_kept_later(b, end, e);
    }
}

/// Law: a hierarchy node cloned while a migrator went from `start` to `end` links, in place
/// of each entity it linked, that entity's new entity in `end`: all the clones made along
/// the way follow one map from old entities to new ones.
pub proof fn law_cloned_node_links<V: WorldClone>(start: EntityMigrator, end: EntityMigrator, v: ComponentValue<V>, c: ComponentValue<V>)
    requires
        cloned_during(start, end, v, c),
        v is Hierarchy,
    ensures
        c is Hierarchy,
        link_cloned(v->Hierarchy_0.parent, end, c->Hierarchy_0.parent),
        link_cloned(v->Hierarchy_0.last_child, end, c->Hierarchy_0.last_child),
        link_cloned(v->Hierarchy_0.next_sibling, end, c->Hierarchy_0.next_sibling),
        link_cloned(v->Hierarchy_0.previous_sibling, end, c->Hierarchy_0.previous_sibling),
{
    let (a, b) = choose|a: EntityMigrator, b: EntityMigrator|
        #![trigger v.is_world_clone(a, b, c)]
        pairs_extend(a, start) && EntityMigrator::extends(b, a) && pairs_extend(end, b)
            && v.is_world_clone(a, b, c);
    let n = v->Hierarchy_0;
    let m = c->Hierarchy_0;
    lemma_link_kept_later(n.parent, b, end, m.parent);
    lemma_link_kept_later(n.last_child, b, end, m.last_child);
    lemma_link_kept_later(n.next_sibling, b, end, m.next_sibling);
    lemma_link_kept_later(n.previous_sibling, b, end, m.previous_sibling);
}

impl<V: WorldClone> WorldClone for ComponentValue<V> {
    /// A hierarchy node is cloned as a node, a value as a value of the same kind.
    open spec fn is_world_clone(&self, before: EntityMigrator, after: EntityMigrator, r: Self) -> bool {
        match (*self, r) {
            (ComponentValue::Hierarchy(n), ComponentValue::Hierarchy(m)) => n.is_world_clone(before, after, m),
            (ComponentValue::Value(v), ComponentValue::Value(w)) => v.is_world_clone(before, after, w),
            _ => false,
        }
    }

    fn world_clone(&self, entity_migrator: &mut EntityMigrator) -> (r: Self)
        ensures
            self is Hierarchy <==> r is Hierarchy,
    {
        match self {
            ComponentValue::Hierarchy(n) => ComponentValue::Hierarchy(n.world_clone(entity_migrator)),
            ComponentValue::Value(v) => ComponentValue::Value(v.world_clone(entity_migrator)),
        }
    }
}

} // verus!
