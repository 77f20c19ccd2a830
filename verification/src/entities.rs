use vstd::prelude::*;

verus! {

/// A handle to an entity of a world: the slot it occupies and the generation of that slot
/// at the time the handle was given out.
#[derive(PartialEq, Eq, Structural, Clone, Copy, Debug, Hash)]
pub struct Entity {
    pub index: usize,
    pub generation: usize,
}

impl Entity {
    pub fn index(&self) -> (r: usize)
        ensures
            r == self.index,
    {
        self.index
    }

    pub fn generation(&self) -> (r: usize)
        ensures
            r == self.generation,
    {
        self.generation
    }

    /// Useful when storing an `Entity` handle in another library for reconstruction later.
    pub fn from_index_and_generation(index: usize, generation: usize) -> (r: Self)
        ensures
            r.index == index,
            r.generation == generation,
    {
        Self { index, generation }
    }
}

/// Where the components of an entity are stored: an archetype and a row within it.
#[derive(PartialEq, Eq, Structural, Clone, Copy, Debug)]
pub struct EntityLocation {
    pub archetype_index: usize,
    pub index_within_archetype: usize,
}

/// The slots of all entities: for each slot its generation, its location (if the entity
/// has been placed in an archetype) and whether the slot is free to be handed out again.
pub struct Inner {
    pub generation_and_location: Vec<(usize, Option<EntityLocation>)>,
    pub free_flags: Vec<bool>,
    pub free_entity_indices: Vec<usize>,
}

impl Inner {
    pub open spec fn wf(&self) -> bool {
        &&& self.free_flags@.len() == self.generation_and_location@.len()
        &&& self.free_entity_indices@.no_duplicates()
        &&& forall|k: int|
            0 <= k < self.free_entity_indices@.len() ==> #[trigger] self.free_entity_indices@[k]
                < self.free_flags@.len() && self.free_flags@[self.free_entity_indices@[k] as int]
                && self.generation_and_location@[self.free_entity_indices@[k] as int].0 < usize::MAX
        &&& forall|i: int|
            0 <= i < self.free_flags@.len() && #[trigger] self.free_flags@[i]
                ==> (self.free_entity_indices@.contains(i as usize) || self.generation_and_location@[i].0 == usize::MAX)
                && self.generation_and_location@[i].1 is None
        &&& forall|i: int|
            0 <= i < self.free_flags@.len() && !#[trigger] self.free_flags@[i]
                ==> self.generation_and_location@[i].0 < usize::MAX
    }

    /// Hands out a handle: a freed slot if there is one (its generation was already raised
    /// when it was freed), otherwise a new slot with generation 0.
    pub fn new_handle(&mut self) -> (e: Entity)
        requires
            old(self).wf(),
        ensures
            final(self).wf(),
            old(self).free_entity_indices@.len() > 0 ==> {
                let i = old(self).free_entity_indices@.last();
                &&& e.index == i
                &&& e.generation == old(self).generation_and_location@[i as int].0
                &&& final(self).generation_and_location@ == old(self).generation_and_location@
                &&& final(self).free_flags@ == old(self).free_flags@.update(i as int, false)
                &&& final(self).free_entity_indices@ == old(
                    self,
                ).free_entity_indices@.drop_last()
            },
            old(self).free_entity_indices@.len() == 0 ==> {
                &&& e.index == old(self).generation_and_location@.len()
                &&& e.generation == 0
                &&& final(self).generation_and_location@ == old(
                    self,
                ).generation_and_location@.push((0, None))
                &&& final(self).free_flags@ == old(self).free_flags@.push(false)
                &&& final(self).free_entity_indices@ == old(self).free_entity_indices@
            },
    {
        if let Some(index) = self.free_entity_indices.pop() {
            proof {
                let fl = old(self).free_entity_indices@;
                assert(fl.last() == fl[fl.len() - 1]);
                assert(fl[fl.len() - 1] == index);
            }
            let generation = self.generation_and_location[index].0;
            self.free_flags.set(index, false);
            proof {
                let fl = old(self).free_entity_indices@;
                let nfl = self.free_entity_indices@;
                assert(self.free_flags.len() == self.free_flags@.len());
                assert(nfl =~= fl.drop_last());
                assert forall|k: int| 0 <= k < nfl.len() implies #[trigger] nfl[k]
                    < self.free_flags@.len() && self.free_flags@[nfl[k] as int]
                    && self.generation_and_location@[nfl[k] as int].0 < usize::MAX by {
                    assert(nfl[k] == fl[k]);
                    assert(fl[k] != fl[fl.len() - 1]);
                }
                assert forall|i: int|
                    0 <= i < self.free_flags@.len() && #[trigger] self.free_flags@[i]
                        implies (nfl.contains(i as usize) || self.generation_and_location@[i].0 == usize::MAX)
                    && self.generation_and_location@[i].1 is None by {
                    assert(i != index);
                    assert(old(self).free_flags@[i]);
                    if fl.contains(i as usize) {
                        let k = choose|k: int| 0 <= k < fl.len() && fl[k] == i as usize;
                        assert(fl[fl.len() - 1] == index);
                        assert(k != fl.len() - 1);
                        assert(nfl[k] == i as usize);
                    }
                }
                assert forall|i: int|
                    0 <= i < self.free_flags@.len() && !#[trigger] self.free_flags@[i]
                        implies self.generation_and_location@[i].0 < usize::MAX by {
                    if i == index {
                        assert(fl[fl.len() - 1] == index);
                    } else {
                        assert(!old(self).free_flags@[i]);
                    }
                }
            }
            Entity { generation, index }
        } else {
            let index = self.generation_and_location.len();
            self.generation_and_location.push((0, None));
            self.free_flags.push(false);
            proof {
                let fl = self.free_entity_indices@;
                assert forall|k: int| 0 <= k < fl.len() implies #[trigger] fl[k]
                    < self.free_flags@.len() && self.free_flags@[fl[k] as int]
                    && self.generation_and_location@[fl[k] as int].0 < usize::MAX by {}
                assert forall|i: int|
                    0 <= i < self.free_flags@.len() && #[trigger] self.free_flags@[i]
                        implies (fl.contains(i as usize) || self.generation_and_location@[i].0 == usize::MAX)
                    && self.generation_and_location@[i].1 is None by {
                    assert(i < index);
                    assert(old(self).free_flags@[i]);
                }
                assert forall|i: int|
                    0 <= i < self.free_flags@.len() && !#[trigger] self.free_flags@[i]
                        implies self.generation_and_location@[i].0 < usize::MAX by {
                    if i < index {
                        assert(!old(self).free_flags@[i]);
                    }
                }
            }
            Entity { index, generation: 0 }
        }
    }
}

/// Hands out `Entity` handles and remembers where each entity is stored.
pub struct Entities {
    pub(crate) inner: Inner,
}

impl Entities {
    /// The generation and location of every slot.
    pub closed spec fn slots(&self) -> Seq<(usize, Option<EntityLocation>)> {
        self.inner.generation_and_location@
    }

    /// The slots that are free, in the order in which they will be handed out again (last first).
    pub closed spec fn free_list(&self) -> Seq<usize> {
        self.inner.free_entity_indices@
    }

    /// Whether slot `i` is free.
    pub closed spec fn is_free(&self, i: int) -> bool {
        self.inner.free_flags@[i]
    }

    pub closed spec fn wf(&self) -> bool {
        self.inner.wf()
    }

    /// The entity that a handle names exists: its slot is in use and has the handle's generation.
    pub open spec fn is_live(&self, e: Entity) -> bool {
        &&& e.index < self.slots().len()
        &&& self.slots()[e.index as int].0 == e.generation
        &&& !self.is_free(e.index as int)
    }

    /// The location recorded for a live entity.
    pub open spec fn location(&self, e: Entity) -> Option<EntityLocation> {
        self.slots()[e.index as int].1
    }

    pub proof fn lemma_wf(&self)
        requires
            self.wf(),
        ensures
            forall|k: int|
                0 <= k < self.free_list().len() ==> #[trigger] self.free_list()[k]
                    < self.slots().len() && self.is_free(self.free_list()[k] as int),
            forall|i: int|
                0 <= i < self.slots().len() && #[trigger] self.is_free(i) ==> (self.free_list().contains(
                    i as usize,
                ) || self.slots()[i].0 == usize::MAX) && self.slots()[i].1 is None,
            self.free_list().no_duplicates(),
            forall|e: Entity| #[trigger] self.is_live(e) ==> e.generation < usize::MAX,
    {
    }

    pub proof fn lemma_slots_bounded(&self)
        ensures
            self.slots().len() <= usize::MAX,
    {
        assert(self.inner.generation_and_location.len() == self.slots().len());
    }

    pub fn new() -> (r: Self)
        ensures
            r.wf(),
            r.slots() == Seq::<(usize, Option<EntityLocation>)>::empty(),
            r.free_list() == Seq::<usize>::empty(),
    {
        Self {
            inner: Inner {
                generation_and_location: Vec::new(),
                free_flags: Vec::new(),
                free_entity_indices: Vec::new(),
            },
        }
    }

    /// `None` if the entity does not exist, otherwise its location (`None` while it is not
    /// stored in any archetype).
    pub fn get_location(&self, entity: Entity) -> (r: Option<Option<EntityLocation>>)
        requires
            self.wf(),
        ensures
            r == if self.is_live(entity) {
                Some(self.location(entity))
            } else {
                None::<Option<EntityLocation>>
            },
    {
        if entity.index >= self.inner.generation_and_location.len() {
            return None;
        }
        let (generation, location) = self.inner.generation_and_location[entity.index];
        if generation == entity.generation && !self.inner.free_flags[entity.index] {
            Some(location)
        } else {
            None
        }
    }

    /// Mutable access to the location stored in slot `index`.
    pub fn get_at_index_mut(&mut self, index: usize) -> (r: &mut Option<EntityLocation>)
        requires
            index < old(self).slots().len(),
        ensures
            *r == old(self).slots()[index as int].1,
            final(self).slots() == old(self).slots().update(
                index as int,
                (old(self).slots()[index as int].0, *final(r)),
            ),
            final(self).free_list() == old(self).free_list(),
            forall|i: int| #[trigger] final(self).is_free(i) == old(self).is_free(i),
            old(self).wf() && !old(self).is_free(index as int) ==> final(self).wf(),
    {
        &mut self.inner.generation_and_location[index].1
    }

    /// Records the location of slot `index`.
    pub fn set_location(&mut self, index: usize, location: Option<EntityLocation>)
        requires
            index < old(self).slots().len(),
        ensures
            old(self).wf() && (location is Some ==> !old(self).is_free(index as int)) ==> final(self).wf(),
            final(self).slots() == old(self).slots().update(
                index as int,
                (old(self).slots()[index as int].0, location),
            ),
            final(self).free_list() == old(self).free_list(),
            forall|i: int| #[trigger] final(self).is_free(i) == old(self).is_free(i),
    {
        let generation = self.inner.generation_and_location[index].0;
        self.inner.generation_and_location.set(index, (generation, location));
    }

    /// Hands out a new handle, reusing a freed slot if there is one. The new entity is not yet
    /// stored in any archetype.
    pub fn reserve_entity(&mut self) -> (e: Entity)
        requires
            old(self).wf(),
        ensures
            final(self).wf(),
            Self::handed_out(*old(self), *final(self), e),
    {
        self.new_entity_handle()
    }

    /// The handle handed out next: the last freed slot with its current generation, or else a
    /// new slot at the end with generation 0.
    pub open spec fn next_handle(&self) -> Entity {
        if self.free_list().len() > 0 {
            Entity { index: self.free_list().last(), generation: self.slots()[self.free_list().last() as int].0 }
        } else {
            Entity { index: self.slots().len() as usize, generation: 0 }
        }
    }

    /// The relation between the slots before and after handing out `e`.
    pub open spec fn handed_out(pre: Entities, post: Entities, e: Entity) -> bool {
        &&& post.is_live(e)
        &&& post.location(e) is None
        &&& !pre.is_live(e)
        &&& pre.free_list().len() > 0 ==> {
            &&& e.index == pre.free_list().last()
            &&& e.generation == pre.slots()[e.index as int].0
            &&& post.slots() == pre.slots()
            &&& post.free_list() == pre.free_list().drop_last()
        }
        &&& pre.free_list().len() == 0 ==> {
            &&& e.index == pre.slots().len()
            &&& e.generation == 0
            &&& post.slots() == pre.slots().push((0, None))
            &&& post.free_list() == pre.free_list()
        }
        &&& forall|i: int| 0 <= i < pre.slots().len() && i != e.index ==> #[trigger] post.is_free(i) == pre.is_free(i)
        &&& forall|f: Entity| f != e ==> (#[trigger] post.is_live(f) == pre.is_live(f))
    }

    /// Returns a new Entity handle but does not yet initialize its location within the world.
    pub fn new_entity_handle(&mut self) -> (e: Entity)
        requires
            old(self).wf(),
        ensures
            final(self).wf(),
            Self::handed_out(*old(self), *final(self), e),
    {
        let e = self.inner.new_handle();
        proof {
            let pre = *old(self);
            if pre.free_list().len() > 0 {
                let fl = pre.free_list();
                assert(fl.contains(fl.last()));
                assert(fl[fl.len() - 1] == fl.last());
                assert(pre.is_free(e.index as int));
            }
            assert forall|f: Entity| f != e implies (#[trigger] self.is_live(f) == pre.is_live(f)) by {
                if f.index == e.index {
                    assert(!pre.is_live(f) || pre.slots()[f.index as int].0 != e.generation);
                }
            }
        }
        e
    }

    /// Frees the entity's slot and raises the slot's generation, so the handle no longer names
    /// anything. Returns the location the entity had, or `Err(())` if it does not exist. A
    /// slot whose generation reaches `usize::MAX` is not handed out again.
    pub fn free_entity(&mut self, entity: Entity) -> (r: Result<Option<EntityLocation>, ()>)
        requires
            old(self).wf(),
        ensures
            final(self).wf(),
            !old(self).is_live(entity) ==> r is Err && *final(self) == *old(self),
            old(self).is_live(entity) ==> {
                &&& r == Ok::<Option<EntityLocation>, ()>(old(self).location(entity))
                &&& final(self).slots() == old(self).slots().update(
                    entity.index as int,
                    ((entity.generation + 1) as usize, None),
                )
                &&& final(self).free_list() == if entity.generation + 1 < usize::MAX {
                    old(self).free_list().push(entity.index)
                } else {
                    old(self).free_list()
                }
                &&& final(self).is_free(entity.index as int)
                &&& forall|i: int|
                    0 <= i < old(self).slots().len() && i != entity.index ==> #[trigger] final(self).is_free(i)
                        == old(self).is_free(i)
            },
            forall|f: Entity| f != entity ==> (#[trigger] final(self).is_live(f) == old(self).is_live(f)),
    {
        if entity.index >= self.inner.generation_and_location.len() {
            return Err(());
        }
        let (generation, entity_location) = self.inner.generation_and_location[entity.index];
        if generation == entity.generation && !self.inner.free_flags[entity.index] {
            let next = generation + 1;
            self.inner.generation_and_location.set(entity.index, (next, None));
            self.inner.free_flags.set(entity.index, true);
            if next < usize::MAX {
                self.inner.free_entity_indices.push(entity.index);
            }
            proof {
                let inner = self.inner;
                let ofl = old(self).inner.free_entity_indices@;
                let fl = inner.free_entity_indices@;
                let idx = entity.index as int;
                assert(!ofl.contains(entity.index)) by {
                    if ofl.contains(entity.index) {
                        let k = choose|k: int| 0 <= k < ofl.len() && ofl[k] == entity.index;
                        assert(old(self).inner.free_flags@[ofl[k] as int]);
                    }
                }
                assert(fl == if next < usize::MAX { ofl.push(entity.index) } else { ofl });
                assert forall|a: int, b: int| 0 <= a < b < fl.len() implies fl[a] != fl[b] by {
                    if b == ofl.len() {
                        assert(fl[a] == ofl[a]);
                        assert(fl[b] == entity.index);
                        if ofl[a] == entity.index {
                            assert(ofl.contains(entity.index));
                        }
                    } else {
                        assert(fl[a] == ofl[a]);
                        assert(fl[b] == ofl[b]);
                        assert(ofl[a] != ofl[b]);
                    }
                }
                assert forall|k: int| 0 <= k < fl.len() implies #[trigger] fl[k]
                    < inner.free_flags@.len() && inner.free_flags@[fl[k] as int]
                    && inner.generation_and_location@[fl[k] as int].0 < usize::MAX by {
                    if k < ofl.len() {
                        assert(fl[k] == ofl[k]);
                        assert(ofl[k] != entity.index) by {
                            if ofl[k] == entity.index {
                                assert(ofl.contains(entity.index));
                            }
                        }
                    } else {
                        assert(fl[k] == entity.index);
                    }
                }
                assert forall|i: int|
                    0 <= i < inner.free_flags@.len() && #[trigger] inner.free_flags@[i]
                        implies (fl.contains(i as usize) || inner.generation_and_location@[i].0 == usize::MAX)
                    && inner.generation_and_location@[i].1 is None by {
                    if i == idx {
                        if next < usize::MAX {
                            assert(fl[ofl.len() as int] == entity.index);
                        }
                    } else {
                        assert(old(self).inner.free_flags@[i]);
                        if ofl.contains(i as usize) {
                            let k = choose|k: int| 0 <= k < ofl.len() && ofl[k] == i as usize;
                            assert(fl[k] == i as usize);
                        }
                    }
                }
                assert forall|i: int|
                    0 <= i < inner.free_flags@.len() && !#[trigger] inner.free_flags@[i]
                        implies inner.generation_and_location@[i].0 < usize::MAX by {
                    assert(i != idx);
                    assert(!old(self).inner.free_flags@[i]);
                }
            }
            Ok(entity_location)
        } else {
            Err(())
        }
    }
}

impl Entities {
    /// `post` is `pre` with more entities handed out: every live entity stays live where it
    /// was, every slot that records a location is unchanged, and the new entities are not
    /// placed yet.
    pub open spec fn grows(pre: Entities, post: Entities) -> bool {
        &&& post.wf()
        &&& post.slots().len() >= pre.slots().len()
        &&& forall|e: Entity| #[trigger] pre.is_live(e) ==> post.is_live(e) && post.location(e) == pre.location(e)
        &&& forall|e: Entity| #[trigger] post.is_live(e) && !pre.is_live(e) ==> post.location(e) is None
        &&& forall|i: int|
            0 <= i < post.slots().len() && (#[trigger] post.slots()[i]).1 is Some ==> {
                &&& i < pre.slots().len()
                &&& post.slots()[i] == pre.slots()[i]
                &&& !pre.is_free(i)
                &&& !post.is_free(i)
            }
    }

    pub proof fn lemma_grows_refl(e: Entities)
        requires
            e.wf(),
        ensures
            Self::grows(e, e),
    {
    }

    pub proof fn lemma_grows_trans(a: Entities, b: Entities, c: Entities)
        requires
            Self::grows(a, b),
            Self::grows(b, c),
        ensures
            Self::grows(a, c),
    {
        assert forall|i: int| 0 <= i < c.slots().len() && (#[trigger] c.slots()[i]).1 is Some implies {
            &&& i < a.slots().len()
            &&& c.slots()[i] == a.slots()[i]
            &&& !a.is_free(i)
            &&& !c.is_free(i)
        } by {
            assert(b.slots()[i].1 is Some);
        }
    }

    /// Handing out an entity only grows the entities.
    pub proof fn lemma_handed_out_grows(pre: Entities, post: Entities, e: Entity)
        requires
            pre.wf(),
            post.wf(),
            Self::handed_out(pre, post, e),
        ensures
            Self::grows(pre, post),
    {
        pre.lemma_wf();
        assert forall|f: Entity| #[trigger] pre.is_live(f) implies post.is_live(f) && post.location(f) == pre.location(f) by {
            assert(f != e);
            if pre.free_list().len() > 0 {
                if f.index == e.index {
                    assert(pre.free_list().contains(e.index));
                }
            }
        }
        assert forall|i: int| 0 <= i < post.slots().len() && (#[trigger] post.slots()[i]).1 is Some implies {
            &&& i < pre.slots().len()
            &&& post.slots()[i] == pre.slots()[i]
            &&& !pre.is_free(i)
            &&& !post.is_free(i)
        } by {
            if pre.free_list().len() > 0 {
                assert(pre.free_list().contains(e.index)) by {
                    assert(pre.free_list()[pre.free_list().len() - 1] == e.index);
                }
                if i == e.index {
                    assert(pre.is_free(e.index as int));
                }
                if i != e.index {
                    assert(pre.is_free(i) ==> pre.slots()[i].1 is None);
                }
            } else {
                assert(i != e.index);
                assert(pre.is_free(i) ==> pre.slots()[i].1 is None);
            }
        }
    }
}

/// Law: a handle that has been freed no longer names an entity, and the next handle
/// given out reuses its slot with a higher generation.
pub proof fn law_freed_handle_is_dead(pre: Entities, mid: Entities, post: Entities, e: Entity, f: Entity)
    requires
        pre.wf(),
        pre.is_live(e),
        e.generation + 1 < usize::MAX,
        mid.slots() == pre.slots().update(e.index as int, ((e.generation + 1) as usize, None)),
        mid.free_list() == pre.free_list().push(e.index),
        mid.is_free(e.index as int),
        Entities::handed_out(mid, post, f),
    ensures
        !mid.is_live(e),
        f.index == e.index,
        f.generation == e.generation + 1,
        !post.is_live(e),
{
    assert(mid.free_list().len() > 0);
    assert(mid.free_list().last() == e.index);
    assert(post.slots()[e.index as int].0 == e.generation + 1);
}

} // verus!
