use vstd::prelude::*;

use crate::archetype::{cloned_during, lemma_cloned_during_earlier, lemma_cloned_during_later, lemma_pairs_extend, pairs_distinct, pairs_extend, Archetype, ComponentValue, EntityMigrator, WorldClone};
use crate::entities::{Entities, Entity, EntityLocation};
use crate::storage_lookup::{lemma_index_of_sorted, strictly_sorted, StorageLookup};

verus! {

/// The component types whose components are copied when a world is cloned.
#[derive(Clone)]
pub struct Cloners(pub(crate) Vec<u64>);

impl Cloners {
    pub closed spec fn view(&self) -> Seq<u64> {
        self.0@
    }

    pub fn new() -> (r: Self)
        ensures
            r@ == Seq::<u64>::empty(),
    {
        Self(Vec::new())
    }

    /// The same component types.
    pub fn duplicate(&self) -> (r: Self)
        ensures
            r@ == self@,
    {
        let mut v: Vec<u64> = Vec::new();
        let mut i: usize = 0;
        while i < self.0.len()
            invariant
                i <= self.0@.len(),
                v@ == self.0@.subrange(0, i as int),
            decreases self.0@.len() - i,
        {
            v.push(self.0[i]);
            i = i + 1;
            assert(v@ =~= self.0@.subrange(0, i as int));
        }
        assert(v@ =~= self.0@);
        Self(v)
    }

    /// Declares that components of type `type_id` can be cloned.
    pub fn register_clone_type(&mut self, type_id: u64)
        ensures
            final(self)@ == old(self)@.push(type_id),
    {
        self.0.push(type_id);
    }

    pub fn contains(&self, type_id: u64) -> (r: bool)
        ensures
            r == self@.contains(type_id),
    {
        let mut i: usize = 0;
        while i < self.0.len()
            invariant
                i <= self.0@.len(),
                forall|j: int| 0 <= j < i ==> self.0@[j] != type_id,
            decreases self.0@.len() - i,
        {
            if self.0[i] == type_id {
                return true;
            }
            i = i + 1;
        }
        false
    }
}

/// The components given by parallel sequences of type ids and values.
pub open spec fn pairs_map<V>(ids: Seq<u64>, values: Seq<ComponentValue<V>>) -> Map<u64, ComponentValue<V>> {
    Map::new(|t: u64| ids.contains(t), |t: u64| values[ids.index_of(t)])
}

/// The components of the entity in row `r` of an archetype.
pub open spec fn row_map<V>(arch: Archetype<V>, r: int) -> Map<u64, ComponentValue<V>> {
    pairs_map(arch.type_id_seq(), arch.row(r))
}

/// The components that a bundle gives an entity: a later pair wins over an earlier one.
pub open spec fn bundle_map<V>(bundle: Seq<(u64, V)>) -> Map<u64, ComponentValue<V>>
    decreases bundle.len(),
{
    if bundle.len() == 0 {
        Map::empty()
    } else {
        bundle_map(bundle.drop_last()).insert(bundle.last().0, ComponentValue::Value(bundle.last().1))
    }
}

/// No component type appears twice in the bundle.
pub open spec fn bundle_ids_distinct<V>(bundle: Seq<(u64, V)>) -> bool {
    forall|i: int, j: int| 0 <= i < j < bundle.len() ==> bundle[i].0 != bundle[j].0
}

/// Inserts (or replaces) component `id` in parallel sorted sequences of ids and values.
pub fn insert_sorted<V>(ids: &mut Vec<u64>, values: &mut Vec<ComponentValue<V>>, id: u64, value: ComponentValue<V>)
    requires
        strictly_sorted(old(ids)@),
        old(ids)@.len() == old(values)@.len(),
    ensures
        strictly_sorted(final(ids)@),
        final(ids)@.len() == final(values)@.len(),
        pairs_map(final(ids)@, final(values)@) == pairs_map(old(ids)@, old(values)@).insert(id, value),
{
    let ghost oids = ids@;
    let ghost ovals = values@;
    let mut p: usize = 0;
    while p < ids.len() && ids[p] < id
        invariant
            p <= ids@.len(),
            ids@ == oids,
            forall|i: int| 0 <= i < p ==> ids@[i] < id,
        decreases ids@.len() - p,
    {
        p = p + 1;
    }
    if p < ids.len() && ids[p] == id {
        values.set(p, value);
        proof {
            lemma_index_of_sorted(oids, p as int);
            assert(pairs_map(ids@, values@) =~= pairs_map(oids, ovals).insert(id, value)) by {
                assert forall|t: u64| #[trigger] oids.contains(t) && t != id implies values@[oids.index_of(t)] == ovals[oids.index_of(t)] by {
                    let q = choose|q: int| 0 <= q < oids.len() && oids[q] == t;
                    lemma_index_of_sorted(oids, q);
                }
            }
        }
    } else {
        ids.insert(p, id);
        values.insert(p, value);
        proof {
            let nids = ids@;
            assert forall|i: int, j: int| 0 <= i < j < nids.len() implies nids[i] < nids[j] by {
                if j < p {
                } else if j == p {
                } else if i < p {
                    assert(nids[j] == oids[j - 1]);
                    if p < oids.len() {
                        assert(oids[p as int] > id);
                        assert(oids[p as int] <= oids[j - 1]);
                    }
                } else if i == p {
                    assert(nids[j] == oids[j - 1]);
                    assert(oids[p as int] > id);
                    assert(oids[p as int] <= oids[j - 1]);
                } else {
                    assert(nids[i] == oids[i - 1]);
                    assert(nids[j] == oids[j - 1]);
                }
            }
            lemma_index_of_sorted(nids, p as int);
            assert(pairs_map(ids@, values@) =~= pairs_map(oids, ovals).insert(id, value)) by {
                assert forall|t: u64| #[trigger] nids.contains(t) <==> (oids.contains(t) || t == id) by {
                    if nids.contains(t) {
                        let q = choose|q: int| 0 <= q < nids.len() && nids[q] == t;
                        if q < p {
                            assert(oids[q] == t);
                        } else if q > p {
                            assert(oids[q - 1] == t);
                        }
                    }
                    if oids.contains(t) {
                        let q = choose|q: int| 0 <= q < oids.len() && oids[q] == t;
                        if q < p {
                            assert(nids[q] == t);
                        } else {
                            assert(nids[q + 1] == t);
                        }
                    }
                }
                assert forall|t: u64| #[trigger] oids.contains(t) && t != id implies values@[nids.index_of(t)] == ovals[oids.index_of(t)] by {
                    let q = choose|q: int| 0 <= q < oids.len() && oids[q] == t;
                    lemma_index_of_sorted(oids, q);
                    if q < p {
                        assert(nids[q] == t);
                        lemma_index_of_sorted(nids, q);
                    } else {
                        assert(nids[q + 1] == t);
                        lemma_index_of_sorted(nids, q + 1);
                    }
                }
            }
        }
    }
}

/// Removes component `id` from parallel sorted sequences of ids and values, returning its value.
pub fn remove_sorted<V>(ids: &mut Vec<u64>, values: &mut Vec<ComponentValue<V>>, id: u64) -> (r: Option<ComponentValue<V>>)
    requires
        strictly_sorted(old(ids)@),
        old(ids)@.len() == old(values)@.len(),
    ensures
        strictly_sorted(final(ids)@),
        final(ids)@.len() == final(values)@.len(),
        pairs_map(final(ids)@, final(values)@) == pairs_map(old(ids)@, old(values)@).remove(id),
        r == if old(ids)@.contains(id) {
            Some(pairs_map(old(ids)@, old(values)@)[id])
        } else {
            None::<ComponentValue<V>>
        },
{
    let ghost oids = ids@;
    let ghost ovals = values@;
    let mut p: usize = 0;
    while p < ids.len()
        invariant
            p <= ids@.len(),
            ids@ == oids,
            values@ == ovals,
            oids.len() == ovals.len(),
            oids == old(ids)@,
            ovals == old(values)@,
            strictly_sorted(oids),
            forall|i: int| 0 <= i < p ==> ids@[i] != id,
        decreases ids@.len() - p,
    {
        if ids[p] == id {
            ids.remove(p);
            let value = values.remove(p);
            proof {
                lemma_index_of_sorted(oids, p as int);
                let nids = ids@;
                assert forall|i: int, j: int| 0 <= i < j < nids.len() implies nids[i] < nids[j] by {
                    if i < p {
                        assert(nids[i] == oids[i]);
                    } else {
                        assert(nids[i] == oids[i + 1]);
                    }
                    if j < p {
                        assert(nids[j] == oids[j]);
                    } else {
                        assert(nids[j] == oids[j + 1]);
                    }
                }
                assert(pairs_map(ids@, values@) =~= pairs_map(oids, ovals).remove(id)) by {
                    assert forall|t: u64| #[trigger] nids.contains(t) <==> (oids.contains(t) && t != id) by {
                        if nids.contains(t) {
                            let q = choose|q: int| 0 <= q < nids.len() && nids[q] == t;
                            if q < p {
                                assert(oids[q] == t);
                            } else {
                                assert(oids[q + 1] == t);
                                assert(oids[q + 1] != oids[p as int]);
                            }
                        }
                        if oids.contains(t) && t != id {
                            let q = choose|q: int| 0 <= q < oids.len() && oids[q] == t;
                            if q < p {
                                assert(nids[q] == t);
                            } else {
                                assert(q != p);
                                assert(nids[q - 1] == t);
                            }
                        }
                    }
                    assert forall|t: u64| #[trigger] nids.contains(t) implies values@[nids.index_of(t)] == ovals[oids.index_of(t)] by {
                        let q = choose|q: int| 0 <= q < nids.len() && nids[q] == t;
                        lemma_index_of_sorted(nids, q);
                        if q < p {
                            assert(oids[q] == t);
                            lemma_index_of_sorted(oids, q);
                        } else {
                            assert(oids[q + 1] == t);
                            lemma_index_of_sorted(oids, q + 1);
                        }
                    }
                }
            }
            proof {
                assert(oids[p as int] == id);
                assert(oids.contains(id));
                lemma_index_of_sorted(oids, p as int);
                assert(pairs_map(ids@, values@) == pairs_map(oids, ovals).remove(id));
            }
            return Some(value);
        }
        p = p + 1;
    }
    assert(pairs_map(ids@, values@) =~= pairs_map(oids, ovals).remove(id));
    None
}

pub struct World<V> {
    pub(crate) archetypes: Vec<Archetype<V>>,
    pub(crate) storage_lookup: StorageLookup,
    pub(crate) entities: Entities,
    pub cloners: Cloners,
}

impl<V> World<V> {
    pub closed spec fn archetype_seq(&self) -> Seq<Archetype<V>> {
        self.archetypes@
    }

    pub closed spec fn entities_spec(&self) -> Entities {
        self.entities
    }

    /// The component types that can be cloned.
    pub closed spec fn cloners_spec(&self) -> Seq<u64> {
        self.cloners@
    }

    pub closed spec fn lookup_spec(&self) -> StorageLookup {
        self.storage_lookup
    }

    /// The type ids of each archetype.
    pub open spec fn archetype_type_ids(&self) -> Seq<Seq<u64>> {
        Seq::new(self.archetype_seq().len(), |a: int| self.archetype_seq()[a].type_id_seq())
    }

    /// Slot `i` records a location, and that location holds the entity of slot `i`.
    pub open spec fn slot_ok(&self, i: int) -> bool {
        let slot = self.entities_spec().slots()[i];
        let l = slot.1->0;
        slot.1 is Some ==> {
            &&& l.archetype_index < self.archetype_seq().len()
            &&& l.index_within_archetype < self.archetype_seq()[l.archetype_index as int].entity_seq().len()
            &&& self.archetype_seq()[l.archetype_index as int].entity_seq()[l.index_within_archetype as int]
                == Entity { index: i as usize, generation: slot.0 }
            &&& !self.entities_spec().is_free(i)
        }
    }

    /// The entity in row `r` of archetype `a` is live and located there.
    pub open spec fn row_ok(&self, a: int, r: int) -> bool {
        let e = self.archetype_seq()[a].entity_seq()[r];
        &&& e.index < self.entities_spec().slots().len()
        &&& self.entities_spec().slots()[e.index as int] == (
            e.generation,
            Some(EntityLocation { archetype_index: a as usize, index_within_archetype: r as usize }),
        )
        &&& !self.entities_spec().is_free(e.index as int)
    }

    pub open spec fn wf(&self) -> bool {
        &&& self.entities_spec().wf()
        &&& self.lookup_spec().wf()
        &&& self.lookup_spec().archetypes() == self.archetype_type_ids()
        &&& forall|a: int, b: int|
            0 <= a < b < self.archetype_type_ids().len() ==> self.archetype_type_ids()[a] != self.archetype_type_ids()[b]
        &&& forall|a: int| 0 <= a < self.archetype_seq().len() ==> #[trigger] self.archetype_seq()[a].wf()
        &&& forall|i: int| 0 <= i < self.entities_spec().slots().len() ==> #[trigger] self.slot_ok(i)
        &&& forall|a: int, r: int|
            0 <= a < self.archetype_seq().len() && 0 <= r < self.archetype_seq()[a].entity_seq().len()
                ==> #[trigger] self.row_ok(a, r)
    }

    /// The live entities, each with its components (`None` while it is not placed in an archetype).
    pub open spec fn view(&self) -> Map<Entity, Option<Map<u64, ComponentValue<V>>>> {
        Map::new(
            |e: Entity| self.entities_spec().is_live(e),
            |e: Entity| match self.entities_spec().location(e) {
                Some(l) => Some(row_map(self.archetype_seq()[l.archetype_index as int], l.index_within_archetype as int)),
                None => None,
            },
        )
    }

    /// The components of a live entity, empty while it is not placed.
    pub open spec fn components_of(&self, e: Entity) -> Map<u64, ComponentValue<V>> {
        match self@[e] {
            Some(m) => m,
            None => Map::empty(),
        }
    }

    pub proof fn lemma_bounded(&self)
        ensures
            self.archetype_seq().len() <= usize::MAX,
            self.entities_spec().slots().len() <= usize::MAX,
            forall|a: int| 0 <= a < self.archetype_seq().len() ==> #[trigger] self.archetype_seq()[a].entity_seq().len() <= usize::MAX,
    {
        assert(self.archetypes.len() == self.archetype_seq().len());
        self.entities_spec().lemma_slots_bounded();
        assert forall|a: int| 0 <= a < self.archetype_seq().len() implies #[trigger] self.archetype_seq()[a].entity_seq().len() <= usize::MAX by {
            self.archetype_seq()[a].lemma_bounded();
        }
    }

    pub proof fn lemma_wf(&self)
        requires
            self.wf(),
        ensures
            forall|a: int| 0 <= a < self.archetype_seq().len() ==> strictly_sorted(#[trigger] self.archetype_seq()[a].type_id_seq()),
            forall|a: int, b: int| 0 <= a < b < self.archetype_seq().len() ==> self.archetype_seq()[a].type_id_seq()
                != self.archetype_seq()[b].type_id_seq(),
    {
        self.lookup_spec().lemma_wf();
        assert forall|a: int| 0 <= a < self.archetype_seq().len() implies strictly_sorted(#[trigger] self.archetype_seq()[a].type_id_seq()) by {
            assert(self.lookup_spec().archetypes()[a] == self.archetype_type_ids()[a]);
        }
        assert forall|a: int, b: int| 0 <= a < b < self.archetype_seq().len() implies self.archetype_seq()[a].type_id_seq()
                != self.archetype_seq()[b].type_id_seq() by {
            assert(self.archetype_type_ids()[a] != self.archetype_type_ids()[b]);
        }
    }
}

impl<V> World<V> {
    /// A world with no entities whose clonable component types are `cloners`.
    pub fn new_with_cloners(cloners: Cloners) -> (r: Self)
        ensures
            r.wf(),
            r@ == Map::<Entity, Option<Map<u64, ComponentValue<V>>>>::empty(),
            r.archetype_seq() == Seq::<Archetype<V>>::empty(),
            r.cloners_spec() == cloners@,
    {
        let r = Self {
            archetypes: Vec::new(),
            entities: Entities::new(),
            storage_lookup: StorageLookup::new(),
            cloners,
        };
        proof {
            assert(r.archetype_type_ids() =~= Seq::<Seq<u64>>::empty());
            assert(r@ =~= Map::<Entity, Option<Map<u64, ComponentValue<V>>>>::empty());
        }
        r
    }

    pub fn storage_lookup(&self) -> (r: &StorageLookup)
        ensures
            *r == self.lookup_spec(),
    {
        &self.storage_lookup
    }

    pub fn entities(&self) -> (r: &Entities)
        ensures
            *r == self.entities_spec(),
    {
        &self.entities
    }

    pub fn borrow_archetype(&self, index: usize) -> (r: &Archetype<V>)
        requires
            index < self.archetype_seq().len(),
        ensures
            *r == self.archetype_seq()[index as int],
    {
        &self.archetypes[index]
    }

    pub fn archetype_count(&self) -> (r: usize)
        ensures
            r == self.archetype_seq().len(),
    {
        self.archetypes.len()
    }

    /// Adds an empty archetype with the component types `type_ids` and returns its index.
    pub fn push_archetype(&mut self, archetype: Archetype<V>, type_ids: &[u64]) -> (r: usize)
        requires
            old(self).wf(),
            archetype.wf(),
            archetype.entity_seq().len() == 0,
            archetype.type_id_seq() == type_ids@,
            strictly_sorted(type_ids@),
            !old(self).lookup_spec().archetypes().contains(type_ids@),
        ensures
            final(self).wf(),
            r == old(self).archetype_seq().len(),
            final(self).archetype_seq() == old(self).archetype_seq().push(archetype),
            final(self).entities_spec() == old(self).entities_spec(),
            final(self).cloners_spec() == old(self).cloners_spec(),
            final(self)@ == old(self)@,
    {
        let new_archetype_index = self.archetypes.len();
        self.archetypes.push(archetype);
        self.storage_lookup.new_archetype(new_archetype_index, type_ids);
        proof {
            let o = *old(self);
            assert(self.archetype_type_ids() =~= o.archetype_type_ids().push(type_ids@));
            assert forall|a: int, b: int| 0 <= a < b < self.archetype_type_ids().len() implies self.archetype_type_ids()[a]
                != self.archetype_type_ids()[b] by {
                if b == o.archetype_type_ids().len() {
                    assert(o.lookup_spec().archetypes()[a] == self.archetype_type_ids()[a]);
                }
            }
            assert forall|i: int| 0 <= i < self.entities_spec().slots().len() implies #[trigger] self.slot_ok(i) by {
                assert(o.slot_ok(i));
                let l = o.entities_spec().slots()[i].1->0;
                if o.entities_spec().slots()[i].1 is Some {
                    assert(self.archetype_seq()[l.archetype_index as int] == o.archetype_seq()[l.archetype_index as int]);
                }
            }
            assert forall|a: int, r: int|
                0 <= a < self.archetype_seq().len() && 0 <= r < self.archetype_seq()[a].entity_seq().len()
                    implies #[trigger] self.row_ok(a, r) by {
                assert(a < o.archetype_seq().len());
                assert(o.row_ok(a, r));
                assert(self.archetype_seq()[a] == o.archetype_seq()[a]);
            }
            assert forall|a: int| 0 <= a < self.archetype_seq().len() implies #[trigger] self.archetype_seq()[a].wf() by {
                if a < o.archetype_seq().len() {
                    assert(self.archetype_seq()[a] == o.archetype_seq()[a]);
                }
            }
            assert(self@ =~= o@) by {
                assert forall|e: Entity| #[trigger] self@.contains_key(e) implies self@[e] == o@[e] by {
                    if let Some(l) = o.entities_spec().location(e) {
                        assert(o.slot_ok(e.index as int));
                        assert(self.archetype_seq()[l.archetype_index as int] == o.archetype_seq()[l.archetype_index as int]);
                    }
                }
            }
        }
        new_archetype_index
    }
}

/// `n` is `o` with `entity` stored as the last row of archetype `a`, whose component types
/// are `ids`: an archetype of `o` with those types, or else a new one at the end.
pub open spec fn placed_in<V>(
    o: World<V>,
    n: World<V>,
    entity: Entity,
    ids: Seq<u64>,
    values: Seq<ComponentValue<V>>,
    a: int,
) -> bool {
    let na = n.archetype_seq()[a];
    let old_len = o.archetype_seq().len();
    let prev = if a < old_len { o.archetype_seq()[a] } else { na };
    let prev_rows = if a < old_len { o.archetype_seq()[a].entity_seq() } else { Seq::<Entity>::empty() };
    &&& 0 <= a < n.archetype_seq().len()
    &&& na.type_id_seq() == ids
    &&& if a < old_len {
        &&& o.archetype_type_ids()[a] == ids
        &&& n.archetype_seq() == o.archetype_seq().update(a, na)
    } else {
        &&& a == old_len
        &&& !o.archetype_type_ids().contains(ids)
        &&& n.archetype_seq() == o.archetype_seq().push(na)
    }
    &&& na.entity_seq() == prev_rows.push(entity)
    &&& forall|c: int| 0 <= c < ids.len() ==> #[trigger] na.column(c) == (if a < old_len {
        prev.column(c)
    } else {
        Seq::<ComponentValue<V>>::empty()
    }).push(values[c])
    &&& n.entities_spec().location(entity) == Some(
        EntityLocation { archetype_index: a as usize, index_within_archetype: prev_rows.len() as usize },
    )
}

/// `n` is `o` with the row at `loc` taken out of its archetype: the archetype's last row
/// moves into its place, and the entity that was last is found there.
pub open spec fn row_taken<V>(o: World<V>, n: World<V>, loc: EntityLocation) -> bool {
    let a = loc.archetype_index as int;
    let i = loc.index_within_archetype as int;
    let oa = o.archetype_seq()[a];
    let na = n.archetype_seq()[a];
    &&& n.archetype_seq() == o.archetype_seq().update(a, na)
    &&& na.type_id_seq() == oa.type_id_seq()
    &&& na.entity_seq() == oa.entity_seq().update(i, oa.entity_seq().last()).drop_last()
    &&& forall|c: int| 0 <= c < oa.channel_seq().len() ==> #[trigger] na.column(c)
        == oa.column(c).update(i, oa.column(c).last()).drop_last()
    &&& i + 1 < oa.entity_seq().len() ==> n.entities_spec().location(oa.entity_seq().last()) == Some(loc)
}

/// `n` is `o` with `entity` stored, with the components `comps`, as the last row of the
/// archetype for exactly their types (created at the end if there was none).
pub open spec fn row_placed<V>(o: World<V>, n: World<V>, entity: Entity, comps: Map<u64, ComponentValue<V>>) -> bool {
    exists|ids: Seq<u64>, values: Seq<ComponentValue<V>>|
        strictly_sorted(ids) && ids.len() == values.len() && #[trigger] pairs_map(ids, values) == comps
            && placed_in(o, n, entity, ids, values, n.entities_spec().location(entity)->0.archetype_index as int)
}

/// `n` is `o` after the placed `entity` moved to the archetype for `comps`: its row was taken
/// out of its archetype, and `comps` were stored in the archetype for exactly their types
/// (created if there was none).
pub open spec fn row_moved<V>(o: World<V>, n: World<V>, entity: Entity, comps: Map<u64, ComponentValue<V>>) -> bool {
    exists|mid: World<V>, ids: Seq<u64>, values: Seq<ComponentValue<V>>|
        #[trigger] row_taken(o, mid, o.entities_spec().location(entity)->0)
            && mid.archetype_type_ids() == o.archetype_type_ids()
            && strictly_sorted(ids)
            && ids.len() == values.len()
            && #[trigger] pairs_map(ids, values) == comps
            && placed_in(mid, n, entity, ids, values, n.entities_spec().location(entity)->0.archetype_index as int)
}

impl<V> World<V> {
    /// Stores the components of a live entity that is not placed yet, in the archetype for
    /// exactly its component types (created if there is none).
    fn place_entity(&mut self, entity: Entity, ids: Vec<u64>, values: Vec<ComponentValue<V>>)
        requires
            old(self).wf(),
            old(self).entities_spec().is_live(entity),
            old(self).entities_spec().location(entity) is None,
            strictly_sorted(ids@),
            ids@.len() == values@.len(),
        ensures
            final(self).wf(),
            final(self)@ == old(self)@.insert(entity, Some(pairs_map(ids@, values@))),
            final(self).cloners_spec() == old(self).cloners_spec(),
            final(self).entities_spec().slots().len() == old(self).entities_spec().slots().len(),
            final(self).entities_spec().free_list() == old(self).entities_spec().free_list(),
            final(self).archetype_seq().len() <= old(self).archetype_seq().len() + 1,
            placed_in(*old(self), *final(self), entity, ids@, values@, final(self).entities_spec().location(entity)->0.archetype_index as int),
    {
        let a = match self.storage_lookup.get_archetype_with_components(ids.as_slice()) {
            Some(a) => a,
            None => {
                let mut archetype: Archetype<V> = Archetype::new();
                let mut c: usize = 0;
                while c < ids.len()
                    invariant
                        c <= ids@.len(),
                        archetype.wf(),
                        archetype.entity_seq().len() == 0,
                        archetype.channel_seq().len() == c,
                        archetype.type_id_seq() == ids@.subrange(0, c as int),
                    decreases ids@.len() - c,
                {
                    let cloneable = self.cloners.contains(ids[c]);
                    let ghost prev = archetype;
                    archetype.push_new_channel(ids[c], cloneable);
                    proof {
                        assert forall|i: int| 0 <= i < c + 1 implies archetype.type_id_seq()[i] == ids@.subrange(0, c + 1)[i] by {
                            if i < c {
                                assert(archetype.channel_seq()[i] == prev.channel_seq()[i]);
                                assert(prev.type_id_seq()[i] == ids@.subrange(0, c as int)[i]);
                            }
                        }
                    }
                    c = c + 1;
                    assert(archetype.type_id_seq() =~= ids@.subrange(0, c as int));
                }
                assert(ids@.subrange(0, ids@.len() as int) =~= ids@);
                self.push_archetype(archetype, ids.as_slice())
            },
        };
        let ghost mid = *self;
        proof {
            assert(mid.archetype_type_ids()[a as int] == ids@);
            assert(mid.archetype_seq()[a as int].wf());
        }
        let row = self.archetypes[a].entities().len();
        self.archetypes[a].push_row(entity, values);
        let ghost mid2 = *self;
        self.entities.set_location(entity.index, Some(EntityLocation { archetype_index: a, index_within_archetype: row }));
        proof {
            let o = *old(self);
            let loc = EntityLocation { archetype_index: a, index_within_archetype: row };
            assert(self.archetype_seq() == mid.archetype_seq().update(a as int, self.archetype_seq()[a as int]));
            assert(self.archetype_type_ids() =~= mid.archetype_type_ids());
            assert forall|b: int| 0 <= b < self.archetype_seq().len() implies #[trigger] self.archetype_seq()[b].wf() by {
                if b != a {
                    assert(self.archetype_seq()[b] == mid.archetype_seq()[b]);
                }
            }
            assert(mid.slot_ok(entity.index as int));
            assert forall|i: int| 0 <= i < self.entities_spec().slots().len() implies #[trigger] self.slot_ok(i) by {
                if i != entity.index {
                    assert(mid.slot_ok(i));
                    assert(self.entities_spec().slots()[i] == mid.entities_spec().slots()[i]);
                    let l = mid.entities_spec().slots()[i].1->0;
                    if mid.entities_spec().slots()[i].1 is Some {
                        if l.archetype_index == a {
                            assert(self.archetype_seq()[a as int].entity_seq()[l.index_within_archetype as int]
                                == mid.archetype_seq()[a as int].entity_seq()[l.index_within_archetype as int]);
                        } else {
                            assert(self.archetype_seq()[l.archetype_index as int] == mid.archetype_seq()[l.archetype_index as int]);
                        }
                    }
                }
            }
            assert forall|b: int, r: int|
                0 <= b < self.archetype_seq().len() && 0 <= r < self.archetype_seq()[b].entity_seq().len()
                    implies #[trigger] self.row_ok(b, r) by {
                if b == a && r == row {
                } else {
                    assert(mid.row_ok(b, r));
                    if b == a {
                        assert(self.archetype_seq()[b].entity_seq()[r] == mid.archetype_seq()[b].entity_seq()[r]);
                    } else {
                        assert(self.archetype_seq()[b] == mid.archetype_seq()[b]);
                    }
                    let e = mid.archetype_seq()[b].entity_seq()[r];
                    assert(e.index != entity.index);
                }
            }
            assert(self.archetype_seq()[a as int].row(row as int) =~= values@);
            assert(self.entities_spec().location(entity) == Some(loc));
            if (a as int) < o.archetype_seq().len() {
                assert(o.archetype_seq() == mid.archetype_seq());
            } else {
                assert(mid.archetype_seq()[a as int].wf());
                assert forall|c: int| 0 <= c < ids@.len() implies #[trigger] mid.archetype_seq()[a as int].column(c)
                    == Seq::<ComponentValue<V>>::empty() by {
                    assert(mid.archetype_seq()[a as int].column(c).len() == 0);
                }
                assert(self.archetype_seq() =~= o.archetype_seq().push(self.archetype_seq()[a as int]));
            }
            let na = self.archetype_seq()[a as int];
            assert(na.type_id_seq() == ids@);
            if (a as int) < o.archetype_seq().len() {
                assert(o.archetype_type_ids()[a as int] == ids@);
                assert(self.archetype_seq() == o.archetype_seq().update(a as int, na));
                assert(na.entity_seq() == o.archetype_seq()[a as int].entity_seq().push(entity));
                assert forall|c: int| 0 <= c < ids@.len() implies #[trigger] na.column(c) == o.archetype_seq()[a as int].column(c).push(values@[c]) by {
                }
            } else {
                assert(a == o.archetype_seq().len());
                assert(!o.archetype_type_ids().contains(ids@));
                assert(na.entity_seq() == Seq::<Entity>::empty().push(entity));
                assert forall|c: int| 0 <= c < ids@.len() implies #[trigger] na.column(c) == Seq::<ComponentValue<V>>::empty().push(values@[c]) by {
                    assert(mid.archetype_seq()[a as int].column(c) == Seq::<ComponentValue<V>>::empty());
                }
            }
            assert(placed_in(o, *self, entity, ids@, values@, a as int));
            assert(self@ =~= o@.insert(entity, Some(pairs_map(ids@, values@)))) by {
                assert forall|e: Entity| #[trigger] self@.contains_key(e) && e != entity implies self@[e] == o@[e] by {
                    assert(e.index != entity.index);
                    assert(self.entities_spec().slots()[e.index as int] == mid.entities_spec().slots()[e.index as int]);
                    assert(mid@[e] == o@[e]);
                    if let Some(l) = mid.entities_spec().location(e) {
                        assert(mid.slot_ok(e.index as int));
                        let b = l.archetype_index as int;
                        let r = l.index_within_archetype as int;
                        if b == a {
                            assert(self.archetype_seq()[b].row(r) =~= mid.archetype_seq()[b].row(r));
                        } else {
                            assert(self.archetype_seq()[b] == mid.archetype_seq()[b]);
                        }
                    }
                }
                assert forall|e: Entity| #[trigger] self@.contains_key(e) <==> o@.insert(entity, Some(pairs_map(ids@, values@))).contains_key(e) by {
                    if e.index != entity.index && e.index < self.entities_spec().slots().len() {
                        assert(self.entities_spec().slots()[e.index as int] == mid.entities_spec().slots()[e.index as int]);
                    }
                }
            }
        }
    }
}

impl<V> World<V> {
    /// Removes a placed entity's components from its archetype (the archetype's last row
    /// moves into its place) and returns them as sorted type ids and values. The entity
    /// stays live, unplaced.
    fn take_entity_row(&mut self, entity: Entity) -> (r: (Vec<u64>, Vec<ComponentValue<V>>))
        requires
            old(self).wf(),
            old(self).entities_spec().is_live(entity),
            old(self).entities_spec().location(entity) is Some,
        ensures
            final(self).wf(),
            final(self)@ == old(self)@.insert(entity, None),
            final(self).entities_spec().is_live(entity),
            final(self).entities_spec().location(entity) is None,
            strictly_sorted(r.0@),
            r.0@.len() == r.1@.len(),
            old(self)@[entity] == Some(pairs_map(r.0@, r.1@)),
            r.0@ == old(self).archetype_type_ids()[old(self).entities_spec().location(entity)->0.archetype_index as int],
            final(self).cloners_spec() == old(self).cloners_spec(),
            final(self).entities_spec().slots().len() == old(self).entities_spec().slots().len(),
            final(self).entities_spec().free_list() == old(self).entities_spec().free_list(),
            final(self).archetype_type_ids() == old(self).archetype_type_ids(),
            final(self).archetype_seq().len() == old(self).archetype_seq().len(),
            row_taken(*old(self), *final(self), old(self).entities_spec().location(entity)->0),
    {
        let loc = match self.entities.get_location(entity) {
            Some(Some(l)) => l,
            _ => {
                assert(false);
                return (Vec::new(), Vec::new());
            },
        };
        let a = loc.archetype_index;
        let r = loc.index_within_archetype;
        proof {
            assert(self.slot_ok(entity.index as int));
            self.lemma_wf();
        }
        let ids = self.archetypes[a].type_ids();
        let last_index = self.archetypes[a].entities().len() - 1;
        let last = self.archetypes[a].entities()[last_index];
        proof {
            assert(self.row_ok(a as int, last_index as int));
            assert(self.archetype_seq()[a as int].wf());
        }
        let ghost o = *self;
        let values = self.archetypes[a].take_row(r);
        let ghost mid = *self;
        if r < last_index {
            self.entities.set_location(last.index, Some(loc));
        }
        self.entities.set_location(entity.index, None);
        proof {
            let oa = o.archetype_seq()[a as int];
            let na = self.archetype_seq()[a as int];
            o.lemma_bounded();
            assert(self.archetype_seq() == o.archetype_seq().update(a as int, na));
            assert(self.archetype_type_ids() =~= o.archetype_type_ids());
            assert(oa.entity_seq()[r as int] == entity);
            assert(last.index != entity.index || r == last_index) by {
                if last.index == entity.index && r != last_index {
                    assert(o.row_ok(a as int, r as int));
                }
            }
            assert forall|b: int| 0 <= b < self.archetype_seq().len() implies #[trigger] self.archetype_seq()[b].wf() by {
                if b != a {
                    assert(self.archetype_seq()[b] == o.archetype_seq()[b]);
                }
            }
            assert forall|i: int| 0 <= i < self.entities_spec().slots().len() implies #[trigger] self.slot_ok(i) by {
                if i != entity.index && !(r < last_index && i == last.index) {
                    assert(o.slot_ok(i));
                    assert(self.entities_spec().slots()[i] == o.entities_spec().slots()[i]);
                    let l = o.entities_spec().slots()[i].1->0;
                    if o.entities_spec().slots()[i].1 is Some {
                        if l.archetype_index == a {
                            assert(l.index_within_archetype != r) by {
                                if l.index_within_archetype == r {
                                    assert(oa.entity_seq()[r as int].index == i as usize);
                                }
                            }
                            assert(l.index_within_archetype != last_index) by {
                                if l.index_within_archetype == last_index {
                                    assert(oa.entity_seq()[last_index as int].index == i as usize);
                                }
                            }
                            assert(na.entity_seq()[l.index_within_archetype as int] == oa.entity_seq()[l.index_within_archetype as int]);
                        } else {
                            assert(self.archetype_seq()[l.archetype_index as int] == o.archetype_seq()[l.archetype_index as int]);
                        }
                    }
                } else if i != entity.index {
                    assert(na.entity_seq()[r as int] == last);
                    assert(o.row_ok(a as int, last_index as int));
                }
            }
            assert forall|b: int, q: int|
                0 <= b < self.archetype_seq().len() && 0 <= q < self.archetype_seq()[b].entity_seq().len()
                    implies #[trigger] self.row_ok(b, q) by {
                if b == a {
                    if q == r {
                        assert(na.entity_seq()[q] == last);
                        assert(o.row_ok(a as int, last_index as int));
                    } else {
                        assert(na.entity_seq()[q] == oa.entity_seq()[q]);
                        assert(o.row_ok(b, q));
                        let e = oa.entity_seq()[q];
                        assert(e.index != entity.index);
                        assert(e.index != last.index) by {
                            if e.index == last.index {
                                assert(o.row_ok(a as int, last_index as int));
                            }
                        }
                    }
                } else {
                    assert(self.archetype_seq()[b] == o.archetype_seq()[b]);
                    assert(o.row_ok(b, q));
                    let e = o.archetype_seq()[b].entity_seq()[q];
                    assert(o.entities_spec().slots()[entity.index as int].1 == Some(loc));
                    assert(o.row_ok(a as int, last_index as int));
                    assert(e.index != entity.index);
                    assert(e.index != last.index);
                }
            }
            assert(values@ =~= oa.row(r as int));
            assert(ids@ == oa.type_id_seq());
            assert(oa.entity_seq().last() == last);
            assert(row_taken(o, *self, loc));
            assert(o.archetype_type_ids()[a as int] == oa.type_id_seq());
            assert(self@ =~= o@.insert(entity, None)) by {
                assert forall|e: Entity| #[trigger] self@.contains_key(e) <==> o@.insert(entity, None).contains_key(e) by {
                    if e.index < self.entities_spec().slots().len() && e.index != entity.index {
                        assert(self.entities_spec().slots()[e.index as int].0 == o.entities_spec().slots()[e.index as int].0);
                    }
                }
                assert forall|e: Entity| #[trigger] self@.contains_key(e) && e != entity implies self@[e] == o@[e] by {
                    assert(e.index != entity.index);
                    if r < last_index && e.index == last.index {
                        assert(e == last);
                        assert(o.entities_spec().location(e) == Some(EntityLocation { archetype_index: a, index_within_archetype: last_index }));
                        assert(na.row(r as int) =~= oa.row(last_index as int));
                    } else {
                        assert(self.entities_spec().slots()[e.index as int] == o.entities_spec().slots()[e.index as int]);
                        if let Some(l) = o.entities_spec().location(e) {
                            assert(o.slot_ok(e.index as int));
                            let b = l.archetype_index as int;
                            let q = l.index_within_archetype as int;
                            if b == a {
                                assert(q != r);
                                assert(q != last_index);
                                assert(na.row(q) =~= oa.row(q));
                            } else {
                                assert(self.archetype_seq()[b] == o.archetype_seq()[b]);
                            }
                        }
                    }
                }
            }
        }
        (ids, values)
    }
}

impl<V> World<V> {
    /// Hands out a new entity that has no components and is not stored in any archetype.
    pub fn reserve_entity(&mut self) -> (e: Entity)
        requires
            old(self).wf(),
        ensures
            final(self).wf(),
            !old(self)@.contains_key(e),
            e == old(self).entities_spec().next_handle(),
            final(self)@ == old(self)@.insert(e, None),
            final(self).cloners_spec() == old(self).cloners_spec(),
            final(self).archetype_type_ids() == old(self).archetype_type_ids(),
            final(self).archetype_seq() == old(self).archetype_seq(),
    {
        let e = self.entities.new_entity_handle();
        proof {
            let o = *old(self);
            o.lemma_bounded();
            let pre = o.entities_spec();
            let post = self.entities_spec();
            assert forall|i: int| 0 <= i < post.slots().len() implies #[trigger] self.slot_ok(i) by {
                if i < pre.slots().len() {
                    assert(o.slot_ok(i));
                    if i != e.index {
                        assert(post.is_free(i) == pre.is_free(i));
                    }
                }
            }
            assert forall|b: int, q: int|
                0 <= b < self.archetype_seq().len() && 0 <= q < self.archetype_seq()[b].entity_seq().len()
                    implies #[trigger] self.row_ok(b, q) by {
                assert(o.row_ok(b, q));
                let f = o.archetype_seq()[b].entity_seq()[q];
                assert(f.index != e.index) by {
                    if f.index == e.index && pre.free_list().len() > 0 {
                        pre.lemma_wf();
                        assert(pre.free_list().contains(pre.free_list().last()));
                    }
                }
            }
            assert(self@ =~= o@.insert(e, None)) by {
                assert forall|f: Entity| #[trigger] self@.contains_key(f) && f != e implies self@[f] == o@[f] by {
                    assert(pre.is_live(f));
                    if pre.free_list().len() == 0 {
                        assert(f.index < pre.slots().len());
                        assert(post.slots()[f.index as int] == pre.slots()[f.index as int]);
                    }
                }
            }
        }
        e
    }

    /// Creates an entity with the components of the bundle, given as pairs of component type
    /// id and value.
    pub fn spawn(&mut self, component_bundle: Vec<(u64, V)>) -> (e: Entity)
        requires
            old(self).wf(),
            bundle_ids_distinct(component_bundle@),
        ensures
            final(self).wf(),
            !old(self)@.contains_key(e),
            e == old(self).entities_spec().next_handle(),
            final(self)@ == old(self)@.insert(e, Some(bundle_map(component_bundle@))),
            row_placed(*old(self), *final(self), e, bundle_map(component_bundle@)),
            final(self).cloners_spec() == old(self).cloners_spec(),
            final(self).archetype_seq().len() <= old(self).archetype_seq().len() + 1,
    {
        let new_entity = self.reserve_entity();
        let ghost all = component_bundle@;
        let mut bundle = component_bundle;
        let mut ids: Vec<u64> = Vec::new();
        let mut values: Vec<ComponentValue<V>> = Vec::new();
        let mut k: usize = 0;
        assert(component_bundle@.len() == component_bundle.len());
        assert(all.subrange(0, 0) =~= Seq::<(u64, V)>::empty());
        assert(pairs_map(ids@, values@) =~= bundle_map(all.subrange(0, 0)));
        while bundle.len() > 0
            invariant
                self.wf(),
                self@ == old(self)@.insert(new_entity, None),
                self.cloners_spec() == old(self).cloners_spec(),
                k <= all.len(),
                all.len() <= usize::MAX,
                bundle@.len() + k == all.len(),
                bundle@ == all.subrange(k as int, all.len() as int),
                strictly_sorted(ids@),
                ids@.len() == values@.len(),
                pairs_map(ids@, values@) == bundle_map(all.subrange(0, k as int)),
            decreases bundle@.len(),
        {
            let (type_id, value) = bundle.remove(0);
            proof {
                assert(all[k as int] == (type_id, value));
                let next = all.subrange(0, k + 1);
                assert(next.drop_last() =~= all.subrange(0, k as int));
                assert(next.last() == all[k as int]);
            }
            insert_sorted(&mut ids, &mut values, type_id, ComponentValue::Value(value));
            k = k + 1;
            assert(bundle@ =~= all.subrange(k as int, all.len() as int));
        }
        assert(all.subrange(0, k as int) =~= all);
        assert(self@.contains_key(new_entity));
        assert(self.entities_spec().is_live(new_entity));
        assert(self@[new_entity] is None);
        assert(self.entities_spec().location(new_entity) is None);
        let ghost mid = *self;
        let ghost (gids, gvals) = (ids@, values@);
        self.place_entity(new_entity, ids, values);
        proof {
            assert(mid.archetype_seq() == old(self).archetype_seq());
            assert(pairs_map(gids, gvals) == bundle_map(all));
            assert(row_placed(*old(self), *self, new_entity, bundle_map(all)));
        }
        new_entity
    }

    proof fn lemma_component_replaced(o: World<V>, n: World<V>, loc: EntityLocation, c: int, value: ComponentValue<V>)
        requires
            o.wf(),
            loc.archetype_index < o.archetype_seq().len(),
            loc.index_within_archetype < o.archetype_seq()[loc.archetype_index as int].entity_seq().len(),
            0 <= c < o.archetype_seq()[loc.archetype_index as int].channel_seq().len(),
            n.entities_spec() == o.entities_spec(),
            n.lookup_spec() == o.lookup_spec(),
            n.cloners_spec() == o.cloners_spec(),
            n.archetype_seq().len() == o.archetype_seq().len(),
            forall|b: int| 0 <= b < o.archetype_seq().len() && b != loc.archetype_index ==> #[trigger] n.archetype_seq()[b] == o.archetype_seq()[b],
            ({
                let oa = o.archetype_seq()[loc.archetype_index as int];
                let na = n.archetype_seq()[loc.archetype_index as int];
                &&& na.entity_seq() == oa.entity_seq()
                &&& na.channel_seq().len() == oa.channel_seq().len()
                &&& na.type_id_seq() == oa.type_id_seq()
                &&& na.column(c) == oa.column(c).update(loc.index_within_archetype as int, value)
                &&& forall|d: int| 0 <= d < oa.channel_seq().len() && d != c ==> #[trigger] na.channel_seq()[d] == oa.channel_seq()[d]
            }),
        ensures
            n.wf(),
            n.archetype_type_ids() == o.archetype_type_ids(),
            forall|e: Entity| o.entities_spec().is_live(e) && o.entities_spec().location(e) != Some(loc) ==> #[trigger] n@[e] == o@[e],
            n@.dom() == o@.dom(),
            forall|e: Entity| o.entities_spec().is_live(e) && o.entities_spec().location(e) == Some(loc)
                ==> #[trigger] n@[e] == Some(o@[e]->0.insert(o.archetype_seq()[loc.archetype_index as int].type_id_seq()[c], value)),
    {
        let a = loc.archetype_index as int;
        let r = loc.index_within_archetype as int;
        let oa = o.archetype_seq()[a];
        let na = n.archetype_seq()[a];
        assert(n.archetype_type_ids() =~= o.archetype_type_ids()) by {
            assert forall|b: int| 0 <= b < o.archetype_seq().len() implies n.archetype_type_ids()[b] == o.archetype_type_ids()[b] by {
                if b != a {
                    assert(n.archetype_seq()[b] == o.archetype_seq()[b]);
                }
            }
        }
        assert forall|b: int| 0 <= b < n.archetype_seq().len() implies #[trigger] n.archetype_seq()[b].wf() by {
            if b != a {
                assert(n.archetype_seq()[b] == o.archetype_seq()[b]);
            } else {
                assert(oa.wf());
                assert forall|d: int| 0 <= d < na.channel_seq().len() implies #[trigger] na.column(d).len() == na.entity_seq().len() by {
                    if d != c {
                        assert(na.channel_seq()[d] == oa.channel_seq()[d]);
                    }
                    assert(oa.column(d).len() == oa.entity_seq().len());
                }
            }
        }
        assert forall|i: int| 0 <= i < n.entities_spec().slots().len() implies #[trigger] n.slot_ok(i) by {
            assert(o.slot_ok(i));
            let l = o.entities_spec().slots()[i].1->0;
            if o.entities_spec().slots()[i].1 is Some && l.archetype_index != a {
                assert(n.archetype_seq()[l.archetype_index as int] == o.archetype_seq()[l.archetype_index as int]);
            }
        }
        assert forall|b: int, q: int|
            0 <= b < n.archetype_seq().len() && 0 <= q < n.archetype_seq()[b].entity_seq().len()
                implies #[trigger] n.row_ok(b, q) by {
            assert(o.row_ok(b, q));
            if b != a {
                assert(n.archetype_seq()[b] == o.archetype_seq()[b]);
            }
        }
        assert forall|e: Entity| o.entities_spec().is_live(e) && o.entities_spec().location(e) != Some(loc) implies #[trigger] n@[e] == o@[e] by {
            if o.entities_spec().is_live(e) {
                if let Some(l) = o.entities_spec().location(e) {
                    assert(o.slot_ok(e.index as int));
                    let b = l.archetype_index as int;
                    if b != a {
                        assert(n.archetype_seq()[b] == o.archetype_seq()[b]);
                    } else {
                        let q = l.index_within_archetype as int;
                        assert(q != r);
                        assert(na.row(q) =~= oa.row(q)) by {
                            assert(oa.wf());
                            assert forall|d: int| 0 <= d < na.channel_seq().len() implies na.row(q)[d] == oa.row(q)[d] by {
                                if d != c {
                                    assert(na.channel_seq()[d] == oa.channel_seq()[d]);
                                } else {
                                    assert(oa.column(c).len() == oa.entity_seq().len());
                                }
                            }
                        }
                    }
                }
            }
        }
        assert(n@.dom() =~= o@.dom());
        assert forall|e: Entity| o.entities_spec().is_live(e) && o.entities_spec().location(e) == Some(loc)
            implies #[trigger] n@[e] == Some(o@[e]->0.insert(oa.type_id_seq()[c], value)) by {
            o.lemma_wf();
            assert(strictly_sorted(oa.type_id_seq()));
            lemma_index_of_sorted(oa.type_id_seq(), c);
            assert(oa.wf());
            assert(oa.column(c).len() == oa.entity_seq().len());
            assert(na.row(r) =~= oa.row(r).update(c, value)) by {
                assert forall|d: int| 0 <= d < na.channel_seq().len() implies na.row(r)[d] == oa.row(r).update(c, value)[d] by {
                    if d != c {
                        assert(na.channel_seq()[d] == oa.channel_seq()[d]);
                    }
                }
            }
            assert(row_map(na, r) =~= row_map(oa, r).insert(oa.type_id_seq()[c], value)) by {
                assert forall|t: u64| #[trigger] oa.type_id_seq().contains(t) && t != oa.type_id_seq()[c] implies
                    na.row(r)[oa.type_id_seq().index_of(t)] == oa.row(r)[oa.type_id_seq().index_of(t)] by {
                    let q = choose|q: int| 0 <= q < oa.type_id_seq().len() && oa.type_id_seq()[q] == t;
                    lemma_index_of_sorted(oa.type_id_seq(), q);
                }
            }
        }
    }

    /// `n` is `o` with the component of type `type_id` of entity `entity` set to `value`,
    /// at the place where `o` stores it.
    pub open spec fn replaced_at(o: World<V>, n: World<V>, entity: Entity, type_id: u64, value: ComponentValue<V>) -> bool {
        let loc = o.entities_spec().location(entity)->0;
        let a = loc.archetype_index as int;
        let oa = o.archetype_seq()[a];
        let na = n.archetype_seq()[a];
        let c = oa.type_id_seq().index_of(type_id);
        &&& n.entities_spec() == o.entities_spec()
        &&& n.lookup_spec() == o.lookup_spec()
        &&& n.cloners_spec() == o.cloners_spec()
        &&& n.archetype_seq().len() == o.archetype_seq().len()
        &&& forall|b: int| 0 <= b < o.archetype_seq().len() && b != a ==> #[trigger] n.archetype_seq()[b] == o.archetype_seq()[b]
        &&& na.entity_seq() == oa.entity_seq()
        &&& na.channel_seq().len() == oa.channel_seq().len()
        &&& na.type_id_seq() == oa.type_id_seq()
        &&& na.column(c) == oa.column(c).update(loc.index_within_archetype as int, value)
        &&& forall|d: int| 0 <= d < oa.channel_seq().len() && d != c ==> #[trigger] na.channel_seq()[d] == oa.channel_seq()[d]
    }

    /// Setting one component of a placed entity in place keeps the world well formed and
    /// changes only that component.
    pub proof fn lemma_replaced_at(o: World<V>, n: World<V>, entity: Entity, type_id: u64, value: ComponentValue<V>)
        requires
            o.wf(),
            o@.contains_key(entity),
            o@[entity] is Some,
            o@[entity]->0.contains_key(type_id),
            Self::replaced_at(o, n, entity, type_id, value),
        ensures
            n.wf(),
            n@ == o@.insert(entity, Some(o@[entity]->0.insert(type_id, value))),
            n.cloners_spec() == o.cloners_spec(),
            n.archetype_type_ids() == o.archetype_type_ids(),
    {
        let loc = o.entities_spec().location(entity)->0;
        assert(o.slot_ok(entity.index as int));
        o.lemma_wf();
        let oa = o.archetype_seq()[loc.archetype_index as int];
        let c = oa.type_id_seq().index_of(type_id);
        lemma_index_of_sorted(oa.type_id_seq(), c);
        Self::lemma_component_replaced(o, n, loc, c, value);
        o.lemma_bounded();
        assert(n@ =~= o@.insert(entity, Some(o@[entity]->0.insert(type_id, value)))) by {
            assert forall|e: Entity| #[trigger] n@.contains_key(e) && e != entity implies n@[e] == o@[e] by {
                if o.entities_spec().location(e) == Some(loc) {
                    assert(o.slot_ok(e.index as int));
                }
            }
        }
    }

    /// Mutable access to a component of an entity. `None` if the entity does not exist or
    /// does not have a component of type `type_id`; otherwise the world afterwards is the
    /// world with that component set to the final value (see `lemma_replaced_at`).
    pub fn get_component_mut(&mut self, entity: Entity, type_id: u64) -> (r: Option<&mut ComponentValue<V>>)
        requires
            old(self).wf(),
        ensures
            r is Some <==> (old(self)@.contains_key(entity) && old(self)@[entity] is Some
                && old(self)@[entity]->0.contains_key(type_id)),
            r is None ==> *final(self) == *old(self),
            r matches Some(v) ==> {
                &&& *v == old(self)@[entity]->0[type_id]
                &&& Self::replaced_at(*old(self), *final(self), entity, type_id, *final(v))
            },
    {
        let loc = match self.entities.get_location(entity) {
            Some(Some(l)) => l,
            _ => {
                return None;
            },
        };
        proof {
            assert(self.slot_ok(entity.index as int));
            self.lemma_wf();
            self.lemma_bounded();
        }
        let ghost o = *self;
        let ghost oa = o.archetype_seq()[loc.archetype_index as int];
        assert(oa.wf());
        let channel = self.archetypes[loc.archetype_index].channel_index(type_id);
        match channel {
            Some(c) => {
                proof {
                    let ids = oa.type_id_seq();
                    lemma_index_of_sorted(ids, c as int);
                    assert(o@[entity] == Some(row_map(oa, loc.index_within_archetype as int)));
                    assert(row_map(oa, loc.index_within_archetype as int)[type_id] == oa.row(loc.index_within_archetype as int)[c as int]);
                    assert(oa.row(loc.index_within_archetype as int)[c as int] == oa.column(c as int)[loc.index_within_archetype as int]);
                }
                Some(self.archetypes[loc.archetype_index].component_at_mut(c, loc.index_within_archetype))
            },
            None => {
                proof {
                    assert(o@[entity] == Some(row_map(oa, loc.index_within_archetype as int)));
                }
                None
            },
        }
    }
}

impl<V> World<V> {
    /// Whether a live entity is placed and has a component of type `type_id`.
    pub open spec fn has_component(&self, entity: Entity, type_id: u64) -> bool {
        &&& self@.contains_key(entity)
        &&& self@[entity] is Some
        &&& self@[entity]->0.contains_key(type_id)
    }

    /// Adds a component to an Entity.
    /// If the Entity does not exist, this returns None.
    /// If a component of the same type is already attached to the Entity, the component will be replaced.
    pub fn add_component(&mut self, entity: Entity, type_id: u64, component: V) -> (r: Option<()>)
        requires
            old(self).wf(),
        ensures
            final(self).wf(),
            final(self).cloners_spec() == old(self).cloners_spec(),
            !old(self)@.contains_key(entity) ==> r is None && final(self)@ == old(self)@,
            old(self)@.contains_key(entity) ==> r == Some(()) && final(self)@ == old(self)@.insert(
                entity,
                Some(old(self).components_of(entity).insert(type_id, ComponentValue::Value(component))),
            ),
            final(self).archetype_seq().len() <= old(self).archetype_seq().len() + 1,
    {
        self.add_component_value(entity, type_id, ComponentValue::Value(component))
    }

    /// Adds a component, given as a stored value, to an entity: `None` if the entity does
    /// not exist; a component of the same type is replaced.
    pub fn add_component_value(&mut self, entity: Entity, type_id: u64, value: ComponentValue<V>) -> (r: Option<()>)
        requires
            old(self).wf(),
        ensures
            final(self).wf(),
            final(self).cloners_spec() == old(self).cloners_spec(),
            !old(self)@.contains_key(entity) ==> r is None && final(self)@ == old(self)@,
            old(self)@.contains_key(entity) ==> r == Some(()) && final(self)@ == old(self)@.insert(
                entity,
                Some(old(self).components_of(entity).insert(type_id, value)),
            ),
            final(self).archetype_seq().len() <= old(self).archetype_seq().len() + 1,
            old(self)@.contains_key(entity) && old(self)@[entity] is None ==> placed_in(
                *old(self),
                *final(self),
                entity,
                seq![type_id],
                seq![value],
                final(self).entities_spec().location(entity)->0.archetype_index as int,
            ),
            old(self)@.contains_key(entity) && old(self)@[entity] is Some && old(self).has_component(entity, type_id)
                ==> Self::replaced_at(*old(self), *final(self), entity, type_id, value),
            old(self)@.contains_key(entity) && old(self)@[entity] is Some && !old(self).has_component(entity, type_id)
                ==> row_moved(*old(self), *final(self), entity, old(self).components_of(entity).insert(type_id, value)),
    {
        let ghost o = *self;
        match self.entities.get_location(entity) {
            None => None,
            Some(None) => {
                let mut ids: Vec<u64> = Vec::new();
                ids.push(type_id);
                let mut values: Vec<ComponentValue<V>> = Vec::new();
                values.push(value);
                proof {
                    assert(pairs_map(ids@, values@) =~= Map::<u64, ComponentValue<V>>::empty().insert(type_id, value)) by {
                        assert(ids@[0] == type_id);
                        assert(ids@.contains(type_id));
                        assert forall|t: u64| #[trigger] ids@.contains(t) implies t == type_id by {}
                    }
                }
                assert(ids@ =~= seq![type_id]);
                assert(values@ =~= seq![value]);
                self.place_entity(entity, ids, values);
                Some(())
            },
            Some(Some(_)) => {
                if self.has_component_exec(entity, type_id) {
                    match self.get_component_mut(entity, type_id) {
                        Some(slot) => {
                            *slot = value;
                        },
                        None => {},
                    }
                    proof {
                        Self::lemma_replaced_at(o, *self, entity, type_id, value);
                    }
                } else {
                    let (mut ids, mut values) = self.take_entity_row(entity);
                    let ghost mid = *self;
                    insert_sorted(&mut ids, &mut values, type_id, value);
                    self.place_entity(entity, ids, values);
                    proof {
                        assert(row_taken(o, mid, o.entities_spec().location(entity)->0));
                        assert(pairs_map(ids@, values@) == o.components_of(entity).insert(type_id, value));
                        assert(row_moved(o, *self, entity, o.components_of(entity).insert(type_id, value)));
                    }
                }
                Some(())
            },
        }
    }

    /// Whether `entity` exists, is placed and has a component of type `type_id`.
    pub fn has_component_exec(&self, entity: Entity, type_id: u64) -> (r: bool)
        requires
            self.wf(),
        ensures
            r == self.has_component(entity, type_id),
    {
        match self.entities.get_location(entity) {
            Some(Some(loc)) => {
                proof {
                    assert(self.slot_ok(entity.index as int));
                }
                let c = self.archetypes[loc.archetype_index].channel_index(type_id);
                c.is_some()
            },
            _ => false,
        }
    }

    /// The component of type `type_id` of `entity`, if the entity exists and has one.
    pub fn get_component(&self, entity: Entity, type_id: u64) -> (r: Option<&ComponentValue<V>>)
        requires
            self.wf(),
        ensures
            match r {
                Some(v) => self.has_component(entity, type_id) && *v == self@[entity]->0[type_id],
                None => !self.has_component(entity, type_id),
            },
    {
        match self.entities.get_location(entity) {
            Some(Some(loc)) => {
                proof {
                    assert(self.slot_ok(entity.index as int));
                    self.lemma_wf();
                }
                let arch = &self.archetypes[loc.archetype_index];
                match arch.channel_index(type_id) {
                    Some(c) => {
                        proof {
                            lemma_index_of_sorted(arch.type_id_seq(), c as int);
                            assert(arch.wf());
                            assert(arch.column(c as int).len() == arch.entity_seq().len());
                            assert(row_map(*arch, loc.index_within_archetype as int)[type_id] == arch.row(loc.index_within_archetype as int)[c as int]);
                        }
                        Some(arch.component_at(c, loc.index_within_archetype))
                    },
                    None => None,
                }
            },
            _ => None,
        }
    }

    /// Removes the component of type `type_id` from `entity` and returns it. `None` if the
    /// entity does not exist or does not have such a component.
    pub fn remove_component(&mut self, entity: Entity, type_id: u64) -> (r: Option<ComponentValue<V>>)
        requires
            old(self).wf(),
        ensures
            final(self).wf(),
            final(self).cloners_spec() == old(self).cloners_spec(),
            !old(self).has_component(entity, type_id) ==> r is None && final(self)@ == old(self)@,
            old(self).has_component(entity, type_id) ==> {
                &&& r == Some(old(self)@[entity]->0[type_id])
                &&& final(self)@ == old(self)@.insert(entity, Some(old(self)@[entity]->0.remove(type_id)))
                &&& row_moved(*old(self), *final(self), entity, old(self)@[entity]->0.remove(type_id))
            },
            final(self).archetype_seq().len() <= old(self).archetype_seq().len() + 1,
    {
        if !self.has_component_exec(entity, type_id) {
            return None;
        }
        let ghost o = *self;
        let (mut ids, mut values) = self.take_entity_row(entity);
        let ghost mid = *self;
        let removed = remove_sorted(&mut ids, &mut values, type_id);
        self.place_entity(entity, ids, values);
        proof {
            assert(row_taken(o, mid, o.entities_spec().location(entity)->0));
            assert(pairs_map(ids@, values@) == o@[entity]->0.remove(type_id));
            assert(row_moved(o, *self, entity, o@[entity]->0.remove(type_id)));
        }
        removed
    }

    /// Remove an entity and all its components from the world.
    /// An error is returned if the entity does not exist.
    pub fn despawn(&mut self, entity: Entity) -> (r: Result<(), ()>)
        requires
            old(self).wf(),
        ensures
            final(self).wf(),
            final(self).cloners_spec() == old(self).cloners_spec(),
            !old(self)@.contains_key(entity) ==> r is Err && final(self)@ == old(self)@,
            old(self)@.contains_key(entity) ==> r is Ok && final(self)@ == old(self)@.remove(entity),
            final(self).archetype_seq().len() == old(self).archetype_seq().len(),
    {
        match self.entities.get_location(entity) {
            None => {
                return Err(());
            },
            Some(Some(_)) => {
                let _ = self.take_entity_row(entity);
            },
            Some(None) => {},
        }
        let ghost mid = *self;
        let freed = self.entities.free_entity(entity);
        proof {
            mid.lemma_bounded();
            assert(mid.entities_spec().is_live(entity));
            assert(mid.entities_spec().location(entity) is None);
            assert forall|i: int| 0 <= i < self.entities_spec().slots().len() implies #[trigger] self.slot_ok(i) by {
                assert(mid.slot_ok(i));
            }
            assert forall|b: int, q: int|
                0 <= b < self.archetype_seq().len() && 0 <= q < self.archetype_seq()[b].entity_seq().len()
                    implies #[trigger] self.row_ok(b, q) by {
                assert(mid.row_ok(b, q));
                let e = mid.archetype_seq()[b].entity_seq()[q];
                assert(e.index != entity.index);
            }
            assert(self@ =~= mid@.remove(entity)) by {
                assert forall|e: Entity| #[trigger] self@.contains_key(e) <==> mid@.remove(entity).contains_key(e) by {
                    if e.index == entity.index {
                        assert(self.entities_spec().is_free(entity.index as int));
                    } else if e.index < self.entities_spec().slots().len() {
                        assert(self.entities_spec().slots()[e.index as int] == mid.entities_spec().slots()[e.index as int]);
                    }
                }
                assert forall|e: Entity| #[trigger] self@.contains_key(e) implies self@[e] == mid@[e] by {
                    assert(e.index != entity.index);
                    assert(self.entities_spec().slots()[e.index as int] == mid.entities_spec().slots()[e.index as int]);
                }
            }
        }
        Ok(())
    }
}


impl<V> World<V> {
    /// The same world with the entities `e`.
    pub closed spec fn with_entities(self, e: Entities) -> World<V> {
        World { entities: e, ..self }
    }

    /// A world whose entities only grew is still well formed, and the entities it had keep
    /// their components; the new ones are not placed.
    pub proof fn lemma_entities_grown(o: World<V>, e: Entities)
        requires
            o.wf(),
            Entities::grows(o.entities_spec(), e),
        ensures
            o.with_entities(e).wf(),
            o.with_entities(e).archetype_seq() == o.archetype_seq(),
            o.with_entities(e).entities_spec() == e,
            o.with_entities(e).cloners_spec() == o.cloners_spec(),
            o.with_entities(e).archetype_type_ids() == o.archetype_type_ids(),
            forall|x: Entity| #[trigger] o@.contains_key(x) ==> o.with_entities(e)@.contains_key(x) && o.with_entities(e)@[x] == o@[x],
            forall|x: Entity| #[trigger] o.with_entities(e)@.contains_key(x) && !o@.contains_key(x) ==> o.with_entities(e)@[x] is None,
            forall|x: Entity| #[trigger] o.with_entities(e)@.contains_key(x) <==> e.is_live(x),
    {
        let n = o.with_entities(e);
        let pre = o.entities_spec();
        assert forall|i: int| 0 <= i < n.entities_spec().slots().len() implies #[trigger] n.slot_ok(i) by {
            if n.entities_spec().slots()[i].1 is Some {
                assert(o.slot_ok(i));
            }
        }
        assert forall|a: int, r: int|
            0 <= a < n.archetype_seq().len() && 0 <= r < n.archetype_seq()[a].entity_seq().len() implies #[trigger] n.row_ok(a, r) by {
            assert(o.row_ok(a, r));
            let x = o.archetype_seq()[a].entity_seq()[r];
            assert(pre.is_live(x));
            assert(e.is_live(x));
        }
        assert(n.archetype_type_ids() =~= o.archetype_type_ids());
    }
}

impl<V: WorldClone> World<V> {
    /// The component types of `arch` that `cloners` clones, in order, and for each of them
    /// the cloned column.
    fn clone_columns(cloners: &Cloners, arch: &Archetype<V>, entity_migrator: &mut EntityMigrator) -> (r: (Vec<u64>, Vec<Vec<ComponentValue<V>>>))
        requires
            old(entity_migrator).wf(),
            arch.wf(),
            strictly_sorted(arch.type_id_seq()),
        ensures
            EntityMigrator::extends(*final(entity_migrator), *old(entity_migrator)),
            strictly_sorted(r.0@),
            forall|t: u64| #[trigger] r.0@.contains(t) <==> arch.type_id_seq().contains(t) && cloners@.contains(t),
            r.1@.len() == r.0@.len(),
            forall|k: int| 0 <= k < r.1@.len() ==> (#[trigger] r.1@[k])@.len() == arch.entity_seq().len(),
            forall|k: int, q: int|
                0 <= k < r.1@.len() && 0 <= q < arch.entity_seq().len() ==> cloned_during(
                    *old(entity_migrator),
                    *final(entity_migrator),
                    arch.column(arch.type_id_seq().index_of(r.0@[k]))[q],
                    #[trigger] r.1@[k]@[q],
                ),
    {
        let mut kept: Vec<u64> = Vec::new();
        let mut columns: Vec<Vec<ComponentValue<V>>> = Vec::new();
        let ids = arch.type_ids();
        let len = arch.entities().len();
        let ghost m0 = *entity_migrator;
        proof {
            EntityMigrator::lemma_extends_refl(m0);
            arch.lemma_bounded();
        }
        let mut c: usize = 0;
        while c < ids.len()
            invariant
                ids@ == arch.type_id_seq(),
                arch.wf(),
                strictly_sorted(ids@),
                len == arch.entity_seq().len(),
                ids@.len() == arch.channel_seq().len(),
                c <= ids@.len(),
                m0.wf(),
                EntityMigrator::extends(*entity_migrator, m0),
                strictly_sorted(kept@),
                forall|k: int| 0 <= k < kept@.len() ==> exists|j: int| 0 <= j < c && #[trigger] kept@[k] == ids@[j],
                forall|t: u64| kept@.contains(t) <==> ids@.subrange(0, c as int).contains(t) && cloners@.contains(t),
                columns@.len() == kept@.len(),
                forall|k: int| 0 <= k < columns@.len() ==> (#[trigger] columns@[k])@.len() == len,
                forall|k: int, q: int|
                    0 <= k < columns@.len() && 0 <= q < len ==> cloned_during(
                        m0,
                        *entity_migrator,
                        arch.column(ids@.index_of(kept@[k]))[q],
                        #[trigger] columns@[k]@[q],
                    ),
            decreases ids@.len() - c,
        {
            let t = ids[c];
            let ghost prev_kept = kept@;
            if cloners.contains(t) {
                let mut column: Vec<ComponentValue<V>> = Vec::new();
                let mut r: usize = 0;
                while r < len
                    invariant
                        arch.wf(),
                        len == arch.entity_seq().len(),
                        c < arch.channel_seq().len(),
                        r <= len,
                        column@.len() == r,
                        m0.wf(),
                        EntityMigrator::extends(*entity_migrator, m0),
                        forall|q: int| 0 <= q < r ==> cloned_during(m0, *entity_migrator, arch.column(c as int)[q], #[trigger] column@[q]),
                        forall|k: int, q: int|
                            0 <= k < columns@.len() && 0 <= q < len ==> cloned_during(
                                m0,
                                *entity_migrator,
                                arch.column(ids@.index_of(kept@[k]))[q],
                                #[trigger] columns@[k]@[q],
                            ),
                        columns@.len() == kept@.len(),
                    decreases len - r,
                {
                    let ghost m1 = *entity_migrator;
                    let orig = arch.component_at(c, r);
                    let v = orig.world_clone(entity_migrator);
                    proof {
                        EntityMigrator::lemma_extends_trans(m0, m1, *entity_migrator);
                        EntityMigrator::lemma_extends_refl(*entity_migrator);
                        lemma_pairs_extend(m1, m0);
                        lemma_pairs_extend(*entity_migrator, *entity_migrator);
                        lemma_pairs_extend(*entity_migrator, m1);
                        assert(cloned_during(m0, *entity_migrator, arch.column(c as int)[r as int], v)) by {
                            assert(orig.is_world_clone(m1, *entity_migrator, v));
                        }
                        assert forall|q: int| 0 <= q < r implies cloned_during(m0, *entity_migrator, arch.column(c as int)[q], #[trigger] column@[q]) by {
                            lemma_cloned_during_later(m0, m1, *entity_migrator, arch.column(c as int)[q], column@[q]);
                        }
                        assert forall|k: int, q: int|
                            0 <= k < columns@.len() && 0 <= q < len implies cloned_during(
                                m0,
                                *entity_migrator,
                                arch.column(ids@.index_of(kept@[k]))[q],
                                #[trigger] columns@[k]@[q],
                            ) by {
                            lemma_cloned_during_later(m0, m1, *entity_migrator, arch.column(ids@.index_of(kept@[k]))[q], columns@[k]@[q]);
                        }
                    }
                    column.push(v);
                    r = r + 1;
                }
                let ghost prev_columns = columns@;
                kept.push(t);
                columns.push(column);
                proof {
                    assert forall|k: int, q: int|
                        0 <= k < columns@.len() && 0 <= q < len implies cloned_during(
                            m0,
                            *entity_migrator,
                            arch.column(ids@.index_of(kept@[k]))[q],
                            #[trigger] columns@[k]@[q],
                        ) by {
                        if k == columns@.len() - 1 {
                            lemma_index_of_sorted(ids@, c as int);
                            assert(kept@[k] == ids@[c as int]);
                        } else {
                            assert(columns@[k] == prev_columns[k]);
                            assert(kept@[k] == prev_kept[k]);
                        }
                    }
                    assert forall|a: int, b: int| 0 <= a < b < kept@.len() implies kept@[a] < kept@[b] by {
                        if b == kept@.len() - 1 {
                            let j = choose|j: int| 0 <= j < c && kept@[a] == ids@[j];
                            assert(ids@[j] < ids@[c as int]);
                        } else {
                            assert(prev_kept[a] == kept@[a] && prev_kept[b] == kept@[b]);
                        }
                    }
                    assert forall|k: int| 0 <= k < kept@.len() implies exists|j: int| 0 <= j < c + 1 && #[trigger] kept@[k] == ids@[j] by {
                        if k == kept@.len() - 1 {
                            assert(kept@[k] == ids@[c as int]);
                        } else {
                            assert(prev_kept[k] == kept@[k]);
                            let j = choose|j: int| 0 <= j < c && prev_kept[k] == ids@[j];
                        }
                    }
                    assert forall|k: int| 0 <= k < columns@.len() implies (#[trigger] columns@[k])@.len() == len by {}
                }
            } else {
                proof {
                    assert forall|k: int| 0 <= k < kept@.len() implies exists|j: int| 0 <= j < c + 1 && #[trigger] kept@[k] == ids@[j] by {
                        let j = choose|j: int| 0 <= j < c && kept@[k] == ids@[j];
                    }
                }
            }
            proof {
                let prev = ids@.subrange(0, c as int);
                let next = ids@.subrange(0, c + 1);
                assert forall|x: u64| kept@.contains(x) <==> next.contains(x) && cloners@.contains(x) by {
                    if next.contains(x) {
                        let q = choose|q: int| 0 <= q < next.len() && next[q] == x;
                        if q < c {
                            assert(prev[q] == x);
                        }
                    }
                    if prev.contains(x) {
                        let q = choose|q: int| 0 <= q < prev.len() && prev[q] == x;
                        assert(next[q] == x);
                    }
                    if x == t {
                        assert(next[c as int] == x);
                    }
                    if kept@.contains(x) {
                        let q = choose|q: int| 0 <= q < kept@.len() && kept@[q] == x;
                        if q < prev_kept.len() {
                            assert(prev_kept[q] == x);
                        }
                    }
                    if prev_kept.contains(x) {
                        let q = choose|q: int| 0 <= q < prev_kept.len() && prev_kept[q] == x;
                        assert(kept@[q] == x);
                    }
                    if x == t && cloners@.contains(x) {
                        assert(kept@[kept@.len() - 1] == x);
                    }
                }
            }
            c = c + 1;
        }
        assert(ids@.subrange(0, c as int) =~= ids@);
        (kept, columns)
    }
}


impl<V: WorldClone> World<V> {
    /// Placing the row of clones for the entity in row `r` of archetype `a` of `other`
    /// keeps the placed clones, now for that entity too.
    proof fn lemma_values_after_place(
        w1: World<V>,
        w2: World<V>,
        other: World<V>,
        pairs: Seq<(Entity, Entity)>,
        a: int,
        r: int,
        e: Entity,
        kept: Seq<u64>,
        row_vals: Seq<ComponentValue<V>>,
        start: EntityMigrator,
        end: EntityMigrator,
    )
        requires
            other.wf(),
            0 <= a < other.archetype_seq().len(),
            0 <= r < other.archetype_seq()[a].entity_seq().len(),
            !rows_before(other, a, r).contains(other.archetype_seq()[a].entity_seq()[r]),
            values_placed(w1, other, pairs, rows_before(other, a, r), start, end),
            pairs_distinct(pairs),
            exists|j: int| 0 <= j < pairs.len() && pairs[j] == (other.archetype_seq()[a].entity_seq()[r], e),
            strictly_sorted(kept),
            kept.len() == row_vals.len(),
            forall|x: int| 0 <= x < kept.len() ==> other.archetype_seq()[a].type_id_seq().contains(#[trigger] kept[x]),
            forall|x: int| 0 <= x < kept.len() ==> cloned_during(
                start,
                end,
                other.archetype_seq()[a].column(other.archetype_seq()[a].type_id_seq().index_of(kept[x]))[r],
                #[trigger] row_vals[x],
            ),
            w2@ == w1@.insert(e, Some(pairs_map(kept, row_vals))),
        ensures
            values_placed(w2, other, pairs, rows_before(other, a, r + 1), start, end),
    {
        let arch = other.archetype_seq()[a];
        let o = arch.entity_seq()[r];
        let j0 = choose|j: int| 0 <= j < pairs.len() && pairs[j] == (o, e);
        other.lemma_row_view(a, r);
        assert forall|i: int, t: u64|
            0 <= i < pairs.len() && rows_before(other, a, r + 1).contains(pairs[i].0) && #[trigger] w2@[pairs[i].1]->0.contains_key(t)
            implies cloned_during(start, end, other@[pairs[i].0]->0[t], w2@[pairs[i].1]->0[t]) by {
            if pairs[i].0 == o {
                if i != j0 {
                    assert(pairs[i].0 != pairs[j0].0);
                }
                assert(w2@[e] == Some(pairs_map(kept, row_vals)));
                assert(kept.contains(t));
                let p = choose|p: int| 0 <= p < kept.len() && kept[p] == t;
                lemma_index_of_sorted(kept, p);
                assert(w2@[e]->0[t] == row_vals[p]);
                let ids = arch.type_id_seq();
                assert(ids.contains(t));
                let c = choose|c: int| 0 <= c < ids.len() && ids[c] == t;
                other.lemma_bounded();
                assert(arch.wf());
                assert(arch.row(r)[ids.index_of(t)] == arch.column(ids.index_of(t))[r]);
                assert(other@[o]->0[t] == arch.row(r)[ids.index_of(t)]);
            } else {
                let (b, q) = choose|b: int, q: int|
                    0 <= b < other.archetype_seq().len() && 0 <= q < other.archetype_seq()[b].entity_seq().len()
                        && (b < a || (b == a && q < r + 1)) && #[trigger] other.archetype_seq()[b].entity_seq()[q] == pairs[i].0;
                assert(rows_before(other, a, r).contains(pairs[i].0));
                if pairs[i].1 == e {
                    if i != j0 {
                        assert(pairs[i].1 != pairs[j0].1);
                    }
                }
                assert(w2@[pairs[i].1] == w1@[pairs[i].1]);
            }
        }
    }

    /// Handing out more entities keeps the placed clones, and they were made before the
    /// migrator went further.
    proof fn lemma_values_extend(
        w: World<V>,
        m1: EntityMigrator,
        m2: EntityMigrator,
        done: Set<Entity>,
        other: World<V>,
        start: EntityMigrator,
        mid: EntityMigrator,
    )
        requires
            w.with_entities(m1.manager()).wf(),
            values_placed(w.with_entities(m1.manager()), other, m1.pairs(), done, start, mid),
            pairs_extend(m1, mid),
            clones_placed(w.with_entities(m1.manager()), other, m1.pairs(), done),
            pairs_distinct(m2.pairs()),
            forall|o: Entity| #[trigger] done.contains(o) ==> exists|j: int| 0 <= j < m1.pairs().len() && m1.pairs()[j].0 == o,
            m1.wf(),
            EntityMigrator::extends(m2, m1),
        ensures
            values_placed(w.with_entities(m2.manager()), other, m2.pairs(), done, start, m2),
    {
        let w1 = w.with_entities(m1.manager());
        let w2 = w.with_entities(m2.manager());
        assert(w1.entities_spec() == m1.manager());
        Self::lemma_entities_grown(w1, m2.manager());
        assert(w1.with_entities(m2.manager()) == w2);
        assert forall|i: int, t: u64|
            0 <= i < m2.pairs().len() && done.contains(m2.pairs()[i].0) && #[trigger] w2@[m2.pairs()[i].1]->0.contains_key(t)
            implies cloned_during(start, m2, other@[m2.pairs()[i].0]->0[t], w2@[m2.pairs()[i].1]->0[t]) by {
            let j = choose|j: int| 0 <= j < m1.pairs().len() && m1.pairs()[j].0 == m2.pairs()[i].0;
            assert(m2.pairs()[j] == m1.pairs()[j]);
            if i != j {
                assert(m2.pairs()[i].0 != m2.pairs()[j].0);
            }
            assert(w1@.contains_key(m1.pairs()[j].1));
            assert(w2@[m2.pairs()[i].1] == w1@[m1.pairs()[j].1]);
            assert(w1@[m1.pairs()[j].1]->0.contains_key(t));
            lemma_pairs_extend(m2, m1);
            assert(pairs_extend(m2, mid));
            lemma_cloned_during_later(start, mid, m2, other@[m2.pairs()[i].0]->0[t], w2@[m2.pairs()[i].1]->0[t]);
        }
    }
}

/// The entities in the rows before row `r` of archetype `a` of `other`, and in all rows of
/// the archetypes before it.
pub open spec fn rows_before<V>(other: World<V>, a: int, r: int) -> Set<Entity> {
    Set::new(
        |e: Entity|
            exists|b: int, q: int|
                0 <= b < other.archetype_seq().len() && 0 <= q < other.archetype_seq()[b].entity_seq().len()
                    && (b < a || (b == a && q < r)) && #[trigger] other.archetype_seq()[b].entity_seq()[q] == e,
    )
}

/// The component types of `comps` that are cloned.
pub open spec fn cloned_types<V>(comps: Map<u64, ComponentValue<V>>, cloners: Seq<u64>) -> Set<u64> {
    comps.dom().filter(|t: u64| cloners.contains(t))
}

/// Every entity of `other` in `done` has its new entity placed, with the cloned types.
pub open spec fn clones_placed<V>(w: World<V>, other: World<V>, pairs: Seq<(Entity, Entity)>, done: Set<Entity>) -> bool {
    forall|i: int|
        0 <= i < pairs.len() && done.contains(#[trigger] pairs[i].0) ==> {
            &&& other@.contains_key(pairs[i].0)
            &&& other@[pairs[i].0] is Some
            &&& w@.contains_key(pairs[i].1)
            &&& w@[pairs[i].1] is Some
            &&& w@[pairs[i].1]->0.dom() == cloned_types(other@[pairs[i].0]->0, w.cloners_spec())
        }
}

/// Every placed new entity of `pairs` (its old entity in `done`) holds clones of its old
/// entity's components, made while the migrator went from `start` to `end`.
pub open spec fn values_placed<V: WorldClone>(
    w: World<V>,
    other: World<V>,
    pairs: Seq<(Entity, Entity)>,
    done: Set<Entity>,
    start: EntityMigrator,
    end: EntityMigrator,
) -> bool {
    forall|i: int, t: u64|
        0 <= i < pairs.len() && done.contains(pairs[i].0) && #[trigger] w@[pairs[i].1]->0.contains_key(t)
            ==> cloned_during(start, end, other@[pairs[i].0]->0[t], w@[pairs[i].1]->0[t])
}

/// `created` holds the new entities of `end`'s pairs, in order, one for each old entity;
/// the new entity of each placed entity of `other` is placed, with clones, made while the
/// migrator went from `start` to `end`, of its old entity's components of the types `w`
/// clones; the other new entities are not placed.
pub open spec fn clones_made<V: WorldClone>(
    w: World<V>,
    other: World<V>,
    created: Seq<Entity>,
    start: EntityMigrator,
    end: EntityMigrator,
) -> bool {
    &&& created == Seq::new(end.pairs().len(), |i: int| end.pairs()[i].1)
    &&& pairs_distinct(end.pairs())
    &&& forall|o: Entity| #[trigger] other@.contains_key(o) && other@[o] is Some ==> exists|i: int|
        0 <= i < end.pairs().len() && end.pairs()[i].0 == o
    &&& forall|i: int| 0 <= i < end.pairs().len() ==> w@.contains_key(#[trigger] end.pairs()[i].1)
        && (w@[end.pairs()[i].1] is Some <==> other@.contains_key(end.pairs()[i].0) && other@[end.pairs()[i].0] is Some)
    &&& forall|i: int| 0 <= i < end.pairs().len() && (#[trigger] w@[end.pairs()[i].1]) is Some
        ==> w@[end.pairs()[i].1]->0.dom() == cloned_types(other@[end.pairs()[i].0]->0, w.cloners_spec())
    &&& forall|i: int, t: u64|
        0 <= i < end.pairs().len() && w@[end.pairs()[i].1] is Some && #[trigger] w@[end.pairs()[i].1]->0.contains_key(t)
            ==> cloned_during(start, end, other@[end.pairs()[i].0]->0[t], w@[end.pairs()[i].1]->0[t])
}

/// `n` is the new entity that `end` gives `o`, and its components in `w` are clones, made
/// while the migrator went from `start` to `end`, of those of `o` in `other`.
pub open spec fn entity_cloned<V: WorldClone>(
    w: World<V>,
    n: Entity,
    other: World<V>,
    o: Entity,
    start: EntityMigrator,
    end: EntityMigrator,
) -> bool {
    &&& end.new_of(o) == Some(n)
    &&& forall|t: u64| #[trigger] w@[n]->0.contains_key(t) ==> cloned_during(start, end, other@[o]->0[t], w@[n]->0[t])
}

/// The state while a world is added into `old`: `w` is well formed and holds what `old`
/// held, the new entities of `pairs` are fresh and live, and only those whose old entities
/// are in `done` are placed.
pub open spec fn adding_world<V>(w: World<V>, old: World<V>, pairs: Seq<(Entity, Entity)>, done: Set<Entity>) -> bool {
    &&& w.wf()
    &&& w.cloners_spec() == old.cloners_spec()
    &&& pairs_distinct(pairs)
    &&& forall|e: Entity| #[trigger] old@.contains_key(e) ==> w@.contains_key(e) && w@[e] == old@[e]
    &&& forall|e: Entity| #[trigger] w@.contains_key(e) ==> old@.contains_key(e) || exists|i: int| 0 <= i < pairs.len() && pairs[i].1 == e
    &&& forall|i: int| 0 <= i < pairs.len() ==> !old@.contains_key(#[trigger] pairs[i].1) && w@.contains_key(pairs[i].1)
    &&& forall|i: int| 0 <= i < pairs.len() && (#[trigger] w@[pairs[i].1]) is Some ==> done.contains(pairs[i].0)
}

impl<V> World<V> {
    proof fn lemma_adding_extends(w: World<V>, old: World<V>, m1: EntityMigrator, m2: EntityMigrator, done: Set<Entity>, other: World<V>)
        requires
            adding_world(w.with_entities(m1.manager()), old, m1.pairs(), done),
            clones_placed(w.with_entities(m1.manager()), other, m1.pairs(), done),
            forall|o: Entity| #[trigger] done.contains(o) ==> exists|j: int| 0 <= j < m1.pairs().len() && m1.pairs()[j].0 == o,
            m1.wf(),
            EntityMigrator::extends(m2, m1),
        ensures
            adding_world(w.with_entities(m2.manager()), old, m2.pairs(), done),
            clones_placed(w.with_entities(m2.manager()), other, m2.pairs(), done),
            forall|o: Entity| #[trigger] done.contains(o) ==> exists|j: int| 0 <= j < m2.pairs().len() && m2.pairs()[j].0 == o,
            w.with_entities(m2.manager()).archetype_seq() == w.archetype_seq(),
    {
        let w1 = w.with_entities(m1.manager());
        let w2 = w.with_entities(m2.manager());
        m2.lemma_wf();
        assert(w1.entities_spec() == m1.manager());
        Self::lemma_entities_grown(w1, m2.manager());
        assert(w1.with_entities(m2.manager()) == w2);
        assert forall|e: Entity| #[trigger] w2@.contains_key(e) implies old@.contains_key(e) || exists|i: int| 0 <= i < m2.pairs().len() && m2.pairs()[i].1 == e by {
            if w1@.contains_key(e) {
                if !old@.contains_key(e) {
                    let i = choose|i: int| 0 <= i < m1.pairs().len() && m1.pairs()[i].1 == e;
                    assert(m2.pairs()[i] == m1.pairs()[i]);
                }
            } else {
                assert(m2.manager().is_live(e) && !m1.manager().is_live(e));
            }
        }
        assert forall|i: int| 0 <= i < m2.pairs().len() implies !old@.contains_key(#[trigger] m2.pairs()[i].1) && w2@.contains_key(m2.pairs()[i].1) by {
            if i < m1.pairs().len() {
                assert(m2.pairs()[i] == m1.pairs()[i]);
            } else {
                assert(!m1.manager().is_live(m2.pairs()[i].1));
                if old@.contains_key(m2.pairs()[i].1) {
                    assert(w1@.contains_key(m2.pairs()[i].1));
                    assert(w1.entities_spec().is_live(m2.pairs()[i].1));
                }
            }
        }
        assert forall|i: int| 0 <= i < m2.pairs().len() && (#[trigger] w2@[m2.pairs()[i].1]) is Some implies done.contains(m2.pairs()[i].0) by {
            if i < m1.pairs().len() {
                assert(m2.pairs()[i] == m1.pairs()[i]);
            } else {
                assert(!m1.manager().is_live(m2.pairs()[i].1));
                assert(!w1@.contains_key(m2.pairs()[i].1));
            }
        }
        assert forall|i: int| 0 <= i < m2.pairs().len() && done.contains(#[trigger] m2.pairs()[i].0) implies {
            &&& other@.contains_key(m2.pairs()[i].0)
            &&& other@[m2.pairs()[i].0] is Some
            &&& w2@.contains_key(m2.pairs()[i].1)
            &&& w2@[m2.pairs()[i].1] is Some
            &&& w2@[m2.pairs()[i].1]->0.dom() == cloned_types(other@[m2.pairs()[i].0]->0, w2.cloners_spec())
        } by {
            let j = choose|j: int| 0 <= j < m1.pairs().len() && m1.pairs()[j].0 == m2.pairs()[i].0;
            assert(m2.pairs()[j] == m1.pairs()[j]);
            if i != j {
                assert(m2.pairs()[i].0 != m2.pairs()[j].0);
            }
            assert(w1@.contains_key(m1.pairs()[i].1));
        }
        assert forall|o: Entity| #[trigger] done.contains(o) implies exists|j: int| 0 <= j < m2.pairs().len() && m2.pairs()[j].0 == o by {
            let j = choose|j: int| 0 <= j < m1.pairs().len() && m1.pairs()[j].0 == o;
            assert(m2.pairs()[j] == m1.pairs()[j]);
        }
    }

    /// The components of the entity in row `r` of archetype `a`.
    proof fn lemma_row_view(&self, a: int, r: int)
        requires
            self.wf(),
            0 <= a < self.archetype_seq().len(),
            0 <= r < self.archetype_seq()[a].entity_seq().len(),
        ensures
            self@.contains_key(self.archetype_seq()[a].entity_seq()[r]),
            self@[self.archetype_seq()[a].entity_seq()[r]] == Some(row_map(self.archetype_seq()[a], r)),
    {
        self.lemma_bounded();
        assert(self.row_ok(a, r));
        let e = self.archetype_seq()[a].entity_seq()[r];
        assert(self.entities_spec().is_live(e));
    }

    /// Two rows of a well-formed world hold different entities.
    proof fn lemma_rows_distinct(&self, a: int, r: int, b: int, q: int)
        requires
            self.wf(),
            0 <= a < self.archetype_seq().len(),
            0 <= r < self.archetype_seq()[a].entity_seq().len(),
            0 <= b < self.archetype_seq().len(),
            0 <= q < self.archetype_seq()[b].entity_seq().len(),
            self.archetype_seq()[a].entity_seq()[r] == self.archetype_seq()[b].entity_seq()[q],
        ensures
            a == b && r == q,
    {
        self.lemma_bounded();
        assert(self.row_ok(a, r));
        assert(self.row_ok(b, q));
    }
}


impl<V: WorldClone> World<V> {
    /// Adds clones of the entities of `other` to this world: each entity of `other` gets a
    /// new entity here (as does each entity that a cloned component names), with clones of
    /// its components of the types this world clones. Returns the new entities.
    #[verifier::rlimit(100)]
    #[verifier::spinoff_prover]
    pub fn add_world_to_world(&mut self, other: &World<V>) -> (r: Vec<Entity>)
        requires
            old(self).wf(),
            other.wf(),
        ensures
            final(self).wf(),
            final(self).cloners_spec() == old(self).cloners_spec(),
            r@.no_duplicates(),
            forall|i: int| 0 <= i < r@.len() ==> !old(self)@.contains_key(#[trigger] r@[i]) && final(self)@.contains_key(r@[i]),
            forall|e: Entity| #[trigger] old(self)@.contains_key(e) ==> final(self)@.contains_key(e) && final(self)@[e] == old(self)@[e],
            forall|e: Entity| #[trigger] final(self)@.contains_key(e) ==> old(self)@.contains_key(e) || r@.contains(e),
            forall|o: Entity| #[trigger] other@.contains_key(o) && other@[o] is Some ==> exists|i: int|
                0 <= i < r@.len() && final(self)@[r@[i]] is Some
                    && final(self)@[r@[i]]->0.dom() == cloned_types(other@[o]->0, old(self).cloners_spec()),
            exists|start: EntityMigrator, end: EntityMigrator|
                start.pairs().len() == 0 && #[trigger] clones_made(*final(self), *other, r@, start, end),
    {
        let ghost w0 = *self;
        let mut world_entities = Entities::new();
        std::mem::swap(&mut self.entities, &mut world_entities);
        let mut migrator = EntityMigrator::new(Vec::new(), world_entities);
        let ghost m_init = migrator;
        let ghost mut m_last = migrator;
        proof {
            assert(self.with_entities(migrator.manager()) == w0);
            assert(adding_world(w0, w0, migrator.pairs(), rows_before(*other, 0, 0)));
            migrator.lemma_wf();
        }
        let n = other.archetype_count();
        let mut a: usize = 0;
        while a < n
            invariant
                other.wf(),
                n == other.archetype_seq().len(),
                a <= n,
                migrator.wf(),
                adding_world(self.with_entities(migrator.manager()), w0, migrator.pairs(), rows_before(*other, a as int, 0)),
                clones_placed(self.with_entities(migrator.manager()), *other, migrator.pairs(), rows_before(*other, a as int, 0)),
                forall|o: Entity| #[trigger] rows_before(*other, a as int, 0).contains(o) ==> exists|j: int| 0 <= j < migrator.pairs().len() && migrator.pairs()[j].0 == o,
                m_init.pairs().len() == 0,
                pairs_extend(migrator, m_init),
                pairs_extend(migrator, m_last),
                values_placed(self.with_entities(migrator.manager()), *other, migrator.pairs(), rows_before(*other, a as int, 0), m_init, m_last),
            decreases n - a,
        {
            proof {
                other.lemma_wf();
                other.lemma_bounded();
                assert(other.archetype_type_ids()[a as int] == other.archetype_seq()[a as int].type_id_seq());
            }
            let arch = other.borrow_archetype(a);
            let ghost base = *self;
            let ghost m1 = migrator;
            let cloned = Self::clone_columns(&self.cloners, arch, &mut migrator);
            let kept = cloned.0;
            let mut columns = cloned.1;
            let ghost mc = migrator;
            proof {
                Self::lemma_adding_extends(base, w0, m1, migrator, rows_before(*other, a as int, 0), *other);
                lemma_pairs_extend(mc, m1);
                Self::lemma_values_extend(base, m1, mc, rows_before(*other, a as int, 0), *other, m_init, m_last);
                assert forall|k: int, q: int|
                    0 <= k < columns@.len() && 0 <= q < arch.entity_seq().len() implies cloned_during(
                        m_init,
                        mc,
                        arch.column(arch.type_id_seq().index_of(kept@[k]))[q],
                        #[trigger] columns@[k]@[q],
                    ) by {
                    lemma_cloned_during_earlier(m_init, m1, mc, arch.column(arch.type_id_seq().index_of(kept@[k]))[q], columns@[k]@[q]);
                }
            }
            assert(forall|t: u64| kept@.contains(t) <==> arch.type_id_seq().contains(t) && base.cloners@.contains(t));
            assert(base.cloners_spec() == base.cloners@);
            let ents = arch.entities();
            let len = ents.len();
            let mut new_ents: Vec<Entity> = Vec::new();
            let mut r: usize = 0;
            while r < len
                invariant
                    base == *self,
                    ents@ == arch.entity_seq(),
                    len == ents@.len(),
                    r <= len,
                    migrator.wf(),
                    adding_world(self.with_entities(migrator.manager()), w0, migrator.pairs(), rows_before(*other, a as int, 0)),
                    clones_placed(self.with_entities(migrator.manager()), *other, migrator.pairs(), rows_before(*other, a as int, 0)),
                    forall|o: Entity| #[trigger] rows_before(*other, a as int, 0).contains(o) ==> exists|j: int| 0 <= j < migrator.pairs().len() && migrator.pairs()[j].0 == o,
                    new_ents@.len() == r,
                    forall|q: int| 0 <= q < r ==> migrator.new_of(ents@[q]) == Some(#[trigger] new_ents@[q]),
                    m_init.pairs().len() == 0,
                    pairs_extend(migrator, mc),
                    values_placed(self.with_entities(migrator.manager()), *other, migrator.pairs(), rows_before(*other, a as int, 0), m_init, migrator),
                decreases len - r,
            {
                let ghost m2 = migrator;
                let e = migrator.migrate(ents[r]);
                proof {
                    EntityMigrator::lemma_extends_refl(m2);
                    lemma_pairs_extend(m2, m2);
                    lemma_pairs_extend(migrator, m2);
                    Self::lemma_values_extend(base, m2, migrator, rows_before(*other, a as int, 0), *other, m_init, m2);
                    Self::lemma_adding_extends(base, w0, m2, migrator, rows_before(*other, a as int, 0), *other);
                    assert forall|q: int| 0 <= q < r implies migrator.new_of(ents@[q]) == Some(#[trigger] new_ents@[q]) by {
                        assert(m2.new_of(ents@[q]) == Some(new_ents@[q]));
                        crate::archetype::lemma_new_of_stable(m2, migrator, ents@[q]);
                    }
                }
                new_ents.push(e);
                r = r + 1;
            }
            let ghost m3 = migrator;
            proof {
                assert forall|k: int, q: int|
                    0 <= k < columns@.len() && 0 <= q < len implies cloned_during(
                        m_init,
                        m3,
                        arch.column(arch.type_id_seq().index_of(kept@[k]))[q],
                        #[trigger] columns@[k]@[q],
                    ) by {
                    lemma_cloned_during_later(m_init, mc, m3, arch.column(arch.type_id_seq().index_of(kept@[k]))[q], columns@[k]@[q]);
                }
                assert(pairs_extend(m3, m_init));
            }
            let mut placeholder = migrator.take_manager(Entities::new());
            std::mem::swap(&mut self.entities, &mut placeholder);
            proof {
                assert(*self == base.with_entities(m3.manager()));
            }
            let mut r: usize = 0;
            while r < len
                invariant
                    other.wf(),
                    a < n,
                    n == other.archetype_seq().len(),
                    *arch == other.archetype_seq()[a as int],
                    ents@ == arch.entity_seq(),
                    len == ents@.len(),
                    r <= len,
                    pairs_distinct(m3.pairs()),
                    migrator.pairs() == m3.pairs(),
                    adding_world(*self, w0, m3.pairs(), rows_before(*other, a as int, r as int)),
                    clones_placed(*self, *other, m3.pairs(), rows_before(*other, a as int, r as int)),
                    forall|o: Entity| #[trigger] rows_before(*other, a as int, r as int).contains(o) ==> exists|j: int| 0 <= j < m3.pairs().len() && m3.pairs()[j].0 == o,
                    forall|t: u64| kept@.contains(t) <==> arch.type_id_seq().contains(t) && self.cloners_spec().contains(t),
                    new_ents@.len() == len,
                    forall|q: int| 0 <= q < len ==> m3.new_of(ents@[q]) == Some(#[trigger] new_ents@[q]),
                    strictly_sorted(kept@),
                    columns@.len() == kept@.len(),
                    forall|k: int| 0 <= k < columns@.len() ==> (#[trigger] columns@[k])@.len() == len - r,
                    m_init.pairs().len() == 0,
                    pairs_extend(m3, m_init),
                    values_placed(*self, *other, m3.pairs(), rows_before(*other, a as int, r as int), m_init, m3),
                    forall|k: int, q: int|
                        0 <= k < columns@.len() && 0 <= q < len - r ==> cloned_during(
                            m_init,
                            m3,
                            arch.column(arch.type_id_seq().index_of(kept@[k]))[r + q],
                            #[trigger] columns@[k]@[q],
                        ),
                decreases len - r,
            {
                let mut row: Vec<ComponentValue<V>> = Vec::new();
                let ghost cols0 = columns@;
                let mut k: usize = 0;
                while k < columns.len()
                    invariant
                        r < len,
                        k <= columns@.len(),
                        columns@.len() == kept@.len(),
                        cols0.len() == kept@.len(),
                        row@.len() == k,
                        forall|x: int| 0 <= x < cols0.len() ==> (#[trigger] cols0[x])@.len() == len - r,
                        forall|x: int| 0 <= x < k ==> (#[trigger] columns@[x])@ == cols0[x]@.subrange(1, len - r),
                        forall|x: int| k <= x < columns@.len() ==> #[trigger] columns@[x] == cols0[x],
                        forall|x: int| 0 <= x < k ==> #[trigger] row@[x] == cols0[x]@[0],
                    decreases columns@.len() - k,
                {
                    let ghost before = columns@;
                    let column = &mut columns[k];
                    let v = column.remove(0);
                    row.push(v);
                    proof {
                        assert(columns@[k as int]@ =~= cols0[k as int]@.subrange(1, len - r));
                        assert forall|x: int| 0 <= x < k + 1 implies (#[trigger] columns@[x])@ == cols0[x]@.subrange(1, len - r) by {
                            if x != k {
                                assert(columns@[x] == before[x]);
                            }
                        }
                        assert forall|x: int| k + 1 <= x < columns@.len() implies #[trigger] columns@[x] == cols0[x] by {
                            assert(columns@[x] == before[x]);
                        }
                    }
                    k = k + 1;
                }
                let ghost row_vals = row@;
                proof {
                    assert forall|k: int| 0 <= k < columns@.len() implies (#[trigger] columns@[k])@.len() == len - (r + 1) by {
                        assert(columns@[k]@ == cols0[k]@.subrange(1, len - r));
                    }
                    assert forall|k: int, q: int|
                        0 <= k < columns@.len() && 0 <= q < len - (r + 1) implies cloned_during(
                            m_init,
                            m3,
                            arch.column(arch.type_id_seq().index_of(kept@[k]))[(r + 1) + q],
                            #[trigger] columns@[k]@[q],
                        ) by {
                        assert(columns@[k]@ == cols0[k]@.subrange(1, len - r));
                        assert(columns@[k]@[q] == cols0[k]@[q + 1]);
                    }
                    assert forall|x: int| 0 <= x < kept@.len() implies cloned_during(
                        m_init,
                        m3,
                        arch.column(arch.type_id_seq().index_of(kept@[x]))[r as int],
                        #[trigger] row_vals[x],
                    ) by {
                        assert(row_vals[x] == cols0[x]@[0]);
                    }
                }
                let ids = Self::copy_ids(&kept);
                let e = new_ents[r];
                let ghost o = ents@[r as int];
                let ghost w1 = *self;
                proof {
                    let i = choose|i: int| 0 <= i < m3.pairs().len() && m3.pairs()[i].0 == o;
                    assert(m3.pairs()[i].1 == e);
                    assert(m3.pairs()[i] == (o, e));
                    assert(!rows_before(*other, a as int, r as int).contains(o)) by {
                        if rows_before(*other, a as int, r as int).contains(o) {
                            let (b, q) = choose|b: int, q: int|
                                0 <= b < other.archetype_seq().len() && 0 <= q < other.archetype_seq()[b].entity_seq().len()
                                    && (b < a || (b == a && q < r)) && #[trigger] other.archetype_seq()[b].entity_seq()[q] == o;
                            other.lemma_rows_distinct(a as int, r as int, b, q);
                        }
                    }
                    assert(w1@.contains_key(e));
                    assert(w1@[e] is None);
                    assert(w1.entities_spec().is_live(e));
                    assert(exists|j: int| 0 <= j < m3.pairs().len() && m3.pairs()[j] == (o, e));
                }
                self.place_entity(e, ids, row);
                proof {
                    Self::lemma_after_place(w1, *self, w0, *other, m3.pairs(), a as int, r as int, e, kept@, row_vals);
                    assert forall|x: int| 0 <= x < kept@.len() implies arch.type_id_seq().contains(#[trigger] kept@[x]) by {
                        assert(kept@.contains(kept@[x]));
                    }
                    Self::lemma_values_after_place(w1, *self, *other, m3.pairs(), a as int, r as int, e, kept@, row_vals, m_init, m3);
                }
                r = r + 1;
            }
            proof {
                assert(rows_before(*other, a as int, len as int) =~= rows_before(*other, a + 1, 0)) by {
                    assert forall|x: Entity| rows_before(*other, a + 1, 0).contains(x) implies rows_before(*other, a as int, len as int).contains(x) by {
                        let (b, q) = choose|b: int, q: int|
                            0 <= b < other.archetype_seq().len() && 0 <= q < other.archetype_seq()[b].entity_seq().len()
                                && (b < a + 1 || (b == a + 1 && q < 0)) && #[trigger] other.archetype_seq()[b].entity_seq()[q] == x;
                    }
                    assert forall|x: Entity| rows_before(*other, a as int, len as int).contains(x) implies rows_before(*other, a + 1, 0).contains(x) by {
                        let (b, q) = choose|b: int, q: int|
                            0 <= b < other.archetype_seq().len() && 0 <= q < other.archetype_seq()[b].entity_seq().len()
                                && (b < a || (b == a && q < len)) && #[trigger] other.archetype_seq()[b].entity_seq()[q] == x;
                    }
                }
            }
            let ghost wplaced = *self;
            let mut world_entities = Entities::new();
            std::mem::swap(&mut self.entities, &mut world_entities);
            proof {
                assert(self.with_entities(world_entities) == wplaced);
                let w = self.with_entities(world_entities);
                assert(w.entities_spec() == world_entities);
                assert forall|i: int| 0 <= i < m3.pairs().len() implies world_entities.is_live(#[trigger] m3.pairs()[i].1) by {
                    assert(w@.contains_key(m3.pairs()[i].1));
                }
            }
            let _ = migrator.put_manager(world_entities);
            proof {
                assert(self.with_entities(migrator.manager()) == wplaced);
                migrator.lemma_wf();
                m_last = m3;
            }
            a = a + 1;
        }
        let ghost m_end = migrator;
        let ghost before_end = *self;
        let entities_back = migrator.take_manager(Entities::new());
        self.entities = entities_back;
        proof {
            assert(*self == before_end.with_entities(m_end.manager()));
            assert(rows_before(*other, a as int, 0) == rows_before(*other, a as int, 0));
        }
        let r = migrator.new_entities();
        proof {
            let ps = m_end.pairs();
            assert(r@ == Seq::new(ps.len(), |i: int| ps[i].1));
            assert forall|e: Entity| #[trigger] self@.contains_key(e) implies w0@.contains_key(e) || r@.contains(e) by {
                if !w0@.contains_key(e) {
                    let i = choose|i: int| 0 <= i < ps.len() && ps[i].1 == e;
                    assert(r@[i] == e);
                }
            }
            assert(r@.no_duplicates()) by {
                assert forall|x: int, y: int| 0 <= x < y < r@.len() implies r@[x] != r@[y] by {
                    assert(ps[x].1 != ps[y].1);
                }
            }
            assert forall|i: int| 0 <= i < r@.len() implies !w0@.contains_key(#[trigger] r@[i]) && self@.contains_key(r@[i]) by {
                assert(r@[i] == ps[i].1);
            }
            assert forall|o: Entity| #[trigger] other@.contains_key(o) && other@[o] is Some implies exists|i: int|
                0 <= i < r@.len() && self@[r@[i]] is Some
                    && self@[r@[i]]->0.dom() == cloned_types(other@[o]->0, w0.cloners_spec()) by {
                let l = other.entities_spec().location(o)->0;
                assert(other.slot_ok(o.index as int));
                assert(rows_before(*other, a as int, 0).contains(o)) by {
                    assert(other.archetype_seq()[l.archetype_index as int].entity_seq()[l.index_within_archetype as int] == o);
                }
                let j = choose|j: int| 0 <= j < ps.len() && ps[j].0 == o;
                assert(r@[j] == ps[j].1);
            }
            let done = rows_before(*other, a as int, 0);
            assert forall|o: Entity| #[trigger] done.contains(o) implies other@.contains_key(o) && other@[o] is Some by {
                let (b, q) = choose|b: int, q: int|
                    0 <= b < other.archetype_seq().len() && 0 <= q < other.archetype_seq()[b].entity_seq().len()
                        && (b < a || (b == a && q < 0)) && #[trigger] other.archetype_seq()[b].entity_seq()[q] == o;
                other.lemma_row_view(b, q);
            }
            assert forall|o: Entity| #[trigger] other@.contains_key(o) && other@[o] is Some implies done.contains(o) by {
                let l = other.entities_spec().location(o)->0;
                assert(other.slot_ok(o.index as int));
                assert(other.archetype_seq()[l.archetype_index as int].entity_seq()[l.index_within_archetype as int] == o);
            }
            assert forall|i: int| 0 <= i < ps.len() implies self@.contains_key(#[trigger] ps[i].1)
                && (self@[ps[i].1] is Some <==> other@.contains_key(ps[i].0) && other@[ps[i].0] is Some) by {
                if other@.contains_key(ps[i].0) && other@[ps[i].0] is Some {
                    assert(done.contains(ps[i].0));
                }
            }
            assert forall|i: int, t: u64|
                0 <= i < ps.len() && self@[ps[i].1] is Some && #[trigger] self@[ps[i].1]->0.contains_key(t)
                    implies cloned_during(m_init, m_end, other@[ps[i].0]->0[t], self@[ps[i].1]->0[t]) by {
                lemma_cloned_during_later(m_init, m_last, m_end, other@[ps[i].0]->0[t], self@[ps[i].1]->0[t]);
            }
            assert(clones_made(*self, *other, r@, m_init, m_end));
        }
        r
    }

    /// A new world, with the same clonable types, holding clones of this world's entities
    /// (see `add_world_to_world`).
    pub fn clone(&self) -> (r: World<V>)
        requires
            self.wf(),
        ensures
            r.wf(),
            r.cloners_spec() == self.cloners_spec(),
            forall|o: Entity| #[trigger] self@.contains_key(o) && self@[o] is Some ==> exists|n: Entity|
                r@.contains_key(n) && r@[n] is Some && r@[n]->0.dom() == cloned_types(self@[o]->0, self.cloners_spec()),
            exists|created: Seq<Entity>, start: EntityMigrator, end: EntityMigrator|
                start.pairs().len() == 0 && #[trigger] clones_made(r, *self, created, start, end)
                    && forall|n: Entity| #[trigger] r@.contains_key(n) ==> created.contains(n),
    {
        let mut new_world = World::new_with_cloners(self.cloners.duplicate());
        let created = new_world.add_world_to_world(self);
        proof {
            assert forall|o: Entity| #[trigger] self@.contains_key(o) && self@[o] is Some implies exists|n: Entity|
                new_world@.contains_key(n) && new_world@[n] is Some && new_world@[n]->0.dom() == cloned_types(self@[o]->0, self.cloners_spec()) by {
                let i = choose|i: int| 0 <= i < created@.len() && new_world@[created@[i]] is Some
                    && new_world@[created@[i]]->0.dom() == cloned_types(self@[o]->0, self.cloners_spec());
                assert(new_world@.contains_key(created@[i]));
            }
            let (start, end) = choose|start: EntityMigrator, end: EntityMigrator|
                start.pairs().len() == 0 && #[trigger] clones_made(new_world, *self, created@, start, end);
            assert(start.pairs().len() == 0 && clones_made(new_world, *self, created@, start, end)
                && forall|n: Entity| #[trigger] new_world@.contains_key(n) ==> created@.contains(n));
        }
        new_world
    }

    /// Creates a new entity with clones of the components of `entity` whose types this world
    /// clones. `None` if the entity does not exist, is not placed, or has no such component.
    /// Entities that the cloned components name are given new entities, as in
    /// `add_world_to_world`; those are not placed.
    pub fn clone_entity(&mut self, entity: Entity) -> (r: Option<Entity>)
        requires
            old(self).wf(),
        ensures
            final(self).wf(),
            final(self).cloners_spec() == old(self).cloners_spec(),
            r is Some <==> old(self)@.contains_key(entity) && old(self)@[entity] is Some
                && !cloned_types(old(self)@[entity]->0, old(self).cloners_spec()).is_empty(),
            r is None ==> *final(self) == *old(self),
            r matches Some(n) ==> {
                &&& !old(self)@.contains_key(n)
                &&& final(self)@.contains_key(n)
                &&& final(self)@[n] is Some
                &&& final(self)@[n]->0.dom() == cloned_types(old(self)@[entity]->0, old(self).cloners_spec())
                &&& forall|x: Entity| #[trigger] old(self)@.contains_key(x) ==> final(self)@.contains_key(x) && final(self)@[x] == old(self)@[x]
                &&& forall|x: Entity| #[trigger] final(self)@.contains_key(x) && !old(self)@.contains_key(x) && x != n ==> final(self)@[x] is None
                &&& exists|start: EntityMigrator, end: EntityMigrator|
                    start.pairs().len() == 0 && #[trigger] entity_cloned(*final(self), n, *old(self), entity, start, end)
            },
    {
        let loc = match self.entities.get_location(entity) {
            Some(Some(l)) => l,
            _ => {
                return None;
            },
        };
        let ghost w0 = *self;
        proof {
            assert(self.slot_ok(entity.index as int));
            self.lemma_wf();
            self.lemma_bounded();
            self.lemma_row_view(loc.archetype_index as int, loc.index_within_archetype as int);
        }
        let ghost arch0 = self.archetype_seq()[loc.archetype_index as int];
        let ids = self.archetypes[loc.archetype_index].type_ids();
        let mut any = false;
        let mut c: usize = 0;
        while c < ids.len()
            invariant
                c <= ids@.len(),
                any <==> exists|j: int| 0 <= j < c && self.cloners@.contains(#[trigger] ids@[j]),
            decreases ids@.len() - c,
        {
            if self.cloners.contains(ids[c]) {
                any = true;
            }
            c = c + 1;
        }
        proof {
            let comps = w0@[entity]->0;
            assert(comps == row_map(arch0, loc.index_within_archetype as int));
            assert(any <==> !cloned_types(comps, w0.cloners_spec()).is_empty()) by {
                if any {
                    let j = choose|j: int| 0 <= j < c && self.cloners@.contains(#[trigger] ids@[j]);
                    assert(cloned_types(comps, w0.cloners_spec()).contains(ids@[j]));
                }
                if !cloned_types(comps, w0.cloners_spec()).is_empty() {
                    let t = cloned_types(comps, w0.cloners_spec()).choose();
                    assert(cloned_types(comps, w0.cloners_spec()).contains(t));
                    let j = choose|j: int| 0 <= j < ids@.len() && ids@[j] == t;
                    assert(self.cloners@.contains(ids@[j]));
                }
            }
        }
        if !any {
            return None;
        }
        let mut world_entities = Entities::new();
        std::mem::swap(&mut self.entities, &mut world_entities);
        let mut migrator = EntityMigrator::new(Vec::new(), world_entities);
        let ghost base = *self;
        proof {
            assert(base.with_entities(migrator.manager()) == w0);
            assert(adding_world(w0, w0, migrator.pairs(), Set::empty()));
        }
        let ghost m0 = migrator;
        let new_entity = migrator.migrate(entity);
        let ghost m1 = migrator;
        proof {
            EntityMigrator::lemma_extends_refl(m1);
            Self::lemma_adding_extends(base, w0, m0, m1, Set::empty(), w0);
        }
        let mut kept: Vec<u64> = Vec::new();
        let mut values: Vec<ComponentValue<V>> = Vec::new();
        let arch = &self.archetypes[loc.archetype_index];
        proof {
            arch.lemma_bounded();
        }
        let mut c: usize = 0;
        while c < ids.len()
            invariant
                *arch == arch0,
                arch.wf(),
                ids@ == arch.type_id_seq(),
                strictly_sorted(ids@),
                loc.index_within_archetype < arch.entity_seq().len(),
                ids@.len() == arch.channel_seq().len(),
                c <= ids@.len(),
                m1.wf(),
                EntityMigrator::extends(migrator, m1),
                strictly_sorted(kept@),
                forall|k: int| 0 <= k < kept@.len() ==> exists|j: int| 0 <= j < c && #[trigger] kept@[k] == ids@[j],
                forall|t: u64| #[trigger] kept@.contains(t) <==> ids@.subrange(0, c as int).contains(t) && self.cloners@.contains(t),
                values@.len() == kept@.len(),
                forall|k: int| 0 <= k < values@.len() ==> cloned_during(
                    m1,
                    migrator,
                    arch.column(ids@.index_of(kept@[k]))[loc.index_within_archetype as int],
                    #[trigger] values@[k],
                ),
            decreases ids@.len() - c,
        {
            let t = ids[c];
            let ghost prev_kept = kept@;
            if self.cloners.contains(t) {
                let ghost m2 = migrator;
                let ghost prev_values = values@;
                let v = arch.component_at(c, loc.index_within_archetype).world_clone(&mut migrator);
                proof {
                    EntityMigrator::lemma_extends_trans(m1, m2, migrator);
                    EntityMigrator::lemma_extends_refl(migrator);
                    lemma_pairs_extend(m2, m1);
                    lemma_pairs_extend(migrator, m2);
                    lemma_pairs_extend(migrator, migrator);
                    assert(cloned_during(m1, migrator, arch.column(c as int)[loc.index_within_archetype as int], v)) by {
                        assert(arch.column(c as int)[loc.index_within_archetype as int].is_world_clone(m2, migrator, v));
                    }
                }
                kept.push(t);
                values.push(v);
                proof {
                    assert forall|k: int| 0 <= k < values@.len() implies cloned_during(
                        m1,
                        migrator,
                        arch.column(ids@.index_of(kept@[k]))[loc.index_within_archetype as int],
                        #[trigger] values@[k],
                    ) by {
                        if k == values@.len() - 1 {
                            lemma_index_of_sorted(ids@, c as int);
                        } else {
                            assert(values@[k] == prev_values[k] && kept@[k] == prev_kept[k]);
                            lemma_cloned_during_later(m1, m2, migrator, arch.column(ids@.index_of(kept@[k]))[loc.index_within_archetype as int], values@[k]);
                        }
                    }
                    assert forall|a: int, b: int| 0 <= a < b < kept@.len() implies kept@[a] < kept@[b] by {
                        if b == kept@.len() - 1 {
                            let j = choose|j: int| 0 <= j < c && kept@[a] == ids@[j];
                            assert(ids@[j] < ids@[c as int]);
                        } else {
                            assert(prev_kept[a] == kept@[a] && prev_kept[b] == kept@[b]);
                        }
                    }
                    assert forall|k: int| 0 <= k < kept@.len() implies exists|j: int| 0 <= j < c + 1 && #[trigger] kept@[k] == ids@[j] by {
                        if k == kept@.len() - 1 {
                            assert(kept@[k] == ids@[c as int]);
                        } else {
                            assert(prev_kept[k] == kept@[k]);
                            let j = choose|j: int| 0 <= j < c && prev_kept[k] == ids@[j];
                        }
                    }
                }
            } else {
                proof {
                    assert forall|k: int| 0 <= k < kept@.len() implies exists|j: int| 0 <= j < c + 1 && #[trigger] kept@[k] == ids@[j] by {
                        let j = choose|j: int| 0 <= j < c && kept@[k] == ids@[j];
                    }
                }
            }
            proof {
                let prev = ids@.subrange(0, c as int);
                let next = ids@.subrange(0, c + 1);
                assert forall|x: u64| #[trigger] kept@.contains(x) <==> next.contains(x) && self.cloners@.contains(x) by {
                    if next.contains(x) {
                        let q = choose|q: int| 0 <= q < next.len() && next[q] == x;
                        if q < c {
                            assert(prev[q] == x);
                        }
                    }
                    if prev.contains(x) {
                        let q = choose|q: int| 0 <= q < prev.len() && prev[q] == x;
                        assert(next[q] == x);
                    }
                    if x == t {
                        assert(next[c as int] == x);
                    }
                    if kept@.contains(x) {
                        let q = choose|q: int| 0 <= q < kept@.len() && kept@[q] == x;
                        if q < prev_kept.len() {
                            assert(prev_kept[q] == x);
                        }
                    }
                    if prev_kept.contains(x) {
                        let q = choose|q: int| 0 <= q < prev_kept.len() && prev_kept[q] == x;
                        assert(kept@[q] == x);
                    }
                    if x == t && self.cloners@.contains(x) {
                        assert(kept@[kept@.len() - 1] == x);
                    }
                }
            }
            c = c + 1;
        }
        assert(ids@.subrange(0, c as int) =~= ids@);
        let ghost m3 = migrator;
        proof {
            Self::lemma_adding_extends(base, w0, m1, m3, Set::empty(), w0);
            m3.lemma_wf();
        }
        let mut placeholder = migrator.take_manager(Entities::new());
        std::mem::swap(&mut self.entities, &mut placeholder);
        let ghost w1 = *self;
        proof {
            assert(w1 == base.with_entities(m3.manager()));
            crate::archetype::lemma_new_of_stable(m1, m3, entity);
            assert(m3.new_of(entity) == Some(new_entity));
            let i = choose|i: int| 0 <= i < m3.pairs().len() && m3.pairs()[i].0 == entity;
            assert(m3.pairs()[i].1 == new_entity);
            assert(w1@.contains_key(new_entity));
            assert(w1@[new_entity] is None);
        }
        let ghost vals = values@;
        self.place_entity(new_entity, kept, values);
        proof {
            let comps = w0@[entity]->0;
            assert(vals.len() == kept@.len());
            assert(pairs_map(kept@, vals).dom() =~= cloned_types(comps, w0.cloners_spec()));
            assert forall|x: Entity| #[trigger] w0@.contains_key(x) implies self@.contains_key(x) && self@[x] == w0@[x] by {
                assert(w1@.contains_key(x));
            }
            assert forall|x: Entity| #[trigger] self@.contains_key(x) && !w0@.contains_key(x) && x != new_entity implies self@[x] is None by {
                assert(w1@.contains_key(x));
                let i = choose|i: int| 0 <= i < m3.pairs().len() && m3.pairs()[i].1 == x;
                assert(!(w1@[x] is Some));
            }
            lemma_pairs_extend(m1, m0);
            assert forall|t: u64| #[trigger] self@[new_entity]->0.contains_key(t)
                implies cloned_during(m0, m3, w0@[entity]->0[t], self@[new_entity]->0[t]) by {
                let p = choose|p: int| 0 <= p < kept@.len() && kept@[p] == t;
                lemma_index_of_sorted(kept@, p);
                assert(self@[new_entity]->0[t] == vals[p]);
                assert(arch0.type_id_seq().contains(t));
                assert(arch0.row(loc.index_within_archetype as int)[arch0.type_id_seq().index_of(t)]
                    == arch0.column(arch0.type_id_seq().index_of(t))[loc.index_within_archetype as int]);
                lemma_cloned_during_earlier(m0, m1, m3, w0@[entity]->0[t], vals[p]);
            }
            assert(entity_cloned(*self, new_entity, w0, entity, m0, m3));
        }
        Some(new_entity)
    }

    #[verifier::spinoff_prover]
    proof fn lemma_after_place(
        w1: World<V>,
        w2: World<V>,
        w0: World<V>,
        other: World<V>,
        pairs: Seq<(Entity, Entity)>,
        a: int,
        r: int,
        e: Entity,
        kept: Seq<u64>,
        row_vals: Seq<ComponentValue<V>>,
    )
        requires
            other.wf(),
            0 <= a < other.archetype_seq().len(),
            0 <= r < other.archetype_seq()[a].entity_seq().len(),
            adding_world(w1, w0, pairs, rows_before(other, a, r)),
            clones_placed(w1, other, pairs, rows_before(other, a, r)),
            forall|x: Entity| #[trigger] rows_before(other, a, r).contains(x) ==> exists|j: int| 0 <= j < pairs.len() && pairs[j].0 == x,
            exists|j: int| 0 <= j < pairs.len() && pairs[j] == (other.archetype_seq()[a].entity_seq()[r], e),
            forall|t: u64| #[trigger] kept.contains(t) <==> other.archetype_seq()[a].type_id_seq().contains(t) && w1.cloners_spec().contains(t),
            w1@.contains_key(e),
            w2.wf(),
            w2.cloners_spec() == w1.cloners_spec(),
            w2@ == w1@.insert(e, Some(pairs_map(kept, row_vals))),
        ensures
            adding_world(w2, w0, pairs, rows_before(other, a, r + 1)),
            clones_placed(w2, other, pairs, rows_before(other, a, r + 1)),
            forall|x: Entity| #[trigger] rows_before(other, a, r + 1).contains(x) ==> exists|j: int| 0 <= j < pairs.len() && pairs[j].0 == x,
    {
        let arch = other.archetype_seq()[a];
        let o = arch.entity_seq()[r];
        let done = rows_before(other, a, r);
        let done2 = rows_before(other, a, r + 1);
        let j0 = choose|j: int| 0 <= j < pairs.len() && pairs[j] == (o, e);
        assert forall|x: Entity| done.contains(x) implies done2.contains(x) by {
            let (b, q) = choose|b: int, q: int|
                0 <= b < other.archetype_seq().len() && 0 <= q < other.archetype_seq()[b].entity_seq().len()
                    && (b < a || (b == a && q < r)) && #[trigger] other.archetype_seq()[b].entity_seq()[q] == x;
        }
        assert(done2.contains(o)) by {
            assert(other.archetype_seq()[a].entity_seq()[r] == o);
        }
        assert forall|x: Entity| done2.contains(x) implies done.contains(x) || x == o by {
            let (b, q) = choose|b: int, q: int|
                0 <= b < other.archetype_seq().len() && 0 <= q < other.archetype_seq()[b].entity_seq().len()
                    && (b < a || (b == a && q < r + 1)) && #[trigger] other.archetype_seq()[b].entity_seq()[q] == x;
            if !(b == a && q == r) {
                assert(done.contains(x));
            }
        }
        assert forall|x: Entity| #[trigger] done2.contains(x) implies exists|j: int| 0 <= j < pairs.len() && pairs[j].0 == x by {
            if x != o {
                assert(done.contains(x));
            } else {
                assert(pairs[j0].0 == x);
            }
        }
        other.lemma_row_view(a, r);
        assert(other@[o] == Some(row_map(arch, r)));
        assert(pairs_map(kept, row_vals).dom() =~= cloned_types(row_map(arch, r), w1.cloners_spec()));
        assert forall|e2: Entity| #[trigger] w0@.contains_key(e2) implies w2@.contains_key(e2) && w2@[e2] == w0@[e2] by {
            assert(w1@.contains_key(e2));
            if e2 == e {
                assert(!w0@.contains_key(pairs[j0].1));
            }
        }
        assert forall|e2: Entity| #[trigger] w2@.contains_key(e2) implies w0@.contains_key(e2) || exists|i: int| 0 <= i < pairs.len() && pairs[i].1 == e2 by {
            if e2 != e {
                assert(w1@.contains_key(e2));
            } else {
                assert(pairs[j0].1 == e2);
            }
        }
        assert forall|i: int| 0 <= i < pairs.len() implies !w0@.contains_key(#[trigger] pairs[i].1) && w2@.contains_key(pairs[i].1) by {
            assert(w1@.contains_key(pairs[i].1));
        }
        assert forall|i: int| 0 <= i < pairs.len() && (#[trigger] w2@[pairs[i].1]) is Some implies done2.contains(pairs[i].0) by {
            if pairs[i].1 != e {
                assert(w1@.contains_key(pairs[i].1));
                assert(w2@[pairs[i].1] == w1@[pairs[i].1]);
            } else {
                if i != j0 {
                    assert(pairs[i].1 != pairs[j0].1);
                }
            }
        }
        assert forall|i: int| 0 <= i < pairs.len() && done2.contains(#[trigger] pairs[i].0) implies {
            &&& other@.contains_key(pairs[i].0)
            &&& other@[pairs[i].0] is Some
            &&& w2@.contains_key(pairs[i].1)
            &&& w2@[pairs[i].1] is Some
            &&& w2@[pairs[i].1]->0.dom() == cloned_types(other@[pairs[i].0]->0, w2.cloners_spec())
        } by {
            if pairs[i].0 == o {
                if i != j0 {
                    assert(pairs[i].0 != pairs[j0].0);
                }
            } else {
                assert(done.contains(pairs[i].0));
                if i != j0 {
                    assert(pairs[i].1 != pairs[j0].1);
                }
                assert(w1@.contains_key(pairs[i].1));
            }
        }
    }

    fn copy_ids(ids: &Vec<u64>) -> (r: Vec<u64>)
        ensures
            r@ == ids@,
    {
        let mut r: Vec<u64> = Vec::new();
        let mut i: usize = 0;
        while i < ids.len()
            invariant
                i <= ids@.len(),
                r@ == ids@.subrange(0, i as int),
            decreases ids@.len() - i,
        {
            r.push(ids[i]);
            i = i + 1;
            assert(r@ =~= ids@.subrange(0, i as int));
        }
        assert(r@ =~= ids@);
        r
    }
}


/// The components of a bundle with distinct types are exactly its pairs.
pub proof fn lemma_bundle_map<V>(bundle: Seq<(u64, V)>)
    requires
        bundle_ids_distinct(bundle),
    ensures
        forall|k: int| 0 <= k < bundle.len() ==> #[trigger] bundle_map(bundle).contains_key(bundle[k].0)
            && bundle_map(bundle)[bundle[k].0] == ComponentValue::Value(bundle[k].1),
        forall|t: u64| #[trigger] bundle_map(bundle).contains_key(t) ==> exists|k: int| 0 <= k < bundle.len() && bundle[k].0 == t,
    decreases bundle.len(),
{
    if bundle.len() > 0 {
        let rest = bundle.drop_last();
        assert(bundle_ids_distinct(rest)) by {
            assert forall|i: int, j: int| 0 <= i < j < rest.len() implies rest[i].0 != rest[j].0 by {
                assert(rest[i] == bundle[i] && rest[j] == bundle[j]);
            }
        }
        lemma_bundle_map(rest);
        assert forall|k: int| 0 <= k < bundle.len() implies #[trigger] bundle_map(bundle).contains_key(bundle[k].0)
            && bundle_map(bundle)[bundle[k].0] == ComponentValue::Value(bundle[k].1) by {
            if k < bundle.len() - 1 {
                assert(rest[k] == bundle[k]);
                assert(bundle[k].0 != bundle.last().0);
            }
        }
        assert forall|t: u64| #[trigger] bundle_map(bundle).contains_key(t) implies exists|k: int| 0 <= k < bundle.len() && bundle[k].0 == t by {
            if t != bundle.last().0 {
                let k = choose|k: int| 0 <= k < rest.len() && rest[k].0 == t;
                assert(bundle[k] == rest[k]);
            } else {
                assert(bundle[bundle.len() - 1].0 == t);
            }
        }
    }
}

/// Law: a spawned entity exists and has exactly the components of its bundle, each with the
/// value given.
pub proof fn law_spawn_then_get<V>(before: World<V>, after: World<V>, bundle: Seq<(u64, V)>, e: Entity)
    requires
        bundle_ids_distinct(bundle),
        after@ == before@.insert(e, Some(bundle_map(bundle))),
    ensures
        after@.contains_key(e),
        forall|k: int| 0 <= k < bundle.len() ==> #[trigger] after.has_component(e, bundle[k].0)
            && after@[e]->0[bundle[k].0] == ComponentValue::Value(bundle[k].1),
        forall|t: u64| #[trigger] after.has_component(e, t) ==> exists|k: int| 0 <= k < bundle.len() && bundle[k].0 == t,
{
    lemma_bundle_map(bundle);
}

/// Law: a component added to an entity is there with the value added; removing it again gives
/// that value back and leaves the entity with the other components it had.
pub proof fn law_add_then_remove<V>(w0: World<V>, w1: World<V>, w2: World<V>, e: Entity, t: u64, v: V, removed: Option<ComponentValue<V>>)
    requires
        w0@.contains_key(e),
        w1@ == w0@.insert(e, Some(w0.components_of(e).insert(t, ComponentValue::Value(v)))),
        w1.has_component(e, t) ==> removed == Some(w1@[e]->0[t]) && w2@ == w1@.insert(e, Some(w1@[e]->0.remove(t))),
    ensures
        w1.has_component(e, t),
        w1@[e]->0[t] == ComponentValue::Value(v),
        removed == Some(ComponentValue::<V>::Value(v)),
        w2@[e] == Some(w0.components_of(e).remove(t)),
        forall|x: Entity| x != e ==> #[trigger] w2@.contains_key(x) == w0@.contains_key(x) && w2@[x] == w0@[x],
{
    assert(w1@[e]->0.remove(t) =~= w0.components_of(e).remove(t));
}

/// Law: a despawned entity no longer exists, and every other entity keeps its components.
pub proof fn law_despawn_removes<V>(w0: World<V>, w1: World<V>, e: Entity)
    requires
        w0@.contains_key(e),
        w1@ == w0@.remove(e),
    ensures
        !w1@.contains_key(e),
        forall|x: Entity| x != e ==> #[trigger] w1@.contains_key(x) == w0@.contains_key(x) && w1@[x] == w0@[x],
{
}

} // verus!
