use vstd::prelude::*;

use crate::archetype::{Archetype, ComponentValue};
use crate::entities::{Entity, EntityLocation};
use crate::errors::Error;
use crate::queries::{params_filters, QueryInfo, QueryParameter};
use crate::storage_lookup::{
    archetype_passes, expected_channel, filter_passes, is_matching_result, lemma_index_of_sorted, strictly_sorted,
    ArchetypeMatch, Filter, FilterType,
};
use crate::world::{row_map, World};

verus! {

/// The parts one after the other, the last part first: the order in which a query visits
/// the archetypes it matched.
pub open spec fn chained<T>(parts: Seq<Seq<T>>) -> Seq<T>
    decreases parts.len(),
{
    if parts.len() == 0 {
        Seq::empty()
    } else {
        chained(parts.drop_first()) + parts[0]
    }
}

pub proof fn lemma_chained_step<T>(parts: Seq<Seq<T>>, j: int)
    requires
        0 <= j < parts.len(),
    ensures
        chained(parts.subrange(j, parts.len() as int)) == chained(parts.subrange(j + 1, parts.len() as int)) + parts[j],
{
    let s = parts.subrange(j, parts.len() as int);
    assert(s.drop_first() =~= parts.subrange(j + 1, parts.len() as int));
}

/// An item is in the chained sequence exactly when it is in one of the parts.
pub proof fn lemma_chained_contains<T>(parts: Seq<Seq<T>>, x: T)
    ensures
        chained(parts).contains(x) <==> exists|j: int, r: int|
            0 <= j < parts.len() && 0 <= r < parts[j].len() && #[trigger] parts[j][r] == x,
    decreases parts.len(),
{
    if parts.len() > 0 {
        let rest = parts.drop_first();
        lemma_chained_contains(rest, x);
        let c = chained(rest);
        let all = chained(parts);
        assert(all == c + parts[0]);
        if all.contains(x) {
            let i = choose|i: int| 0 <= i < all.len() && all[i] == x;
            if i < c.len() {
                assert(c[i] == x);
                assert(c.contains(x));
                let (j, r) = choose|j: int, r: int| 0 <= j < rest.len() && 0 <= r < rest[j].len() && #[trigger] rest[j][r] == x;
                assert(parts[j + 1][r] == x);
            } else {
                assert(parts[0][i - c.len()] == x);
            }
        }
        if exists|j: int, r: int| 0 <= j < parts.len() && 0 <= r < parts[j].len() && #[trigger] parts[j][r] == x {
            let (j, r) = choose|j: int, r: int| 0 <= j < parts.len() && 0 <= r < parts[j].len() && #[trigger] parts[j][r] == x;
            if j == 0 {
                assert(all[c.len() + r] == x);
            } else {
                assert(rest[j - 1][r] == x);
                assert(c.contains(x));
                let i = choose|i: int| 0 <= i < c.len() && c[i] == x;
                assert(all[i] == x);
            }
        }
    }
}

/// The components that an entity gives the parameters of a query, `None` where it has none.
pub open spec fn entity_row<V>(world: World<V>, params: Seq<QueryParameter>, e: Entity) -> Seq<Option<ComponentValue<V>>> {
    let comps = world.components_of(e);
    Seq::new(
        params.len(),
        |k: int|
            if comps.contains_key(params[k].type_id) {
                Some(comps[params[k].type_id])
            } else {
                None
            },
    )
}

/// A live entity, placed in an archetype, that has every component that the query requires.
pub open spec fn query_matches<V>(world: World<V>, params: Seq<QueryParameter>, e: Entity) -> bool {
    &&& world@.contains_key(e)
    &&& world@[e] is Some
    &&& forall|k: int| 0 <= k < params.len() && !params[k].optional ==> world@[e]->0.contains_key(#[trigger] params[k].type_id)
}

pub open spec fn deref_row<V>(row: Seq<Option<&ComponentValue<V>>>) -> Seq<Option<ComponentValue<V>>> {
    Seq::new(
        row.len(),
        |k: int|
            match row[k] {
                Some(v) => Some(*v),
                None => None,
            },
    )
}

/// The result of a query on a world: the archetypes that match its parameters, which it
/// visits last first, each from its first entity to its last.
pub struct Query {
    pub info: QueryInfo,
    pub params: Vec<QueryParameter>,
}

impl Query {
    /// The query was made for `world` as it is.
    pub open spec fn valid_for<V>(&self, world: World<V>) -> bool {
        &&& world.wf()
        &&& self.info.describes(world.archetype_type_ids(), self.params@)
    }

    /// The entities of each matched archetype, in the order of the matches.
    pub open spec fn parts<V>(&self, world: World<V>) -> Seq<Seq<Entity>> {
        Seq::new(
            self.info.archetypes@.len(),
            |j: int| world.archetype_seq()[self.info.archetypes@[j].archetype_index as int].entity_seq(),
        )
    }

    /// The entities the query visits, in order.
    pub open spec fn spec_entities<V>(&self, world: World<V>) -> Seq<Entity> {
        chained(self.parts(world))
    }

    proof fn lemma_row<V>(&self, world: World<V>, j: int, r: int)
        requires
            self.valid_for(world),
            0 <= j < self.info.archetypes@.len(),
            0 <= r < world.archetype_seq()[self.info.archetypes@[j].archetype_index as int].entity_seq().len(),
        ensures
            ({
                let m = self.info.archetypes@[j];
                let arch = world.archetype_seq()[m.archetype_index as int];
                let e = arch.entity_seq()[r];
                &&& m.archetype_index < world.archetype_seq().len()
                &&& m.channels@.len() == self.params@.len()
                &&& arch.wf()
                &&& strictly_sorted(arch.type_id_seq())
                &&& world.entities_spec().is_live(e)
                &&& world.entities_spec().location(e) == Some(EntityLocation { archetype_index: m.archetype_index, index_within_archetype: r as usize })
                &&& world@.contains_key(e)
                &&& world@[e] == Some(row_map(arch, r))
                &&& query_matches(world, self.params@, e)
            }),
    {
        world.lemma_bounded();
        let m = self.info.archetypes@[j];
        let a = m.archetype_index as int;
        assert(m.archetype_index < world.archetype_type_ids().len());
        let arch = world.archetype_seq()[a];
        let ids = arch.type_id_seq();
        let filters = params_filters(self.params@);
        assert(world.archetype_type_ids()[a] == ids);
        assert(world.row_ok(a, r));
        let e = arch.entity_seq()[r];
        assert(world.entities_spec().is_live(e));
        assert(world@.contains_key(e));
        let l = world.entities_spec().location(e)->0;
        assert(l.archetype_index as int == a);
        assert(l.index_within_archetype as int == r);
        assert(world@[e] == Some(row_map(arch, r)));
        world.lemma_wf();
        assert(strictly_sorted(ids));
        assert(arch.wf());
        assert(archetype_passes(ids, filters, Seq::empty()));
        assert forall|q: int| 0 <= q < self.params@.len() && !self.params@[q].optional
            implies world@[e]->0.contains_key(#[trigger] self.params@[q].type_id) by {
            assert(filter_passes(ids, filters[q]));
        }
    }

    proof fn lemma_cell<V>(&self, world: World<V>, j: int, r: int, k: int)
        requires
            self.valid_for(world),
            0 <= j < self.info.archetypes@.len(),
            0 <= r < world.archetype_seq()[self.info.archetypes@[j].archetype_index as int].entity_seq().len(),
            0 <= k < self.params@.len(),
        ensures
            ({
                let m = self.info.archetypes@[j];
                let arch = world.archetype_seq()[m.archetype_index as int];
                let e = arch.entity_seq()[r];
                match m.channels@[k] {
                    Some(c) => c < arch.channel_seq().len() && arch.column(c as int).len() == arch.entity_seq().len()
                        && entity_row(world, self.params@, e)[k] == Some(arch.column(c as int)[r]),
                    None => entity_row(world, self.params@, e)[k] is None,
                }
            }),
    {
        self.lemma_row(world, j, r);
        let m = self.info.archetypes@[j];
        let a = m.archetype_index as int;
        let arch = world.archetype_seq()[a];
        let ids = arch.type_id_seq();
        let filters = params_filters(self.params@);
        assert(world.archetype_type_ids()[a] == ids);
        let t = self.params@[k].type_id;
        let e = arch.entity_seq()[r];
        assert(m.channels@[k] == expected_channel(ids, filters[k]));
        assert(filters[k].type_id == t);
        assert(filters[k].filter_type != FilterType::Without);
        assert(world.components_of(e) == row_map(arch, r));
        arch.lemma_bounded();
        if ids.contains(t) {
            let p = ids.index_of(t);
            lemma_index_of_sorted(ids, p);
            assert(arch.column(p).len() == arch.entity_seq().len());
            assert(row_map(arch, r)[t] == arch.row(r)[p]);
            assert(m.channels@[k] == Some(p as usize));
            assert(entity_row(world, self.params@, e)[k] == Some(arch.column(p)[r]));
        } else {
            assert(m.channels@[k] is None);
            assert(!row_map(arch, r).contains_key(t));
        }
    }

    /// The entities that the query visits, in order: every live entity that has the
    /// components the query requires, and no other.
    pub fn entities<V>(&self, world: &World<V>) -> (r: Vec<Entity>)
        requires
            self.valid_for(*world),
        ensures
            r@ == self.spec_entities(*world),
            r@.no_duplicates(),
            forall|e: Entity| r@.contains(e) <==> query_matches(*world, self.params@, e),
    {
        let ghost parts = self.parts(*world);
        let n = self.info.archetypes.len();
        let mut out: Vec<Entity> = Vec::new();
        let mut j: usize = n;
        while j > 0
            invariant
                self.valid_for(*world),
                n == self.info.archetypes@.len(),
                parts == self.parts(*world),
                j <= n,
                out@ == chained(parts.subrange(j as int, n as int)),
                out@.no_duplicates(),
                forall|x: Entity| out@.contains(x) ==> exists|j2: int, r2: int|
                    j <= j2 < n && 0 <= r2 < parts[j2].len() && #[trigger] parts[j2][r2] == x,
            decreases j,
        {
            j = j - 1;
            let m = &self.info.archetypes[j];
            assert(m.archetype_index < world.archetype_type_ids().len());
            let arch = world.borrow_archetype(m.archetype_index);
            let ents = arch.entities();
            let ghost before = out@;
            let mut row: usize = 0;
            assert(parts[j as int] == ents@);
            while row < ents.len()
                invariant
                    self.valid_for(*world),
                    n == self.info.archetypes@.len(),
                    parts == self.parts(*world),
                    j < n,
                    parts[j as int] == ents@,
                    row <= ents@.len(),
                    out@ == before + ents@.subrange(0, row as int),
                    out@.no_duplicates(),
                    forall|x: Entity| out@.contains(x) ==> exists|j2: int, r2: int|
                        j <= j2 < n && 0 <= r2 < parts[j2].len() && (j2 > j || r2 < row) && #[trigger] parts[j2][r2] == x,
                decreases ents@.len() - row,
            {
                proof {
                    if out@.contains(ents@[row as int]) {
                        let (j2, r2) = choose|j2: int, r2: int|
                            j <= j2 < n && 0 <= r2 < parts[j2].len() && (j2 > j || r2 < row) && #[trigger] parts[j2][r2] == ents@[row as int];
                        self.lemma_row(*world, j2, r2);
                        self.lemma_row(*world, j as int, row as int);
                        if j2 != j {
                            assert(self.info.archetypes@[j as int].archetype_index < self.info.archetypes@[j2].archetype_index);
                        }
                    }
                }
                let ghost prev = out@;
                out.push(ents[row]);
                row = row + 1;
                assert(out@ =~= before + ents@.subrange(0, row as int));
                proof {
                    assert forall|x: Entity| out@.contains(x) implies exists|j2: int, r2: int|
                        j <= j2 < n && 0 <= r2 < parts[j2].len() && (j2 > j || r2 < row) && #[trigger] parts[j2][r2] == x by {
                        if x == ents@[row - 1] {
                            assert(parts[j as int][row - 1] == x);
                        } else {
                            assert(prev.contains(x));
                        }
                    }
                    assert forall|a: int, b: int| 0 <= a < b < out@.len() implies out@[a] != out@[b] by {
                        if b == out@.len() - 1 {
                            assert(prev.contains(prev[a]));
                        } else {
                            assert(prev[a] != prev[b]);
                        }
                    }
                }
            }
            proof {
                assert(ents@.subrange(0, row as int) =~= ents@);
                assert(parts[j as int] == ents@);
                lemma_chained_step(parts, j as int);
            }
        }
        proof {
            assert(parts.subrange(0, n as int) =~= parts);
            assert forall|e: Entity| out@.contains(e) <==> query_matches(*world, self.params@, e) by {
                lemma_chained_contains(parts, e);
                if out@.contains(e) {
                    let (j, r) = choose|j: int, r: int| 0 <= j < parts.len() && 0 <= r < parts[j].len() && #[trigger] parts[j][r] == e;
                    self.lemma_row(*world, j, r);
                }
                if query_matches(*world, self.params@, e) {
                    self.lemma_matched_entity_visited(*world, e);
                }
            }
        }
        out
    }

    proof fn lemma_matched_entity_visited<V>(&self, world: World<V>, e: Entity)
        requires
            self.valid_for(world),
            query_matches(world, self.params@, e),
        ensures
            exists|j: int, r: int| 0 <= j < self.parts(world).len() && 0 <= r < self.parts(world)[j].len() && #[trigger] self.parts(world)[j][r] == e,
            exists|j: int| 0 <= j < self.info.archetypes@.len() && #[trigger] self.info.archetypes@[j].archetype_index
                == world.entities_spec().location(e)->0.archetype_index,
    {
        let l = world.entities_spec().location(e)->0;
        assert(world.slot_ok(e.index as int));
        let a = l.archetype_index as int;
        let r = l.index_within_archetype as int;
        let arch = world.archetype_seq()[a];
        let ids = arch.type_id_seq();
        let filters = params_filters(self.params@);
        assert(world.archetype_type_ids()[a] == ids);
        assert(world@[e] == Some(row_map(arch, r)));
        assert(archetype_passes(ids, filters, Seq::empty())) by {
            assert forall|i: int| 0 <= i < filters.len() implies #[trigger] filter_passes(ids, filters[i]) by {
                if !self.params@[i].optional {
                    assert(world@[e]->0.contains_key(self.params@[i].type_id));
                }
            }
        }
        assert(archetype_passes(world.archetype_type_ids()[a], filters, Seq::empty()));
        let j = choose|j: int| 0 <= j < self.info.archetypes@.len() && self.info.archetypes@[j].archetype_index == a;
        assert(self.parts(world)[j][r] == e);
    }
}


pub open spec fn has_param_type(params: Seq<QueryParameter>, type_id: u64, only_written: bool) -> bool {
    exists|k: int| 0 <= k < params.len() && #[trigger] params[k].type_id == type_id && (only_written ==> params[k].write)
}

impl Query {
    /// The components of row `row` of the `j`-th matched archetype, one per parameter.
    fn row_refs<'a, V>(&self, world: &'a World<V>, j: usize, row: usize) -> (r: Vec<Option<&'a ComponentValue<V>>>)
        requires
            self.valid_for(*world),
            j < self.info.archetypes@.len(),
            row < world.archetype_seq()[self.info.archetypes@[j as int].archetype_index as int].entity_seq().len(),
        ensures
            deref_row(r@) == entity_row(*world, self.params@, world.archetype_seq()[self.info.archetypes@[j as int].archetype_index as int].entity_seq()[row as int]),
    {
        let m = &self.info.archetypes[j];
        proof {
            self.lemma_row(*world, j as int, row as int);
        }
        let arch = world.borrow_archetype(m.archetype_index);
        let ghost e = arch.entity_seq()[row as int];
        let mut r: Vec<Option<&'a ComponentValue<V>>> = Vec::new();
        let mut k: usize = 0;
        while k < self.params.len()
            invariant
                self.valid_for(*world),
                j < self.info.archetypes@.len(),
                *m == self.info.archetypes@[j as int],
                *arch == world.archetype_seq()[m.archetype_index as int],
                row < arch.entity_seq().len(),
                e == arch.entity_seq()[row as int],
                m.channels@.len() == self.params@.len(),
                arch.wf(),
                k <= self.params@.len(),
                r@.len() == k,
                forall|i: int| 0 <= i < k ==> deref_row(r@)[i] == #[trigger] entity_row(*world, self.params@, e)[i],
            decreases self.params@.len() - k,
        {
            proof {
                self.lemma_cell(*world, j as int, row as int, k as int);
            }
            match m.channels[k] {
                Some(c) => {
                    r.push(Some(arch.component_at(c, row)));
                },
                None => {
                    r.push(None);
                },
            }
            k = k + 1;
        }
        assert(deref_row(r@) =~= entity_row(*world, self.params@, e));
        r
    }

    /// The components of every entity the query visits, in the order of `entities`, one per
    /// parameter (`None` for an optional component the entity lacks).
    pub fn iter<'a, V>(&self, world: &'a World<V>) -> (r: Vec<Vec<Option<&'a ComponentValue<V>>>>)
        requires
            self.valid_for(*world),
        ensures
            r@.len() == self.spec_entities(*world).len(),
            forall|i: int| 0 <= i < r@.len() ==> deref_row(#[trigger] r@[i]@) == entity_row(*world, self.params@, self.spec_entities(*world)[i]),
    {
        let ghost parts = self.parts(*world);
        let n = self.info.archetypes.len();
        let mut out: Vec<Vec<Option<&'a ComponentValue<V>>>> = Vec::new();
        let ghost mut ents: Seq<Entity> = Seq::empty();
        let mut j: usize = n;
        while j > 0
            invariant
                self.valid_for(*world),
                n == self.info.archetypes@.len(),
                parts == self.parts(*world),
                j <= n,
                ents == chained(parts.subrange(j as int, n as int)),
                out@.len() == ents.len(),
                forall|i: int| 0 <= i < out@.len() ==> deref_row(#[trigger] out@[i]@) == entity_row(*world, self.params@, ents[i]),
            decreases j,
        {
            j = j - 1;
            let m = &self.info.archetypes[j];
            assert(m.archetype_index < world.archetype_type_ids().len());
            let arch = world.borrow_archetype(m.archetype_index);
            let len = arch.entities().len();
            let ghost before = ents;
            let mut row: usize = 0;
            while row < len
                invariant
                    self.valid_for(*world),
                    j < n,
                    n == self.info.archetypes@.len(),
                    *m == self.info.archetypes@[j as int],
                    *arch == world.archetype_seq()[m.archetype_index as int],
                    len == arch.entity_seq().len(),
                    row <= len,
                    ents == before + arch.entity_seq().subrange(0, row as int),
                    out@.len() == ents.len(),
                    forall|i: int| 0 <= i < out@.len() ==> deref_row(#[trigger] out@[i]@) == entity_row(*world, self.params@, ents[i]),
                decreases len - row,
            {
                let cells = self.row_refs(world, j, row);
                out.push(cells);
                proof {
                    ents = ents.push(arch.entity_seq()[row as int]);
                }
                row = row + 1;
                assert(ents =~= before + arch.entity_seq().subrange(0, row as int));
            }
            proof {
                assert(arch.entity_seq().subrange(0, row as int) =~= arch.entity_seq());
                assert(parts[j as int] == arch.entity_seq());
                lemma_chained_step(parts, j as int);
            }
        }
        assert(parts.subrange(0, n as int) =~= parts);
        out
    }

    /// Each entity the query visits, in order, with its components as `iter` gives them.
    pub fn entities_and_components<'a, V>(&self, world: &'a World<V>) -> (r: Vec<(Entity, Vec<Option<&'a ComponentValue<V>>>)>)
        requires
            self.valid_for(*world),
        ensures
            r@.len() == self.spec_entities(*world).len(),
            forall|i: int| 0 <= i < r@.len() ==> (#[trigger] r@[i]).0 == self.spec_entities(*world)[i]
                && deref_row(r@[i].1@) == entity_row(*world, self.params@, self.spec_entities(*world)[i]),
    {
        let ghost parts = self.parts(*world);
        let n = self.info.archetypes.len();
        let mut out: Vec<(Entity, Vec<Option<&'a ComponentValue<V>>>)> = Vec::new();
        let ghost mut ents: Seq<Entity> = Seq::empty();
        let mut j: usize = n;
        while j > 0
            invariant
                self.valid_for(*world),
                n == self.info.archetypes@.len(),
                parts == self.parts(*world),
                j <= n,
                ents == chained(parts.subrange(j as int, n as int)),
                out@.len() == ents.len(),
                forall|i: int| 0 <= i < out@.len() ==> (#[trigger] out@[i]).0 == ents[i]
                    && deref_row(out@[i].1@) == entity_row(*world, self.params@, ents[i]),
            decreases j,
        {
            j = j - 1;
            let m = &self.info.archetypes[j];
            assert(m.archetype_index < world.archetype_type_ids().len());
            let arch = world.borrow_archetype(m.archetype_index);
            let entity_list = arch.entities();
            let ghost before = ents;
            let mut row: usize = 0;
            while row < entity_list.len()
                invariant
                    self.valid_for(*world),
                    j < n,
                    n == self.info.archetypes@.len(),
                    *m == self.info.archetypes@[j as int],
                    *arch == world.archetype_seq()[m.archetype_index as int],
                    entity_list@ == arch.entity_seq(),
                    row <= entity_list@.len(),
                    ents == before + arch.entity_seq().subrange(0, row as int),
                    out@.len() == ents.len(),
                    forall|i: int| 0 <= i < out@.len() ==> (#[trigger] out@[i]).0 == ents[i]
                        && deref_row(out@[i].1@) == entity_row(*world, self.params@, ents[i]),
                decreases entity_list@.len() - row,
            {
                let cells = self.row_refs(world, j, row);
                out.push((entity_list[row], cells));
                proof {
                    ents = ents.push(arch.entity_seq()[row as int]);
                }
                row = row + 1;
                assert(ents =~= before + arch.entity_seq().subrange(0, row as int));
            }
            proof {
                assert(arch.entity_seq().subrange(0, row as int) =~= arch.entity_seq());
                assert(parts[j as int] == arch.entity_seq());
                lemma_chained_step(parts, j as int);
            }
        }
        assert(parts.subrange(0, n as int) =~= parts);
        out
    }

    /// The position among the matched archetypes of the archetype of a live, placed entity,
    /// `None` if the query did not match that archetype.
    fn find_match<V>(&self, world: &World<V>, entity: Entity) -> (r: Option<(usize, EntityLocation)>)
        requires
            self.valid_for(*world),
        ensures
            r is Some <==> query_matches(*world, self.params@, entity),
            r matches Some((j, l)) ==> {
                &&& j < self.info.archetypes@.len()
                &&& world.entities_spec().location(entity) == Some(l)
                &&& self.info.archetypes@[j as int].archetype_index == l.archetype_index
                &&& l.archetype_index < world.archetype_seq().len()
                &&& l.index_within_archetype < world.archetype_seq()[l.archetype_index as int].entity_seq().len()
                &&& world.archetype_seq()[l.archetype_index as int].entity_seq()[l.index_within_archetype as int] == entity
            },
    {
        let loc = match world.entities().get_location(entity) {
            Some(Some(l)) => l,
            _ => {
                return None;
            },
        };
        proof {
            assert(world.slot_ok(entity.index as int));
        }
        let mut j: usize = 0;
        while j < self.info.archetypes.len()
            invariant
                self.valid_for(*world),
                j <= self.info.archetypes@.len(),
                world.entities_spec().location(entity) == Some(loc),
                world.entities_spec().is_live(entity),
                loc.archetype_index < world.archetype_seq().len(),
                loc.index_within_archetype < world.archetype_seq()[loc.archetype_index as int].entity_seq().len(),
                world.archetype_seq()[loc.archetype_index as int].entity_seq()[loc.index_within_archetype as int] == entity,
                forall|i: int| 0 <= i < j ==> (#[trigger] self.info.archetypes@[i]).archetype_index != loc.archetype_index,
            decreases self.info.archetypes@.len() - j,
        {
            if self.info.archetypes[j].archetype_index == loc.archetype_index {
                proof {
                    self.lemma_row(*world, j as int, loc.index_within_archetype as int);
                }
                return Some((j, loc));
            }
            j = j + 1;
        }
        proof {
            if query_matches(*world, self.params@, entity) {
                self.lemma_matched_entity_visited(*world, entity);
            }
        }
        None
    }

    /// The component of type `type_id` of `entity`, found through the query: `None` unless
    /// the query visits the entity, has a parameter of that type and the entity has it.
    pub fn get_component<'a, V>(&self, world: &'a World<V>, entity: Entity, type_id: u64) -> (r: Option<&'a ComponentValue<V>>)
        requires
            self.valid_for(*world),
        ensures
            r is Some <==> query_matches(*world, self.params@, entity) && has_param_type(self.params@, type_id, false)
                && world.components_of(entity).contains_key(type_id),
            r matches Some(v) ==> *v == world.components_of(entity)[type_id],
    {
        let (j, loc) = match self.find_match(world, entity) {
            Some(p) => p,
            None => {
                return None;
            },
        };
        let m = &self.info.archetypes[j];
        let arch = world.borrow_archetype(loc.archetype_index);
        let ghost row_cells = entity_row(*world, self.params@, entity);
        let mut k: usize = 0;
        while k < self.params.len()
            invariant
                self.valid_for(*world),
                j < self.info.archetypes@.len(),
                *m == self.info.archetypes@[j as int],
                m.archetype_index == loc.archetype_index,
                *arch == world.archetype_seq()[loc.archetype_index as int],
                loc.index_within_archetype < arch.entity_seq().len(),
                arch.entity_seq()[loc.index_within_archetype as int] == entity,
                row_cells == entity_row(*world, self.params@, entity),
                query_matches(*world, self.params@, entity),
                k <= self.params@.len(),
                forall|i: int| 0 <= i < k && (#[trigger] self.params@[i]).type_id == type_id ==> row_cells[i] is None,
            decreases self.params@.len() - k,
        {
            proof {
                self.lemma_cell(*world, j as int, loc.index_within_archetype as int, k as int);
            }
            if self.params[k].type_id == type_id {
                match m.channels[k] {
                    Some(c) => {
                        proof {
                            assert(has_param_type(self.params@, type_id, false)) by {
                                assert(self.params@[k as int].type_id == type_id);
                            }
                        }
                        return Some(arch.component_at(c, loc.index_within_archetype));
                    },
                    None => {},
                }
            }
            k = k + 1;
        }
        proof {
            if has_param_type(self.params@, type_id, false) && world.components_of(entity).contains_key(type_id) {
                let i = choose|i: int| 0 <= i < self.params@.len() && #[trigger] self.params@[i].type_id == type_id && (false ==> self.params@[i].write);
                assert(row_cells[i] is Some);
            }
        }
        None
    }

    /// The components of `entity` for every parameter, as `iter` gives them; `None` unless
    /// the query visits the entity.
    pub fn get_entity_components<'a, V>(&self, world: &'a World<V>, entity: Entity) -> (r: Option<Vec<Option<&'a ComponentValue<V>>>>)
        requires
            self.valid_for(*world),
        ensures
            r is Some <==> query_matches(*world, self.params@, entity),
            r matches Some(row) ==> deref_row(row@) == entity_row(*world, self.params@, entity),
    {
        match self.find_match(world, entity) {
            Some((j, loc)) => Some(self.row_refs(world, j, loc.index_within_archetype)),
            None => None,
        }
    }
}


/// Two parameters of a query access the same component type in an archetype that the query
/// matches, and one of them writes it: the second borrow of that channel cannot be taken.
pub open spec fn query_self_conflict(type_ids: Seq<Seq<u64>>, params: Seq<QueryParameter>) -> bool {
    exists|a: int, k1: int, k2: int| conflict_in(type_ids, params, a, k1, k2)
}

pub open spec fn conflict_in(type_ids: Seq<Seq<u64>>, params: Seq<QueryParameter>, a: int, k1: int, k2: int) -> bool {
    &&& 0 <= a < type_ids.len()
    &&& 0 <= k1 < k2 < params.len()
    &&& archetype_passes(type_ids[a], params_filters(params), Seq::empty())
    &&& params[k1].type_id == params[k2].type_id
    &&& (params[k1].write || params[k2].write)
    &&& type_ids[a].contains(params[k2].type_id)
}

impl<V> World<V> {
    /// The archetypes that match `params`, with the channel of each parameter in each: what
    /// a query needs before it borrows anything.
    pub fn query_info(&self, params: Vec<QueryParameter>) -> (q: Query)
        requires
            self.wf(),
            self.archetype_seq().len() < usize::MAX,
            exists|k: int| 0 <= k < params@.len() && !(#[trigger] params@[k]).optional,
        ensures
            q.valid_for(*self),
            q.params@ == params@,
    {
        let n = params.len();
        let mut filters: Vec<Filter> = Vec::new();
        let mut write: Vec<bool> = Vec::new();
        let mut type_ids: Vec<u64> = Vec::new();
        let mut k: usize = 0;
        while k < n
            invariant
                n == params@.len(),
                k <= n,
                filters@ == params_filters(params@).subrange(0, k as int),
                write@ == Seq::new(k as nat, |i: int| params@[i].write),
                type_ids@ == Seq::new(k as nat, |i: int| params@[i].type_id),
            decreases n - k,
        {
            filters.push(params[k].filter());
            write.push(params[k].write);
            type_ids.push(params[k].type_id);
            k = k + 1;
            assert(filters@ =~= params_filters(params@).subrange(0, k as int));
            assert(write@ =~= Seq::new(k as nat, |i: int| params@[i].write));
            assert(type_ids@ =~= Seq::new(k as nat, |i: int| params@[i].type_id));
        }
        assert(filters@ =~= params_filters(params@));
        proof {
            assert(self.lookup_spec().archetypes().len() == self.archetype_seq().len());
            let w = choose|k: int| 0 <= k < params@.len() && !(#[trigger] params@[k]).optional;
            assert(filters@[w].filter_type == FilterType::With);
            self.lookup_spec().lemma_with_goes_first(filters@);
        }
        let empty: Vec<Filter> = Vec::new();
        assert(empty@ =~= Seq::<Filter>::empty());
        let archetypes = self.storage_lookup().get_matching_archetypes(filters.as_slice(), empty.as_slice());
        let q = Query { info: QueryInfo { archetypes, write, type_ids }, params };
        assert(q.info.describes(self.archetype_type_ids(), q.params@));
        q
    }

    /// Queries the world for the entities that have the components `params` require:
    /// `Err(CouldNotBorrowComponent(t))` if two parameters would borrow the same channel of
    /// type `t` and one of them writes it.
    pub fn query(&self, params: Vec<QueryParameter>) -> (r: Result<Query, Error>)
        requires
            self.wf(),
            self.archetype_seq().len() < usize::MAX,
            exists|k: int| 0 <= k < params@.len() && !(#[trigger] params@[k]).optional,
        ensures
            r is Ok <==> !query_self_conflict(self.archetype_type_ids(), params@),
            r matches Ok(q) ==> q.valid_for(*self) && q.params@ == params@,
            r matches Err(e) ==> exists|a: int, k1: int, k2: int|
                conflict_in(self.archetype_type_ids(), params@, a, k1, k2)
                    && e == Error::CouldNotBorrowComponent(params@[k2].type_id),
    {
        let ghost orig = params@;
        let q = self.query_info(params);
        let n = q.params.len();
        let archetypes = &q.info.archetypes;
        let ps = &q.params;
        let ghost tids = self.archetype_type_ids();
        assert(is_matching_result(tids, params_filters(ps@), Seq::empty(), archetypes@));
        let mut j: usize = 0;
        while j < archetypes.len()
            invariant
                self.wf(),
                tids == self.archetype_type_ids(),
                ps@ == orig,
                orig == params@,
                n == ps@.len(),
                is_matching_result(tids, params_filters(ps@), Seq::empty(), archetypes@),
                j <= archetypes@.len(),
                forall|i: int, k1: int, k2: int| 0 <= i < j && #[trigger] conflict_in(tids, ps@, archetypes@[i].archetype_index as int, k1, k2) ==> false,
            decreases archetypes@.len() - j,
        {
            let m = &archetypes[j];
            let ghost ids = tids[m.archetype_index as int];
            assert(m.archetype_index < tids.len());
            let mut k2: usize = 0;
            while k2 < n
                invariant
                    self.wf(),
                    tids == self.archetype_type_ids(),
                    ps@ == orig,
                    orig == params@,
                    n == ps@.len(),
                    is_matching_result(tids, params_filters(ps@), Seq::empty(), archetypes@),
                    j < archetypes@.len(),
                    *m == archetypes@[j as int],
                    ids == tids[m.archetype_index as int],
                    m.archetype_index < tids.len(),
                    k2 <= n,
                    forall|k1: int, kk: int| 0 <= kk < k2 && #[trigger] conflict_in(tids, ps@, m.archetype_index as int, k1, kk) ==> false,
                decreases n - k2,
            {
                let mut k1: usize = 0;
                while k1 < k2
                    invariant
                        self.wf(),
                        tids == self.archetype_type_ids(),
                        ps@ == orig,
                        orig == params@,
                    ps@ == orig,
                    orig == params@,
                        n == ps@.len(),
                        is_matching_result(tids, params_filters(ps@), Seq::empty(), archetypes@),
                        j < archetypes@.len(),
                        *m == archetypes@[j as int],
                        ids == tids[m.archetype_index as int],
                        m.archetype_index < tids.len(),
                        k2 < n,
                        k1 <= k2,
                        forall|kk: int| 0 <= kk < k1 ==> !#[trigger] conflict_in(tids, ps@, m.archetype_index as int, kk, k2 as int),
                    decreases k2 - k1,
                {
                    proof {
                        let filters_spec = params_filters(ps@);
                        assert(m.channels@ == crate::storage_lookup::expected_channels(ids, filters_spec));
                        assert(m.channels@[k2 as int] == expected_channel(ids, filters_spec[k2 as int]));
                        assert(filters_spec[k2 as int].type_id == ps@[k2 as int].type_id);
                        assert(archetype_passes(ids, filters_spec, Seq::empty()));
                    }
                    if ps[k1].type_id == ps[k2].type_id && (ps[k1].write || ps[k2].write)
                        && m.channels[k2].is_some() {
                        assert(conflict_in(tids, ps@, m.archetype_index as int, k1 as int, k2 as int));
                        assert(conflict_in(self.archetype_type_ids(), orig, m.archetype_index as int, k1 as int, k2 as int));
                        assert(query_self_conflict(self.archetype_type_ids(), orig));
                        return Err(Error::CouldNotBorrowComponent(ps[k2].type_id));
                    }
                    k1 = k1 + 1;
                }
                k2 = k2 + 1;
            }
            j = j + 1;
        }
        proof {
            assert forall|a: int, k1: int, k2: int| !conflict_in(tids, ps@, a, k1, k2) by {
                if conflict_in(tids, ps@, a, k1, k2) {
                    let i = choose|i: int| 0 <= i < archetypes@.len() && archetypes@[i].archetype_index == a;
                    assert(conflict_in(tids, ps@, archetypes@[i].archetype_index as int, k1, k2));
                }
            }
        }
        Ok(q)
    }
}


impl Query {
    /// Mutable access to the component of parameter `k` of `entity`: `None` unless the query
    /// visits the entity, parameter `k` writes and the entity has that component.
    fn param_mut<'a, V>(&self, world: &'a mut World<V>, entity: Entity, k: usize) -> (r: Option<&'a mut ComponentValue<V>>)
        requires
            self.valid_for(*old(world)),
            query_matches(*old(world), self.params@, entity),
            k < self.params@.len(),
        ensures
            r is Some <==> self.params@[k as int].write && entity_row(*old(world), self.params@, entity)[k as int] is Some,
            r is None ==> *final(world) == *old(world),
            r matches Some(v) ==> {
                &&& Some(*v) == entity_row(*old(world), self.params@, entity)[k as int]
                &&& World::replaced_at(*old(world), *final(world), entity, self.params@[k as int].type_id, *final(v))
            },
    {
        if !self.params[k].write {
            return None;
        }
        world.get_component_mut(entity, self.params[k].type_id)
    }

    /// Mutable access to the component of type `type_id` of `entity`, found through the query:
    /// `None` unless the query visits the entity, has a parameter of that type that writes,
    /// and the entity has the component.
    pub fn get_component_mut<'a, V>(&self, world: &'a mut World<V>, entity: Entity, type_id: u64) -> (r: Option<&'a mut ComponentValue<V>>)
        requires
            self.valid_for(*old(world)),
        ensures
            r is Some <==> query_matches(*old(world), self.params@, entity) && has_param_type(self.params@, type_id, true)
                && old(world).components_of(entity).contains_key(type_id),
            r is None ==> *final(world) == *old(world),
            r matches Some(v) ==> {
                &&& *v == old(world).components_of(entity)[type_id]
                &&& World::replaced_at(*old(world), *final(world), entity, type_id, *final(v))
            },
    {
        match self.find_match(world, entity) {
            Some(_) => {},
            None => {
                return None;
            },
        }
        let mut k: usize = 0;
        while k < self.params.len()
            invariant
                *world == *old(world),
                self.valid_for(*world),
                query_matches(*world, self.params@, entity),
                k <= self.params@.len(),
                forall|i: int| 0 <= i < k ==> !(#[trigger] self.params@[i].type_id == type_id && self.params@[i].write),
            decreases self.params@.len() - k,
        {
            if self.params[k].type_id == type_id && self.params[k].write {
                assert(has_param_type(self.params@, type_id, true));
                return world.get_component_mut(entity, type_id);
            }
            k = k + 1;
        }
        None
    }

    /// The mutable form of `iter`, one component at a time: the component of parameter `k`
    /// of the `row`-th entity the query visits. `None` if there is no such row or parameter,
    /// the parameter does not write, or the entity lacks the optional component.
    pub fn iter_mut<'a, V>(&self, world: &'a mut World<V>, row: usize, k: usize) -> (r: Option<&'a mut ComponentValue<V>>)
        requires
            self.valid_for(*old(world)),
        ensures
            r is Some <==> row < self.spec_entities(*old(world)).len() && k < self.params@.len() && self.params@[k as int].write
                && entity_row(*old(world), self.params@, self.spec_entities(*old(world))[row as int])[k as int] is Some,
            r is None ==> *final(world) == *old(world),
            r matches Some(v) ==> {
                let e = self.spec_entities(*old(world))[row as int];
                &&& Some(*v) == entity_row(*old(world), self.params@, e)[k as int]
                &&& World::replaced_at(*old(world), *final(world), e, self.params@[k as int].type_id, *final(v))
            },
    {
        let ents = self.entities(world);
        if row >= ents.len() || k >= self.params.len() {
            return None;
        }
        let e = ents[row];
        assert(ents@.contains(e));
        self.param_mut(world, e, k)
    }

    /// `iter_mut` together with the entity of the row.
    pub fn entities_and_components_mut<'a, V>(&self, world: &'a mut World<V>, row: usize, k: usize) -> (r: Option<(Entity, &'a mut ComponentValue<V>)>)
        requires
            self.valid_for(*old(world)),
        ensures
            r is Some <==> row < self.spec_entities(*old(world)).len() && k < self.params@.len() && self.params@[k as int].write
                && entity_row(*old(world), self.params@, self.spec_entities(*old(world))[row as int])[k as int] is Some,
            r is None ==> *final(world) == *old(world),
            r matches Some((e, v)) ==> {
                &&& e == self.spec_entities(*old(world))[row as int]
                &&& Some(*v) == entity_row(*old(world), self.params@, e)[k as int]
                &&& World::replaced_at(*old(world), *final(world), e, self.params@[k as int].type_id, *final(v))
            },
    {
        let ents = self.entities(world);
        if row >= ents.len() || k >= self.params.len() {
            return None;
        }
        let e = ents[row];
        assert(ents@.contains(e));
        match self.param_mut(world, e, k) {
            Some(v) => Some((e, v)),
            None => None,
        }
    }

    /// Mutable access to the component of parameter `k` of `entity`: `None` unless the query
    /// visits the entity, parameter `k` writes, and the entity has that component.
    pub fn get_entity_components_mut<'a, V>(&self, world: &'a mut World<V>, entity: Entity, k: usize) -> (r: Option<&'a mut ComponentValue<V>>)
        requires
            self.valid_for(*old(world)),
        ensures
            r is Some <==> query_matches(*old(world), self.params@, entity) && k < self.params@.len() && self.params@[k as int].write
                && entity_row(*old(world), self.params@, entity)[k as int] is Some,
            r is None ==> *final(world) == *old(world),
            r matches Some(v) ==> {
                &&& Some(*v) == entity_row(*old(world), self.params@, entity)[k as int]
                &&& World::replaced_at(*old(world), *final(world), entity, self.params@[k as int].type_id, *final(v))
            },
    {
        if k >= self.params.len() {
            return None;
        }
        match self.find_match(world, entity) {
            Some(_) => self.param_mut(world, entity, k),
            None => None,
        }
    }
}

/// Law: a query with two parameters of the same component type, at least one of which
/// writes, conflicts with itself on a world with an archetype that has that type and every
/// type the query requires: `World::query` refuses it with
/// `CouldNotBorrowComponent` of that type.
pub proof fn law_query_refuses_write_overlap(
    type_ids: Seq<Seq<u64>>,
    params: Seq<QueryParameter>,
    a: int,
    k1: int,
    k2: int,
)
    requires
        0 <= a < type_ids.len(),
        0 <= k1 < params.len(),
        0 <= k2 < params.len(),
        k1 != k2,
        params[k1].type_id == params[k2].type_id,
        params[k1].write || params[k2].write,
        type_ids[a].contains(params[k1].type_id),
        forall|k: int| 0 <= k < params.len() && !params[k].optional ==> type_ids[a].contains(#[trigger] params[k].type_id),
    ensures
        query_self_conflict(type_ids, params),
{
    let filters = params_filters(params);
    assert forall|i: int| 0 <= i < filters.len() implies #[trigger] filter_passes(type_ids[a], filters[i]) by {
        if !params[i].optional {
            assert(type_ids[a].contains(params[i].type_id));
        }
    }
    assert(archetype_passes(type_ids[a], filters, Seq::empty()));
    if k1 < k2 {
        assert(conflict_in(type_ids, params, a, k1, k2));
    } else {
        assert(conflict_in(type_ids, params, a, k2, k1));
    }
}

} // verus!
