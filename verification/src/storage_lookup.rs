use std::collections::HashMap;
use vstd::prelude::*;

use crate::sparse_set::SparseSet;

verus! {

/// Where a component type is stored within one archetype.
#[derive(Clone, Copy, Debug)]
pub struct ComponentArchetypeInfo {
    pub archetype_index: usize,
    pub channel_in_archetype: usize,
}

/// The archetypes that hold a component type, keyed by archetype index.
pub struct ComponentInfo {
    pub archetypes: SparseSet<ComponentArchetypeInfo>,
}

#[derive(Clone, Copy, Debug, PartialEq, Eq, Structural)]
pub enum FilterType {
    With,
    Without,
    Optional,
}

/// A condition on the component types of an archetype. `type_id` names a component type.
#[derive(Clone, Copy, Debug, PartialEq, Eq, Structural)]
pub struct Filter {
    pub filter_type: FilterType,
    pub type_id: u64,
}

/// An archetype that matches a query, with the channel of each requirement in it
/// (`None` for a requirement that is optional and absent, or that excludes a type).
#[derive(Debug)]
pub struct ArchetypeMatch {
    pub archetype_index: usize,
    pub channels: Vec<Option<usize>>,
    // Used for scheduling
    pub resource_indices: Vec<Option<usize>>,
}

/// Strictly increasing: no type id twice, in order.
pub open spec fn strictly_sorted(s: Seq<u64>) -> bool {
    forall|i: int, j: int| 0 <= i < j < s.len() ==> s[i] < s[j]
}

pub open spec fn filter_passes(ids: Seq<u64>, f: Filter) -> bool {
    match f.filter_type {
        FilterType::With => ids.contains(f.type_id),
        FilterType::Without => !ids.contains(f.type_id),
        FilterType::Optional => true,
    }
}

/// Whether an archetype with these component types matches every requirement and filter.
pub open spec fn archetype_passes(ids: Seq<u64>, requirements: Seq<Filter>, filters: Seq<Filter>) -> bool {
    &&& forall|i: int| 0 <= i < requirements.len() ==> #[trigger] filter_passes(ids, requirements[i])
    &&& forall|i: int| 0 <= i < filters.len() ==> #[trigger] filter_passes(ids, filters[i])
}

/// The channel that a requirement is given in an archetype with these component types.
pub open spec fn expected_channel(ids: Seq<u64>, f: Filter) -> Option<usize> {
    match f.filter_type {
        FilterType::Without => None,
        _ => if ids.contains(f.type_id) {
            Some(ids.index_of(f.type_id) as usize)
        } else {
            None
        },
    }
}

pub open spec fn expected_channels(ids: Seq<u64>, requirements: Seq<Filter>) -> Seq<Option<usize>> {
    Seq::new(requirements.len(), |i: int| expected_channel(ids, requirements[i]))
}

/// What `get_matching_archetypes` returns for archetypes with the type ids `archetypes`:
/// every matching archetype once, in increasing index order, with its channels.
pub open spec fn is_matching_result(
    archetypes: Seq<Seq<u64>>,
    requirements: Seq<Filter>,
    filters: Seq<Filter>,
    r: Seq<ArchetypeMatch>,
) -> bool {
    &&& forall|j: int|
        0 <= j < r.len() ==> {
            &&& #[trigger] r[j].archetype_index < archetypes.len()
            &&& archetype_passes(archetypes[r[j].archetype_index as int], requirements, filters)
            &&& r[j].channels@ == expected_channels(archetypes[r[j].archetype_index as int], requirements)
            &&& r[j].resource_indices@ == Seq::new(requirements.len(), |i: int| None::<usize>)
        }
    &&& forall|j: int, k: int| 0 <= j < k < r.len() ==> r[j].archetype_index < r[k].archetype_index
    &&& forall|a: int|
        0 <= a < archetypes.len() && archetype_passes(#[trigger] archetypes[a], requirements, filters)
            ==> exists|j: int| 0 <= j < r.len() && r[j].archetype_index == a
}

/// How many (archetype, component type) entries the archetypes declare in all.
pub open spec fn entry_total(archetypes: Seq<Seq<u64>>) -> int
    decreases archetypes.len(),
{
    if archetypes.len() == 0 {
        0
    } else {
        entry_total(archetypes.drop_last()) + archetypes.last().len()
    }
}

/// `x`, or `usize::MAX` if it is larger.
pub open spec fn saturated(x: int) -> int {
    if x < usize::MAX {
        x
    } else {
        usize::MAX as int
    }
}

proof fn lemma_entry_total_nonneg(archetypes: Seq<Seq<u64>>)
    ensures
        entry_total(archetypes) >= 0,
    decreases archetypes.len(),
{
    if archetypes.len() > 0 {
        lemma_entry_total_nonneg(archetypes.drop_last());
    }
}

/// Distinct archetypes that each declare a type are no more than the declared entries.
proof fn lemma_keys_within_total(archetypes: Seq<Seq<u64>>, keys: Seq<usize>)
    requires
        forall|i: int, j: int| 0 <= i < j < keys.len() ==> keys[i] < keys[j],
        forall|i: int| 0 <= i < keys.len() ==> keys[i] < archetypes.len() && archetypes[keys[i] as int].len() > 0,
    ensures
        keys.len() <= entry_total(archetypes),
    decreases archetypes.len(),
{
    lemma_entry_total_nonneg(archetypes);
    if keys.len() > 0 {
        let dl = archetypes.drop_last();
        if keys.last() == archetypes.len() - 1 {
            let kd = keys.drop_last();
            assert forall|i: int| 0 <= i < kd.len() implies kd[i] < dl.len() && dl[kd[i] as int].len() > 0 by {
                assert(keys[i] < keys[keys.len() - 1]);
            }
            lemma_keys_within_total(dl, kd);
        } else {
            assert forall|i: int| 0 <= i < keys.len() implies keys[i] < dl.len() && dl[keys[i] as int].len() > 0 by {
                if i < keys.len() - 1 {
                    assert(keys[i] < keys[keys.len() - 1]);
                }
            }
            lemma_keys_within_total(dl, keys);
        }
    }
}

// This operates under the assumption that Archetypes are never deallocated.
pub struct StorageLookup {
    archetype_count: usize,
    component_info: HashMap<u64, ComponentInfo>,
    archetype_type_ids: Vec<Vec<u64>>,
}

impl StorageLookup {
    /// The sorted component type ids of each declared archetype, by archetype index.
    pub closed spec fn archetypes(&self) -> Seq<Seq<u64>> {
        Seq::new(self.archetype_type_ids@.len(), |a: int| self.archetype_type_ids@[a]@)
    }

    /// How many declared archetypes contain component type `c`.
    pub closed spec fn count_containing(&self, c: u64) -> int {
        if self.component_info@.contains_key(c) {
            self.component_info@[c].archetypes.dense_values().len() as int
        } else {
            0
        }
    }

    /// How many (archetype, component type) entries have been declared.
    #[verifier::opaque]
    pub closed spec fn declared_entries(&self) -> int {
        entry_total(self.archetypes())
    }

    pub closed spec fn registered(&self, c: u64) -> bool {
        self.component_info@.contains_key(c)
    }

    closed spec fn info_wf(&self, c: u64) -> bool {
        let info = self.component_info@[c];
        &&& info.archetypes.wf()
        &&& forall|a: usize|
            #[trigger] info.archetypes@.contains_key(a) <==> (a < self.archetype_type_ids@.len()
                && self.archetype_type_ids@[a as int]@.contains(c))
        &&& forall|a: usize|
            #[trigger] info.archetypes@.contains_key(a) ==> {
                &&& info.archetypes@[a].archetype_index == a
                &&& info.archetypes@[a].channel_in_archetype < self.archetype_type_ids@[a as int]@.len()
                &&& self.archetype_type_ids@[a as int]@[info.archetypes@[a].channel_in_archetype as int] == c
            }
        &&& forall|i: int, j: int|
            0 <= i < j < info.archetypes.dense_keys().len() ==> info.archetypes.dense_keys()[i]
                < info.archetypes.dense_keys()[j]
    }

    pub closed spec fn wf(&self) -> bool {
        &&& self.archetype_count == saturated(self.declared_entries())
        &&& self.archetype_type_ids@.len() <= usize::MAX
        &&& forall|a: int|
            0 <= a < self.archetype_type_ids@.len() ==> strictly_sorted(
                #[trigger] self.archetype_type_ids@[a]@,
            )
        &&& forall|c: u64| #[trigger] self.component_info@.contains_key(c) ==> self.info_wf(c)
        &&& forall|a: int, p: int|
            0 <= a < self.archetype_type_ids@.len() && 0 <= p < self.archetype_type_ids@[a]@.len()
                ==> self.component_info@.contains_key(#[trigger] self.archetype_type_ids@[a]@[p])
    }

    pub proof fn lemma_wf(&self)
        requires
            self.wf(),
        ensures
            forall|a: int| 0 <= a < self.archetypes().len() ==> strictly_sorted(#[trigger] self.archetypes()[a]),
            forall|c: u64| #[trigger] self.count_containing(c) <= self.archetypes().len(),
    {
        assert forall|c: u64| #[trigger] self.count_containing(c) <= self.archetypes().len() by {
            if self.component_info@.contains_key(c) {
                let info = self.component_info@[c];
                assert(self.info_wf(c));
                info.archetypes.lemma_dense_matches_map();
                let keys = info.archetypes.dense_keys();
                assert forall|i: int| 0 <= i < keys.len() implies keys[i] < self.archetype_type_ids@.len() by {
                    assert(info.archetypes@.contains_key(keys[i]));
                }
                lemma_increasing_bounded(keys, self.archetype_type_ids@.len() as int);
            }
        }
    }

    /// No more archetypes hold a type than there are declared entries.
    proof fn lemma_count_within_total(&self, c: u64)
        requires
            self.wf(),
        ensures
            self.count_containing(c) <= saturated(self.declared_entries()),
    {
        reveal(StorageLookup::declared_entries);
        {
            lemma_entry_total_nonneg(self.archetypes());
            if self.component_info@.contains_key(c) {
                let info = self.component_info@[c];
                assert(self.info_wf(c));
                info.archetypes.lemma_dense_matches_map();
                let keys = info.archetypes.dense_keys();
                assert forall|i: int| 0 <= i < keys.len() implies keys[i] < self.archetype_type_ids@.len() by {
                    assert(info.archetypes@.contains_key(keys[i]));
                }
                lemma_increasing_bounded(keys, self.archetype_type_ids@.len() as int);
                assert forall|i: int| 0 <= i < keys.len() implies keys[i] < self.archetypes().len()
                    && self.archetypes()[keys[i] as int].len() > 0 by {
                    assert(info.archetypes@.contains_key(keys[i]));
                    assert(self.archetype_type_ids@[keys[i] as int]@.contains(c));
                }
                lemma_keys_within_total(self.archetypes(), keys);
                assert(self.archetype_type_ids@.len() == self.archetype_type_ids.len());
            }
        }
    }

    pub fn new() -> (r: Self)
        ensures
            r.wf(),
            r.archetypes() == Seq::<Seq<u64>>::empty(),
    {
        let r = Self { archetype_count: 0, component_info: HashMap::new(), archetype_type_ids: Vec::new() };
        assert(r.archetypes() =~= Seq::<Seq<u64>>::empty());
        proof {
            reveal(StorageLookup::declared_entries);
        }
        r
    }

    /// Declare a new archetype with the TypeIds.
    /// This assumes TypeIds are already sorted
    pub fn new_archetype(&mut self, archetype_index: usize, type_ids: &[u64])
        requires
            old(self).wf(),
            archetype_index == old(self).archetypes().len(),
            strictly_sorted(type_ids@),
        ensures
            final(self).wf(),
            final(self).archetypes() == old(self).archetypes().push(type_ids@),
    {
        let ghost pre = *self;
        let mut ids: Vec<u64> = Vec::new();
        let mut i: usize = 0;
        while i < type_ids.len()
            invariant
                i <= type_ids@.len(),
                ids@ == type_ids@.subrange(0, i as int),
            decreases type_ids@.len() - i,
        {
            ids.push(type_ids[i]);
            i = i + 1;
            assert(ids@ =~= type_ids@.subrange(0, i as int));
        }
        assert(ids@ =~= type_ids@);
        self.archetype_type_ids.push(ids);
        proof {
            // Every existing component info is still consistent, as it is the new archetype
            // (not yet inserted) that holds its components.
            assert(type_ids@.subrange(0, 0) =~= Seq::<u64>::empty());
            assert forall|c: u64| #[trigger] self.component_info@.contains_key(c) implies {
                let info = self.component_info@[c];
                &&& forall|a: usize|
                    #[trigger] info.archetypes@.contains_key(a) <==> ((a < archetype_index
                        && self.archetype_type_ids@[a as int]@.contains(c)) || (a == archetype_index && type_ids@.subrange(0, 0).contains(c)))
                &&& forall|i: int|
                    0 <= i < info.archetypes.dense_keys().len() ==> info.archetypes.dense_keys()[i]
                        <= archetype_index
            } by {
                assert(pre.info_wf(c));
                let info = self.component_info@[c];
                info.archetypes.lemma_dense_matches_map();
                assert forall|i: int| 0 <= i < info.archetypes.dense_keys().len() implies info.archetypes.dense_keys()[i]
                    <= archetype_index by {
                    assert(info.archetypes@.contains_key(info.archetypes.dense_keys()[i]));
                }
            }
        }
        let mut channel_in_archetype: usize = 0;
        while channel_in_archetype < type_ids.len()
            invariant
                channel_in_archetype <= type_ids@.len(),
                archetype_index == pre.archetypes().len(),
                self.archetype_count == pre.archetype_count,
                self.archetype_type_ids@.len() == archetype_index + 1,
                self.archetype_type_ids@[archetype_index as int]@ == type_ids@,
                strictly_sorted(type_ids@),
                forall|a: int| 0 <= a < archetype_index ==> #[trigger] self.archetype_type_ids@[a] == pre.archetype_type_ids@[a],
                forall|a: int|
                    0 <= a < self.archetype_type_ids@.len() ==> strictly_sorted(
                        #[trigger] self.archetype_type_ids@[a]@,
                    ),
                pre.wf(),
                forall|a: int, p: int|
                    0 <= a < archetype_index && 0 <= p < self.archetype_type_ids@[a]@.len()
                        ==> self.component_info@.contains_key(#[trigger] self.archetype_type_ids@[a]@[p]),
                forall|p: int|
                    0 <= p < channel_in_archetype ==> self.component_info@.contains_key(#[trigger] type_ids@[p]),
                // Components of the new archetype that were handled are registered with it.
                forall|c: u64|
                    #[trigger] self.component_info@.contains_key(c) ==> {
                        let done = type_ids@.subrange(0, channel_in_archetype as int).contains(c);
                        let info = self.component_info@[c];
                        &&& info.archetypes.wf()
                        &&& forall|a: usize|
                            #[trigger] info.archetypes@.contains_key(a) <==> ((a < archetype_index
                                && self.archetype_type_ids@[a as int]@.contains(c)) || (a == archetype_index && done))
                        &&& forall|a: usize|
                            #[trigger] info.archetypes@.contains_key(a) ==> {
                                &&& info.archetypes@[a].archetype_index == a
                                &&& info.archetypes@[a].channel_in_archetype < self.archetype_type_ids@[a as int]@.len()
                                &&& self.archetype_type_ids@[a as int]@[info.archetypes@[a].channel_in_archetype as int] == c
                            }
                        &&& forall|i: int, j: int|
                            0 <= i < j < info.archetypes.dense_keys().len() ==> info.archetypes.dense_keys()[i]
                                < info.archetypes.dense_keys()[j]
                        &&& forall|i: int|
                            0 <= i < info.archetypes.dense_keys().len() ==> info.archetypes.dense_keys()[i]
                                <= archetype_index
                    },
            decreases type_ids@.len() - channel_in_archetype,
        {
            let type_id = type_ids[channel_in_archetype];
            let ghost before = *self;
            let existing = self.component_info.remove(&type_id);
            let mut component_info = match existing {
                Some(info) => info,
                None => ComponentInfo { archetypes: SparseSet::new() },
            };
            proof {
                let done = type_ids@.subrange(0, channel_in_archetype as int);
                assert(!done.contains(type_id)) by {
                    if done.contains(type_id) {
                        let p = choose|p: int| 0 <= p < done.len() && done[p] == type_id;
                        assert(type_ids@[p] < type_ids@[channel_in_archetype as int]);
                    }
                }
                assert(!component_info.archetypes@.contains_key(archetype_index));
                component_info.archetypes.lemma_dense_matches_map();
            }
            let ghost info_before = component_info.archetypes;
            component_info.archetypes.insert(
                archetype_index,
                ComponentArchetypeInfo { archetype_index, channel_in_archetype },
            );
            self.component_info.insert(type_id, component_info);
            proof {
                let next_done = type_ids@.subrange(0, channel_in_archetype + 1);
                let done = type_ids@.subrange(0, channel_in_archetype as int);
                assert forall|c: u64| #[trigger] next_done.contains(c) <==> (done.contains(c) || c == type_id) by {
                    if next_done.contains(c) {
                        let p = choose|p: int| 0 <= p < next_done.len() && next_done[p] == c;
                        if p < channel_in_archetype {
                            assert(done[p] == c);
                        }
                    }
                    if done.contains(c) {
                        let p = choose|p: int| 0 <= p < done.len() && done[p] == c;
                        assert(next_done[p] == c);
                    }
                    if c == type_id {
                        assert(next_done[channel_in_archetype as int] == c);
                    }
                }
                let info = self.component_info@[type_id];
                assert forall|i: int| 0 <= i < info.archetypes.dense_keys().len() implies info.archetypes.dense_keys()[i]
                    <= archetype_index by {
                    if i < info_before.dense_keys().len() {
                        assert(info.archetypes.dense_keys()[i] == info_before.dense_keys()[i]);
                    }
                }
                assert forall|i: int, j: int|
                    0 <= i < j < info.archetypes.dense_keys().len() implies info.archetypes.dense_keys()[i]
                        < info.archetypes.dense_keys()[j] by {
                    if j == info_before.dense_keys().len() {
                        assert(info_before.dense_keys()[i] <= archetype_index);
                        assert(info_before.dense_keys()[i] != archetype_index) by {
                            assert(info_before@.contains_key(info_before.dense_keys()[i]));
                        }
                    }
                }
                assert forall|a: usize| #[trigger] info.archetypes@.contains_key(a) implies {
                    &&& info.archetypes@[a].archetype_index == a
                    &&& info.archetypes@[a].channel_in_archetype < self.archetype_type_ids@[a as int]@.len()
                    &&& self.archetype_type_ids@[a as int]@[info.archetypes@[a].channel_in_archetype as int] == type_id
                } by {
                    if a != archetype_index {
                        assert(info_before@.contains_key(a));
                        assert(before.component_info@.contains_key(type_id));
                    }
                }
                assert forall|a: usize| #[trigger] info.archetypes@.contains_key(a) <==> ((a < archetype_index
                    && self.archetype_type_ids@[a as int]@.contains(type_id)) || (a == archetype_index && next_done.contains(type_id))) by {
                    if a != archetype_index && a < archetype_index && self.archetype_type_ids@[a as int]@.contains(type_id) {
                        let p = choose|p: int| 0 <= p < self.archetype_type_ids@[a as int]@.len() && self.archetype_type_ids@[a as int]@[p] == type_id;
                        assert(before.component_info@.contains_key(self.archetype_type_ids@[a as int]@[p]));
                    }
                    if a != archetype_index && info.archetypes@.contains_key(a) {
                        assert(info_before@.contains_key(a));
                        assert(before.component_info@.contains_key(type_id));
                    }
                }
                assert forall|c: u64| #[trigger] self.component_info@.contains_key(c) && c != type_id implies {
                        let info = self.component_info@[c];
                        forall|a: usize|
                            #[trigger] info.archetypes@.contains_key(a) <==> ((a < archetype_index
                                && self.archetype_type_ids@[a as int]@.contains(c)) || (a == archetype_index && next_done.contains(c)))
                    } by {
                    assert(before.component_info@.contains_key(c));
                    assert(self.component_info@[c] == before.component_info@[c]);
                }
            }
            channel_in_archetype = channel_in_archetype + 1;
        }
        // The lookup counts each declared (archetype, type) entry.
        self.archetype_count = if usize::MAX - self.archetype_count < type_ids.len() {
            usize::MAX
        } else {
            self.archetype_count + type_ids.len()
        };
        proof {
            reveal(StorageLookup::declared_entries);
            assert(self.archetype_type_ids@.len() == self.archetype_type_ids.len());
            assert(self.archetypes() =~= pre.archetypes().push(type_ids@));
            assert(self.archetypes().drop_last() =~= pre.archetypes());
            lemma_entry_total_nonneg(pre.archetypes());
            assert(type_ids@.subrange(0, type_ids@.len() as int) =~= type_ids@);
            assert forall|c: u64| #[trigger] self.component_info@.contains_key(c) implies self.info_wf(c) by {
                let info = self.component_info@[c];
                assert forall|a: usize| #[trigger] info.archetypes@.contains_key(a) <==> (a < self.archetype_type_ids@.len()
                    && self.archetype_type_ids@[a as int]@.contains(c)) by {}
            }
            assert forall|a: int, p: int|
                0 <= a < self.archetype_type_ids@.len() && 0 <= p < self.archetype_type_ids@[a]@.len()
                    implies self.component_info@.contains_key(#[trigger] self.archetype_type_ids@[a]@[p]) by {
                if a == archetype_index {
                    assert(self.archetype_type_ids@[a]@[p] == type_ids@[p]);
                }
            }
            assert(self.archetypes() =~= pre.archetypes().push(type_ids@));
        }
    }

    /// The first archetype whose component types are exactly `type_ids`, if one was declared.
    pub fn get_archetype_with_components(&self, type_ids: &[u64]) -> (r: Option<usize>)
        requires
            self.wf(),
        ensures
            match r {
                Some(a) => a < self.archetypes().len() && self.archetypes()[a as int] == type_ids@
                    && forall|b: int| 0 <= b < a ==> self.archetypes()[b] != type_ids@,
                None => !self.archetypes().contains(type_ids@),
            },
    {
        let mut a: usize = 0;
        while a < self.archetype_type_ids.len()
            invariant
                a <= self.archetype_type_ids@.len(),
                forall|b: int| 0 <= b < a ==> self.archetype_type_ids@[b]@ != type_ids@,
            decreases self.archetype_type_ids@.len() - a,
        {
            if ids_equal(&self.archetype_type_ids[a], type_ids) {
                return Some(a);
            }
            a = a + 1;
        }
        proof {
            if self.archetypes().contains(type_ids@) {
                let b = choose|b: int| 0 <= b < self.archetypes().len() && self.archetypes()[b] == type_ids@;
                assert(self.archetype_type_ids@[b]@ == type_ids@);
            }
        }
        None
    }
}

impl StorageLookup {
    /// The order in which filters are tried: the filter with the smallest key goes first.
    pub closed spec fn filter_key(&self, f: Filter) -> int {
        match f.filter_type {
            FilterType::With => self.count_containing(f.type_id),
            FilterType::Optional => usize::MAX as int,
            FilterType::Without => if self.registered(f.type_id) {
                saturated(self.declared_entries()) - self.count_containing(f.type_id)
            } else {
                usize::MAX as int
            },
        }
    }

    /// `all[i]` is the first of the filters with the smallest key.
    pub open spec fn is_first_min(&self, all: Seq<Filter>, i: int) -> bool {
        &&& 0 <= i < all.len()
        &&& forall|j: int| 0 <= j < all.len() ==> self.filter_key(all[i]) <= #[trigger] self.filter_key(all[j])
        &&& forall|j: int| 0 <= j < i ==> self.filter_key(all[i]) < #[trigger] self.filter_key(all[j])
    }

    /// The inputs on which matching is implemented: unless a required component type is
    /// unknown (nothing matches then), there is a filter, and the filter tried first is a `With`.
    pub open spec fn matching_defined(&self, requirements: Seq<Filter>, filters: Seq<Filter>) -> bool {
        let all = requirements + filters;
        (forall|i: int| 0 <= i < all.len() && (#[trigger] all[i]).filter_type == FilterType::With ==> self.registered(all[i].type_id))
            ==> (all.len() > 0 && forall|i: int| #[trigger] self.is_first_min(all, i) ==> all[i].filter_type == FilterType::With)
    }

    /// Matching is implemented for requirements without `Without` filters of which one is a
    /// `With`: that one is tried before any optional one.
    pub proof fn lemma_with_goes_first(&self, requirements: Seq<Filter>)
        requires
            self.wf(),
            self.archetypes().len() < usize::MAX,
            forall|i: int| 0 <= i < requirements.len() ==> (#[trigger] requirements[i]).filter_type != FilterType::Without,
            exists|i: int| 0 <= i < requirements.len() && (#[trigger] requirements[i]).filter_type == FilterType::With,
        ensures
            self.matching_defined(requirements, Seq::empty()),
    {
        let all = requirements + Seq::<Filter>::empty();
        assert(all =~= requirements);
        self.lemma_wf();
        let w = choose|i: int| 0 <= i < requirements.len() && (#[trigger] requirements[i]).filter_type == FilterType::With;
        assert(self.filter_key(all[w]) < usize::MAX) by {
            assert(self.count_containing(all[w].type_id) <= self.archetypes().len());
        }
        assert forall|i: int| #[trigger] self.is_first_min(all, i) implies all[i].filter_type == FilterType::With by {
            assert(self.filter_key(all[i]) <= self.filter_key(all[w]));
        }
    }

    fn filter_key_exec(&self, f: Filter) -> (k: usize)
        requires
            self.wf(),
            f.filter_type == FilterType::With ==> self.registered(f.type_id),
        ensures
            k == self.filter_key(f),
    {
        proof {
            self.lemma_wf();
            self.lemma_count_within_total(f.type_id);
        }
        match f.filter_type {
            FilterType::With => {
                let info = self.component_info.get(&f.type_id).unwrap();
                info.archetypes.len()
            },
            FilterType::Optional => usize::MAX,
            FilterType::Without => match self.component_info.get(&f.type_id) {
                Some(c) => {
                    self.archetype_count - c.archetypes.len()
                },
                None => usize::MAX,
            },
        }
    }

    /// Checks the filters other than `all[skip]` against archetype `archetype`, recording the
    /// channel of each requirement (the first `n` filters) that it finds.
    fn check_further_matches(
        &self,
        archetype: usize,
        all: &Vec<Filter>,
        skip: usize,
        n: usize,
        archetype_match: &mut Vec<Option<usize>>,
    ) -> (r: bool)
        requires
            self.wf(),
            archetype < self.archetypes().len(),
            skip < all@.len(),
            n <= all@.len(),
            old(archetype_match)@.len() == n,
            forall|k: int| 0 <= k < n && k != skip ==> #[trigger] old(archetype_match)@[k] is None,
        ensures
            final(archetype_match)@.len() == n,
            r == forall|k: int| 0 <= k < all@.len() && k != skip ==> #[trigger] filter_passes(
                self.archetypes()[archetype as int],
                all@[k],
            ),
            r ==> forall|k: int|
                0 <= k < n && k != skip ==> #[trigger] final(archetype_match)@[k] == expected_channel(
                    self.archetypes()[archetype as int],
                    all@[k],
                ),
            r ==> (skip < n ==> final(archetype_match)@[skip as int] == old(archetype_match)@[skip as int]),
    {
        let ghost ids = self.archetypes()[archetype as int];
        let mut k: usize = 0;
        while k < all.len()
            invariant
                self.wf(),
                archetype < self.archetypes().len(),
                ids == self.archetypes()[archetype as int],
                skip < all@.len(),
                n <= all@.len(),
                k <= all@.len(),
                archetype_match@.len() == n,
                forall|j: int| 0 <= j < k && j != skip ==> #[trigger] filter_passes(ids, all@[j]),
                forall|j: int|
                    0 <= j < k && j < n && j != skip ==> #[trigger] archetype_match@[j] == expected_channel(ids, all@[j]),
                skip < n ==> archetype_match@[skip as int] == old(archetype_match)@[skip as int],
                forall|j: int| k <= j < n ==> #[trigger] archetype_match@[j] == old(archetype_match)@[j],
                forall|j: int| 0 <= j < n && j != skip ==> #[trigger] old(archetype_match)@[j] is None,
            decreases all@.len() - k,
        {
            if k != skip {
                let inner_filter = all[k];
                let matches = match self.component_info.get(&inner_filter.type_id) {
                    Some(info) => info.archetypes.get(archetype),
                    None => None,
                };
                proof {
                    let c = inner_filter.type_id;
                    if self.registered(c) {
                        assert(self.info_wf(c));
                    }
                    if ids.contains(c) {
                        let p = choose|p: int| 0 <= p < ids.len() && ids[p] == c;
                        assert(self.component_info@.contains_key(self.archetype_type_ids@[archetype as int]@[p]));
                    }
                }
                match inner_filter.filter_type {
                    FilterType::With => {
                        match matches {
                            None => {
                                assert(!filter_passes(ids, all@[k as int]));
                                return false;
                            },
                            Some(component_archetype_info) => {
                                if k < n {
                                    archetype_match.set(k, Some(component_archetype_info.channel_in_archetype));
                                    proof { lemma_index_of_sorted(ids, component_archetype_info.channel_in_archetype as int); }
                                }
                            },
                        }
                    },
                    FilterType::Optional => {
                        if let Some(component_archetype_info) = matches {
                            if k < n {
                                archetype_match.set(k, Some(component_archetype_info.channel_in_archetype));
                                proof { lemma_index_of_sorted(ids, component_archetype_info.channel_in_archetype as int); }
                            }
                        }
                    },
                    FilterType::Without => {
                        if matches.is_some() {
                            assert(!filter_passes(ids, all@[k as int]));
                            return false;
                        }
                    },
                }
            }
            k = k + 1;
        }
        true
    }

    /// Finds the archetypes that match `requirements` and `filters`, with the channel of each
    /// requirement in each of them.
    #[verifier::rlimit(100)]
    #[verifier::spinoff_prover]
    pub fn get_matching_archetypes(&self, requirements: &[Filter], filters: &[Filter]) -> (r: Vec<ArchetypeMatch>)
        requires
            self.wf(),
            self.matching_defined(requirements@, filters@),
        ensures
            is_matching_result(self.archetypes(), requirements@, filters@, r@),
    {
        let ghost all_spec = requirements@ + filters@;
        let ghost archs = self.archetypes();
        let n = requirements.len();
        let mut inner_filters: Vec<Filter> = Vec::new();
        let mut i: usize = 0;
        while i < requirements.len()
            invariant
                self.wf(),
                n == requirements@.len(),
                i <= n,
                inner_filters@ == requirements@.subrange(0, i as int),
                forall|j: int| 0 <= j < i && (#[trigger] requirements@[j]).filter_type == FilterType::With ==> self.registered(requirements@[j].type_id),
            decreases n - i,
        {
            let filter = requirements[i];
            // If we don't have this component nothing can match the query.
            if filter.filter_type == FilterType::With && !self.component_info.contains_key(&filter.type_id) {
                proof { self.lemma_unregistered_matches_nothing(filter.type_id, requirements@, filters@, i as int); }
                return Vec::new();
            }
            inner_filters.push(filter);
            i = i + 1;
            assert(inner_filters@ =~= requirements@.subrange(0, i as int));
        }
        // Identical to the above, but without a requirement_index.
        let mut i: usize = 0;
        while i < filters.len()
            invariant
                self.wf(),
                n == requirements@.len(),
                i <= filters@.len(),
                inner_filters@ == requirements@ + filters@.subrange(0, i as int),
                forall|j: int| 0 <= j < n && (#[trigger] requirements@[j]).filter_type == FilterType::With ==> self.registered(requirements@[j].type_id),
                forall|j: int| 0 <= j < i && (#[trigger] filters@[j]).filter_type == FilterType::With ==> self.registered(filters@[j].type_id),
            decreases filters@.len() - i,
        {
            let filter = filters[i];
            if filter.filter_type == FilterType::With && !self.component_info.contains_key(&filter.type_id) {
                proof { self.lemma_unregistered_matches_nothing(filter.type_id, requirements@, filters@, n + i); }
                return Vec::new();
            }
            inner_filters.push(filter);
            i = i + 1;
            assert(inner_filters@ =~= requirements@ + filters@.subrange(0, i as int));
        }
        assert(filters@.subrange(0, filters@.len() as int) =~= filters@);
        assert(inner_filters@ == all_spec);
        proof {
            assert forall|j: int| 0 <= j < all_spec.len() && (#[trigger] all_spec[j]).filter_type == FilterType::With implies self.registered(all_spec[j].type_id) by {
                if j < n {
                    assert(all_spec[j] == requirements@[j]);
                } else {
                    assert(all_spec[j] == filters@[j - n]);
                }
            }
        }

        // The filter with the fewest matching archetypes is tried first.
        let mut best: usize = 0;
        let mut best_key = self.filter_key_exec(inner_filters[0]);
        let mut k: usize = 1;
        while k < inner_filters.len()
            invariant
                self.wf(),
                inner_filters@ == all_spec,
                all_spec.len() > 0,
                forall|j: int| 0 <= j < all_spec.len() && (#[trigger] all_spec[j]).filter_type == FilterType::With ==> self.registered(all_spec[j].type_id),
                1 <= k <= all_spec.len(),
                best < k,
                best_key == self.filter_key(all_spec[best as int]),
                forall|j: int| 0 <= j < k ==> best_key <= #[trigger] self.filter_key(all_spec[j]),
                forall|j: int| 0 <= j < best ==> best_key < #[trigger] self.filter_key(all_spec[j]),
            decreases all_spec.len() - k,
        {
            let key = self.filter_key_exec(inner_filters[k]);
            if key < best_key {
                best = k;
                best_key = key;
            }
            k = k + 1;
        }
        assert(self.is_first_min(all_spec, best as int));
        let first_filter = inner_filters[best];
        let first_info = match self.component_info.get(&first_filter.type_id) {
            Some(info) => info,
            None => {
                return Vec::new();
            },
        };
        proof {
            assert(self.info_wf(first_filter.type_id));
            first_info.archetypes.lemma_dense_matches_map();
        }
        let data = first_info.archetypes.data();
        let ghost keys = first_info.archetypes.dense_keys();
        let mut archetype_matches: Vec<ArchetypeMatch> = Vec::new();
        let mut d: usize = 0;
        while d < data.len()
            invariant
                self.wf(),
                inner_filters@ == all_spec,
                all_spec == requirements@ + filters@,
                archs == self.archetypes(),
                n == requirements@.len(),
                best < all_spec.len(),
                first_filter == all_spec[best as int],
                first_filter.filter_type == FilterType::With,
                self.component_info@.contains_key(first_filter.type_id),
                *first_info == self.component_info@[first_filter.type_id],
                self.info_wf(first_filter.type_id),
                data@ == first_info.archetypes.dense_values(),
                keys == first_info.archetypes.dense_keys(),
                keys.len() == data@.len(),
                forall|e: int|
                    0 <= e < keys.len() ==> #[trigger] first_info.archetypes@.contains_key(keys[e])
                        && first_info.archetypes@[keys[e]] == data@[e],
                d <= data@.len(),
                forall|j: int| 0 <= j < archetype_matches@.len() ==> {
                    &&& #[trigger] archetype_matches@[j].archetype_index < archs.len()
                    &&& archetype_passes(archs[archetype_matches@[j].archetype_index as int], requirements@, filters@)
                    &&& archetype_matches@[j].channels@ == expected_channels(archs[archetype_matches@[j].archetype_index as int], requirements@)
                    &&& archetype_matches@[j].resource_indices@ == Seq::new(requirements@.len(), |i: int| None::<usize>)
                },
                forall|j: int| 0 <= j < archetype_matches@.len() ==> exists|e: int| 0 <= e < d && keys[e] == #[trigger] archetype_matches@[j].archetype_index,
                forall|j: int, l: int| 0 <= j < l < archetype_matches@.len() ==> archetype_matches@[j].archetype_index < archetype_matches@[l].archetype_index,
                forall|e: int|
                    0 <= e < d && archetype_passes(archs[keys[e] as int], requirements@, filters@)
                        ==> exists|j: int| 0 <= j < archetype_matches@.len() && archetype_matches@[j].archetype_index == #[trigger] keys[e],
            decreases data@.len() - d,
        {
            let component_archetype_info = data[d];
            let archetype = component_archetype_info.archetype_index;
            proof {
                assert(first_info.archetypes@.contains_key(keys[d as int]));
                assert(data@[d as int] == first_info.archetypes@[keys[d as int]]);
                assert(archetype == keys[d as int]);
                assert(archetype < archs.len());
                assert(archs[archetype as int].contains(first_filter.type_id));
            }
            let matched = self.match_archetype(
                archetype,
                component_archetype_info.channel_in_archetype,
                &inner_filters,
                best,
                n,
                Ghost(requirements@),
                Ghost(filters@),
            );
            if let Some(archetype_match) = matched {
                // This archetype matches!
                let ghost prev = archetype_matches@;
                archetype_matches.push(archetype_match);
                proof {
                    let last = archetype_matches@.len() - 1;
                    assert(archetype_matches@[last].archetype_index == keys[d as int]);
                    assert forall|j: int| 0 <= j < last implies archetype_matches@[j].archetype_index < archetype_matches@[last].archetype_index by {
                        let e = choose|e: int| 0 <= e < d && keys[e] == archetype_matches@[j].archetype_index;
                    }
                    assert forall|e: int|
                        0 <= e <= d && archetype_passes(archs[keys[e] as int], requirements@, filters@)
                            implies exists|j: int| 0 <= j < archetype_matches@.len() && archetype_matches@[j].archetype_index == #[trigger] keys[e] by {
                        if e == d {
                            assert(archetype_matches@[last].archetype_index == keys[e]);
                        } else {
                            let j = choose|j: int| 0 <= j < prev.len() && prev[j].archetype_index == keys[e];
                            assert(archetype_matches@[j] == prev[j]);
                        }
                    }
                    assert forall|j: int| 0 <= j < archetype_matches@.len() implies exists|e: int| 0 <= e < d + 1 && keys[e] == #[trigger] archetype_matches@[j].archetype_index by {
                        if j == last {
                            assert(keys[d as int] == archetype_matches@[j].archetype_index);
                        } else {
                            assert(archetype_matches@[j] == prev[j]);
                            let e = choose|e: int| 0 <= e < d && keys[e] == prev[j].archetype_index;
                        }
                    }
                }
            }
            d = d + 1;
        }
        proof {
            assert forall|a: int|
                0 <= a < archs.len() && archetype_passes(#[trigger] archs[a], requirements@, filters@)
                    implies exists|j: int| 0 <= j < archetype_matches@.len() && archetype_matches@[j].archetype_index == a by {
                let ids = archs[a];
                if best < n {
                    assert(filter_passes(ids, requirements@[best as int]));
                    assert(all_spec[best as int] == requirements@[best as int]);
                } else {
                    assert(filter_passes(ids, filters@[best - n]));
                    assert(all_spec[best as int] == filters@[best - n]);
                }
                assert(first_info.archetypes@.contains_key(a as usize));
                let e = choose|e: int| 0 <= e < keys.len() && keys[e] == a as usize;
                assert(keys[e] == a);
            }
        }
        archetype_matches
    }


    /// Builds the match of archetype `archetype` if it passes every filter; `channel` is the
    /// channel of `all[best]`, which the archetype is known to contain.
    fn match_archetype(
        &self,
        archetype: usize,
        channel: usize,
        all: &Vec<Filter>,
        best: usize,
        n: usize,
        Ghost(requirements): Ghost<Seq<Filter>>,
        Ghost(filters): Ghost<Seq<Filter>>,
    ) -> (r: Option<ArchetypeMatch>)
        requires
            self.wf(),
            archetype < self.archetypes().len(),
            all@ == requirements + filters,
            n == requirements.len(),
            best < all@.len(),
            all@[best as int].filter_type == FilterType::With,
            channel < self.archetypes()[archetype as int].len(),
            self.archetypes()[archetype as int][channel as int] == all@[best as int].type_id,
        ensures
            r is Some <==> archetype_passes(self.archetypes()[archetype as int], requirements, filters),
            r matches Some(m) ==> {
                &&& m.archetype_index == archetype
                &&& m.channels@ == expected_channels(self.archetypes()[archetype as int], requirements)
                &&& m.resource_indices@ == Seq::new(requirements.len(), |i: int| None::<usize>)
            },
    {
        let ghost archs = self.archetypes();
        let ghost all_spec = all@;
        let component_archetype_info = ComponentArchetypeInfo { archetype_index: archetype, channel_in_archetype: channel };
        proof {
            self.lemma_wf();
            lemma_index_of_sorted(archs[archetype as int], channel as int);
        }
        let mut channels: Vec<Option<usize>> = Vec::new();
        let mut resource_indices: Vec<Option<usize>> = Vec::new();
        let mut c: usize = 0;
        while c < n
            invariant
                c <= n,
                channels@ == Seq::new(c as nat, |i: int| None::<usize>),
                resource_indices@ == Seq::new(c as nat, |i: int| None::<usize>),
            decreases n - c,
        {
            channels.push(None);
            resource_indices.push(None);
            c = c + 1;
            assert(channels@ =~= Seq::new(c as nat, |i: int| None::<usize>));
            assert(resource_indices@ =~= Seq::new(c as nat, |i: int| None::<usize>));
        }
        if best < n {
            channels.set(best, Some(component_archetype_info.channel_in_archetype));
            proof { lemma_index_of_sorted(archs[archetype as int], component_archetype_info.channel_in_archetype as int); }
        }
        let ok = self.check_further_matches(archetype, all, best, n, &mut channels);
        proof {
            let ids = archs[archetype as int];
            assert(filter_passes(ids, all_spec[best as int]));
            assert((forall|k: int| 0 <= k < all_spec.len() ==> #[trigger] filter_passes(ids, all_spec[k])) == archetype_passes(ids, requirements, filters)) by {
                if forall|k: int| 0 <= k < all_spec.len() ==> #[trigger] filter_passes(ids, all_spec[k]) {
                assert forall|i: int| 0 <= i < requirements.len() implies #[trigger] filter_passes(ids, requirements[i]) by {
                    assert(all_spec[i] == requirements[i]);
                }
                assert forall|i: int| 0 <= i < filters.len() implies #[trigger] filter_passes(ids, filters[i]) by {
                    assert(all_spec[n + i] == filters[i]);
                }
                }
                if archetype_passes(ids, requirements, filters) {
                assert forall|k: int| 0 <= k < all_spec.len() implies #[trigger] filter_passes(ids, all_spec[k]) by {
                    if k < n {
                        assert(all_spec[k] == requirements[k]);
                    } else {
                        assert(all_spec[k] == filters[k - n]);
                    }
                }
                }
            }
            if ok {
                assert(channels@ =~= expected_channels(ids, requirements)) by {
                assert forall|i: int| 0 <= i < n implies channels@[i] == #[trigger] expected_channel(ids, requirements[i]) by {
                    assert(all_spec[i] == requirements[i]);
                }
                }
            }
        }
        if ok {
            Some(ArchetypeMatch { archetype_index: archetype, channels, resource_indices })
        } else {
            None
        }
    }

    proof fn lemma_unregistered_matches_nothing(&self, c: u64, requirements: Seq<Filter>, filters: Seq<Filter>, k: int)
        requires
            self.wf(),
            !self.registered(c),
            0 <= k < (requirements + filters).len(),
            (requirements + filters)[k] == (Filter { filter_type: FilterType::With, type_id: c }),
        ensures
            is_matching_result(self.archetypes(), requirements, filters, Seq::<ArchetypeMatch>::empty()),
    {
        let archs = self.archetypes();
        assert forall|a: int| 0 <= a < archs.len() implies !archetype_passes(#[trigger] archs[a], requirements, filters) by {
            if archs[a].contains(c) {
                let p = choose|p: int| 0 <= p < archs[a].len() && archs[a][p] == c;
                assert(self.component_info@.contains_key(self.archetype_type_ids@[a]@[p]));
            }
            if k < requirements.len() {
                assert((requirements + filters)[k] == requirements[k]);
                assert(!filter_passes(archs[a], requirements[k]));
            } else {
                assert((requirements + filters)[k] == filters[k - requirements.len()]);
                assert(!filter_passes(archs[a], filters[k - requirements.len()]));
            }
        }
    }
}

/// In a sequence without repeats, the position of a value is where it stands.
/// There is one result of matching: two results agree on every archetype and its channels.
pub proof fn lemma_matching_unique(
    archetypes: Seq<Seq<u64>>,
    requirements: Seq<Filter>,
    filters: Seq<Filter>,
    r1: Seq<ArchetypeMatch>,
    r2: Seq<ArchetypeMatch>,
)
    requires
        is_matching_result(archetypes, requirements, filters, r1),
        is_matching_result(archetypes, requirements, filters, r2),
    ensures
        r1.len() == r2.len(),
        forall|j: int| 0 <= j < r1.len() ==> #[trigger] r1[j].archetype_index == r2[j].archetype_index && r1[j].channels@ == r2[j].channels@,
{
    let n = if r1.len() < r2.len() { r1.len() } else { r2.len() };
    lemma_matching_prefix(archetypes, requirements, filters, r1, r2, n as int);
    if r1.len() < r2.len() {
        let x = r2[r1.len() as int].archetype_index;
        assert(r2[r1.len() as int].archetype_index < archetypes.len());
        let k = choose|k: int| 0 <= k < r1.len() && r1[k].archetype_index == x;
        assert(r1[k].archetype_index == r2[k].archetype_index);
    }
    if r2.len() < r1.len() {
        let x = r1[r2.len() as int].archetype_index;
        assert(r1[r2.len() as int].archetype_index < archetypes.len());
        let k = choose|k: int| 0 <= k < r2.len() && r2[k].archetype_index == x;
        assert(r1[k].archetype_index == r2[k].archetype_index);
    }
    assert forall|j: int| 0 <= j < r1.len() implies #[trigger] r1[j].archetype_index == r2[j].archetype_index && r1[j].channels@ == r2[j].channels@ by {
        assert(r1[j].archetype_index < archetypes.len());
        assert(r2[j].archetype_index < archetypes.len());
    }
}

proof fn lemma_matching_prefix(
    archetypes: Seq<Seq<u64>>,
    requirements: Seq<Filter>,
    filters: Seq<Filter>,
    r1: Seq<ArchetypeMatch>,
    r2: Seq<ArchetypeMatch>,
    n: int,
)
    requires
        is_matching_result(archetypes, requirements, filters, r1),
        is_matching_result(archetypes, requirements, filters, r2),
        0 <= n <= r1.len(),
        n <= r2.len(),
    ensures
        forall|j: int| 0 <= j < n ==> #[trigger] r1[j].archetype_index == r2[j].archetype_index,
    decreases n,
{
    if n > 0 {
        lemma_matching_prefix(archetypes, requirements, filters, r1, r2, n - 1);
        let j = n - 1;
        let a1 = r1[j].archetype_index;
        let a2 = r2[j].archetype_index;
        assert(a1 < archetypes.len() && a2 < archetypes.len());
        if a1 < a2 {
            let k = choose|k: int| 0 <= k < r2.len() && r2[k].archetype_index == a1;
            if k < j {
                assert(r1[k].archetype_index == r2[k].archetype_index);
            } else if k > j {
                assert(r2[j].archetype_index < r2[k].archetype_index);
            }
        }
        if a2 < a1 {
            let k = choose|k: int| 0 <= k < r1.len() && r1[k].archetype_index == a2;
            if k < j {
                assert(r1[k].archetype_index == r2[k].archetype_index);
            } else if k > j {
                assert(r1[j].archetype_index < r1[k].archetype_index);
            }
        }
    }
}

/// Declaring one more archetype adds it, last, to the matches of any query that it passes,
/// with its channels; the matches of the earlier archetypes stay as they were.
pub proof fn law_declared_archetype_matches(
    archetypes: Seq<Seq<u64>>,
    ids: Seq<u64>,
    requirements: Seq<Filter>,
    filters: Seq<Filter>,
    before: Seq<ArchetypeMatch>,
    after: Seq<ArchetypeMatch>,
)
    requires
        is_matching_result(archetypes, requirements, filters, before),
        is_matching_result(archetypes.push(ids), requirements, filters, after),
    ensures
        archetype_passes(ids, requirements, filters) ==> {
            &&& after.len() == before.len() + 1
            &&& after.last().archetype_index == archetypes.len()
            &&& after.last().channels@ == expected_channels(ids, requirements)
        },
        !archetype_passes(ids, requirements, filters) ==> after.len() == before.len(),
        forall|j: int| 0 <= j < before.len() ==> #[trigger] after[j].archetype_index == before[j].archetype_index
            && after[j].channels@ == before[j].channels@,
{
    let all = archetypes.push(ids);
    let k = archetypes.len() as int;
    let passes = archetype_passes(ids, requirements, filters);
    let rest = if passes { after.drop_last() } else { after };
    if passes {
        assert(all[k] == ids);
        let i = choose|i: int| 0 <= i < after.len() && after[i].archetype_index == k;
        if i < after.len() - 1 {
            assert(after[i].archetype_index < after[after.len() - 1].archetype_index);
            assert(after[after.len() - 1].archetype_index < all.len());
        }
        assert(after.last().archetype_index == k);
    }
    assert forall|j: int| 0 <= j < rest.len() implies #[trigger] rest[j].archetype_index < k by {
        assert(after[j].archetype_index < all.len());
        if rest[j].archetype_index == k {
            assert(all[k] == ids);
            if passes {
                assert(after[j].archetype_index < after[after.len() - 1].archetype_index);
            }
        }
    }
    assert(is_matching_result(archetypes, requirements, filters, rest)) by {
        assert forall|j: int| 0 <= j < rest.len() implies {
            &&& #[trigger] rest[j].archetype_index < archetypes.len()
            &&& archetype_passes(archetypes[rest[j].archetype_index as int], requirements, filters)
            &&& rest[j].channels@ == expected_channels(archetypes[rest[j].archetype_index as int], requirements)
            &&& rest[j].resource_indices@ == Seq::new(requirements.len(), |i: int| None::<usize>)
        } by {
            assert(rest[j] == after[j]);
            assert(after[j].archetype_index < all.len());
            assert(all[rest[j].archetype_index as int] == archetypes[rest[j].archetype_index as int]);
        }
        assert forall|a: int| 0 <= a < archetypes.len() && archetype_passes(#[trigger] archetypes[a], requirements, filters)
            implies exists|j: int| 0 <= j < rest.len() && rest[j].archetype_index == a by {
            assert(all[a] == archetypes[a]);
            assert(archetype_passes(all[a], requirements, filters));
            let j = choose|j: int| 0 <= j < after.len() && after[j].archetype_index == a;
            if passes && j == after.len() - 1 {
                assert(after.last().archetype_index == k);
            }
            assert(rest[j] == after[j]);
        }
    }
    lemma_matching_unique(archetypes, requirements, filters, before, rest);
    assert forall|j: int| 0 <= j < before.len() implies #[trigger] after[j].archetype_index == before[j].archetype_index
        && after[j].channels@ == before[j].channels@ by {
        assert(rest[j].archetype_index == before[j].archetype_index);
        assert(rest[j] == after[j]);
    }
    if passes {
        assert(after[after.len() - 1].archetype_index < all.len());
    }
}

pub proof fn lemma_index_of_sorted(ids: Seq<u64>, p: int)
    requires
        strictly_sorted(ids),
        0 <= p < ids.len(),
    ensures
        ids.contains(ids[p]),
        ids.index_of(ids[p]) == p,
{
    assert(ids.contains(ids[p]));
    let q = ids.index_of(ids[p]);
    assert(0 <= q < ids.len() && ids[q] == ids[p]);
}

/// A strictly increasing sequence of values below `bound` is no longer than `bound`.
proof fn lemma_increasing_bounded(s: Seq<usize>, bound: int)
    requires
        forall|i: int, j: int| 0 <= i < j < s.len() ==> s[i] < s[j],
        forall|i: int| 0 <= i < s.len() ==> s[i] < bound,
        bound >= 0,
    ensures
        s.len() <= bound,
    decreases s.len(),
{
    if s.len() > 0 {
        let t = s.drop_last();
        assert forall|i: int| 0 <= i < t.len() implies t[i] < s.last() by {}
        lemma_increasing_bounded(t, s.last() as int);
        assert(s[s.len() - 1] < bound);
    }
}

fn ids_equal(a: &Vec<u64>, b: &[u64]) -> (r: bool)
    ensures
        r == (a@ == b@),
{
    if a.len() != b.len() {
        return false;
    }
    let mut i: usize = 0;
    while i < a.len()
        invariant
            a@.len() == b@.len(),
            i <= a@.len(),
            forall|j: int| 0 <= j < i ==> a@[j] == b@[j],
        decreases a@.len() - i,
    {
        if a[i] != b[i] {
            return false;
        }
        i = i + 1;
    }
    assert(a@ =~= b@);
    true
}

} // verus!
