use vstd::prelude::*;

use crate::archetype::{Archetype, ComponentValue};
use crate::entities::Entity;
use crate::errors::Error;
use crate::storage_lookup::{
    expected_channels, is_matching_result, lemma_index_of_sorted, ArchetypeMatch, Filter, FilterType,
    StorageLookup,
};
use crate::world::World;

verus! {

#[derive(Clone, Copy, Debug, PartialEq, Eq, Structural)]
pub enum ReadOrWrite {
    Read,
    Write,
}

/// A channel of the world: an archetype index and a channel index within it.
pub type Resource = (usize, usize);

/// The channels borrowed for reading and for writing.
pub struct ResourceBorrows {
    pub writes: Vec<Resource>,
    pub reads: Vec<Resource>,
}

/// Two borrows of the same channel conflict unless both only read.
pub open spec fn borrows_conflict(a: Resource, a_write: bool, b: Resource, b_write: bool) -> bool {
    a == b && (a_write || b_write)
}

impl ResourceBorrows {
    pub fn new() -> (r: Self)
        ensures
            r.reads@ == Seq::<Resource>::empty(),
            r.writes@ == Seq::<Resource>::empty(),
    {
        Self { reads: Vec::new(), writes: Vec::new() }
    }

    /// Adds the borrows of `resource_borrows`.
    pub fn extend(&mut self, resource_borrows: &ResourceBorrows)
        ensures
            final(self).reads@ == old(self).reads@ + resource_borrows.reads@,
            final(self).writes@ == old(self).writes@ + resource_borrows.writes@,
    {
        let mut i: usize = 0;
        let ghost r0 = self.reads@;
        while i < resource_borrows.reads.len()
            invariant
                i <= resource_borrows.reads@.len(),
                self.reads@ == r0 + resource_borrows.reads@.subrange(0, i as int),
                self.writes@ == old(self).writes@,
                r0 == old(self).reads@,
            decreases resource_borrows.reads@.len() - i,
        {
            self.reads.push(resource_borrows.reads[i]);
            i = i + 1;
            assert(self.reads@ =~= r0 + resource_borrows.reads@.subrange(0, i as int));
        }
        assert(resource_borrows.reads@.subrange(0, i as int) =~= resource_borrows.reads@);
        let mut i: usize = 0;
        let ghost w0 = self.writes@;
        while i < resource_borrows.writes.len()
            invariant
                i <= resource_borrows.writes@.len(),
                self.writes@ == w0 + resource_borrows.writes@.subrange(0, i as int),
                self.reads@ == old(self).reads@ + resource_borrows.reads@,
                w0 == old(self).writes@,
            decreases resource_borrows.writes@.len() - i,
        {
            self.writes.push(resource_borrows.writes[i]);
            i = i + 1;
            assert(self.writes@ =~= w0 + resource_borrows.writes@.subrange(0, i as int));
        }
        assert(resource_borrows.writes@.subrange(0, i as int) =~= resource_borrows.writes@);
    }

    /// Whether borrowing `resource` (for writing if `write`) conflicts with a held borrow.
    pub open spec fn spec_conflicts(&self, resource: Resource, write: bool) -> bool {
        self.writes@.contains(resource) || (write && self.reads@.contains(resource))
    }

    /// Borrows `resource`, for writing if `write`, unless that conflicts with a held borrow:
    /// a write conflicts with any borrow of the channel, a read with a write.
    pub fn try_borrow(&mut self, resource: Resource, write: bool) -> (r: bool)
        ensures
            r == !old(self).spec_conflicts(resource, write),
            r && write ==> final(self).writes@ == old(self).writes@.push(resource) && final(self).reads@ == old(self).reads@,
            r && !write ==> final(self).reads@ == old(self).reads@.push(resource) && final(self).writes@ == old(self).writes@,
            !r ==> final(self).reads@ == old(self).reads@ && final(self).writes@ == old(self).writes@,
    {
        if contains_resource(&self.writes, resource) || (write && contains_resource(&self.reads, resource)) {
            return false;
        }
        if write {
            self.writes.push(resource);
        } else {
            self.reads.push(resource);
        }
        true
    }
}

fn contains_resource(v: &Vec<Resource>, resource: Resource) -> (r: bool)
    ensures
        r == v@.contains(resource),
{
    let mut i: usize = 0;
    while i < v.len()
        invariant
            i <= v@.len(),
            forall|j: int| 0 <= j < i ==> v@[j] != resource,
        decreases v@.len() - i,
    {
        if v[i].0 == resource.0 && v[i].1 == resource.1 {
            assert(v@[i as int] == resource);
            return true;
        }
        i = i + 1;
    }
    false
}

/// One parameter of a query: a component type read or written, possibly optional.
#[derive(Clone, Copy, Debug, PartialEq, Eq, Structural)]
pub struct QueryParameter {
    pub type_id: u64,
    pub write: bool,
    pub optional: bool,
}

impl QueryParameter {
    /// `&T`: entities must have the component, which is read.
    pub fn read(type_id: u64) -> (r: Self)
        ensures
            r == (QueryParameter { type_id, write: false, optional: false }),
    {
        Self { type_id, write: false, optional: false }
    }

    /// `&mut T`: entities must have the component, which is written.
    pub fn read_write(type_id: u64) -> (r: Self)
        ensures
            r == (QueryParameter { type_id, write: true, optional: false }),
    {
        Self { type_id, write: true, optional: false }
    }

    /// `Option<Q>`: the component is accessed where the entity has it.
    pub fn optional(inner: QueryParameter) -> (r: Self)
        ensures
            r == (QueryParameter { type_id: inner.type_id, write: inner.write, optional: true }),
    {
        Self { type_id: inner.type_id, write: inner.write, optional: true }
    }

    pub open spec fn spec_filter(&self) -> Filter {
        Filter {
            filter_type: if self.optional {
                FilterType::Optional
            } else {
                FilterType::With
            },
            type_id: self.type_id,
        }
    }

    pub fn filter(&self) -> (r: Filter)
        ensures
            r == self.spec_filter(),
    {
        Filter {
            filter_type: if self.optional {
                FilterType::Optional
            } else {
                FilterType::With
            },
            type_id: self.type_id,
        }
    }

    pub fn write(&self) -> (r: bool)
        ensures
            r == self.write,
    {
        self.write
    }
}

pub open spec fn params_filters(params: Seq<QueryParameter>) -> Seq<Filter> {
    Seq::new(params.len(), |k: int| params[k].spec_filter())
}

/// The archetypes that a query matches, with the channel of each parameter in each of them.
pub struct QueryInfo {
    pub archetypes: Vec<ArchetypeMatch>,
    pub write: Vec<bool>,
    pub type_ids: Vec<u64>,
}

impl QueryInfo {
    pub open spec fn params(&self) -> Seq<QueryParameter> {
        Seq::new(self.type_ids@.len(), |k: int| QueryParameter {
            type_id: self.type_ids@[k],
            write: self.write@[k],
            optional: false,
        })
    }

    /// The query was computed for `params` on a world whose archetypes have `type_ids`.
    pub open spec fn describes(&self, type_ids: Seq<Seq<u64>>, params: Seq<QueryParameter>) -> bool {
        &&& self.type_ids@ == Seq::new(params.len(), |k: int| params[k].type_id)
        &&& self.write@ == Seq::new(params.len(), |k: int| params[k].write)
        &&& is_matching_result(type_ids, params_filters(params), Seq::empty(), self.archetypes@)
    }

    /// The channel borrows a query takes, archetype by archetype and parameter by parameter,
    /// each with its write flag and component type.
    pub open spec fn requests(&self) -> Seq<(Resource, bool, u64)> {
        requests_of(self.archetypes@, self.write@, self.type_ids@)
    }

    /// The borrow requests of the query, in the order they are taken.
    pub fn request_list(&self) -> (r: Vec<(Resource, bool, u64)>)
        requires
            self.write@.len() == self.type_ids@.len(),
            forall|j: int| 0 <= j < self.archetypes@.len() ==> (#[trigger] self.archetypes@[j]).channels@.len() == self.type_ids@.len(),
        ensures
            r@ == self.requests(),
    {
        let mut r: Vec<(Resource, bool, u64)> = Vec::new();
        let mut j: usize = 0;
        while j < self.archetypes.len()
            invariant
                j <= self.archetypes@.len(),
                self.write@.len() == self.type_ids@.len(),
                forall|l: int| 0 <= l < self.archetypes@.len() ==> (#[trigger] self.archetypes@[l]).channels@.len() == self.type_ids@.len(),
                r@ == requests_of(self.archetypes@.subrange(0, j as int), self.write@, self.type_ids@),
            decreases self.archetypes@.len() - j,
        {
            let m = &self.archetypes[j];
            let ghost before = r@;
            let mut k: usize = 0;
            while k < self.type_ids.len()
                invariant
                    k <= self.type_ids@.len(),
                    self.write@.len() == self.type_ids@.len(),
                    m.channels@.len() == self.type_ids@.len(),
                    r@ == before + match_requests(*m, self.write@, self.type_ids@, k as int),
                decreases self.type_ids@.len() - k,
            {
                match m.channels[k] {
                    Some(c) => {
                        r.push(((m.archetype_index, c), self.write[k], self.type_ids[k]));
                    },
                    None => {},
                }
                k = k + 1;
                proof {
                    assert(r@ =~= before + match_requests(*m, self.write@, self.type_ids@, k as int));
                }
            }
            proof {
                let prefix = self.archetypes@.subrange(0, j + 1);
                assert(prefix.drop_last() =~= self.archetypes@.subrange(0, j as int));
                assert(prefix.last() == *m);
            }
            j = j + 1;
        }
        assert(self.archetypes@.subrange(0, self.archetypes@.len() as int) =~= self.archetypes@);
        r
    }
}

/// What a query needs before it runs: the channels it will borrow.
pub trait QueryInfoTrait {
    /// The information is complete enough to list the borrows.
    spec fn borrows_defined(&self) -> bool;

    /// The channels the query reads and the channels it writes.
    fn borrows(&self) -> (r: ResourceBorrows)
        requires
            self.borrows_defined(),
    ;
}

impl QueryInfoTrait for QueryInfo {
    open spec fn borrows_defined(&self) -> bool {
        &&& self.write@.len() == self.type_ids@.len()
        &&& forall|j: int| 0 <= j < self.archetypes@.len() ==> (#[trigger] self.archetypes@[j]).channels@.len() == self.type_ids@.len()
    }

    /// The channel borrows of the query: the channels it reads and the channels it writes.
    fn borrows(&self) -> (r: ResourceBorrows)
        ensures
            r.reads@ == borrowed_resources(self.requests(), false),
            r.writes@ == borrowed_resources(self.requests(), true),
    {
        let reqs = self.request_list();
        let mut r = ResourceBorrows::new();
        let mut i: usize = 0;
        while i < reqs.len()
            invariant
                i <= reqs@.len(),
                reqs@ == self.requests(),
                r.reads@ == borrowed_resources(reqs@.subrange(0, i as int), false),
                r.writes@ == borrowed_resources(reqs@.subrange(0, i as int), true),
            decreases reqs@.len() - i,
        {
            let (resource, write, _) = reqs[i];
            proof {
                let next = reqs@.subrange(0, i + 1);
                assert(next.drop_last() =~= reqs@.subrange(0, i as int));
                assert(next.last() == reqs@[i as int]);
            }
            if write {
                r.writes.push(resource);
            } else {
                r.reads.push(resource);
            }
            i = i + 1;
        }
        assert(reqs@.subrange(0, i as int) =~= reqs@);
        r
    }

}

/// The borrow requests for the first `k` parameters in one matched archetype.
pub open spec fn match_requests(m: ArchetypeMatch, write: Seq<bool>, type_ids: Seq<u64>, k: int) -> Seq<(Resource, bool, u64)>
    decreases k,
{
    if k <= 0 {
        Seq::empty()
    } else {
        let rest = match_requests(m, write, type_ids, k - 1);
        match m.channels@[k - 1] {
            Some(c) => rest.push(((m.archetype_index, c), write[k - 1], type_ids[k - 1])),
            None => rest,
        }
    }
}

/// The resources of the requests that write (`write`) or only read (`!write`), in order.
pub open spec fn borrowed_resources(reqs: Seq<(Resource, bool, u64)>, write: bool) -> Seq<Resource>
    decreases reqs.len(),
{
    if reqs.len() == 0 {
        Seq::empty()
    } else {
        let rest = borrowed_resources(reqs.drop_last(), write);
        if reqs.last().1 == write {
            rest.push(reqs.last().0)
        } else {
            rest
        }
    }
}

pub open spec fn requests_of(matches: Seq<ArchetypeMatch>, write: Seq<bool>, type_ids: Seq<u64>) -> Seq<(Resource, bool, u64)>
    decreases matches.len(),
{
    if matches.len() == 0 {
        Seq::empty()
    } else {
        requests_of(matches.drop_last(), write, type_ids) + match_requests(matches.last(), write, type_ids, type_ids.len() as int)
    }
}

/// The borrow requests depend on the matched archetypes and their channels only.
pub proof fn lemma_requests_same(ms1: Seq<ArchetypeMatch>, ms2: Seq<ArchetypeMatch>, write: Seq<bool>, type_ids: Seq<u64>)
    requires
        ms1.len() == ms2.len(),
        forall|j: int| 0 <= j < ms1.len() ==> #[trigger] ms1[j].archetype_index == ms2[j].archetype_index && ms1[j].channels@ == ms2[j].channels@,
    ensures
        requests_of(ms1, write, type_ids) == requests_of(ms2, write, type_ids),
    decreases ms1.len(),
{
    if ms1.len() > 0 {
        let l = ms1.len() - 1;
        assert(ms1[l].archetype_index == ms2[l].archetype_index && ms1[l].channels@ == ms2[l].channels@);
        lemma_requests_same(ms1.drop_last(), ms2.drop_last(), write, type_ids);
        lemma_match_requests_same(ms1.last(), ms2.last(), write, type_ids, type_ids.len() as int);
    }
}

proof fn lemma_match_requests_same(m1: ArchetypeMatch, m2: ArchetypeMatch, write: Seq<bool>, type_ids: Seq<u64>, k: int)
    requires
        m1.archetype_index == m2.archetype_index,
        m1.channels@ == m2.channels@,
    ensures
        match_requests(m1, write, type_ids, k) == match_requests(m2, write, type_ids, k),
    decreases k,
{
    if k > 0 {
        lemma_match_requests_same(m1, m2, write, type_ids, k - 1);
    }
}

/// A borrow request: a channel, whether it is written, and its component type; `None`
/// stands for exclusive access to the whole world.
#[derive(Clone, Copy, Debug)]
pub struct BorrowRequest {
    pub resource: Resource,
    pub write: bool,
    pub type_id: u64,
}

pub type Request = Option<BorrowRequest>;

/// Request `j` cannot be granted after the earlier ones were: it conflicts with one of them,
/// or it asks for exclusive access where that is not allowed.
pub open spec fn conflict_at(reqs: Seq<Request>, j: int, exclusive_ok: bool) -> bool {
    match reqs[j] {
        None => !exclusive_ok,
        Some(q) => exists|i: int| 0 <= i < j && (#[trigger] reqs[i]) is Some && borrows_conflict(reqs[i]->0.resource, reqs[i]->0.write, q.resource, q.write),
    }
}

pub open spec fn granted_before(reqs: Seq<Request>, j: int, exclusive_ok: bool) -> bool {
    forall|i: int| 0 <= i < j ==> !#[trigger] conflict_at(reqs, i, exclusive_ok)
}

/// Requests `reqs` one after the other, as locks are taken: returns `Ok` if all are granted,
/// otherwise the component type of the first one refused (`None` for exclusive access).
pub fn acquire_borrows(reqs: &Vec<Request>, exclusive_ok: bool) -> (r: Result<ResourceBorrows, Option<u64>>)
    ensures
        r is Ok <==> granted_before(reqs@, reqs@.len() as int, exclusive_ok),
        r matches Ok(ledger) ==> forall|x: Resource| #[trigger] ledger.writes@.contains(x) <==> exists|i: int|
            0 <= i < reqs@.len() && reqs@[i] == Some(BorrowRequest { resource: x, write: true, type_id: reqs@[i]->0.type_id }),
        r matches Ok(ledger) ==> forall|x: Resource| #[trigger] ledger.reads@.contains(x) <==> exists|i: int|
            0 <= i < reqs@.len() && reqs@[i] == Some(BorrowRequest { resource: x, write: false, type_id: reqs@[i]->0.type_id }),
        r matches Err(t) ==> exists|j: int|
            0 <= j < reqs@.len() && conflict_at(reqs@, j, exclusive_ok) && granted_before(reqs@, j, exclusive_ok) && t == match reqs@[j] {
                None => None::<u64>,
                Some(q) => Some(q.type_id),
            },
{
    let mut ledger = ResourceBorrows::new();
    let mut j: usize = 0;
    while j < reqs.len()
        invariant
            j <= reqs@.len(),
            granted_before(reqs@, j as int, exclusive_ok),
            forall|x: Resource| #[trigger] ledger.writes@.contains(x) <==> exists|i: int| 0 <= i < j && reqs@[i] == Some(BorrowRequest { resource: x, write: true, type_id: reqs@[i]->0.type_id }),
            forall|x: Resource| #[trigger] ledger.reads@.contains(x) <==> exists|i: int| 0 <= i < j && reqs@[i] == Some(BorrowRequest { resource: x, write: false, type_id: reqs@[i]->0.type_id }),
        decreases reqs@.len() - j,
    {
        match reqs[j] {
            None => {
                if !exclusive_ok {
                    assert(conflict_at(reqs@, j as int, exclusive_ok));
                    return Err(None);
                }
            },
            Some(q) => {
                let ghost old_ledger = ledger;
                let ok = ledger.try_borrow(q.resource, q.write);
                proof {
                    assert(conflict_at(reqs@, j as int, exclusive_ok) == old_ledger.spec_conflicts(q.resource, q.write)) by {
                        if old_ledger.spec_conflicts(q.resource, q.write) {
                            if old_ledger.writes@.contains(q.resource) {
                                let i = choose|i: int| 0 <= i < j && reqs@[i] == Some(BorrowRequest { resource: q.resource, write: true, type_id: reqs@[i]->0.type_id });
                                assert(reqs@[i] is Some && borrows_conflict(reqs@[i]->0.resource, reqs@[i]->0.write, q.resource, q.write));
                            } else {
                                let i = choose|i: int| 0 <= i < j && reqs@[i] == Some(BorrowRequest { resource: q.resource, write: false, type_id: reqs@[i]->0.type_id });
                                assert(reqs@[i] is Some && borrows_conflict(reqs@[i]->0.resource, reqs@[i]->0.write, q.resource, q.write));
                            }
                        }
                        if conflict_at(reqs@, j as int, exclusive_ok) {
                            let i = choose|i: int| 0 <= i < j && (#[trigger] reqs@[i]) is Some && borrows_conflict(reqs@[i]->0.resource, reqs@[i]->0.write, q.resource, q.write);
                            if reqs@[i]->0.write {
                                assert(old_ledger.writes@.contains(q.resource));
                            } else {
                                assert(old_ledger.reads@.contains(q.resource));
                            }
                        }
                    }
                }
                if !ok {
                    return Err(Some(q.type_id));
                }
                proof {
                    assert forall|x: Resource| #[trigger] ledger.writes@.contains(x) <==> exists|i: int| 0 <= i < j + 1 && reqs@[i] == Some(BorrowRequest { resource: x, write: true, type_id: reqs@[i]->0.type_id }) by {
                        if ledger.writes@.contains(x) {
                            let k = choose|k: int| 0 <= k < ledger.writes@.len() && ledger.writes@[k] == x;
                            if k < old_ledger.writes@.len() {
                                assert(old_ledger.writes@[k] == x);
                                assert(old_ledger.writes@.contains(x));
                            } else {
                                assert(reqs@[j as int] == Some(BorrowRequest { resource: x, write: true, type_id: reqs@[j as int]->0.type_id }));
                            }
                        }
                        if exists|i: int| 0 <= i < j + 1 && reqs@[i] == Some(BorrowRequest { resource: x, write: true, type_id: reqs@[i]->0.type_id }) {
                            let i = choose|i: int| 0 <= i < j + 1 && reqs@[i] == Some(BorrowRequest { resource: x, write: true, type_id: reqs@[i]->0.type_id });
                            if i < j {
                                assert(old_ledger.writes@.contains(x));
                                let k = choose|k: int| 0 <= k < old_ledger.writes@.len() && old_ledger.writes@[k] == x;
                                assert(ledger.writes@[k] == x);
                            } else {
                                assert(ledger.writes@[ledger.writes@.len() - 1] == x);
                            }
                        }
                    }
                    assert forall|x: Resource| #[trigger] ledger.reads@.contains(x) <==> exists|i: int| 0 <= i < j + 1 && reqs@[i] == Some(BorrowRequest { resource: x, write: false, type_id: reqs@[i]->0.type_id }) by {
                        if ledger.reads@.contains(x) {
                            let k = choose|k: int| 0 <= k < ledger.reads@.len() && ledger.reads@[k] == x;
                            if k < old_ledger.reads@.len() {
                                assert(old_ledger.reads@[k] == x);
                                assert(old_ledger.reads@.contains(x));
                            } else {
                                assert(reqs@[j as int] == Some(BorrowRequest { resource: x, write: false, type_id: reqs@[j as int]->0.type_id }));
                            }
                        }
                        if exists|i: int| 0 <= i < j + 1 && reqs@[i] == Some(BorrowRequest { resource: x, write: false, type_id: reqs@[i]->0.type_id }) {
                            let i = choose|i: int| 0 <= i < j + 1 && reqs@[i] == Some(BorrowRequest { resource: x, write: false, type_id: reqs@[i]->0.type_id });
                            if i < j {
                                assert(old_ledger.reads@.contains(x));
                                let k = choose|k: int| 0 <= k < old_ledger.reads@.len() && old_ledger.reads@[k] == x;
                                assert(ledger.reads@[k] == x);
                            } else {
                                assert(ledger.reads@[ledger.reads@.len() - 1] == x);
                            }
                        }
                    }
                }
            },
        }
        j = j + 1;
    }
    Ok(ledger)
}

proof fn lemma_match_requests_cover(m: ArchetypeMatch, write: Seq<bool>, type_ids: Seq<u64>, n: int, k: int)
    requires
        0 <= k < n,
        m.channels@[k] is Some,
    ensures
        match_requests(m, write, type_ids, n).contains(((m.archetype_index, m.channels@[k]->0), write[k], type_ids[k])),
    decreases n,
{
    let item = ((m.archetype_index, m.channels@[k]->0), write[k], type_ids[k]);
    let rest = match_requests(m, write, type_ids, n - 1);
    if k < n - 1 {
        lemma_match_requests_cover(m, write, type_ids, n - 1, k);
        let i = choose|i: int| 0 <= i < rest.len() && rest[i] == item;
        match m.channels@[n - 1] {
            Some(c) => {
                assert(rest.push(((m.archetype_index, c), write[n - 1], type_ids[n - 1]))[i] == item);
            },
            None => {},
        }
    } else {
        assert(rest.push(item)[rest.len() as int] == item);
    }
}

/// Law: a query borrows, in every archetype it matches, the channel of each of its
/// parameters that has a channel there, with the parameter's write flag and type: no
/// parameter's borrow is left out.
pub proof fn law_requests_cover_params(matches: Seq<ArchetypeMatch>, write: Seq<bool>, type_ids: Seq<u64>, j: int, k: int)
    requires
        0 <= j < matches.len(),
        0 <= k < type_ids.len(),
        matches[j].channels@[k] is Some,
    ensures
        requests_of(matches, write, type_ids).contains(
            ((matches[j].archetype_index, matches[j].channels@[k]->0), write[k], type_ids[k]),
        ),
    decreases matches.len(),
{
    let item = ((matches[j].archetype_index, matches[j].channels@[k]->0), write[k], type_ids[k]);
    let front = requests_of(matches.drop_last(), write, type_ids);
    let tail = match_requests(matches.last(), write, type_ids, type_ids.len() as int);
    assert(requests_of(matches, write, type_ids) == front + tail);
    if j == matches.len() - 1 {
        lemma_match_requests_cover(matches.last(), write, type_ids, type_ids.len() as int, k);
        let i = choose|i: int| 0 <= i < tail.len() && tail[i] == item;
        assert((front + tail)[front.len() + i] == item);
    } else {
        assert(matches.drop_last()[j] == matches[j]);
        law_requests_cover_params(matches.drop_last(), write, type_ids, j, k);
        let i = choose|i: int| 0 <= i < front.len() && front[i] == item;
        assert((front + tail)[i] == item);
    }
}

} // verus!
