use vstd::prelude::*;

use crate::errors::Error;
use crate::exclusive_world_query::ExclusiveWorld;
use crate::multi_query::Query;
use crate::queries::{
    acquire_borrows, conflict_at, granted_before, BorrowRequest, QueryParameter, Request, Resource, ResourceBorrows,
};
use crate::single_query::{Single, SingleMut, SingleQueryInfo};
use crate::world::World;

verus! {

/// A parameter of a system: what it asks the world for.
pub enum SystemParam {
    /// `Query<(..)>`: the entities with the given components.
    Query(Vec<QueryParameter>),
    /// `&T`: one component of the type with this id.
    Single(u64),
    /// `&mut T`: one component of the type with this id, to write.
    SingleMut(u64),
    /// `ExclusiveWorld`: the whole world.
    ExclusiveWorld,
}

/// What a system receives for one of its parameters.
pub enum SystemArg {
    Query(Query),
    Single(Single),
    SingleMut(SingleMut),
    ExclusiveWorld(ExclusiveWorld),
}

/// The borrows a system would hold, and whether it needs the world to itself.
pub struct SystemInfo {
    pub borrows: ResourceBorrows,
    pub exclusive: bool,
}

/// `v` is what `func` returned when it was called with the world to itself, as it was
/// `before`, and with arguments that describe `params` there.
pub open spec fn ran_exclusive<V, R, F: FnOnce(&mut World<V>, Vec<SystemArg>) -> R>(
    func: F,
    params: Seq<SystemParam>,
    before: World<V>,
    v: R,
) -> bool {
    exists|args: Vec<SystemArg>, w: &mut World<V>|
        args_describe(before, params, args@) && *w == before && #[trigger] call_ensures(func, (w, args), v)
}

/// Parameters on which the world can answer: a query has a component it requires.
pub open spec fn param_defined(p: SystemParam) -> bool {
    match p {
        SystemParam::Query(ps) => exists|k: int| 0 <= k < ps@.len() && !(#[trigger] ps@[k]).optional,
        _ => true,
    }
}

pub open spec fn type_present(type_ids: Seq<Seq<u64>>, t: u64) -> bool {
    exists|a: int| 0 <= a < type_ids.len() && (#[trigger] type_ids[a]).contains(t)
}

/// A single-component parameter finds an archetype with its component type.
pub open spec fn single_found<V>(world: World<V>, p: SystemParam) -> bool {
    match p {
        SystemParam::Single(t) => type_present(world.archetype_type_ids(), t),
        SystemParam::SingleMut(t) => type_present(world.archetype_type_ids(), t),
        _ => true,
    }
}

/// `a` is what the world gives for parameter `p`.
pub open spec fn arg_describes<V>(world: World<V>, p: SystemParam, a: SystemArg) -> bool {
    match p {
        SystemParam::Query(ps) => a matches SystemArg::Query(q) && q.valid_for(world) && q.params@ == ps@,
        SystemParam::Single(t) => a matches SystemArg::Single(s) && s.info.valid_for(world) && s.info.type_id == t && !s.info.write,
        SystemParam::SingleMut(t) => a matches SystemArg::SingleMut(s) && s.info.valid_for(world) && s.info.type_id == t && s.info.write,
        SystemParam::ExclusiveWorld => a is ExclusiveWorld,
    }
}

pub open spec fn args_describe<V>(world: World<V>, params: Seq<SystemParam>, args: Seq<SystemArg>) -> bool {
    &&& args.len() == params.len()
    &&& forall|k: int| 0 <= k < params.len() ==> #[trigger] arg_describes(world, params[k], args[k])
}

/// The borrows that an argument takes, in order; `None` stands for the whole world.
pub open spec fn arg_requests(a: SystemArg) -> Seq<Request> {
    match a {
        SystemArg::Query(q) => {
            let rs = q.info.requests();
            Seq::new(rs.len(), |i: int| Some(BorrowRequest { resource: rs[i].0, write: rs[i].1, type_id: rs[i].2 }))
        },
        SystemArg::Single(s) => seq![Some(BorrowRequest { resource: s.info.resource(), write: s.info.write, type_id: s.info.type_id })],
        SystemArg::SingleMut(s) => seq![Some(BorrowRequest { resource: s.info.resource(), write: s.info.write, type_id: s.info.type_id })],
        SystemArg::ExclusiveWorld(_) => seq![None::<BorrowRequest>],
    }
}

/// The borrows of all the arguments, parameter after parameter.
pub open spec fn args_requests(args: Seq<SystemArg>) -> Seq<Request>
    decreases args.len(),
{
    if args.len() == 0 {
        Seq::empty()
    } else {
        args_requests(args.drop_last()) + arg_requests(args.last())
    }
}

/// `e` is the error of the first borrow in `reqs` that cannot be granted.
/// Whether a system has a single parameter, the one case in which it may take the
/// whole world to itself.
pub open spec fn runs_alone(params: Seq<SystemParam>) -> bool {
    params.len() == 1
}

pub open spec fn refused_with(reqs: Seq<Request>, exclusive_ok: bool, e: Error) -> bool {
    exists|j: int|
        0 <= j < reqs.len() && #[trigger] conflict_at(reqs, j, exclusive_ok) && granted_before(reqs, j, exclusive_ok) && e == match reqs[j] {
            None => Error::MustRunExclusively,
            Some(q) => Error::CouldNotBorrowComponent(q.type_id),
        }
}

/// The channels of the borrows in `reqs` that write (`write`) or only read, in order.
pub open spec fn request_resources(reqs: Seq<Request>, write: bool) -> Seq<Resource>
    decreases reqs.len(),
{
    if reqs.len() == 0 {
        Seq::empty()
    } else {
        let rest = request_resources(reqs.drop_last(), write);
        match reqs.last() {
            Some(q) => if q.write == write {
                rest.push(q.resource)
            } else {
                rest
            },
            None => rest,
        }
    }
}

/// The argument of a parameter is determined by the world: any two take the same borrows.
pub proof fn lemma_arg_requests_unique<V>(world: World<V>, p: SystemParam, a1: SystemArg, a2: SystemArg)
    requires
        arg_describes(world, p, a1),
        arg_describes(world, p, a2),
    ensures
        arg_requests(a1) == arg_requests(a2),
{
    match p {
        SystemParam::Query(ps) => {
            let q1 = a1->Query_0;
            let q2 = a2->Query_0;
            crate::storage_lookup::lemma_matching_unique(
                world.archetype_type_ids(),
                crate::queries::params_filters(ps@),
                Seq::empty(),
                q1.info.archetypes@,
                q2.info.archetypes@,
            );
            crate::queries::lemma_requests_same(q1.info.archetypes@, q2.info.archetypes@, q1.info.write@, q1.info.type_ids@);
            assert(q1.info.write@ == q2.info.write@);
            assert(q1.info.type_ids@ == q2.info.type_ids@);
        },
        SystemParam::Single(t) => {
            lemma_first_unique(world.archetype_type_ids(), t, a1->Single_0.info.archetype_index as int, a2->Single_0.info.archetype_index as int);
        },
        SystemParam::SingleMut(t) => {
            lemma_first_unique(world.archetype_type_ids(), t, a1->SingleMut_0.info.archetype_index as int, a2->SingleMut_0.info.archetype_index as int);
        },
        SystemParam::ExclusiveWorld => {},
    }
}

proof fn lemma_first_unique(type_ids: Seq<Seq<u64>>, t: u64, a: int, b: int)
    requires
        crate::single_query::first_archetype_with(type_ids, t, a),
        crate::single_query::first_archetype_with(type_ids, t, b),
    ensures
        a == b,
{
    if a < b {
        assert(!type_ids[a].contains(t));
    }
    if b < a {
        assert(!type_ids[b].contains(t));
    }
}

/// The arguments of a system are determined by the world: any two take the same borrows.
pub proof fn lemma_args_requests_unique<V>(world: World<V>, params: Seq<SystemParam>, args1: Seq<SystemArg>, args2: Seq<SystemArg>)
    requires
        args_describe(world, params, args1),
        args_describe(world, params, args2),
    ensures
        args_requests(args1) == args_requests(args2),
    decreases params.len(),
{
    if params.len() > 0 {
        let l = params.len() - 1;
        assert(arg_describes(world, params[l], args1[l]));
        assert(arg_describes(world, params[l], args2[l]));
        lemma_arg_requests_unique(world, params[l], args1[l], args2[l]);
        let p0 = params.drop_last();
        assert(args_describe(world, p0, args1.drop_last())) by {
            assert forall|k: int| 0 <= k < p0.len() implies #[trigger] arg_describes(world, p0[k], args1.drop_last()[k]) by {
                assert(arg_describes(world, params[k], args1[k]));
            }
        }
        assert(args_describe(world, p0, args2.drop_last())) by {
            assert forall|k: int| 0 <= k < p0.len() implies #[trigger] arg_describes(world, p0[k], args2.drop_last()[k]) by {
                assert(arg_describes(world, params[k], args2[k]));
            }
        }
        lemma_args_requests_unique(world, p0, args1.drop_last(), args2.drop_last());
    }
}

/// Every single component that a parameter asks for is found.
pub open spec fn all_found<V>(world: World<V>, params: Seq<SystemParam>) -> bool {
    forall|k: int| 0 <= k < params.len() ==> single_found(world, #[trigger] params[k])
}

/// The borrows of the arguments the world gives for `params` can all be granted, in order.
pub open spec fn system_grantable<V>(world: World<V>, params: Seq<SystemParam>, exclusive_ok: bool) -> bool {
    forall|args: Seq<SystemArg>|
        args_describe(world, params, args) ==> #[trigger] granted_before(args_requests(args), args_requests(args).len() as int, exclusive_ok)
}

/// The first single component that is missing is of type `t`.
pub open spec fn first_missing<V>(world: World<V>, params: Seq<SystemParam>, t: u64) -> bool {
    exists|k: int|
        0 <= k < params.len() && !single_found(world, #[trigger] params[k])
            && (params[k] == SystemParam::Single(t) || params[k] == SystemParam::SingleMut(t))
            && forall|i: int| 0 <= i < k ==> single_found(world, #[trigger] params[i])
}

/// What running a system with `params` gives before the function is called: `Ok` with
/// arguments describing the parameters when every single component is found and every
/// borrow granted; otherwise the error of the first missing component or refused borrow.
pub open spec fn system_outcome<V>(world: World<V>, params: Seq<SystemParam>, exclusive_ok: bool, r: Result<Seq<SystemArg>, Error>) -> bool {
    &&& r is Ok <==> all_found(world, params) && system_grantable(world, params, exclusive_ok)
    &&& r matches Ok(args) ==> args_describe(world, params, args)
    &&& !all_found(world, params) ==> (r matches Err(Error::MissingComponent(t)) && first_missing(world, params, t))
    &&& (r is Err && all_found(world, params)) ==> forall|args: Seq<SystemArg>|
        args_describe(world, params, args) ==> #[trigger] refused_with(args_requests(args), exclusive_ok, r->Err_0)
}

pub open spec fn result_view(r: Result<Vec<SystemArg>, Error>) -> Result<Seq<SystemArg>, Error> {
    match r {
        Ok(v) => Ok(v@),
        Err(e) => Err(e),
    }
}

pub(crate) fn copy_params(ps: &Vec<QueryParameter>) -> (r: Vec<QueryParameter>)
    ensures
        r@ == ps@,
{
    let mut r: Vec<QueryParameter> = Vec::new();
    let mut i: usize = 0;
    while i < ps.len()
        invariant
            i <= ps@.len(),
            r@ == ps@.subrange(0, i as int),
        decreases ps@.len() - i,
    {
        r.push(ps[i]);
        i = i + 1;
        assert(r@ =~= ps@.subrange(0, i as int));
    }
    assert(r@ =~= ps@);
    r
}

fn arg_request_list<V>(world: &World<V>, p: &SystemParam, a: &SystemArg) -> (r: Vec<Request>)
    requires
        arg_describes(*world, *p, *a),
    ensures
        r@ == arg_requests(*a),
{
    match a {
        SystemArg::Query(q) => {
            proof {
                assert forall|j: int| 0 <= j < q.info.archetypes@.len() implies (#[trigger] q.info.archetypes@[j]).channels@.len() == q.info.type_ids@.len() by {
                    assert(q.info.archetypes@[j].archetype_index < world.archetype_type_ids().len());
                }
            }
            let rs = q.info.request_list();
            let mut out: Vec<Request> = Vec::new();
            let mut i: usize = 0;
            while i < rs.len()
                invariant
                    i <= rs@.len(),
                    rs@ == q.info.requests(),
                    out@.len() == i,
                    forall|x: int| 0 <= x < i ==> #[trigger] out@[x] == Some(BorrowRequest { resource: rs@[x].0, write: rs@[x].1, type_id: rs@[x].2 }),
                decreases rs@.len() - i,
            {
                let (resource, write, type_id) = rs[i];
                out.push(Some(BorrowRequest { resource, write, type_id }));
                i = i + 1;
            }
            assert(out@ =~= arg_requests(*a));
            out
        },
        SystemArg::Single(s) => {
            let r = vec![Some(BorrowRequest { resource: (s.info.archetype_index, s.info.channel_index), write: s.info.write, type_id: s.info.type_id })];
            assert(r@ =~= arg_requests(*a));
            r
        },
        SystemArg::SingleMut(s) => {
            let r = vec![Some(BorrowRequest { resource: (s.info.archetype_index, s.info.channel_index), write: s.info.write, type_id: s.info.type_id })];
            assert(r@ =~= arg_requests(*a));
            r
        },
        SystemArg::ExclusiveWorld(_) => {
            let r: Vec<Request> = vec![None];
            assert(r@ =~= arg_requests(*a));
            r
        },
    }
}

impl<V> World<V> {
    /// The argument of each parameter of a system, before any borrow is taken:
    /// `MissingComponent` for the first single component that no archetype has.
    pub fn system_arg_list(&self, params: &Vec<SystemParam>) -> (r: Result<Vec<SystemArg>, Error>)
        requires
            self.wf(),
            self.archetype_seq().len() < usize::MAX,
            forall|k: int| 0 <= k < params@.len() ==> param_defined(#[trigger] params@[k]),
        ensures
            r is Ok <==> forall|k: int| 0 <= k < params@.len() ==> single_found(*self, #[trigger] params@[k]),
            r matches Ok(args) ==> args_describe(*self, params@, args@),
            r matches Err(e) ==> exists|k: int|
                0 <= k < params@.len() && !single_found(*self, #[trigger] params@[k])
                    && (params@[k] == SystemParam::Single(e->MissingComponent_0) || params@[k] == SystemParam::SingleMut(e->MissingComponent_0))
                    && e is MissingComponent
                    && forall|i: int| 0 <= i < k ==> single_found(*self, #[trigger] params@[i]),
    {
        let mut args: Vec<SystemArg> = Vec::new();
        let mut k: usize = 0;
        while k < params.len()
            invariant
                self.wf(),
                self.archetype_seq().len() < usize::MAX,
                forall|i: int| 0 <= i < params@.len() ==> param_defined(#[trigger] params@[i]),
                k <= params@.len(),
                args@.len() == k,
                forall|i: int| 0 <= i < k ==> #[trigger] arg_describes(*self, params@[i], args@[i]),
                forall|i: int| 0 <= i < k ==> single_found(*self, #[trigger] params@[i]),
            decreases params@.len() - k,
        {
            assert(param_defined(params@[k as int]));
            match &params[k] {
                SystemParam::Query(ps) => {
                    let q = self.query_info(copy_params(ps));
                    args.push(SystemArg::Query(q));
                },
                SystemParam::Single(t) => {
                    match self.single_query_info(*t, false) {
                        Ok(info) => {
                            args.push(SystemArg::Single(Single { info }));
                        },
                        Err(e) => {
                            assert(!single_found(*self, params@[k as int]));
                            return Err(e);
                        },
                    }
                },
                SystemParam::SingleMut(t) => {
                    match self.single_query_info(*t, true) {
                        Ok(info) => {
                            args.push(SystemArg::SingleMut(SingleMut { info }));
                        },
                        Err(e) => {
                            assert(!single_found(*self, params@[k as int]));
                            return Err(e);
                        },
                    }
                },
                SystemParam::ExclusiveWorld => {
                    args.push(SystemArg::ExclusiveWorld(ExclusiveWorld {}));
                },
            }
            k = k + 1;
        }
        Ok(args)
    }

    /// The borrows of `args`, in order.
    pub fn args_request_list(&self, params: &Vec<SystemParam>, args: &Vec<SystemArg>) -> (reqs: Vec<Request>)
        requires
            args_describe(*self, params@, args@),
        ensures
            reqs@ == args_requests(args@),
    {
        let mut reqs: Vec<Request> = Vec::new();
        let mut i: usize = 0;
        while i < args.len()
            invariant
                args@.len() == params@.len(),
                forall|x: int| 0 <= x < params@.len() ==> #[trigger] arg_describes(*self, params@[x], args@[x]),
                i <= args@.len(),
                reqs@ == args_requests(args@.subrange(0, i as int)),
            decreases args@.len() - i,
        {
            let mut part = arg_request_list(self, &params[i], &args[i]);
            proof {
                let pre = args@.subrange(0, i + 1);
                assert(pre.drop_last() =~= args@.subrange(0, i as int));
                assert(pre.last() == args@[i as int]);
            }
            reqs.append(&mut part);
            i = i + 1;
        }
        assert(args@.subrange(0, i as int) =~= args@);
        assert(args_describe(*self, params@, args@));
        reqs
    }

    /// Gives each parameter of a system its argument, as a system run does: first every
    /// single component is looked up (`MissingComponent` for the first one that no archetype
    /// has), then every borrow is taken in order (the first one refused fails the run:
    /// `CouldNotBorrowComponent`, or `MustRunExclusively` for an `ExclusiveWorld` where
    /// `exclusive_ok` does not allow it).
    pub fn system_args(&self, params: &Vec<SystemParam>, exclusive_ok: bool) -> (r: Result<Vec<SystemArg>, Error>)
        requires
            self.wf(),
            self.archetype_seq().len() < usize::MAX,
            forall|k: int| 0 <= k < params@.len() ==> param_defined(#[trigger] params@[k]),
        ensures
            system_outcome(*self, params@, exclusive_ok, result_view(r)),
    {
        let args = match self.system_arg_list(params) {
            Ok(args) => args,
            Err(e) => {
                proof {
                    assert(!all_found(*self, params@));
                }
                return Err(e);
            },
        };
        let reqs = self.args_request_list(params, &args);
        proof {
            assert(all_found(*self, params@));
        }
        match acquire_borrows(&reqs, exclusive_ok) {
            Ok(_) => {
                proof {
                    assert forall|other: Seq<SystemArg>| args_describe(*self, params@, other) implies #[trigger] granted_before(
                        args_requests(other),
                        args_requests(other).len() as int,
                        exclusive_ok,
                    ) by {
                        lemma_args_requests_unique(*self, params@, args@, other);
                    }
                }
                Ok(args)
            },
            Err(t) => {
                let e = match t {
                    None => Error::MustRunExclusively,
                    Some(t) => Error::CouldNotBorrowComponent(t),
                };
                proof {
                    let j = choose|j: int| 0 <= j < reqs@.len() && conflict_at(reqs@, j, exclusive_ok) && granted_before(reqs@, j, exclusive_ok)
                        && t == match reqs@[j] { None => None::<u64>, Some(q) => Some(q.type_id) };
                    assert(refused_with(reqs@, exclusive_ok, e));
                    assert forall|other: Seq<SystemArg>| args_describe(*self, params@, other) implies #[trigger] refused_with(args_requests(other), exclusive_ok, e) by {
                        lemma_args_requests_unique(*self, params@, args@, other);
                    }
                    assert(!system_grantable(*self, params@, exclusive_ok)) by {
                        assert(args_describe(*self, params@, args@));
                        assert(!granted_before(reqs@, reqs@.len() as int, exclusive_ok)) by {
                            assert(conflict_at(reqs@, j, exclusive_ok));
                        }
                    }
                }
                Err(e)
            },
        }
    }
}


/// A system: a function together with the parameters it asks the world for. Running it
/// gives the function the world and one argument per parameter.
pub struct FunctionSystem<F> {
    pub params: Vec<SystemParam>,
    pub func: F,
}

pub open spec fn has_exclusive(params: Seq<SystemParam>) -> bool {
    exists|k: int| 0 <= k < params.len() && (#[trigger] params[k]) is ExclusiveWorld
}

impl<F> FunctionSystem<F> {
    pub fn new(params: Vec<SystemParam>, func: F) -> (r: Self)
        ensures
            r.params@ == params@,
            r.func == func,
    {
        FunctionSystem { params, func }
    }

    /// Whether the system needs the world to itself: it has an `ExclusiveWorld` parameter.
    pub fn exclusive(&self) -> (r: bool)
        ensures
            r == has_exclusive(self.params@),
    {
        let mut k: usize = 0;
        while k < self.params.len()
            invariant
                k <= self.params@.len(),
                forall|i: int| 0 <= i < k ==> !(#[trigger] self.params@[i] is ExclusiveWorld),
            decreases self.params@.len() - k,
        {
            match &self.params[k] {
                SystemParam::ExclusiveWorld => {
                    return true;
                },
                _ => {},
            }
            k = k + 1;
        }
        false
    }

    /// The borrows the system would take on `world`, and whether it needs the world to
    /// itself; `MissingComponent` as in `run`.
    pub fn system_info<V>(&self, world: &World<V>) -> (r: Result<SystemInfo, Error>)
        requires
            world.wf(),
            world.archetype_seq().len() < usize::MAX,
            forall|k: int| 0 <= k < self.params@.len() ==> param_defined(#[trigger] self.params@[k]),
        ensures
            r is Ok <==> forall|k: int| 0 <= k < self.params@.len() ==> single_found(*world, #[trigger] self.params@[k]),
            r matches Ok(info) ==> {
                &&& info.exclusive == has_exclusive(self.params@)
                &&& exists|args: Seq<SystemArg>| {
                    &&& args_describe(*world, self.params@, args)
                    &&& info.borrows.reads@ == request_resources(args_requests(args), false)
                    &&& info.borrows.writes@ == request_resources(args_requests(args), true)
                }
            },
            r matches Err(e) ==> exists|k: int|
                0 <= k < self.params@.len() && !single_found(*world, #[trigger] self.params@[k])
                    && (self.params@[k] == SystemParam::Single(e->MissingComponent_0) || self.params@[k] == SystemParam::SingleMut(e->MissingComponent_0))
                    && e is MissingComponent,
    {
        let args = world.system_arg_list(&self.params)?;
        let reqs = world.args_request_list(&self.params, &args);
        let mut borrows = ResourceBorrows::new();
        let mut i: usize = 0;
        while i < reqs.len()
            invariant
                i <= reqs@.len(),
                borrows.reads@ == request_resources(reqs@.subrange(0, i as int), false),
                borrows.writes@ == request_resources(reqs@.subrange(0, i as int), true),
            decreases reqs@.len() - i,
        {
            proof {
                let pre = reqs@.subrange(0, i + 1);
                assert(pre.drop_last() =~= reqs@.subrange(0, i as int));
                assert(pre.last() == reqs@[i as int]);
            }
            match reqs[i] {
                Some(q) => {
                    if q.write {
                        borrows.writes.push(q.resource);
                    } else {
                        borrows.reads.push(q.resource);
                    }
                },
                None => {},
            }
            i = i + 1;
        }
        assert(reqs@.subrange(0, i as int) =~= reqs@);
        let exclusive = self.exclusive();
        Ok(SystemInfo { borrows, exclusive })
    }

    /// Runs the system once on `world`: the function receives the world and the arguments
    /// for its parameters, unless an argument cannot be given (see `World::system_args`;
    /// an `ExclusiveWorld` parameter always fails here with `MustRunExclusively`).
    pub fn run<V, R>(self, world: &World<V>) -> (r: Result<R, Error>)
        where
            F: FnOnce(&World<V>, Vec<SystemArg>) -> R,
        requires
            world.wf(),
            world.archetype_seq().len() < usize::MAX,
            forall|k: int| 0 <= k < self.params@.len() ==> param_defined(#[trigger] self.params@[k]),
            forall|args: Vec<SystemArg>| call_requires(self.func, (world, args)),
        ensures
            r is Ok <==> all_found(*world, self.params@) && system_grantable(*world, self.params@, false),
            r matches Ok(v) ==> exists|args: Vec<SystemArg>|
                args_describe(*world, self.params@, args@) && call_ensures(self.func, (world, args), v),
            !all_found(*world, self.params@) ==> (r matches Err(Error::MissingComponent(t)) && first_missing(*world, self.params@, t)),
            (r is Err && all_found(*world, self.params@)) ==> forall|args: Seq<SystemArg>|
                args_describe(*world, self.params@, args) ==> #[trigger] refused_with(args_requests(args), false, r->Err_0),
    {
        match world.system_args(&self.params, false) {
            Ok(args) => {
                let f = self.func;
                Ok(f(world, args))
            },
            Err(e) => Err(e),
        }
    }

    /// Runs the system once with the world to itself: as `run`, but a system whose one
    /// parameter is `ExclusiveWorld` runs too, and the function may change the world.
    pub fn run_exclusive<V, R>(self, world: &mut World<V>) -> (r: Result<R, Error>)
        where
            F: FnOnce(&mut World<V>, Vec<SystemArg>) -> R,
        requires
            old(world).wf(),
            old(world).archetype_seq().len() < usize::MAX,
            forall|k: int| 0 <= k < self.params@.len() ==> param_defined(#[trigger] self.params@[k]),
            forall|w: &mut World<V>, args: Vec<SystemArg>| call_requires(self.func, (w, args)),
        ensures
            r is Err ==> *final(world) == *old(world),
            r is Ok <==> all_found(*old(world), self.params@) && system_grantable(*old(world), self.params@, runs_alone(self.params@)),
            r matches Ok(v) ==> ran_exclusive(self.func, self.params@, *old(world), v),
            !all_found(*old(world), self.params@) ==> (r matches Err(Error::MissingComponent(t)) && first_missing(*old(world), self.params@, t)),
            (r is Err && all_found(*old(world), self.params@)) ==> forall|args: Seq<SystemArg>|
                args_describe(*old(world), self.params@, args) ==> #[trigger] refused_with(args_requests(args), runs_alone(self.params@), r->Err_0),
    {
        let exclusive_ok = self.params.len() == 1;
        match world.system_args(&self.params, exclusive_ok) {
            Ok(args) => {
                let ghost given = args;
                let f = self.func;
                let v = f(world, args);
                proof {
                    assert(exists|a: Vec<SystemArg>, m: &mut World<V>|
                        args_describe(*old(world), self.params@, a@) && *m == *old(world)
                            && #[trigger] call_ensures(self.func, (m, a), v));
                }
                Ok(v)
            },
            Err(e) => Err(e),
        }
    }
}

} // verus!
