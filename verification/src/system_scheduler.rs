use vstd::prelude::*;

use crate::function_system::{
    all_found, args_describe, args_requests, copy_params, has_exclusive, lemma_args_requests_unique, param_defined,
    request_resources, FunctionSystem, SystemArg, SystemParam,
};
use crate::queries::{Request, Resource, ResourceBorrows};
use crate::scheduler::{lemma_add_task_starters, lemma_task_added_intro, Scheduler};
use crate::world::World;

verus! {

/// Where the channels of archetype `a` start when all channels of the world are numbered
/// archetype after archetype.
pub open spec fn channel_offset(tids: Seq<Seq<u64>>, a: int) -> int
    decreases a,
{
    if a <= 0 {
        0
    } else {
        channel_offset(tids, a - 1) + tids[a - 1].len()
    }
}

/// How many channels the world has.
pub open spec fn channel_total(tids: Seq<Seq<u64>>) -> int {
    channel_offset(tids, tids.len() as int)
}

/// The number of the channel `r` (archetype, channel) in that numbering.
pub open spec fn resource_number(tids: Seq<Seq<u64>>, r: Resource) -> int {
    channel_offset(tids, r.0 as int) + r.1
}

/// `r` is a channel of the world.
pub open spec fn resource_valid(tids: Seq<Seq<u64>>, r: Resource) -> bool {
    r.0 < tids.len() && r.1 < tids[r.0 as int].len()
}

/// The numbers of the channels `rs`.
pub open spec fn numbered(tids: Seq<Seq<u64>>, rs: Seq<Resource>) -> Seq<usize> {
    Seq::new(rs.len(), |i: int| resource_number(tids, rs[i]) as usize)
}

/// The channels of later archetypes are numbered after those of earlier ones.
pub proof fn lemma_offset_monotone(tids: Seq<Seq<u64>>, a: int, b: int)
    requires
        0 <= a < b <= tids.len(),
    ensures
        channel_offset(tids, a) + tids[a].len() <= channel_offset(tids, b),
    decreases b - a,
{
    if a + 1 < b {
        lemma_offset_monotone(tids, a, b - 1);
    }
}

/// Different channels get different numbers, below the number of channels.
pub proof fn lemma_resource_number(tids: Seq<Seq<u64>>, r1: Resource, r2: Resource)
    requires
        resource_valid(tids, r1),
        resource_valid(tids, r2),
    ensures
        0 <= resource_number(tids, r1) < channel_total(tids),
        resource_number(tids, r1) == resource_number(tids, r2) ==> r1 == r2,
{
    lemma_offset_monotone(tids, r1.0 as int, tids.len() as int);
    lemma_offset_nonneg(tids, r1.0 as int);
    if r1.0 < r2.0 {
        lemma_offset_monotone(tids, r1.0 as int, r2.0 as int);
    } else if r2.0 < r1.0 {
        lemma_offset_monotone(tids, r2.0 as int, r1.0 as int);
    }
}

proof fn lemma_offset_nonneg(tids: Seq<Seq<u64>>, a: int)
    ensures
        channel_offset(tids, a) >= 0,
    decreases a,
{
    if a > 0 {
        lemma_offset_nonneg(tids, a - 1);
    }
}

/// The number of channel `r` of `world`.
pub fn resource_number_of<V>(world: &World<V>, r: Resource) -> (n: usize)
    requires
        resource_valid(world.archetype_type_ids(), r),
        channel_total(world.archetype_type_ids()) <= usize::MAX,
    ensures
        n == resource_number(world.archetype_type_ids(), r),
{
    let ghost tids = world.archetype_type_ids();
    let mut total: usize = 0;
    let mut a: usize = 0;
    while a < r.0
        invariant
            tids == world.archetype_type_ids(),
            resource_valid(tids, r),
            channel_total(tids) <= usize::MAX,
            a <= r.0,
            total == channel_offset(tids, a as int),
        decreases r.0 - a,
    {
        proof {
            lemma_offset_monotone(tids, a as int, tids.len() as int);
            lemma_offset_nonneg(tids, a as int);
        }
        let c = world.borrow_archetype(a).channel_count();
        total = total + c;
        a = a + 1;
    }
    proof {
        lemma_offset_monotone(tids, r.0 as int, tids.len() as int);
    }
    total + r.1
}

/// The number of channels of `world`, if it fits in a `usize`.
pub fn channel_total_of<V>(world: &World<V>) -> (n: Option<usize>)
    ensures
        n is Some <==> channel_total(world.archetype_type_ids()) <= usize::MAX,
        n matches Some(t) ==> t == channel_total(world.archetype_type_ids()),
{
    let ghost tids = world.archetype_type_ids();
    let count = world.archetype_count();
    let mut total: usize = 0;
    let mut a: usize = 0;
    while a < count
        invariant
            tids == world.archetype_type_ids(),
            count == tids.len(),
            a <= count,
            total == channel_offset(tids, a as int),
        decreases count - a,
    {
        let c = world.borrow_archetype(a).channel_count();
        if c > usize::MAX - total {
            proof {
                lemma_offset_monotone(tids, a as int, tids.len() as int);
                lemma_offset_nonneg(tids, a as int);
            }
            return None;
        }
        total = total + c;
        a = a + 1;
    }
    Some(total)
}

/// The resources the borrow requests `reqs` read (or write), in order.
pub fn borrows_of_requests(reqs: &Vec<Request>) -> (b: ResourceBorrows)
    ensures
        b.reads@ == request_resources(reqs@, false),
        b.writes@ == request_resources(reqs@, true),
{
    let mut borrows = ResourceBorrows::new();
    let mut i: usize = 0;
    while i < reqs.len()
        invariant
            i <= reqs@.len(),
            borrows.reads@ == request_resources(reqs@.subrange(0, i as int), false),
            borrows.writes@ == request_resources(reqs@.subrange(0, i as int), true),
        decreases reqs@.len() - i,
    {
        proof {
            let pre = reqs@.subrange(0, i + 1);
            assert(pre.drop_last() =~= reqs@.subrange(0, i as int));
            assert(pre.last() == reqs@[i as int]);
        }
        match reqs[i] {
            Some(q) => {
                if q.write {
                    borrows.writes.push(q.resource);
                } else {
                    borrows.reads.push(q.resource);
                }
            },
            None => {},
        }
        i = i + 1;
    }
    assert(reqs@.subrange(0, i as int) =~= reqs@);
    borrows
}

/// The channels a system with parameters `params` reads (`write` false) or writes on
/// `world`: those of the arguments the world gives it, none if a single component it asks
/// for is missing.
pub open spec fn scheduled_resources<V>(world: World<V>, params: Seq<SystemParam>, write: bool) -> Seq<Resource> {
    if all_found(world, params) {
        request_resources(args_requests(choose|args: Seq<SystemArg>| args_describe(world, params, args)), write)
    } else {
        Seq::empty()
    }
}

impl<V> World<V> {
    /// The channels a system with parameters `params` reads and writes, as the task
    /// scheduler sees them (nothing if a single component is missing).
    pub fn scheduled_borrows(&self, params: &Vec<SystemParam>) -> (r: ResourceBorrows)
        requires
            self.wf(),
            self.archetype_seq().len() < usize::MAX,
            forall|k: int| 0 <= k < params@.len() ==> param_defined(#[trigger] params@[k]),
        ensures
            r.reads@ == scheduled_resources(*self, params@, false),
            r.writes@ == scheduled_resources(*self, params@, true),
    {
        match self.system_arg_list(params) {
            Ok(args) => {
                let reqs = self.args_request_list(params, &args);
                proof {
                    let c = choose|a: Seq<SystemArg>| args_describe(*self, params@, a);
                    assert(args_describe(*self, params@, args@));
                    lemma_args_requests_unique(*self, params@, args@, c);
                }
                borrows_of_requests(&reqs)
            },
            Err(_) => ResourceBorrows::new(),
        }
    }
}

/// The numbers of the channels `rs` of `world`.
fn number_all<V>(world: &World<V>, rs: &Vec<Resource>) -> (ns: Vec<usize>)
    requires
        forall|i: int| 0 <= i < rs@.len() ==> resource_valid(world.archetype_type_ids(), #[trigger] rs@[i]),
        channel_total(world.archetype_type_ids()) <= usize::MAX,
    ensures
        ns@ == numbered(world.archetype_type_ids(), rs@),
{
    let mut ns: Vec<usize> = Vec::new();
    let mut i: usize = 0;
    while i < rs.len()
        invariant
            forall|x: int| 0 <= x < rs@.len() ==> resource_valid(world.archetype_type_ids(), #[trigger] rs@[x]),
            channel_total(world.archetype_type_ids()) <= usize::MAX,
            i <= rs@.len(),
            ns@ == numbered(world.archetype_type_ids(), rs@.subrange(0, i as int)),
        decreases rs@.len() - i,
    {
        let n = resource_number_of(world, rs[i]);
        ns.push(n);
        i = i + 1;
        assert(ns@ =~= numbered(world.archetype_type_ids(), rs@.subrange(0, i as int)));
    }
    assert(rs@.subrange(0, i as int) =~= rs@);
    ns
}

/// Whether every one of `rs` is a channel of `world`.
fn all_valid<V>(world: &World<V>, rs: &Vec<Resource>) -> (r: bool)
    requires
        world.wf(),
    ensures
        r == forall|i: int| 0 <= i < rs@.len() ==> resource_valid(world.archetype_type_ids(), #[trigger] rs@[i]),
{
    let count = world.archetype_count();
    let mut i: usize = 0;
    while i < rs.len()
        invariant
            count == world.archetype_type_ids().len(),
            i <= rs@.len(),
            forall|x: int| 0 <= x < i ==> resource_valid(world.archetype_type_ids(), #[trigger] rs@[x]),
        decreases rs@.len() - i,
    {
        let (a, c) = rs[i];
        if a >= count {
            return false;
        }
        if c >= world.borrow_archetype(a).channel_count() {
            return false;
        }
        i = i + 1;
    }
    true
}

/// Whether no resource occurs twice in `rs`.
fn all_distinct(rs: &Vec<Resource>) -> (r: bool)
    ensures
        r == rs@.no_duplicates(),
{
    let mut i: usize = 0;
    while i < rs.len()
        invariant
            i <= rs@.len(),
            forall|x: int, y: int| 0 <= x < y < rs@.len() && x < i ==> rs@[x] != rs@[y],
        decreases rs@.len() - i,
    {
        let mut j: usize = i + 1;
        while j < rs.len()
            invariant
                i < rs@.len(),
                i + 1 <= j <= rs@.len(),
                forall|x: int, y: int| 0 <= x < y < rs@.len() && x < i ==> rs@[x] != rs@[y],
                forall|y: int| i < y < j ==> rs@[i as int] != rs@[y],
            decreases rs@.len() - j,
        {
            if rs[i].0 == rs[j].0 && rs[i].1 == rs[j].1 {
                return false;
            }
            j = j + 1;
        }
        i = i + 1;
    }
    true
}

/// Whether no resource of `a` is one of `b`.
fn all_apart(a: &Vec<Resource>, b: &Vec<Resource>) -> (r: bool)
    ensures
        r == forall|i: int, j: int| 0 <= i < a@.len() && 0 <= j < b@.len() ==> a@[i] != b@[j],
{
    let mut i: usize = 0;
    while i < a.len()
        invariant
            i <= a@.len(),
            forall|x: int, y: int| 0 <= x < i && 0 <= y < b@.len() ==> a@[x] != b@[y],
        decreases a@.len() - i,
    {
        let mut j: usize = 0;
        while j < b.len()
            invariant
                i < a@.len(),
                j <= b@.len(),
                forall|x: int, y: int| 0 <= x < i && 0 <= y < b@.len() ==> a@[x] != b@[y],
                forall|y: int| 0 <= y < j ==> a@[i as int] != b@[y],
            decreases b@.len() - j,
        {
            if a[i].0 == b[j].0 && a[i].1 == b[j].1 {
                return false;
            }
            j = j + 1;
        }
        i = i + 1;
    }
    true
}

/// A system with parameters `params` can be scheduled on `world`: the channels it reads
/// and writes are channels of the world, it writes none twice and reads none it writes.
pub open spec fn system_schedulable<V>(world: World<V>, params: Seq<SystemParam>) -> bool {
    let tids = world.archetype_type_ids();
    let reads = scheduled_resources(world, params, false);
    let writes = scheduled_resources(world, params, true);
    &&& forall|i: int| 0 <= i < reads.len() ==> resource_valid(tids, #[trigger] reads[i])
    &&& forall|j: int| 0 <= j < writes.len() ==> resource_valid(tids, #[trigger] writes[j])
    &&& writes.no_duplicates()
    &&& forall|i: int, j: int| 0 <= i < reads.len() && 0 <= j < writes.len() ==> reads[i] != writes[j]
}

/// A system as the system scheduler keeps it: its parameters, whether it takes the world
/// to itself, and whether it runs on the main thread.
pub struct ScheduledSystem {
    pub params: Vec<SystemParam>,
    pub exclusive: bool,
    pub main_thread_task: bool,
}

/// Systems to run together, in the order in which they were scheduled.
pub struct SystemScheduler {
    pub systems: Vec<ScheduledSystem>,
}

impl SystemScheduler {
    /// Every parameter of every system can be answered by a world.
    pub open spec fn params_ok(&self) -> bool {
        forall|k: int, p: int|
            0 <= k < self.systems@.len() && 0 <= p < self.systems@[k].params@.len()
                ==> param_defined(#[trigger] self.systems@[k].params@[p])
    }

    /// Every system can be scheduled on `world`, and the world's channels can be numbered.
    pub open spec fn schedulable<V>(&self, world: World<V>) -> bool {
        &&& channel_total(world.archetype_type_ids()) < usize::MAX
        &&& forall|k: int| 0 <= k < self.systems@.len() ==> system_schedulable(world, #[trigger] self.systems@[k].params@)
    }

    pub fn new() -> (r: Self)
        ensures
            r.systems@.len() == 0,
    {
        SystemScheduler { systems: Vec::new() }
    }

    /// Schedules `system` to run off the main thread after the systems scheduled before;
    /// gives its function back to the caller, who runs it when its task comes.
    pub fn schedule<F>(&mut self, system: FunctionSystem<F>) -> (func: F)
        ensures
            final(self).systems@ == old(self).systems@.push(
                (ScheduledSystem { params: system.params, exclusive: has_exclusive(system.params@), main_thread_task: false }),
            ),
            func == system.func,
    {
        self.schedule_inner(system, false)
    }

    /// As `schedule`, for a system that runs on the main thread.
    pub fn schedule_main_thread<F>(&mut self, system: FunctionSystem<F>) -> (func: F)
        ensures
            final(self).systems@ == old(self).systems@.push(
                (ScheduledSystem { params: system.params, exclusive: has_exclusive(system.params@), main_thread_task: true }),
            ),
            func == system.func,
    {
        self.schedule_inner(system, true)
    }

    fn schedule_inner<F>(&mut self, system: FunctionSystem<F>, main_thread_task: bool) -> (func: F)
        ensures
            final(self).systems@ == old(self).systems@.push(
                (ScheduledSystem { params: system.params, exclusive: has_exclusive(system.params@), main_thread_task }),
            ),
            func == system.func,
    {
        let exclusive = system.exclusive();
        let FunctionSystem { params, func } = system;
        self.systems.push(ScheduledSystem { params, exclusive, main_thread_task });
        func
    }

    /// Whether every parameter of every system can be answered by a world (see `params_ok`).
    pub fn params_defined(&self) -> (r: bool)
        ensures
            r == self.params_ok(),
    {
        let mut k: usize = 0;
        while k < self.systems.len()
            invariant
                k <= self.systems@.len(),
                forall|x: int, p: int|
                    0 <= x < k && 0 <= p < self.systems@[x].params@.len()
                        ==> param_defined(#[trigger] self.systems@[x].params@[p]),
            decreases self.systems@.len() - k,
        {
            let params = &self.systems[k].params;
            let mut p: usize = 0;
            while p < params.len()
                invariant
                    k < self.systems@.len(),
                    *params == self.systems@[k as int].params,
                    p <= params@.len(),
                    forall|x: int, q: int|
                        0 <= x < k && 0 <= q < self.systems@[x].params@.len()
                            ==> param_defined(#[trigger] self.systems@[x].params@[q]),
                    forall|q: int| 0 <= q < p ==> param_defined(#[trigger] params@[q]),
                decreases params@.len() - p,
            {
                match &params[p] {
                    SystemParam::Query(ps) => {
                        let mut i: usize = 0;
                        let mut found = false;
                        while i < ps.len()
                            invariant
                                i <= ps@.len(),
                                found <==> exists|j: int| 0 <= j < i && !(#[trigger] ps@[j]).optional,
                            decreases ps@.len() - i,
                        {
                            if !ps[i].optional {
                                found = true;
                            }
                            i = i + 1;
                        }
                        if !found {
                            proof {
                                assert(!param_defined(self.systems@[k as int].params@[p as int]));
                            }
                            return false;
                        }
                    },
                    _ => {},
                }
                p = p + 1;
            }
            proof {
                assert forall|x: int, q: int|
                    0 <= x < k + 1 && 0 <= q < self.systems@[x].params@.len()
                        implies param_defined(#[trigger] self.systems@[x].params@[q]) by {
                    if x == k {
                        assert(self.systems@[x].params@[q] == params@[q]);
                    }
                }
            }
            k = k + 1;
        }
        true
    }

    /// Whether the systems can be scheduled on `world` (see `schedulable`).
    pub fn can_run<V>(&self, world: &World<V>) -> (r: bool)
        requires
            world.wf(),
            world.archetype_seq().len() < usize::MAX,
            self.params_ok(),
        ensures
            r == self.schedulable(*world),
    {
        match channel_total_of(world) {
            Some(t) => {
                if t == usize::MAX {
                    return false;
                }
            },
            None => {
                return false;
            },
        }
        let mut k: usize = 0;
        while k < self.systems.len()
            invariant
                world.wf(),
                world.archetype_seq().len() < usize::MAX,
                self.params_ok(),
                k <= self.systems@.len(),
                forall|x: int| 0 <= x < k ==> system_schedulable(*world, #[trigger] self.systems@[x].params@),
            decreases self.systems@.len() - k,
        {
            let system = &self.systems[k];
            proof {
                assert forall|p: int| 0 <= p < system.params@.len() implies param_defined(#[trigger] system.params@[p]) by {
                    assert(param_defined(self.systems@[k as int].params@[p]));
                }
            }
            let borrows = world.scheduled_borrows(&system.params);
            if !all_valid(world, &borrows.reads) || !all_valid(world, &borrows.writes) || !all_distinct(&borrows.writes)
                || !all_apart(&borrows.reads, &borrows.writes) {
                return false;
            }
            k = k + 1;
        }
        true
    }

    /// The task graph of the systems on `world`: one task for each system, in order, added
    /// as `Scheduler::add_task` adds it with the numbers of the channels the system reads
    /// and writes.
    pub fn run<V>(&self, world: &World<V>) -> (r: Scheduler)
        requires
            world.wf(),
            world.archetype_seq().len() < usize::MAX,
            self.params_ok(),
            self.schedulable(*world),
            self.systems@.len() < usize::MAX,
        ensures
            r.wf(),
            r.starters_ok(),
            r.task_info@.len() == self.systems@.len(),
            exists|states: Seq<Scheduler>| #[trigger] self.planned(*world, states, r),
    {
        let ghost tids = world.archetype_type_ids();
        let mut sched = Scheduler::new();
        let ghost mut states: Seq<Scheduler> = seq![sched];
        let n = self.systems.len();
        let mut k: usize = 0;
        while k < n
            invariant
                world.wf(),
                world.archetype_seq().len() < usize::MAX,
                tids == world.archetype_type_ids(),
                self.params_ok(),
                self.schedulable(*world),
                n == self.systems@.len(),
                n < usize::MAX,
                k <= n,
                sched.wf(),
                sched.starters_ok(),
                sched.task_info@.len() == k,
                states.len() == k + 1,
                states[k as int] == sched,
                states[0].fresh(),
                forall|j: int| 0 <= j < k ==> #[trigger] self.planned_step(*world, states, j),
            decreases n - k,
        {
            let system = &self.systems[k];
            proof {
                assert forall|p: int| 0 <= p < system.params@.len() implies param_defined(#[trigger] system.params@[p]) by {
                    assert(param_defined(self.systems@[k as int].params@[p]));
                }
                assert(system_schedulable(*world, self.systems@[k as int].params@));
            }
            let borrows = world.scheduled_borrows(&system.params);
            let reads = number_all(world, &borrows.reads);
            let writes = number_all(world, &borrows.writes);
            proof {
                let rr = borrows.reads@;
                let ww = borrows.writes@;
                assert forall|i: int, j: int| 0 <= i < reads@.len() && 0 <= j < writes@.len() implies reads@[i] != writes@[j] by {
                    lemma_resource_number(tids, rr[i], ww[j]);
                    lemma_resource_number(tids, ww[j], rr[i]);
                    assert(rr[i] != ww[j]);
                }
                assert forall|i: int, j: int| 0 <= i < j < writes@.len() implies writes@[i] != writes@[j] by {
                    lemma_resource_number(tids, ww[i], ww[j]);
                    lemma_resource_number(tids, ww[j], ww[i]);
                    assert(ww[i] != ww[j]);
                }
                assert forall|i: int| 0 <= i < reads@.len() implies #[trigger] reads@[i] < usize::MAX by {
                    lemma_resource_number(tids, rr[i], rr[i]);
                }
                assert forall|j: int| 0 <= j < writes@.len() implies #[trigger] writes@[j] < usize::MAX by {
                    lemma_resource_number(tids, ww[j], ww[j]);
                }
            }
            let ghost pre = sched;
            let ghost rs = reads@;
            let ghost ws = writes@;
            let t = sched.add_task(reads, writes, system.exclusive, system.main_thread_task);
            proof {
                assert forall|u: int| 0 <= u < t implies (#[trigger] sched.task_info@[u]).waiting_for == pre.task_info@[u].waiting_for by {
                    let _ = sched.wakes(u);
                }
                lemma_add_task_starters(pre, sched, t, pre.waited(rs, ws, system.exclusive).len());
                let prev = states;
                states = prev.push(sched);
                assert(self.planned_step(*world, states, k as int));
                assert forall|j: int| 0 <= j < k + 1 implies #[trigger] self.planned_step(*world, states, j) by {
                    if j < k {
                        assert(self.planned_step(*world, prev, j));
                        assert(states[j] == prev[j]);
                        assert(states[j + 1] == prev[j + 1]);
                    }
                }
            }
            k = k + 1;
        }
        proof {
            assert(self.planned(*world, states, sched));
        }
        sched
    }

    /// Step `j` of `states`: the scheduler after step `j` is the one before with the task of
    /// system `j` added.
    pub open spec fn planned_step<V>(&self, world: World<V>, states: Seq<Scheduler>, j: int) -> bool {
        let tids = world.archetype_type_ids();
        let params = self.systems@[j].params@;
        states[j].task_added(
            states[j + 1],
            numbered(tids, scheduled_resources(world, params, false)),
            numbered(tids, scheduled_resources(world, params, true)),
            self.systems@[j].exclusive,
            self.systems@[j].main_thread_task,
        )
    }

    /// `states` leads from a new scheduler to `r` adding the systems' tasks in order.
    pub open spec fn planned<V>(&self, world: World<V>, states: Seq<Scheduler>, r: Scheduler) -> bool {
        &&& states.len() == self.systems@.len() + 1
        &&& states[0].fresh()
        &&& states.last() == r
        &&& forall|j: int| 0 <= j < self.systems@.len() ==> #[trigger] self.planned_step(world, states, j)
    }
}

} // verus!