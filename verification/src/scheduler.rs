use vstd::prelude::*;

verus! {

/// Who holds a resource for the tasks still to be added: nobody, readers (and the writer
/// they wait for), or one writer.
pub enum NextUp {
    Unused,
    Readers(Option<usize>, Vec<usize>),
    Writer(usize),
}

/// The same as `NextUp`, with the readers as a sequence.
pub enum Lock {
    Unused,
    Readers(Option<usize>, Seq<usize>),
    Writer(usize),
}

impl NextUp {
    pub open spec fn view(&self) -> Lock {
        match self {
            NextUp::Unused => Lock::Unused,
            NextUp::Readers(w, rs) => Lock::Readers(*w, rs@),
            NextUp::Writer(w) => Lock::Writer(*w),
        }
    }
}

/// The tasks that a new reader of a resource held as `l` waits for.
pub open spec fn read_deps(l: Lock) -> Set<usize> {
    match l {
        Lock::Readers(Some(w), _) => set![w],
        Lock::Writer(w) => set![w],
        _ => Set::empty(),
    }
}

/// The tasks that a new writer of a resource held as `l` waits for.
pub open spec fn write_deps(l: Lock) -> Set<usize> {
    match l {
        Lock::Readers(_, rs) => rs.to_set(),
        Lock::Writer(w) => set![w],
        Lock::Unused => Set::empty(),
    }
}

/// How a resource is held after task `t` reads it.
pub open spec fn after_read(l: Lock, t: usize) -> Lock {
    match l {
        Lock::Readers(w, rs) => Lock::Readers(w, rs.push(t)),
        Lock::Writer(w) => Lock::Readers(Some(w), seq![t]),
        Lock::Unused => Lock::Readers(None, seq![t]),
    }
}

/// How resource `r` is held, `None` past the resources seen so far.
pub open spec fn lock_of(locks: Seq<Lock>, r: usize) -> Lock {
    if r < locks.len() {
        locks[r as int]
    } else {
        Lock::Unused
    }
}

/// The locks after task `t` reads `reads` in order and then writes `writes`.
pub open spec fn locks_after(locks: Seq<Lock>, reads: Seq<usize>, writes: Seq<usize>, t: usize, r: usize) -> Lock {
    if writes.contains(r) {
        Lock::Writer(t)
    } else {
        reads_applied(lock_of(locks, r), reads, r, t)
    }
}

/// The lock on `r` after task `t` reads each of `reads` in turn.
pub open spec fn reads_applied(l: Lock, reads: Seq<usize>, r: usize, t: usize) -> Lock
    decreases reads.len(),
{
    if reads.len() == 0 {
        l
    } else {
        let before = reads_applied(l, reads.drop_last(), r, t);
        if reads.last() == r {
            after_read(before, t)
        } else {
            before
        }
    }
}

/// The tasks that a new task reading `reads` and writing `writes` waits for through the
/// resources.
pub open spec fn task_deps(locks: Seq<Lock>, reads: Seq<usize>, writes: Seq<usize>) -> Set<usize> {
    Set::new(
        |u: usize|
            (exists|i: int| 0 <= i < reads.len() && read_deps(lock_of(locks, #[trigger] reads[i])).contains(u))
                || (exists|j: int| 0 <= j < writes.len() && write_deps(lock_of(locks, #[trigger] writes[j])).contains(u)),
    )
}

/// `post` is `pre` with a task `t` added: each earlier task of `waited` now wakes `t` too,
/// and the earlier tasks keep their counts and threads.
pub open spec fn wakes_added(pre: Scheduler, post: Scheduler, waited: Set<usize>, t: usize) -> bool {
    forall|u: int| #![trigger post.task_info@[u]] 0 <= u < t ==> {
        &&& post.wakes(u) == if waited.contains(u as usize) {
            pre.wakes(u).push(t)
        } else {
            pre.wakes(u)
        }
        &&& post.task_info@[u].waiting_for == pre.task_info@[u].waiting_for
        &&& post.task_info@[u].main_thread_task == pre.task_info@[u].main_thread_task
    }
}

/// What the scheduler records of a task: how many tasks it waits for, which tasks wait for
/// it, and whether it runs on the main thread.
pub struct TaskInfo {
    pub waiting_for: usize,
    pub tasks_to_wake_up: Vec<usize>,
    pub main_thread_task: bool,
}

/// Orders tasks by the resources they read and write: a task waits for the last writer of
/// each resource it reads, and for the last writer or the readers since of each resource it
/// writes. An exclusive task waits for the task added before it; a task with nothing else
/// to wait for waits for the last exclusive task.
pub struct Scheduler {
    pub task_info: Vec<TaskInfo>,
    pub resources: Vec<NextUp>,
    /// Tasks that will run at the start of a schedule cycle.
    pub starter_tasks: Vec<usize>,
    pub last_exclusive_task: Option<usize>,
    pub last_task: Option<usize>,
}

impl Scheduler {
    pub open spec fn locks(&self) -> Seq<Lock> {
        Seq::new(self.resources@.len(), |r: int| self.resources@[r]@)
    }

    pub open spec fn wakes(&self, u: int) -> Seq<usize> {
        self.task_info@[u].tasks_to_wake_up@
    }

    /// Every task named is one of the tasks added, and each task only wakes later tasks,
    /// each once: the order of tasks has no cycle.
    pub open spec fn wf(&self) -> bool {
        let n = self.task_info@.len();
        &&& forall|u: int, k: int| 0 <= u < n && 0 <= k < self.wakes(u).len() ==> u < #[trigger] self.wakes(u)[k] < n
        &&& forall|u: int| 0 <= u < n ==> (#[trigger] self.wakes(u)).no_duplicates()
        &&& forall|r: int| 0 <= r < self.resources@.len() ==> match #[trigger] self.locks()[r] {
            Lock::Unused => true,
            Lock::Readers(w, rs) => (w matches Some(w) ==> w < n) && forall|k: int| 0 <= k < rs.len() ==> rs[k] < n,
            Lock::Writer(w) => w < n,
        }
        &&& self.last_task matches Some(t) ==> t < n
        &&& self.last_exclusive_task matches Some(t) ==> t < n
        &&& forall|k: int| 0 <= k < self.starter_tasks@.len() ==> #[trigger] self.starter_tasks@[k] < n
    }

    /// A scheduler with no task, no resource and no task remembered.
    pub open spec fn fresh(&self) -> bool {
        &&& self.task_info@.len() == 0
        &&& self.resources@.len() == 0
        &&& self.starter_tasks@.len() == 0
        &&& self.last_exclusive_task is None
        &&& self.last_task is None
    }

    pub fn new() -> (r: Self)
        ensures
            r.fresh(),
            r.starters_ok(),
            r.wf(),
            r.task_info@.len() == 0,
            r.resources@.len() == 0,
            r.starter_tasks@.len() == 0,
            r.last_exclusive_task is None,
            r.last_task is None,
    {
        Self { task_info: Vec::new(), resources: Vec::new(), starter_tasks: Vec::new(), last_exclusive_task: None, last_task: None }
    }
}


pub proof fn lemma_reads_keep_writer(l: Lock, reads: Seq<usize>, r: usize, t: usize)
    ensures
        read_deps(reads_applied(l, reads, r, t)) == read_deps(l),
        !reads.contains(r) ==> reads_applied(l, reads, r, t) == l,
    decreases reads.len(),
{
    if reads.len() > 0 {
        lemma_reads_keep_writer(l, reads.drop_last(), r, t);
        let before = reads_applied(l, reads.drop_last(), r, t);
        if reads.last() == r {
            assert(read_deps(after_read(before, t)) =~= read_deps(before));
        }
        if !reads.contains(r) {
            assert(!reads.drop_last().contains(r)) by {
                if reads.drop_last().contains(r) {
                    let k = choose|k: int| 0 <= k < reads.drop_last().len() && reads.drop_last()[k] == r;
                    assert(reads[k] == r);
                }
            }
            assert(reads[reads.len() - 1] != r);
        }
    }
}

/// A sequence of distinct numbers below `t` has at most `t` of them.
pub proof fn lemma_distinct_below(s: Seq<usize>, t: usize)
    requires
        s.no_duplicates(),
        forall|k: int| 0 <= k < s.len() ==> #[trigger] s[k] < t,
    ensures
        s.len() <= t,
{
    s.unique_seq_to_set();
    vstd::seq_lib::seq_to_set_is_finite(s);
    let f = |x: usize| x as int;
    let si = s.to_set().map(f);
    assert(vstd::relations::injective_on(f, s.to_set()));
    vstd::set_lib::lemma_map_size(s.to_set(), si, f);
    vstd::set_lib::lemma_int_range(0, t as int);
    assert(si.subset_of(vstd::set_lib::set_int_range(0, t as int))) by {
        assert forall|y: int| si.contains(y) implies vstd::set_lib::set_int_range(0, t as int).contains(y) by {
            let x = choose|x: usize| s.to_set().contains(x) && f(x) == y;
            let k = choose|k: int| 0 <= k < s.len() && s[k] == x;
        }
    }
    vstd::set_lib::lemma_len_subset(si, vstd::set_lib::set_int_range(0, t as int));
}

pub proof fn lemma_prefix_set_step(s: Seq<usize>, k: int)
    requires
        0 <= k < s.len(),
    ensures
        s.subrange(0, k + 1).to_set() == s.subrange(0, k).to_set().insert(s[k]),
{
    let a = s.subrange(0, k + 1);
    let b = s.subrange(0, k);
    assert forall|x: usize| a.contains(x) <==> b.contains(x) || x == s[k] by {
        if a.contains(x) {
            let q = choose|q: int| 0 <= q < a.len() && a[q] == x;
            if q < k {
                assert(b[q] == x);
            }
        }
        if b.contains(x) {
            let q = choose|q: int| 0 <= q < b.len() && b[q] == x;
            assert(a[q] == x);
        }
        if x == s[k] {
            assert(a[k] == x);
        }
    }
    assert(a.to_set() =~= b.to_set().insert(s[k]));
}

fn contains_index(v: &Vec<usize>, x: usize) -> (r: bool)
    ensures
        r == v@.contains(x),
{
    let mut i: usize = 0;
    while i < v.len()
        invariant
            i <= v@.len(),
            forall|j: int| 0 <= j < i ==> v@[j] != x,
        decreases v@.len() - i,
    {
        if v[i] == x {
            return true;
        }
        i = i + 1;
    }
    false
}

pub(crate) fn copy_indices(v: &Vec<usize>) -> (r: Vec<usize>)
    ensures
        r@ == v@,
{
    let mut r: Vec<usize> = Vec::new();
    let mut i: usize = 0;
    while i < v.len()
        invariant
            i <= v@.len(),
            r@ == v@.subrange(0, i as int),
        decreases v@.len() - i,
    {
        r.push(v[i]);
        i = i + 1;
        assert(r@ =~= v@.subrange(0, i as int));
    }
    assert(r@ =~= v@);
    r
}

impl Scheduler {
    /// The state of the scheduler while a task is added: the tasks it waits for so far are
    /// `wakers`, and each of them wakes it.
    pub open spec fn adding(&self, pre: Scheduler, t: usize, wakers: Seq<usize>) -> bool {
        &&& self.task_info@.len() == t
        &&& t == pre.task_info@.len()
        &&& wakers.no_duplicates()
        &&& forall|k: int| 0 <= k < wakers.len() ==> #[trigger] wakers[k] < t
        &&& forall|u: int| 0 <= u < t ==> {
            &&& #[trigger] self.wakes(u) == if wakers.contains(u as usize) { pre.wakes(u).push(t) } else { pre.wakes(u) }
            &&& self.task_info@[u].waiting_for == pre.task_info@[u].waiting_for
            &&& self.task_info@[u].main_thread_task == pre.task_info@[u].main_thread_task
        }
    }

    proof fn lemma_adding_frame(&self, other: Scheduler, pre: Scheduler, t: usize, wakers: Seq<usize>)
        requires
            self.adding(pre, t, wakers),
            other.task_info@ == self.task_info@,
        ensures
            other.adding(pre, t, wakers),
    {
        assert forall|u: int| 0 <= u < t implies {
            &&& #[trigger] other.wakes(u) == if wakers.contains(u as usize) { pre.wakes(u).push(t) } else { pre.wakes(u) }
            &&& other.task_info@[u].waiting_for == pre.task_info@[u].waiting_for
            &&& other.task_info@[u].main_thread_task == pre.task_info@[u].main_thread_task
        } by {
            let _ = self.wakes(u);
        }
    }

    /// Records that the task being added, `t`, waits for `u`, unless it already does.
    fn wait_for(&mut self, u: usize, t: usize, wakers: &mut Vec<usize>, waiting_for: &mut usize, Ghost(pre): Ghost<Scheduler>)
        requires
            old(self).adding(pre, t, old(wakers)@),
            pre.wf(),
            *old(waiting_for) == old(wakers)@.len(),
            u < t,
        ensures
            final(self).adding(pre, t, final(wakers)@),
            final(wakers)@.to_set() == old(wakers)@.to_set().insert(u),
            *final(waiting_for) == final(wakers)@.len(),
            final(self).resources@ == old(self).resources@,
            final(self).starter_tasks@ == old(self).starter_tasks@,
            final(self).last_task == old(self).last_task,
            final(self).last_exclusive_task == old(self).last_exclusive_task,
    {
        if !contains_index(wakers, u) {
            wakers.push(u);
            let ghost before = self.task_info@;
            let info = &mut self.task_info[u];
            info.tasks_to_wake_up.push(t);
            proof {
                assert(self.task_info@[u as int].waiting_for == before[u as int].waiting_for);
                assert(self.task_info@[u as int].main_thread_task == before[u as int].main_thread_task);
                assert forall|x: int| 0 <= x < t && x != u implies self.task_info@[x] == before[x] by {}
                assert forall|x: int| 0 <= x < t implies #[trigger] self.wakes(x) == if wakers@.contains(x as usize) { pre.wakes(x).push(t) } else { pre.wakes(x) } by {
                    assert(old(self).wakes(x) == if old(wakers)@.contains(x as usize) { pre.wakes(x).push(t) } else { pre.wakes(x) });
                    assert(before[x].tasks_to_wake_up@ == old(self).wakes(x));
                    if x != u {
                        assert(self.task_info@[x] == before[x]);
                        assert(wakers@.contains(x as usize) == old(wakers)@.contains(x as usize)) by {
                            if wakers@.contains(x as usize) {
                                let k = choose|k: int| 0 <= k < wakers@.len() && wakers@[k] == x as usize;
                                if k < old(wakers)@.len() {
                                    assert(old(wakers)@[k] == x as usize);
                                }
                            }
                            if old(wakers)@.contains(x as usize) {
                                let k = choose|k: int| 0 <= k < old(wakers)@.len() && old(wakers)@[k] == x as usize;
                                assert(wakers@[k] == x as usize);
                            }
                        }
                    } else {
                        assert(wakers@[wakers@.len() - 1] == u);
                        assert(!old(wakers)@.contains(u));
                    }
                }
                assert(wakers@.no_duplicates()) by {
                    assert forall|a: int, b: int| 0 <= a < b < wakers@.len() implies wakers@[a] != wakers@[b] by {
                        if b == wakers@.len() - 1 {
                            assert(old(wakers)@[a] == wakers@[a]);
                        } else {
                            assert(old(wakers)@[a] == wakers@[a]);
                            assert(old(wakers)@[b] == wakers@[b]);
                        }
                    }
                }
                assert forall|k: int| 0 <= k < wakers@.len() implies #[trigger] wakers@[k] < t by {
                    if k < old(wakers)@.len() {
                        assert(old(wakers)@[k] == wakers@[k]);
                    }
                }
                lemma_distinct_below(wakers@, t);
                assert(wakers@.to_set() =~= old(wakers)@.to_set().insert(u)) by {
                    assert forall|x: usize| wakers@.contains(x) <==> old(wakers)@.contains(x) || x == u by {
                        if wakers@.contains(x) {
                            let k = choose|k: int| 0 <= k < wakers@.len() && wakers@[k] == x;
                            if k < old(wakers)@.len() {
                                assert(old(wakers)@[k] == x);
                            }
                        }
                        if old(wakers)@.contains(x) {
                            let k = choose|k: int| 0 <= k < old(wakers)@.len() && old(wakers)@[k] == x;
                            assert(wakers@[k] == x);
                        }
                        if x == u {
                            assert(wakers@[wakers@.len() - 1] == u);
                        }
                    }
                }
            }
            *waiting_for = *waiting_for + 1;
            assert(self.task_info@.len() == t);
            assert(wakers@.no_duplicates());
            assert(forall|k: int| 0 <= k < wakers@.len() ==> #[trigger] wakers@[k] < t);
            assert(forall|x: int| 0 <= x < t ==> #[trigger] self.wakes(x) == if wakers@.contains(x as usize) { pre.wakes(x).push(t) } else { pre.wakes(x) });
            assert forall|x: int| 0 <= x < t implies #[trigger] self.task_info@[x].waiting_for == pre.task_info@[x].waiting_for
                && self.task_info@[x].main_thread_task == pre.task_info@[x].main_thread_task by {
                let _ = old(self).wakes(x);
                if x != u {
                    assert(self.task_info@[x] == before[x]);
                }
            }
        } else {
            assert(old(wakers)@.to_set() =~= old(wakers)@.to_set().insert(u));
        }
    }

    /// The tasks a new task waits for: those it shares resources with as described above,
    /// or else the last task (if it is exclusive) or the last exclusive task.
    pub open spec fn waited(&self, reads: Seq<usize>, writes: Seq<usize>, exclusive_task: bool) -> Set<usize> {
        let deps = task_deps(self.locks(), reads, writes);
        if deps.is_empty() {
            if exclusive_task {
                match self.last_task {
                    Some(l) => set![l],
                    None => Set::empty(),
                }
            } else {
                match self.last_exclusive_task {
                    Some(l) => set![l],
                    None => Set::empty(),
                }
            }
        } else {
            deps
        }
    }

    /// Makes room for resource `r`.
    fn ensure_resource(&mut self, r: usize)
        requires
            r < usize::MAX,
        ensures
            final(self).resources@.len() > r,
            final(self).resources@.len() >= old(self).resources@.len(),
            forall|x: usize| #[trigger] lock_of(final(self).locks(), x) == lock_of(old(self).locks(), x),
            final(self).task_info@ == old(self).task_info@,
            final(self).starter_tasks@ == old(self).starter_tasks@,
            final(self).last_task == old(self).last_task,
            final(self).last_exclusive_task == old(self).last_exclusive_task,
            forall|x: int| 0 <= x < old(self).resources@.len() ==> #[trigger] final(self).resources@[x] == old(self).resources@[x],
            forall|x: int| old(self).resources@.len() <= x < final(self).resources@.len() ==> #[trigger] final(self).resources@[x] is Unused,
    {
        while self.resources.len() <= r
            invariant
                r < usize::MAX,
                self.resources@.len() >= old(self).resources@.len(),
                self.task_info@ == old(self).task_info@,
                self.starter_tasks@ == old(self).starter_tasks@,
                self.last_task == old(self).last_task,
                self.last_exclusive_task == old(self).last_exclusive_task,
                forall|x: int| 0 <= x < old(self).resources@.len() ==> #[trigger] self.resources@[x] == old(self).resources@[x],
                forall|x: int| old(self).resources@.len() <= x < self.resources@.len() ==> #[trigger] self.resources@[x] is Unused,
            decreases r + 1 - self.resources@.len(),
        {
            self.resources.push(NextUp::Unused);
        }
        assert forall|x: usize| #[trigger] lock_of(self.locks(), x) == lock_of(old(self).locks(), x) by {
            if x < self.resources@.len() && x >= old(self).resources@.len() {
                assert(self.resources@[x as int] is Unused);
            }
        }
    }

    /// `post` is this scheduler after adding a task (with the next index) that reads
    /// `reads`, writes `writes`, is exclusive or not and runs on the main thread or not: the
    /// task waits for the tasks of `waited`, each of which now wakes it, it is a starter
    /// task if it waits for none, and the resources are held as `locks_after` says.
    pub open spec fn task_added(self, post: Scheduler, reads: Seq<usize>, writes: Seq<usize>, exclusive_task: bool, main_thread_task: bool) -> bool {
        let task_id = self.task_info@.len();
        let waited = self.waited(reads, writes, exclusive_task);
        &&& post.wf()
        &&& post.task_info@.len() == task_id + 1
        &&& waited.finite()
        &&& post.task_info@[task_id as int].waiting_for == waited.len()
        &&& post.wakes(task_id as int) == Seq::<usize>::empty()
        &&& post.task_info@[task_id as int].main_thread_task == main_thread_task
        &&& wakes_added(self, post, waited, task_id as usize)
        &&& post.starter_tasks@ == if waited.len() == 0 {
            self.starter_tasks@.push(task_id as usize)
        } else {
            self.starter_tasks@
        }
        &&& post.last_exclusive_task == if exclusive_task { Some(task_id as usize) } else { self.last_exclusive_task }
        &&& post.last_task == Some(task_id as usize)
        &&& forall|r: usize| #[trigger] lock_of(post.locks(), r) == locks_after(self.locks(), reads, writes, task_id as usize, r)
    }

    /// Adds a task that reads `reads` and writes `writes` (no resource in both, none written
    /// twice) and returns its index.
    pub fn add_task(&mut self, reads: Vec<usize>, writes: Vec<usize>, exclusive_task: bool, main_thread_task: bool) -> (task_id: usize)
        requires
            old(self).wf(),
            old(self).task_info@.len() < usize::MAX,
            writes@.no_duplicates(),
            forall|i: int, j: int| 0 <= i < reads@.len() && 0 <= j < writes@.len() ==> reads@[i] != writes@[j],
            forall|i: int| 0 <= i < reads@.len() ==> #[trigger] reads@[i] < usize::MAX,
            forall|j: int| 0 <= j < writes@.len() ==> #[trigger] writes@[j] < usize::MAX,
        ensures
            final(self).wf(),
            task_id == old(self).task_info@.len(),
            final(self).task_info@.len() == task_id + 1,
            old(self).waited(reads@, writes@, exclusive_task).finite(),
            final(self).task_info@[task_id as int].waiting_for == old(self).waited(reads@, writes@, exclusive_task).len(),
            final(self).wakes(task_id as int) == Seq::<usize>::empty(),
            final(self).task_info@[task_id as int].main_thread_task == main_thread_task,
            wakes_added(*old(self), *final(self), old(self).waited(reads@, writes@, exclusive_task), task_id),
            final(self).starter_tasks@ == if old(self).waited(reads@, writes@, exclusive_task).len() == 0 {
                old(self).starter_tasks@.push(task_id)
            } else {
                old(self).starter_tasks@
            },
            final(self).last_exclusive_task == if exclusive_task { Some(task_id) } else { old(self).last_exclusive_task },
            final(self).last_task == Some(task_id),
            forall|r: usize| #[trigger] lock_of(final(self).locks(), r) == locks_after(old(self).locks(), reads@, writes@, task_id, r),
    {
        let t = self.task_info.len();
        let ghost pre = *self;
        let mut waiting_for: usize = 0;
        let mut wakers: Vec<usize> = Vec::new();
        assert(wakers@.to_set() =~= task_deps(pre.locks(), reads@.subrange(0, 0), writes@.subrange(0, 0)));
        let mut i: usize = 0;
        while i < reads.len()
            invariant
                pre.wf(),
                pre.task_info@.len() == t,
                t < usize::MAX,
                self.adding(pre, t, wakers@),
                self.starter_tasks@ == pre.starter_tasks@,
                self.last_task == pre.last_task,
                self.last_exclusive_task == pre.last_exclusive_task,
                waiting_for == wakers@.len(),
                i <= reads@.len(),
                forall|x: int| 0 <= x < reads@.len() ==> #[trigger] reads@[x] < usize::MAX,
                wakers@.to_set() == task_deps(pre.locks(), reads@.subrange(0, i as int), writes@.subrange(0, 0)),
                forall|r: usize| #[trigger] lock_of(self.locks(), r) == reads_applied(lock_of(pre.locks(), r), reads@.subrange(0, i as int), r, t),
                forall|x: int| 0 <= x < self.resources@.len() ==> match #[trigger] self.locks()[x] {
                    Lock::Unused => true,
                    Lock::Readers(w, rs) => (w matches Some(w) ==> w < t) && forall|k: int| 0 <= k < rs.len() ==> rs[k] <= t,
                    Lock::Writer(w) => w < t,
                },
            decreases reads@.len() - i,
        {
            let r = reads[i];
            let ghost s0 = *self;
            self.ensure_resource(r);
            proof {
                s0.lemma_adding_frame(*self, pre, t, wakers@);
            }
            let ghost cur = lock_of(self.locks(), r);
            proof {
                lemma_reads_keep_writer(lock_of(pre.locks(), r), reads@.subrange(0, i as int), r, t);
                assert(self.locks()[r as int] == cur);
            }
            let (new_lock, dep) = match &self.resources[r] {
                NextUp::Unused => {
                    let v = vec![t];
                    assert(v@ =~= seq![t]);
                    (NextUp::Readers(None, v), None)
                },
                NextUp::Readers(w, rs) => {
                    let mut rs2 = copy_indices(rs);
                    rs2.push(t);
                    (NextUp::Readers(*w, rs2), *w)
                },
                NextUp::Writer(w) => {
                    let v = vec![t];
                    assert(v@ =~= seq![t]);
                    (NextUp::Readers(Some(*w), v), Some(*w))
                },
            };
            assert(new_lock@ == after_read(cur, t));
            assert(dep matches Some(w) ==> read_deps(cur) == set![w] && w < t);
            assert(dep is None ==> read_deps(cur) =~= Set::<usize>::empty());
            let ghost locks_before = self.locks();
            let ghost s1 = *self;
            self.resources.set(r, new_lock);
            proof {
                s1.lemma_adding_frame(*self, pre, t, wakers@);
                assert forall|x: int| 0 <= x < self.resources@.len() implies match #[trigger] self.locks()[x] {
                    Lock::Unused => true,
                    Lock::Readers(w, rs) => (w matches Some(w) ==> w < t) && forall|k: int| 0 <= k < rs.len() ==> rs[k] <= t,
                    Lock::Writer(w) => w < t,
                } by {
                    if x != r {
                        assert(self.locks()[x] == s1.locks()[x]);
                        if x < s0.resources@.len() {
                            assert(s1.locks()[x] == s0.locks()[x]);
                        } else {
                            assert(s1.resources@[x] is Unused);
                        }
                    } else {
                        if r < s0.resources@.len() {
                            assert(s1.locks()[x] == s0.locks()[x]);
                        } else {
                            assert(s1.resources@[x] is Unused);
                        }
                        assert(self.locks()[x] == new_lock@);
                    }
                }
            }
            proof {
                let next = reads@.subrange(0, i + 1);
                assert(next.drop_last() =~= reads@.subrange(0, i as int));
                assert forall|x: usize| #[trigger] lock_of(self.locks(), x) == reads_applied(lock_of(pre.locks(), x), next, x, t) by {
                    if x != r {
                        assert(lock_of(self.locks(), x) == lock_of(locks_before, x));
                    }
                }
                assert(read_deps(cur) == read_deps(lock_of(pre.locks(), r)));
            }
            let ghost set_before = wakers@.to_set();
            match dep {
                Some(w) => {
                    self.wait_for(w, t, &mut wakers, &mut waiting_for, Ghost(pre));
                },
                None => {},
            }
            proof {
                let next = reads@.subrange(0, i + 1);
                let empty = writes@.subrange(0, 0);
                assert(wakers@.to_set() =~= task_deps(pre.locks(), next, empty)) by {
                    assert forall|u: usize| wakers@.to_set().contains(u) <==> task_deps(pre.locks(), next, empty).contains(u) by {
                        if task_deps(pre.locks(), next, empty).contains(u) {
                            let k = choose|k: int| 0 <= k < next.len() && read_deps(lock_of(pre.locks(), #[trigger] next[k])).contains(u);
                            if k < i {
                                assert(reads@.subrange(0, i as int)[k] == next[k]);
                                assert(task_deps(pre.locks(), reads@.subrange(0, i as int), empty).contains(u));
                            }
                        }
                        if set_before.contains(u) {
                            let k = choose|k: int| 0 <= k < i && read_deps(lock_of(pre.locks(), #[trigger] reads@.subrange(0, i as int)[k])).contains(u);
                            assert(next[k] == reads@.subrange(0, i as int)[k]);
                        }
                        if wakers@.to_set().contains(u) && !set_before.contains(u) {
                            assert(next[i as int] == r);
                        }
                    }
                }
            }
            i = i + 1;
        }
        assert(reads@.subrange(0, i as int) =~= reads@);
        let mut j: usize = 0;
        while j < writes.len()
            invariant
                pre.wf(),
                pre.task_info@.len() == t,
                t < usize::MAX,
                self.adding(pre, t, wakers@),
                self.starter_tasks@ == pre.starter_tasks@,
                self.last_task == pre.last_task,
                self.last_exclusive_task == pre.last_exclusive_task,
                waiting_for == wakers@.len(),
                j <= writes@.len(),
                writes@.no_duplicates(),
                forall|x: int, y: int| 0 <= x < reads@.len() && 0 <= y < writes@.len() ==> reads@[x] != writes@[y],
                forall|x: int| 0 <= x < writes@.len() ==> #[trigger] writes@[x] < usize::MAX,
                wakers@.to_set() == task_deps(pre.locks(), reads@, writes@.subrange(0, j as int)),
                forall|r: usize| #[trigger] lock_of(self.locks(), r) == if writes@.subrange(0, j as int).contains(r) {
                    Lock::Writer(t)
                } else {
                    reads_applied(lock_of(pre.locks(), r), reads@, r, t)
                },
                forall|x: int| 0 <= x < self.resources@.len() ==> match #[trigger] self.locks()[x] {
                    Lock::Unused => true,
                    Lock::Readers(w, rs) => (w matches Some(w) ==> w < t) && forall|k: int| 0 <= k < rs.len() ==> rs[k] <= t,
                    Lock::Writer(w) => w <= t,
                },
            decreases writes@.len() - j,
        {
            let r = writes[j];
            let ghost s0 = *self;
            self.ensure_resource(r);
            proof {
                s0.lemma_adding_frame(*self, pre, t, wakers@);
            }
            proof {
                assert(!reads@.contains(r)) by {
                    if reads@.contains(r) {
                        let k = choose|k: int| 0 <= k < reads@.len() && reads@[k] == r;
                    }
                }
                lemma_reads_keep_writer(lock_of(pre.locks(), r), reads@, r, t);
                assert(!writes@.subrange(0, j as int).contains(r)) by {
                    if writes@.subrange(0, j as int).contains(r) {
                        let k = choose|k: int| 0 <= k < j && writes@.subrange(0, j as int)[k] == r;
                        assert(writes@[k] == writes@[j as int]);
                    }
                }
                assert(lock_of(self.locks(), r) == lock_of(pre.locks(), r));
                assert(self.locks()[r as int] == lock_of(pre.locks(), r));
                if r < pre.resources@.len() {
                    assert(pre.locks()[r as int] == lock_of(pre.locks(), r));
                }
            }
            let ghost set_before = wakers@.to_set();
            let ghost l0 = lock_of(pre.locks(), r);
            let ghost res_before = self.resources@;
            let holders: Vec<usize> = match &self.resources[r] {
                NextUp::Unused => Vec::new(),
                NextUp::Readers(_, rs) => copy_indices(rs),
                NextUp::Writer(w) => vec![*w],
            };
            proof {
                assert(holders@.to_set() =~= write_deps(l0));
                if r < pre.resources@.len() {
                    assert(pre.locks()[r as int] == l0);
                }
            }
            let mut k: usize = 0;
            while k < holders.len()
                invariant
                    pre.wf(),
                    pre.task_info@.len() == t,
                    self.adding(pre, t, wakers@),
                    self.starter_tasks@ == pre.starter_tasks@,
                    self.last_task == pre.last_task,
                    self.last_exclusive_task == pre.last_exclusive_task,
                    waiting_for == wakers@.len(),
                    k <= holders@.len(),
                    forall|x: int| 0 <= x < holders@.len() ==> #[trigger] holders@[x] < t,
                    wakers@.to_set() == set_before.union(holders@.subrange(0, k as int).to_set()),
                    self.resources@ == res_before,
                decreases holders@.len() - k,
            {
                self.wait_for(holders[k], t, &mut wakers, &mut waiting_for, Ghost(pre));
                k = k + 1;
                proof {
                    lemma_prefix_set_step(holders@, k - 1);
                }
                assert(wakers@.to_set() =~= set_before.union(holders@.subrange(0, k as int).to_set()));
            }
            let ghost locks_before = self.locks();
            let ghost s1 = *self;
            self.resources.set(r, NextUp::Writer(t));
            proof {
                s1.lemma_adding_frame(*self, pre, t, wakers@);
                assert forall|x: int| 0 <= x < self.resources@.len() implies match #[trigger] self.locks()[x] {
                    Lock::Unused => true,
                    Lock::Readers(w, rs) => (w matches Some(w) ==> w < t) && forall|k: int| 0 <= k < rs.len() ==> rs[k] <= t,
                    Lock::Writer(w) => w <= t,
                } by {
                    if x != r {
                        assert(self.locks()[x] == s1.locks()[x]);
                        assert(s1.resources@ == res_before);
                        if x < s0.resources@.len() {
                            assert(s1.locks()[x] == s0.locks()[x]);
                        } else {
                            assert(s1.resources@[x] is Unused);
                        }
                    }
                }
                assert(holders@.subrange(0, k as int) =~= holders@);
                let next = writes@.subrange(0, j + 1);
                assert(next.drop_last() =~= writes@.subrange(0, j as int));
                assert forall|x: usize| next.contains(x) <==> writes@.subrange(0, j as int).contains(x) || x == r by {
                    if next.contains(x) {
                        let q = choose|q: int| 0 <= q < next.len() && next[q] == x;
                        if q < j {
                            assert(writes@.subrange(0, j as int)[q] == x);
                        }
                    }
                    if writes@.subrange(0, j as int).contains(x) {
                        let q = choose|q: int| 0 <= q < j && writes@.subrange(0, j as int)[q] == x;
                        assert(next[q] == x);
                    }
                    if x == r {
                        assert(next[j as int] == r);
                    }
                }
                assert forall|x: usize| #[trigger] lock_of(self.locks(), x) == if next.contains(x) {
                    Lock::Writer(t)
                } else {
                    reads_applied(lock_of(pre.locks(), x), reads@, x, t)
                } by {
                    if x != r {
                        assert(lock_of(self.locks(), x) == lock_of(locks_before, x));
                    }
                }
                assert(wakers@.to_set() =~= task_deps(pre.locks(), reads@, next)) by {
                    assert forall|u: usize| wakers@.to_set().contains(u) <==> task_deps(pre.locks(), reads@, next).contains(u) by {
                        let prev = writes@.subrange(0, j as int);
                        if task_deps(pre.locks(), reads@, next).contains(u) {
                            if exists|q: int| 0 <= q < next.len() && write_deps(lock_of(pre.locks(), #[trigger] next[q])).contains(u) {
                                let q = choose|q: int| 0 <= q < next.len() && write_deps(lock_of(pre.locks(), #[trigger] next[q])).contains(u);
                                if q < j {
                                    assert(prev[q] == next[q]);
                                    assert(task_deps(pre.locks(), reads@, prev).contains(u));
                                } else {
                                    assert(write_deps(l0).contains(u));
                                    assert(holders@.to_set().contains(u));
                                }
                            } else {
                                assert(task_deps(pre.locks(), reads@, prev).contains(u));
                            }
                        }
                        if set_before.contains(u) {
                            if exists|q: int| 0 <= q < prev.len() && write_deps(lock_of(pre.locks(), #[trigger] prev[q])).contains(u) {
                                let q = choose|q: int| 0 <= q < prev.len() && write_deps(lock_of(pre.locks(), #[trigger] prev[q])).contains(u);
                                assert(next[q] == prev[q]);
                            }
                        }
                        if holders@.to_set().contains(u) {
                            assert(write_deps(lock_of(pre.locks(), next[j as int])).contains(u));
                        }
                    }
                }
            }
            j = j + 1;
        }
        assert(writes@.subrange(0, j as int) =~= writes@);
        let ghost end_locks = self.locks();
        proof {
            assert forall|x: int| 0 <= x < end_locks.len() implies match #[trigger] end_locks[x] {
                Lock::Unused => true,
                Lock::Readers(w, rs) => (w matches Some(w) ==> w < t + 1) && forall|k: int| 0 <= k < rs.len() ==> rs[k] < t + 1,
                Lock::Writer(w) => w < t + 1,
            } by {
                let _ = self.locks()[x];
            }
        }
        let ghost deps_set = wakers@.to_set();
        proof {
            wakers@.unique_seq_to_set();
            vstd::seq_lib::seq_to_set_is_finite(wakers@);
        }
        if waiting_for == 0 {
            proof {
                assert(deps_set.len() == 0);
                assert(deps_set =~= Set::<usize>::empty());
            }
            let last = if exclusive_task { self.last_task } else { self.last_exclusive_task };
            match last {
                Some(l) => {
                    self.wait_for(l, t, &mut wakers, &mut waiting_for, Ghost(pre));
                    proof {
                        assert(wakers@.to_set() =~= set![l]);
                    }
                },
                None => {
                    let ghost s2 = *self;
                    self.starter_tasks.push(t);
                    proof {
                        s2.lemma_adding_frame(*self, pre, t, wakers@);
                    }
                },
            }
        } else {
            proof {
                assert(wakers@.len() > 0);
                assert(wakers@.to_set().contains(wakers@[0]));
            }
        }
        proof {
            wakers@.unique_seq_to_set();
            assert(wakers@.to_set() == pre.waited(reads@, writes@, exclusive_task));
        }
        let ghost mid = *self;
        if exclusive_task {
            self.last_exclusive_task = Some(t);
        }
        self.last_task = Some(t);
        let ghost before_push = *self;
        proof {
            mid.lemma_adding_frame(before_push, pre, t, wakers@);
        }
        self.task_info.push(TaskInfo { waiting_for, tasks_to_wake_up: Vec::new(), main_thread_task });
        proof {
            assert forall|u: int| 0 <= u < t + 1 implies #[trigger] self.wakes(u) == if u < t { before_push.wakes(u) } else { Seq::<usize>::empty() } by {
                if u < t {
                    assert(self.task_info@[u] == before_push.task_info@[u]);
                }
            }
            assert forall|u: int, q: int| 0 <= u < t + 1 && 0 <= q < self.wakes(u).len() implies u < #[trigger] self.wakes(u)[q] < t + 1 by {
                if u < t {
                    let _ = before_push.wakes(u);
                    if q < pre.wakes(u).len() {
                        assert(self.wakes(u)[q] == pre.wakes(u)[q]);
                        assert(u < pre.wakes(u)[q] < t);
                    } else {
                        assert(self.wakes(u)[q] == t);
                    }
                }
            }
            assert forall|u: int| 0 <= u < t + 1 implies (#[trigger] self.wakes(u)).no_duplicates() by {
                if u < t {
                    let _ = before_push.wakes(u);
                    let _ = pre.wakes(u);
                    if wakers@.contains(u as usize) {
                        assert forall|a: int, b: int| 0 <= a < b < self.wakes(u).len() implies self.wakes(u)[a] != self.wakes(u)[b] by {
                            if b == self.wakes(u).len() - 1 {
                                assert(pre.wakes(u)[a] < t);
                            }
                        }
                    }
                }
            }
            assert(self.locks() == end_locks);
            assert forall|x: int| 0 <= x < self.resources@.len() implies match #[trigger] self.locks()[x] {
                Lock::Unused => true,
                Lock::Readers(w, rs) => (w matches Some(w) ==> w < t + 1) && forall|k: int| 0 <= k < rs.len() ==> rs[k] < t + 1,
                Lock::Writer(w) => w < t + 1,
            } by {
                let _ = end_locks[x];
            }
            let waited = pre.waited(reads@, writes@, exclusive_task);
            assert(waited.finite());
            assert(self.task_info@[t as int].waiting_for == waited.len());
            assert(self.wakes(t as int) =~= Seq::<usize>::empty());
            assert(self.task_info@[t as int].main_thread_task == main_thread_task);
            assert(pre == *old(self));
            assert forall|u: int| 0 <= u < t implies {
                &&& #[trigger] self.wakes(u) == if waited.contains(u as usize) { pre.wakes(u).push(t) } else { pre.wakes(u) }
                &&& self.task_info@[u].waiting_for == pre.task_info@[u].waiting_for
                &&& self.task_info@[u].main_thread_task == pre.task_info@[u].main_thread_task
            } by {
                let _ = before_push.wakes(u);
                assert(self.task_info@[u] == before_push.task_info@[u]);
                assert(wakers@.contains(u as usize) == wakers@.to_set().contains(u as usize));
            }
            assert(self.starter_tasks@ == if waited.len() == 0 { pre.starter_tasks@.push(t) } else { pre.starter_tasks@ });
            assert forall|u: int| 0 <= u < t implies {
                &&& #[trigger] self.wakes(u) == if old(self).waited(reads@, writes@, exclusive_task).contains(u as usize) {
                    old(self).wakes(u).push(t)
                } else {
                    old(self).wakes(u)
                }
                &&& self.task_info@[u].waiting_for == old(self).task_info@[u].waiting_for
                &&& self.task_info@[u].main_thread_task == old(self).task_info@[u].main_thread_task
            } by {
                let _ = pre.wakes(u);
                let _ = old(self).wakes(u);
            }
            assert forall|k: int| 0 <= k < self.starter_tasks@.len() implies #[trigger] self.starter_tasks@[k] < t + 1 by {
                if k < pre.starter_tasks@.len() {
                    assert(self.starter_tasks@[k] == pre.starter_tasks@[k]);
                }
            }
            assert(wakes_added(*old(self), *self, old(self).waited(reads@, writes@, exclusive_task), t)) by {
                assert forall|u: int| #![trigger self.task_info@[u]] 0 <= u < t implies {
                    &&& self.wakes(u) == if old(self).waited(reads@, writes@, exclusive_task).contains(u as usize) {
                        old(self).wakes(u).push(t)
                    } else {
                        old(self).wakes(u)
                    }
                    &&& self.task_info@[u].waiting_for == old(self).task_info@[u].waiting_for
                    &&& self.task_info@[u].main_thread_task == old(self).task_info@[u].main_thread_task
                } by {
                    let _ = pre.wakes(u);
                    let _ = old(self).wakes(u);
                    let _ = before_push.wakes(u);
                    assert(self.task_info@[u] == before_push.task_info@[u]);
                    assert(wakers@.contains(u as usize) == wakers@.to_set().contains(u as usize));
                }
            }
        }
        t
    }

}

impl Scheduler {
    /// Every starter task is listed once, and the starter tasks are exactly the tasks that
    /// wait for no other task.
    pub open spec fn starters_ok(&self) -> bool {
        &&& self.starter_tasks@.no_duplicates()
        &&& forall|t: int|
            0 <= t < self.task_info@.len() ==> ((#[trigger] self.task_info@[t]).waiting_for == 0
                <==> self.starter_tasks@.contains(t as usize))
    }

    /// The tasks ready to run a cycle, with the starter tasks. Each task waits for the tasks
    /// that it was added to wait for; a starter task waits for one wake-up, the one that
    /// starts the cycle. Each task wakes the tasks that wait for it.
    pub fn run(self) -> (r: (Vec<Task>, Vec<usize>))
        requires
            self.wf(),
            self.starters_ok(),
        ensures
            r.0@.len() == self.task_info@.len(),
            r.1@ == self.starter_tasks@,
            forall|i: int| 0 <= i < r.0@.len() ==> {
                &&& (#[trigger] r.0@[i]).will_wait_on == self.task_info@[i].waiting_for + (if self.starter_tasks@.contains(i as usize) { 1int } else { 0int })
                &&& r.0@[i].waiting_on == r.0@[i].will_wait_on
                &&& r.0@[i].will_wait_on > 0
                &&& r.0@[i].tasks_to_wake_up@ == self.wakes(i)
                &&& r.0@[i].main_thread_task == self.task_info@[i].main_thread_task
            },
    {
        let n = self.task_info.len();
        let mut tasks: Vec<Task> = Vec::new();
        let mut i: usize = 0;
        while i < n
            invariant
                self.wf(),
                self.starters_ok(),
                n == self.task_info@.len(),
                i <= n,
                tasks@.len() == i,
                forall|j: int| 0 <= j < i ==> {
                    &&& (#[trigger] tasks@[j]).will_wait_on == self.task_info@[j].waiting_for + (if self.starter_tasks@.contains(j as usize) { 1int } else { 0int })
                    &&& tasks@[j].waiting_on == tasks@[j].will_wait_on
                    &&& tasks@[j].will_wait_on > 0
                    &&& tasks@[j].tasks_to_wake_up@ == self.wakes(j)
                    &&& tasks@[j].main_thread_task == self.task_info@[j].main_thread_task
                },
            decreases n - i,
        {
            let info = &self.task_info[i];
            let starter = contains_index(&self.starter_tasks, i);
            proof {
                assert(self.task_info@[i as int] == *info);
            }
            let will_wait_on = if starter { info.waiting_for + 1 } else { info.waiting_for };
            let wakes = copy_indices(&info.tasks_to_wake_up);
            tasks.push(Task::new(will_wait_on, wakes, info.main_thread_task));
            i = i + 1;
        }
        (tasks, self.starter_tasks)
    }
}

/// Adding a task keeps the starter tasks exactly those that wait for nothing.
pub proof fn lemma_add_task_starters(pre: Scheduler, post: Scheduler, t: usize, w: nat)
    requires
        pre.wf(),
        pre.starters_ok(),
        t == pre.task_info@.len(),
        post.task_info@.len() == t + 1,
        post.task_info@[t as int].waiting_for == w,
        forall|u: int| 0 <= u < t ==> (#[trigger] post.task_info@[u]).waiting_for == pre.task_info@[u].waiting_for,
        post.starter_tasks@ == if w == 0 { pre.starter_tasks@.push(t) } else { pre.starter_tasks@ },
    ensures
        post.starters_ok(),
{
    assert(!pre.starter_tasks@.contains(t)) by {
        if pre.starter_tasks@.contains(t) {
            let k = choose|k: int| 0 <= k < pre.starter_tasks@.len() && pre.starter_tasks@[k] == t;
            assert(pre.starter_tasks@[k] < t);
        }
    }
    assert forall|u: int| 0 <= u < post.task_info@.len() implies ((#[trigger] post.task_info@[u]).waiting_for == 0
        <==> post.starter_tasks@.contains(u as usize)) by {
        if u < t {
            assert(pre.task_info@[u].waiting_for == 0 <==> pre.starter_tasks@.contains(u as usize));
            if w == 0 {
                assert(post.starter_tasks@.contains(u as usize) <==> pre.starter_tasks@.contains(u as usize)) by {
                    if post.starter_tasks@.contains(u as usize) {
                        let k = choose|k: int| 0 <= k < post.starter_tasks@.len() && post.starter_tasks@[k] == u as usize;
                        if k < pre.starter_tasks@.len() {
                            assert(pre.starter_tasks@[k] == u as usize);
                        }
                    }
                    if pre.starter_tasks@.contains(u as usize) {
                        let k = choose|k: int| 0 <= k < pre.starter_tasks@.len() && pre.starter_tasks@[k] == u as usize;
                        assert(post.starter_tasks@[k] == u as usize);
                    }
                }
            }
        } else {
            if w == 0 {
                assert(post.starter_tasks@[pre.starter_tasks@.len() as int] == t);
            }
        }
    }
    if w == 0 {
        assert(post.starter_tasks@.no_duplicates()) by {
            assert forall|a: int, b: int| 0 <= a < b < post.starter_tasks@.len() implies post.starter_tasks@[a] != post.starter_tasks@[b] by {
                if b == pre.starter_tasks@.len() {
                    assert(pre.starter_tasks@[a] < t);
                } else {
                    assert(pre.starter_tasks@[a] != pre.starter_tasks@[b]);
                }
            }
        }
    }
}

/// A task as it runs: how many wake-ups it still waits for in this cycle, how many it waits
/// for in each cycle, the tasks it wakes when it is done, and whether it runs on the main
/// thread.
pub struct Task {
    pub waiting_on: usize,
    pub will_wait_on: usize,
    pub tasks_to_wake_up: Vec<usize>,
    pub main_thread_task: bool,
}

impl Task {
    pub fn new(will_wait_on: usize, tasks_to_wake_up: Vec<usize>, main_thread_task: bool) -> (r: Self)
        ensures
            r.waiting_on == will_wait_on,
            r.will_wait_on == will_wait_on,
            r.tasks_to_wake_up@ == tasks_to_wake_up@,
            r.main_thread_task == main_thread_task,
    {
        Task { waiting_on: will_wait_on, will_wait_on, tasks_to_wake_up, main_thread_task }
    }

    /// The count after one more wake-up, and whether the task is then due to run: it is
    /// when the count reaches zero, and then waits for its full count again. The count
    /// wraps below zero.
    pub open spec fn after_wake(self) -> (usize, bool) {
        if self.waiting_on == 1 {
            (self.will_wait_on, true)
        } else if self.waiting_on == 0 {
            (usize::MAX, false)
        } else {
            ((self.waiting_on - 1) as usize, false)
        }
    }

    /// Counts one wake-up and says whether the task is now due to run (the caller runs it).
    pub fn decrement_and_try_run(&mut self) -> (run: bool)
        requires
            old(self).will_wait_on > 0,
        ensures
            final(self).waiting_on == old(self).after_wake().0,
            run == old(self).after_wake().1,
            final(self).will_wait_on == old(self).will_wait_on,
            final(self).tasks_to_wake_up == old(self).tasks_to_wake_up,
            final(self).main_thread_task == old(self).main_thread_task,
    {
        self.waiting_on = if self.waiting_on == 0 { usize::MAX } else { self.waiting_on - 1 };
        let mut run = false;
        if self.waiting_on == 0 {
            self.waiting_on = self.waiting_on + self.will_wait_on;
            run = true;
        }
        run
    }
}

/// After task `finished` has run, wakes each task it wakes once: returns the tasks that are
/// now due to run, in the order in which they were woken.
pub fn wake_tasks(tasks: &mut Vec<Task>, finished: usize) -> (ready: Vec<usize>)
    requires
        finished < old(tasks)@.len(),
        old(tasks)@[finished as int].tasks_to_wake_up@.no_duplicates(),
        forall|k: int| 0 <= k < old(tasks)@[finished as int].tasks_to_wake_up@.len()
            ==> #[trigger] old(tasks)@[finished as int].tasks_to_wake_up@[k] < old(tasks)@.len(),
        forall|i: int| 0 <= i < old(tasks)@.len() ==> (#[trigger] old(tasks)@[i]).will_wait_on > 0,
    ensures
        final(tasks)@.len() == old(tasks)@.len(),
        forall|i: int| 0 <= i < final(tasks)@.len() ==> {
            &&& (#[trigger] final(tasks)@[i]).waiting_on == if old(tasks)@[finished as int].tasks_to_wake_up@.contains(i as usize) {
                old(tasks)@[i].after_wake().0
            } else {
                old(tasks)@[i].waiting_on
            }
            &&& final(tasks)@[i].will_wait_on == old(tasks)@[i].will_wait_on
            &&& final(tasks)@[i].tasks_to_wake_up == old(tasks)@[i].tasks_to_wake_up
            &&& final(tasks)@[i].main_thread_task == old(tasks)@[i].main_thread_task
        },
        ready@ == old(tasks)@[finished as int].tasks_to_wake_up@.filter(|w: usize| old(tasks)@[w as int].after_wake().1),
{
    let ghost start = tasks@;
    let ghost pred = |w: usize| start[w as int].after_wake().1;
    let wakes = copy_indices(&tasks[finished].tasks_to_wake_up);
    let mut ready: Vec<usize> = Vec::new();
    assert(start.len() == tasks.len());
    assert(wakes@.subrange(0, 0).filter(pred) =~= Seq::<usize>::empty()) by {
        reveal_with_fuel(Seq::filter, 1);
    }
    let mut k: usize = 0;
    while k < wakes.len()
        invariant
            wakes@ == start[finished as int].tasks_to_wake_up@,
            wakes@.no_duplicates(),
            forall|j: int| 0 <= j < wakes@.len() ==> #[trigger] wakes@[j] < start.len(),
            forall|i: int| 0 <= i < start.len() ==> (#[trigger] start[i]).will_wait_on > 0,
            k <= wakes@.len(),
            forall|x: usize| #[trigger] pred(x) == start[x as int].after_wake().1,
            start.len() <= usize::MAX,
            tasks@.len() == start.len(),
            forall|i: int| 0 <= i < tasks@.len() ==> {
                &&& (#[trigger] tasks@[i]).waiting_on == if wakes@.subrange(0, k as int).contains(i as usize) {
                    start[i].after_wake().0
                } else {
                    start[i].waiting_on
                }
                &&& tasks@[i].will_wait_on == start[i].will_wait_on
                &&& tasks@[i].tasks_to_wake_up == start[i].tasks_to_wake_up
                &&& tasks@[i].main_thread_task == start[i].main_thread_task
            },
            ready@ == wakes@.subrange(0, k as int).filter(pred),
        decreases wakes@.len() - k,
    {
        let w = wakes[k];
        let ghost before = tasks@;
        proof {
            assert(!wakes@.subrange(0, k as int).contains(w)) by {
                if wakes@.subrange(0, k as int).contains(w) {
                    let j = choose|j: int| 0 <= j < k && wakes@.subrange(0, k as int)[j] == w;
                    assert(wakes@[j] == wakes@[k as int]);
                }
            }
            assert(tasks@[w as int].waiting_on == start[w as int].waiting_on);
            assert(tasks@[w as int].will_wait_on > 0);
        }
        let run = tasks[w].decrement_and_try_run();
        if run {
            ready.push(w);
        }
        proof {
            let pre = wakes@.subrange(0, k as int);
            let next = wakes@.subrange(0, k + 1);
            assert(next =~= pre.push(w));
            pre.lemma_filter_push(w, pred);
            assert(before[w as int].after_wake() == start[w as int].after_wake());
            assert(run == before[w as int].after_wake().1);
            assert(pred(w) == start[w as int].after_wake().1);
            assert(run == pred(w));
            assert(ready@ == next.filter(pred));
            assert forall|i: int| 0 <= i < tasks@.len() implies {
                &&& (#[trigger] tasks@[i]).waiting_on == if next.contains(i as usize) {
                    start[i].after_wake().0
                } else {
                    start[i].waiting_on
                }
                &&& tasks@[i].will_wait_on == start[i].will_wait_on
                &&& tasks@[i].tasks_to_wake_up == start[i].tasks_to_wake_up
                &&& tasks@[i].main_thread_task == start[i].main_thread_task
            } by {
                assert(next.contains(i as usize) <==> pre.contains(i as usize) || i == w) by {
                    if next.contains(i as usize) {
                        let j = choose|j: int| 0 <= j < next.len() && next[j] == i as usize;
                        if j < k {
                            assert(pre[j] == i as usize);
                        }
                    }
                    if pre.contains(i as usize) {
                        let j = choose|j: int| 0 <= j < pre.len() && pre[j] == i as usize;
                        assert(next[j] == i as usize);
                    }
                    if i == w {
                        assert(next[k as int] == w);
                    }
                }
                if i != w {
                    assert(tasks@[i] == before[i]);
                }
            }
        }
        k = k + 1;
    }
    assert(wakes@.subrange(0, k as int) =~= wakes@);
    ready
}

/// The facts that `add_task` gives of the scheduler it leaves make up `task_added`.
pub proof fn lemma_task_added_intro(pre: Scheduler, post: Scheduler, reads: Seq<usize>, writes: Seq<usize>, exclusive_task: bool, main_thread_task: bool, task_id: usize)
    requires
        task_id == pre.task_info@.len(),
        post.wf(),
        post.task_info@.len() == task_id + 1,
        pre.waited(reads, writes, exclusive_task).finite(),
        post.task_info@[task_id as int].waiting_for == pre.waited(reads, writes, exclusive_task).len(),
        post.wakes(task_id as int) == Seq::<usize>::empty(),
        post.task_info@[task_id as int].main_thread_task == main_thread_task,
        wakes_added(pre, post, pre.waited(reads, writes, exclusive_task), task_id),
        post.starter_tasks@ == if pre.waited(reads, writes, exclusive_task).len() == 0 {
            pre.starter_tasks@.push(task_id)
        } else {
            pre.starter_tasks@
        },
        post.last_exclusive_task == if exclusive_task { Some(task_id) } else { pre.last_exclusive_task },
        post.last_task == Some(task_id),
        forall|r: usize| #[trigger] lock_of(post.locks(), r) == locks_after(pre.locks(), reads, writes, task_id, r),
    ensures
        pre.task_added(post, reads, writes, exclusive_task, main_thread_task),
{
}

/// `p` is a chain of tasks in which each task wakes the next.
pub open spec fn wake_path(s: Scheduler, p: Seq<usize>) -> bool {
    &&& p.len() >= 1
    &&& forall|k: int| 0 <= k < p.len() - 1 ==> s.wakes(#[trigger] p[k] as int).contains(p[k + 1])
}

/// Task `j` runs after task `i` through the recorded wake-ups (or is `i`).
pub open spec fn reaches(s: Scheduler, i: usize, j: usize) -> bool {
    exists|p: Seq<usize>| #[trigger] wake_path(s, p) && p[0] == i && p.last() == j
}

proof fn lemma_reaches_refl(s: Scheduler, i: usize)
    ensures
        reaches(s, i, i),
{
    let p = seq![i];
    assert(wake_path(s, p));
}

proof fn lemma_reaches_step(s: Scheduler, i: usize, u: usize, j: usize)
    requires
        reaches(s, i, u),
        s.wakes(u as int).contains(j),
    ensures
        reaches(s, i, j),
{
    let p = choose|p: Seq<usize>| #[trigger] wake_path(s, p) && p[0] == i && p.last() == u;
    let q = p.push(j);
    assert forall|k: int| 0 <= k < q.len() - 1 implies s.wakes(#[trigger] q[k] as int).contains(q[k + 1]) by {
        if k < p.len() - 1 {
            assert(q[k] == p[k] && q[k + 1] == p[k + 1]);
        } else {
            assert(q[k] == u);
        }
    }
    assert(wake_path(s, q));
}

/// Every task on a path from a task of `s` is a task of `s`.
proof fn lemma_path_below(s: Scheduler, p: Seq<usize>, k: int)
    requires
        s.wf(),
        wake_path(s, p),
        p[0] < s.task_info@.len(),
        0 <= k < p.len(),
    ensures
        p[k] < s.task_info@.len(),
    decreases k,
{
    if k > 0 {
        lemma_path_below(s, p, k - 1);
        let u = p[k - 1] as int;
        assert(s.wakes(u).contains(p[k]));
        let x = choose|x: int| 0 <= x < s.wakes(u).len() && s.wakes(u)[x] == p[k];
        assert(u < s.wakes(u)[x] < s.task_info@.len());
    }
}

/// Wake-ups that only grow keep every path between the tasks there were.
proof fn lemma_reaches_grow(pre: Scheduler, post: Scheduler, i: usize, j: usize)
    requires
        pre.wf(),
        i < pre.task_info@.len(),
        reaches(pre, i, j),
        forall|u: int, x: usize| 0 <= u < pre.task_info@.len() && #[trigger] pre.wakes(u).contains(x) ==> post.wakes(u).contains(x),
    ensures
        reaches(post, i, j),
{
    let p = choose|p: Seq<usize>| #[trigger] wake_path(pre, p) && p[0] == i && p.last() == j;
    assert forall|k: int| 0 <= k < p.len() - 1 implies post.wakes(#[trigger] p[k] as int).contains(p[k + 1]) by {
        lemma_path_below(pre, p, k);
        assert(pre.wakes(p[k] as int).contains(p[k + 1]));
    }
    assert(wake_path(post, p));
}

/// The writer that the readers of a resource held as `l` wait for once a task reads it.
pub open spec fn writer_before_read(l: Lock) -> Option<usize> {
    match l {
        Lock::Readers(w, _) => w,
        Lock::Writer(w) => Some(w),
        Lock::Unused => None,
    }
}

/// `x` is one of the readers holding `l`.
pub open spec fn is_reader(l: Lock, x: usize) -> bool {
    match l {
        Lock::Readers(_, rs) => rs.contains(x),
        _ => false,
    }
}

/// `n` is how `l` is held once task `t` has read the resource: by readers that wait for
/// the same writer as before, and that are the earlier readers and `t`.
pub open spec fn read_by(l: Lock, n: Lock, t: usize) -> bool {
    match n {
        Lock::Readers(w, rs) => {
            &&& w == writer_before_read(l)
            &&& rs.len() > 0
            &&& rs.contains(t)
            &&& forall|x: usize| #[trigger] rs.contains(x) ==> x == t || is_reader(l, x)
            &&& forall|x: usize| #[trigger] is_reader(l, x) ==> rs.contains(x)
        },
        _ => false,
    }
}

/// After task `t` reads `r` (once or more), the resource is held by readers that wait for
/// the same writer as before, and that are the earlier readers and `t`.
proof fn lemma_reads_applied(l: Lock, reads: Seq<usize>, r: usize, t: usize)
    ensures
        !reads.contains(r) ==> reads_applied(l, reads, r, t) == l,
        reads.contains(r) ==> read_by(l, reads_applied(l, reads, r, t), t),
    decreases reads.len(),
{
    if reads.len() > 0 {
        let front = reads.drop_last();
        lemma_reads_applied(l, front, r, t);
        assert forall|x: usize| front.contains(x) implies reads.contains(x) by {
            let k = choose|k: int| 0 <= k < front.len() && front[k] == x;
            assert(reads[k] == x);
        }
        if !reads.contains(r) {
            assert(reads.last() != r) by {
                assert(reads[reads.len() - 1] == reads.last());
            }
        } else {
            let before = reads_applied(l, front, r, t);
            if !front.contains(r) {
                assert(reads.last() == r) by {
                    let k = choose|k: int| 0 <= k < reads.len() && reads[k] == r;
                    if k < reads.len() - 1 {
                        assert(front[k] == r);
                    }
                }
                assert(before == l);
                match l {
                    Lock::Readers(w, rs) => {
                        let n = rs.push(t);
                        assert(n[rs.len() as int] == t);
                        assert forall|x: usize| #[trigger] n.contains(x) implies x == t || rs.contains(x) by {
                            let k = choose|k: int| 0 <= k < n.len() && n[k] == x;
                            if k < rs.len() {
                                assert(rs[k] == x);
                            }
                        }
                        assert forall|x: usize| #[trigger] rs.contains(x) implies n.contains(x) by {
                            let k = choose|k: int| 0 <= k < rs.len() && rs[k] == x;
                            assert(n[k] == x);
                        }
                    },
                    _ => {
                        let n = seq![t];
                        assert(n[0] == t);
                        assert forall|x: usize| #[trigger] n.contains(x) implies x == t by {}
                    },
                }
            } else {
                if reads.last() == r {
                    match before {
                        Lock::Readers(w, rs) => {
                            let n = rs.push(t);
                            assert(n[rs.len() as int] == t);
                            assert forall|x: usize| #[trigger] n.contains(x) implies x == t || is_reader(l, x) by {
                                let k = choose|k: int| 0 <= k < n.len() && n[k] == x;
                                if k < rs.len() {
                                    assert(rs[k] == x);
                                    assert(rs.contains(x));
                                }
                            }
                            assert forall|x: usize| #[trigger] rs.contains(x) implies n.contains(x) by {
                                let k = choose|k: int| 0 <= k < rs.len() && rs[k] == x;
                                assert(n[k] == x);
                            }
                        },
                        _ => {},
                    }
                }
            }
        }
    }
}

/// Readers always hold a resource in numbers, and the writer they wait for wakes each of them.
pub open spec fn readers_wait(s: Scheduler, l: Lock) -> bool {
    match l {
        Lock::Readers(w, rs) => rs.len() > 0 && (w matches Some(b) ==> forall|x: usize| #[trigger] rs.contains(x) ==> s.wakes(b as int).contains(x)),
        _ => true,
    }
}

/// Task `i`, which wrote (`wrote`) or read a resource now held as `l`, runs before the
/// holders of `l` that a later task would wait for.
pub open spec fn held_after(s: Scheduler, l: Lock, i: usize, wrote: bool) -> bool {
    match l {
        Lock::Writer(w) => reaches(s, i, w),
        Lock::Readers(w, rs) => (w matches Some(b) && reaches(s, i, b)) || (!wrote && rs.contains(i)),
        Lock::Unused => false,
    }
}

/// `hist[i]` is what task `i` read and wrote, and the locks of `s` record, for each of
/// those tasks and resources, who comes after it.
pub open spec fn history_ok(s: Scheduler, hist: Seq<(Seq<usize>, Seq<usize>)>) -> bool {
    &&& s.wf()
    &&& hist.len() == s.task_info@.len()
    &&& forall|r: usize| readers_wait(s, #[trigger] lock_of(s.locks(), r))
    &&& forall|i: int, r: usize| 0 <= i < hist.len() && #[trigger] hist[i].1.contains(r)
        ==> held_after(s, lock_of(s.locks(), r), i as usize, true)
    &&& forall|i: int, r: usize| 0 <= i < hist.len() && #[trigger] hist[i].0.contains(r)
        ==> held_after(s, lock_of(s.locks(), r), i as usize, false)
}

/// Two tasks conflict when one writes a resource that the other reads or writes.
pub open spec fn tasks_conflict(reads_a: Seq<usize>, writes_a: Seq<usize>, reads_b: Seq<usize>, writes_b: Seq<usize>) -> bool {
    exists|r: usize| #![trigger writes_a.contains(r)] #![trigger reads_a.contains(r)]
        (writes_a.contains(r) && (reads_b.contains(r) || writes_b.contains(r))) || (reads_a.contains(r) && writes_b.contains(r))
}

/// A scheduler with no task records every (empty) history.
pub proof fn law_fresh_history(s: Scheduler)
    requires
        s.wf(),
        s.fresh(),
    ensures
        history_ok(s, Seq::empty()),
{
    assert forall|r: usize| readers_wait(s, #[trigger] lock_of(s.locks(), r)) by {}
}

proof fn lemma_wakes_grow(pre: Scheduler, post: Scheduler, waited: Set<usize>, t: usize)
    requires
        wakes_added(pre, post, waited, t),
        t == pre.task_info@.len(),
    ensures
        forall|u: int, x: usize| 0 <= u < pre.task_info@.len() && #[trigger] pre.wakes(u).contains(x) ==> post.wakes(u).contains(x),
        forall|u: int| 0 <= u < t && waited.contains(u as usize) ==> #[trigger] post.wakes(u).contains(t),
{
    assert forall|u: int, x: usize| 0 <= u < pre.task_info@.len() && #[trigger] pre.wakes(u).contains(x) implies post.wakes(u).contains(x) by {
        let _ = post.task_info@[u];
        let k = choose|k: int| 0 <= k < pre.wakes(u).len() && pre.wakes(u)[k] == x;
        if waited.contains(u as usize) {
            assert(post.wakes(u)[k] == x);
        }
    }
    assert forall|u: int| 0 <= u < t && waited.contains(u as usize) implies #[trigger] post.wakes(u).contains(t) by {
        let _ = post.task_info@[u];
        assert(post.wakes(u)[pre.wakes(u).len() as int] == t);
    }
}

/// A task that the new task waits for through a resource wakes it.
proof fn lemma_dep_woken(pre: Scheduler, post: Scheduler, reads: Seq<usize>, writes: Seq<usize>, exclusive_task: bool, main_thread_task: bool, u: usize)
    requires
        pre.wf(),
        pre.task_added(post, reads, writes, exclusive_task, main_thread_task),
        task_deps(pre.locks(), reads, writes).contains(u),
    ensures
        u < pre.task_info@.len(),
        post.wakes(u as int).contains(pre.task_info@.len() as usize),
{
    let deps = task_deps(pre.locks(), reads, writes);
    let t = pre.task_info.len();
    assert(pre.task_info@.len() == t);
    assert(!deps.is_empty());
    assert(pre.waited(reads, writes, exclusive_task) == deps);
    if exists|i: int| 0 <= i < reads.len() && read_deps(lock_of(pre.locks(), #[trigger] reads[i])).contains(u) {
        let i = choose|i: int| 0 <= i < reads.len() && read_deps(lock_of(pre.locks(), #[trigger] reads[i])).contains(u);
        let r = reads[i];
        if r < pre.resources@.len() {
            assert(pre.locks()[r as int] == lock_of(pre.locks(), r));
        }
    } else {
        let j = choose|j: int| 0 <= j < writes.len() && write_deps(lock_of(pre.locks(), #[trigger] writes[j])).contains(u);
        let r = writes[j];
        if r < pre.resources@.len() {
            assert(pre.locks()[r as int] == lock_of(pre.locks(), r));
            match pre.locks()[r as int] {
                Lock::Readers(_, rs) => {
                    assert(rs.to_set().contains(u));
                    let k = choose|k: int| 0 <= k < rs.len() && rs[k] == u;
                },
                _ => {},
            }
        }
    }
    lemma_wakes_grow(pre, post, deps, t);
}

/// A lock of a resource names only tasks of the scheduler.
proof fn lemma_lock_holders(s: Scheduler, r: usize)
    requires
        s.wf(),
    ensures
        lock_of(s.locks(), r) matches Lock::Writer(w) ==> w < s.task_info@.len(),
        lock_of(s.locks(), r) matches Lock::Readers(Some(b), _) ==> b < s.task_info@.len(),
        lock_of(s.locks(), r) matches Lock::Readers(_, rs) ==> forall|x: usize| #[trigger] rs.contains(x) ==> x < s.task_info@.len(),
{
    if r < s.resources@.len() {
        assert(s.locks()[r as int] == lock_of(s.locks(), r));
        match s.locks()[r as int] {
            Lock::Readers(_, rs) => {
                assert forall|x: usize| #[trigger] rs.contains(x) implies x < s.task_info@.len() by {
                    let k = choose|k: int| 0 <= k < rs.len() && rs[k] == x;
                }
            },
            _ => {},
        }
    }
}

/// An earlier task that conflicts with the new task on `r` runs before it.
proof fn lemma_conflict_reaches(
    pre: Scheduler,
    post: Scheduler,
    hist: Seq<(Seq<usize>, Seq<usize>)>,
    reads: Seq<usize>,
    writes: Seq<usize>,
    exclusive_task: bool,
    main_thread_task: bool,
    i: int,
    r: usize,
)
    requires
        history_ok(pre, hist),
        pre.task_added(post, reads, writes, exclusive_task, main_thread_task),
        0 <= i < hist.len(),
        (hist[i].1.contains(r) && (reads.contains(r) || writes.contains(r))) || (hist[i].0.contains(r) && writes.contains(r)),
    ensures
        reaches(post, i as usize, pre.task_info@.len() as usize),
{
    let t = pre.task_info.len();
    assert(pre.task_info@.len() == t);
    let l = lock_of(pre.locks(), r);
    let deps = task_deps(pre.locks(), reads, writes);
    let wrote = hist[i].1.contains(r);
    assert(held_after(pre, l, i as usize, wrote));
    assert(readers_wait(pre, l));
    lemma_wakes_grow(pre, post, pre.waited(reads, writes, exclusive_task), t);
    lemma_lock_holders(pre, r);
    if wrote && reads.contains(r) {
        let x = choose|x: int| 0 <= x < reads.len() && reads[x] == r;
        match l {
            Lock::Writer(w) => {
                assert(read_deps(lock_of(pre.locks(), reads[x])).contains(w));
                assert(deps.contains(w));
                lemma_dep_woken(pre, post, reads, writes, exclusive_task, main_thread_task, w);
                lemma_reaches_grow(pre, post, i as usize, w);
                lemma_reaches_step(post, i as usize, w, t);
            },
            Lock::Readers(Some(b), _) => {
                assert(read_deps(lock_of(pre.locks(), reads[x])).contains(b));
                assert(deps.contains(b));
                lemma_dep_woken(pre, post, reads, writes, exclusive_task, main_thread_task, b);
                lemma_reaches_grow(pre, post, i as usize, b);
                lemma_reaches_step(post, i as usize, b, t);
            },
            _ => {},
        }
    } else {
        assert(writes.contains(r));
        let y = choose|y: int| 0 <= y < writes.len() && writes[y] == r;
        match l {
            Lock::Writer(w) => {
                assert(write_deps(lock_of(pre.locks(), writes[y])).contains(w));
                assert(deps.contains(w));
                lemma_dep_woken(pre, post, reads, writes, exclusive_task, main_thread_task, w);
                lemma_reaches_grow(pre, post, i as usize, w);
                lemma_reaches_step(post, i as usize, w, t);
            },
            Lock::Readers(wb, rs) => {
                if !wrote && rs.contains(i as usize) {
                    assert(write_deps(lock_of(pre.locks(), writes[y])).contains(i as usize));
                    assert(deps.contains(i as usize));
                    lemma_dep_woken(pre, post, reads, writes, exclusive_task, main_thread_task, i as usize);
                    lemma_reaches_refl(post, i as usize);
                    lemma_reaches_step(post, i as usize, i as usize, t);
                } else {
                    let b = wb->0;
                    let x0 = rs[0];
                    assert(rs.contains(x0));
                    assert(pre.wakes(b as int).contains(x0));
                    lemma_reaches_step(pre, i as usize, b, x0);
                    assert(write_deps(lock_of(pre.locks(), writes[y])).contains(x0));
                    assert(deps.contains(x0));
                    lemma_dep_woken(pre, post, reads, writes, exclusive_task, main_thread_task, x0);
                    lemma_reaches_grow(pre, post, i as usize, x0);
                    lemma_reaches_step(post, i as usize, x0, t);
                }
            },
            Lock::Unused => {},
        }
    }
}

/// Law: a task added to a scheduler whose locks record a history of earlier tasks runs after
/// every earlier task it conflicts with (one writes a resource the other reads or writes),
/// through the recorded wake-ups; and the locks then record the history with the new task.
/// Starting from `law_fresh_history`, this holds of every task ever added.
pub proof fn law_conflicting_tasks_ordered(
    pre: Scheduler,
    post: Scheduler,
    hist: Seq<(Seq<usize>, Seq<usize>)>,
    reads: Seq<usize>,
    writes: Seq<usize>,
    exclusive_task: bool,
    main_thread_task: bool,
)
    requires
        history_ok(pre, hist),
        pre.task_added(post, reads, writes, exclusive_task, main_thread_task),
        forall|a: int, b: int| 0 <= a < reads.len() && 0 <= b < writes.len() ==> reads[a] != writes[b],
    ensures
        history_ok(post, hist.push((reads, writes))),
        forall|i: int| 0 <= i < hist.len() && #[trigger] tasks_conflict(hist[i].0, hist[i].1, reads, writes)
            ==> reaches(post, i as usize, pre.task_info@.len() as usize),
{
    let t = pre.task_info.len();
    assert(pre.task_info@.len() == t);
    let h2 = hist.push((reads, writes));
    let waited = pre.waited(reads, writes, exclusive_task);
    lemma_wakes_grow(pre, post, waited, t);
    assert forall|i: int| 0 <= i < hist.len() && #[trigger] tasks_conflict(hist[i].0, hist[i].1, reads, writes)
        implies reaches(post, i as usize, t) by {
        let r = choose|r: usize| #![trigger hist[i].1.contains(r)] #![trigger hist[i].0.contains(r)]
            (hist[i].1.contains(r) && (reads.contains(r) || writes.contains(r))) || (hist[i].0.contains(r) && writes.contains(r));
        lemma_conflict_reaches(pre, post, hist, reads, writes, exclusive_task, main_thread_task, i, r);
    }
    assert forall|r: usize| readers_wait(post, #[trigger] lock_of(post.locks(), r)) by {
        let l = lock_of(pre.locks(), r);
        lemma_lock_holders(pre, r);
        assert(readers_wait(pre, l));
        lemma_reads_applied(l, reads, r, t);
        if !writes.contains(r) {
            if reads.contains(r) {
                let x = choose|x: int| 0 <= x < reads.len() && reads[x] == r;
                let n = lock_of(post.locks(), r);
                if let Lock::Readers(Some(b), rs) = n {
                    assert(read_deps(lock_of(pre.locks(), reads[x])).contains(b));
                    assert(task_deps(pre.locks(), reads, writes).contains(b));
                    lemma_dep_woken(pre, post, reads, writes, exclusive_task, main_thread_task, b);
                    assert forall|y: usize| #[trigger] rs.contains(y) implies post.wakes(b as int).contains(y) by {
                        if y != t {
                            assert(is_reader(l, y));
                            assert(pre.wakes(b as int).contains(y));
                        }
                    }
                }
            } else {
                if let Lock::Readers(Some(b), rs) = l {
                    assert forall|y: usize| #[trigger] rs.contains(y) implies post.wakes(b as int).contains(y) by {
                        assert(pre.wakes(b as int).contains(y));
                    }
                }
            }
        }
    }
    assert forall|i: int, r: usize| 0 <= i < h2.len() && #[trigger] h2[i].1.contains(r)
        implies held_after(post, lock_of(post.locks(), r), i as usize, true) by {
        if i == hist.len() {
            assert(h2[i] == (reads, writes));
            lemma_reaches_refl(post, t);
        } else {
            assert(h2[i] == hist[i]);
            lemma_held_after_kept(pre, post, hist, reads, writes, exclusive_task, main_thread_task, i, r, true);
        }
    }
    assert forall|i: int, r: usize| 0 <= i < h2.len() && #[trigger] h2[i].0.contains(r)
        implies held_after(post, lock_of(post.locks(), r), i as usize, false) by {
        if i == hist.len() {
            assert(h2[i] == (reads, writes));
            assert(!writes.contains(r)) by {
                if writes.contains(r) {
                    let a = choose|a: int| 0 <= a < reads.len() && reads[a] == r;
                    let b = choose|b: int| 0 <= b < writes.len() && writes[b] == r;
                }
            }
            lemma_reads_applied(lock_of(pre.locks(), r), reads, r, t);
        } else {
            assert(h2[i] == hist[i]);
            lemma_held_after_kept(pre, post, hist, reads, writes, exclusive_task, main_thread_task, i, r, false);
        }
    }
}

/// An earlier task keeps its place before the holders of each resource it used.
proof fn lemma_held_after_kept(
    pre: Scheduler,
    post: Scheduler,
    hist: Seq<(Seq<usize>, Seq<usize>)>,
    reads: Seq<usize>,
    writes: Seq<usize>,
    exclusive_task: bool,
    main_thread_task: bool,
    i: int,
    r: usize,
    wrote: bool,
)
    requires
        history_ok(pre, hist),
        pre.task_added(post, reads, writes, exclusive_task, main_thread_task),
        0 <= i < hist.len(),
        wrote ==> hist[i].1.contains(r),
        !wrote ==> hist[i].0.contains(r),
    ensures
        held_after(post, lock_of(post.locks(), r), i as usize, wrote),
{
    let t = pre.task_info.len();
    assert(pre.task_info@.len() == t);
    let l = lock_of(pre.locks(), r);
    assert(held_after(pre, l, i as usize, wrote));
    lemma_wakes_grow(pre, post, pre.waited(reads, writes, exclusive_task), t);
    if writes.contains(r) {
        lemma_conflict_reaches(pre, post, hist, reads, writes, exclusive_task, main_thread_task, i, r);
    } else {
        lemma_reads_applied(l, reads, r, t);
        match l {
            Lock::Writer(w) => {
                lemma_reaches_grow(pre, post, i as usize, w);
            },
            Lock::Readers(wb, rs) => {
                if wb is Some && reaches(pre, i as usize, wb->0) {
                    lemma_reaches_grow(pre, post, i as usize, wb->0);
                } else {
                    assert(is_reader(l, i as usize));
                }
            },
            Lock::Unused => {},
        }
    }
}

} // verus!
