//! The scheduler of the parallel executor: it keeps, for each worker, the time,
//! cost and number of the tasks assigned to it and not yet completed, and
//! hands the ready tasks, longest first, each to the least loaded worker.

use crate::task_graph::{
    duration_add, duration_from_days, duration_saturating_sub, duration_ticks, opt_ticks,
    ready_upto, task_model, task_ready, ticks, Task, TaskGraph, TaskGraphModel, TASK_LIMIT,
};
use coarsetime::Duration;
use vstd::prelude::*;

verus! {

/// What is assigned to one worker.
#[derive(Debug)]
struct WorkerLoad {
    assigned_time: Duration,
    assigned_complexity: usize,
    tasks_count: usize,
}

/// The mathematical content of a worker's load: ticks, cost, and count.
pub struct LoadModel {
    pub time: u64,
    pub complexity: usize,
    pub count: usize,
}

/// The content of a load.
spec fn load_model(l: WorkerLoad) -> LoadModel {
    LoadModel { time: ticks(l.assigned_time), complexity: l.assigned_complexity, count: l.tasks_count }
}

/// A load with one more task of cost `c` and, where known, of duration `d`;
/// `None` where a total would overflow.
pub open spec fn load_add(l: LoadModel, c: usize, d: Option<u64>) -> Option<LoadModel> {
    let t = match d {
        Some(x) => l.time + x,
        None => l.time as int,
    };
    if t > u64::MAX || l.complexity + c > usize::MAX || l.count + 1 > usize::MAX {
        None
    } else {
        Some(LoadModel { time: t as u64, complexity: (l.complexity + c) as usize, count: (l.count + 1) as usize })
    }
}

/// A load with a task of cost `c` completed: the cost and the count go down,
/// to no less than 0; the time stays.
pub open spec fn load_done(l: LoadModel, c: usize) -> LoadModel {
    LoadModel {
        time: l.time,
        complexity: if l.complexity >= c {
            (l.complexity - c) as usize
        } else {
            0
        },
        count: if l.count >= 1 {
            (l.count - 1) as usize
        } else {
            0
        },
    }
}

impl WorkerLoad {
    fn new() -> (r: WorkerLoad)
        ensures
            load_model(r) == (LoadModel { time: 0, complexity: 0, count: 0 }),
    {
        WorkerLoad { assigned_time: duration_from_days(0), assigned_complexity: 0, tasks_count: 0 }
    }

    fn add_task(&mut self, complexity: usize, estimated_duration: Option<Duration>)
        requires
            load_add(load_model(*old(self)), complexity, opt_ticks(estimated_duration)) is Some,
        ensures
            load_add(load_model(*old(self)), complexity, opt_ticks(estimated_duration)) == Some(load_model(*final(self))),
    {
        match estimated_duration {
            Some(d) => {
                self.assigned_time = duration_add(self.assigned_time, d);
            },
            None => {},
        }
        self.assigned_complexity = self.assigned_complexity + complexity;
        self.tasks_count = self.tasks_count + 1;
    }

    fn complete_task(&mut self, actual_duration: Option<Duration>, complexity: usize)
        ensures
            load_model(*final(self)) == load_done(load_model(*old(self)), complexity),
    {
        self.assigned_complexity = self.assigned_complexity.saturating_sub(complexity);
        self.tasks_count = self.tasks_count.saturating_sub(1);
        match actual_duration {
            Some(actual_duration) => {
                duration_saturating_sub(self.assigned_time, actual_duration);
            },
            None => {},
        }
    }
}

/// What a worker is judged by.
#[derive(Debug, Clone, Copy)]
enum Load {
    Time,
    Complexity,
}

/// How a worker is chosen.
#[derive(Debug, Clone, Copy)]
enum SchedulingPolicy {
    LeastLoaded(Load),
    FewestTasks,
    RoundRobin,
}

/// The scheduler: the load of each worker, and the worker last chosen in turn.
pub struct Scheduler {
    worker_loads: Vec<WorkerLoad>,
    num_workers: usize,
    last_used: usize,
}

/// The key a load is judged by: its ticks (as `usize`) or its cost.
pub open spec fn load_key(l: LoadModel, by_time: bool) -> usize {
    if by_time {
        l.time as usize
    } else {
        l.complexity
    }
}

/// The first of the first `k` workers with the smallest key; 0 where there is
/// none.
pub open spec fn least_upto(loads: Seq<LoadModel>, by_time: bool, k: int) -> int
    decreases k,
{
    if k <= 1 {
        0
    } else {
        let w = least_upto(loads, by_time, k - 1);
        if load_key(loads[k - 1], by_time) < load_key(loads[w], by_time) {
            k - 1
        } else {
            w
        }
    }
}

/// The first worker with the smallest key; 0 where there is none.
pub open spec fn least_loaded(loads: Seq<LoadModel>, by_time: bool) -> int {
    least_upto(loads, by_time, loads.len() as int)
}

/// The first of the first `k` workers with the fewest tasks; 0 where there is
/// none.
pub open spec fn fewest_upto(loads: Seq<LoadModel>, k: int) -> int
    decreases k,
{
    if k <= 1 {
        0
    } else {
        let w = fewest_upto(loads, k - 1);
        if loads[k - 1].count < loads[w].count {
            k - 1
        } else {
            w
        }
    }
}

/// The first worker with the fewest tasks; 0 where there is none.
pub open spec fn fewest_tasks(loads: Seq<LoadModel>) -> int {
    fewest_upto(loads, loads.len() as int)
}

/// The tasks `ids` handed out in turn, each to the least loaded worker (by
/// time) of `loads`, which then takes its cost and duration: the loads and the
/// tasks each worker got, or `None` where there is no worker or a total
/// overflows.
pub open spec fn assign(
    loads: Seq<LoadModel>,
    out: Seq<Seq<usize>>,
    m: TaskGraphModel,
    ids: Seq<usize>,
) -> Option<(Seq<LoadModel>, Seq<Seq<usize>>)>
    decreases ids.len(),
{
    if ids.len() == 0 {
        Some((loads, out))
    } else {
        match assign(loads, out, m, ids.drop_last()) {
            None => None,
            Some(p) => {
                let w = least_loaded(p.0, true);
                let t = m.tasks[ids.last() as int];
                if w < p.0.len() && w < p.1.len() {
                    match load_add(p.0[w], t.complexity, t.estimated) {
                        None => None,
                        Some(l) => Some((p.0.update(w, l), p.1.update(w, p.1[w].push(ids.last())))),
                    }
                } else {
                    None
                }
            },
        }
    }
}

/// How often task `x` occurs in the lists of the first `w` workers.
pub open spec fn handed(out: Seq<Seq<usize>>, x: usize, w: int) -> nat
    decreases w,
{
    if w <= 0 {
        0
    } else {
        handed(out, x, w - 1) + out[w - 1].to_multiset().count(x)
    }
}

/// The worker chosen is never below 0.
proof fn lemma_least_upto_nonneg(loads: Seq<LoadModel>, by_time: bool, k: int)
    ensures
        least_upto(loads, by_time, k) >= 0,
    decreases k,
{
    if k > 1 {
        lemma_least_upto_nonneg(loads, by_time, k - 1);
    }
}

/// Adding `y` to the list of worker `w` hands `y` out once more.
proof fn lemma_handed_push(out: Seq<Seq<usize>>, w: int, y: usize, x: usize, k: int)
    requires
        0 <= w < out.len(),
        0 <= k <= out.len(),
    ensures
        handed(out.update(w, out[w].push(y)), x, k) == handed(out, x, k) + if w < k && x == y {
            1nat
        } else {
            0nat
        },
    decreases k,
{
    broadcast use vstd::seq_lib::group_to_multiset_ensures;

    if k > 0 {
        lemma_handed_push(out, w, y, x, k - 1);
        if k - 1 == w {
            assert(out.update(w, out[w].push(y))[k - 1] == out[w].push(y));
        } else {
            assert(out.update(w, out[w].push(y))[k - 1] == out[k - 1]);
        }
    }
}

/// Scheduling hands out each task once: where `assign` succeeds, every worker
/// keeps a list, and each task occurs in the lists as often as before plus as
/// often as it is among the tasks handed out.
pub proof fn law_assign_hands_each_task_once(loads: Seq<LoadModel>, out: Seq<Seq<usize>>, m: TaskGraphModel, ids: Seq<usize>)
    ensures
        assign(loads, out, m, ids) matches Some(p) ==> p.0.len() == loads.len() && p.1.len() == out.len()
            && forall|x: usize|
            #[trigger] handed(p.1, x, out.len() as int) == handed(out, x, out.len() as int) + ids.to_multiset().count(x),
    decreases ids.len(),
{
    broadcast use vstd::seq_lib::group_to_multiset_ensures;

    if ids.len() == 0 {
        assert(ids.to_multiset() =~= vstd::multiset::Multiset::empty());
    } else {
        law_assign_hands_each_task_once(loads, out, m, ids.drop_last());
        if let Some(p) = assign(loads, out, m, ids.drop_last()) {
            let w = least_loaded(p.0, true);
            lemma_least_upto_nonneg(p.0, true, p.0.len() as int);
            let y = ids.last();
            assert(ids =~= ids.drop_last().push(y));
            if w < p.0.len() && w < p.1.len() {
                assert forall|x: usize| #[trigger] handed(p.1.update(w, p.1[w].push(y)), x, out.len() as int) == handed(
                    out,
                    x,
                    out.len() as int,
                ) + ids.to_multiset().count(x) by {
                    lemma_handed_push(p.1, w, y, x, out.len() as int);
                }
            }
        }
    }
}

/// The estimated durations, in ticks, of the tasks `s` added up (a task
/// without an estimate adds nothing).
pub open spec fn est_total(m: TaskGraphModel, s: Seq<usize>) -> int
    decreases s.len(),
{
    if s.len() == 0 {
        0
    } else {
        est_total(m, s.drop_last()) + match m.tasks[s.last() as int].estimated {
            Some(x) => x as int,
            None => 0int,
        }
    }
}

/// The costs of the tasks `s` added up.
pub open spec fn cost_total(m: TaskGraphModel, s: Seq<usize>) -> int
    decreases s.len(),
{
    if s.len() == 0 {
        0
    } else {
        cost_total(m, s.drop_last()) + m.tasks[s.last() as int].complexity
    }
}

/// A worker is the least loaded when no worker carries less, and none before
/// it as little.
pub open spec fn is_least_loaded(loads: Seq<LoadModel>, by_time: bool, w: int) -> bool {
    &&& 0 <= w < loads.len()
    &&& forall|v: int| 0 <= v < loads.len() ==> load_key(loads[w], by_time) <= load_key(#[trigger] loads[v], by_time)
    &&& forall|v: int| 0 <= v < w ==> load_key(loads[w], by_time) < load_key(#[trigger] loads[v], by_time)
}

proof fn lemma_least_upto(loads: Seq<LoadModel>, by_time: bool, k: int)
    requires
        1 <= k <= loads.len(),
    ensures
        is_least_loaded(loads.take(k), by_time, least_upto(loads, by_time, k)),
    decreases k,
{
    if k > 1 {
        lemma_least_upto(loads, by_time, k - 1);
        let w = least_upto(loads, by_time, k - 1);
        assert(loads.take(k - 1)[w] == loads[w]);
        assert forall|v: int| 0 <= v < k - 1 implies #[trigger] loads.take(k)[v] == loads.take(k - 1)[v] by {}
    }
}

/// The worker that least-loaded scheduling picks carries no more than any
/// other worker, and is the first that carries that little: `least_loaded`
/// is a least element of the loads.
pub proof fn law_least_loaded_carries_least(loads: Seq<LoadModel>, by_time: bool)
    requires
        loads.len() > 0,
    ensures
        is_least_loaded(loads, by_time, least_loaded(loads, by_time)),
{
    lemma_least_upto(loads, by_time, loads.len() as int);
    assert(loads.take(loads.len() as int) =~= loads);
}

/// Handing tasks out adds up each worker's load: where `assign` succeeds, the
/// list of each worker is its list before with the tasks it got appended, and
/// its load is its load before plus, for those tasks, the sum of their
/// estimated durations, the sum of their costs and their number. Every other
/// load stays as it was.
pub proof fn law_assign_adds_up_loads(loads: Seq<LoadModel>, out: Seq<Seq<usize>>, m: TaskGraphModel, ids: Seq<usize>)
    ensures
        assign(loads, out, m, ids) matches Some(p) ==> {
            &&& p.0.len() == loads.len()
            &&& p.1.len() == out.len()
            &&& forall|w: int| 0 <= w < loads.len() && w >= out.len() ==> #[trigger] p.0[w] == loads[w]
            &&& forall|w: int|
                0 <= w < loads.len() && w < out.len() ==> {
                    let got = (#[trigger] p.1[w]).skip(out[w].len() as int);
                    &&& p.1[w].len() >= out[w].len()
                    &&& p.1[w].take(out[w].len() as int) == out[w]
                    &&& p.0[w].time == loads[w].time + est_total(m, got)
                    &&& p.0[w].complexity == loads[w].complexity + cost_total(m, got)
                    &&& p.0[w].count == loads[w].count + got.len()
                }
        },
    decreases ids.len(),
{
    if ids.len() > 0 {
        law_assign_adds_up_loads(loads, out, m, ids.drop_last());
        if let Some(p) = assign(loads, out, m, ids.drop_last()) {
            let w = least_loaded(p.0, true);
            let y = ids.last();
            let t = m.tasks[y as int];
            if w < p.0.len() && w < p.1.len() {
                if let Some(l) = load_add(p.0[w], t.complexity, t.estimated) {
                    let q0 = p.0.update(w, l);
                    let q1 = p.1.update(w, p.1[w].push(y));
                    lemma_least_upto_nonneg(p.0, true, p.0.len() as int);
                    assert forall|v: int| 0 <= v < loads.len() && v < out.len() implies {
                        let got = (#[trigger] q1[v]).skip(out[v].len() as int);
                        &&& q1[v].len() >= out[v].len()
                        &&& q1[v].take(out[v].len() as int) == out[v]
                        &&& q0[v].time == loads[v].time + est_total(m, got)
                        &&& q0[v].complexity == loads[v].complexity + cost_total(m, got)
                        &&& q0[v].count == loads[v].count + got.len()
                    } by {
                        if v == w {
                            let old_got = p.1[v].skip(out[v].len() as int);
                            let got = q1[v].skip(out[v].len() as int);
                            assert(p.1[v].take(out[v].len() as int) == out[v]);
                            assert(p.1[v].len() >= out[v].len());
                            assert(got =~= old_got.push(y));
                            assert(got.drop_last() =~= old_got);
                            assert(q1[v].take(out[v].len() as int) =~= p.1[v].take(out[v].len() as int));
                        } else {
                            assert(q1[v] == p.1[v]);
                            assert(q0[v] == p.0[v]);
                        }
                    }
                }
            }
        }
    }
}

/// Each task goes to a least loaded worker: where `assign` hands out `ids`,
/// the last of them is appended to the list of a worker that, once the
/// others were handed out, carried no more time than any other worker (and
/// was the first to carry that little), and to no other list.
pub proof fn law_assign_gives_to_least_loaded(loads: Seq<LoadModel>, out: Seq<Seq<usize>>, m: TaskGraphModel, ids: Seq<usize>)
    requires
        ids.len() > 0,
        assign(loads, out, m, ids) is Some,
    ensures
        assign(loads, out, m, ids.drop_last()) matches Some(q) && exists|w: int|
            #[trigger] is_least_loaded(q.0, true, w) && w < q.1.len() && assign(loads, out, m, ids).unwrap().1 == q.1.update(
                w,
                q.1[w].push(ids.last()),
            ),
{
    let q = assign(loads, out, m, ids.drop_last()).unwrap();
    let w = least_loaded(q.0, true);
    law_least_loaded_carries_least(q.0, true);
    assert(is_least_loaded(q.0, true, w));
}

/// The task indices of a list of tasks.
pub open spec fn ids_of(v: Seq<(usize, Task)>) -> Seq<usize> {
    v.map_values(|p: (usize, Task)| p.0)
}

/// `sorted` holds the tasks of `ids` (which has no task twice), each once,
/// longest first.
pub open spec fn longest_first(sorted: Seq<usize>, ids: Seq<usize>, m: TaskGraphModel) -> bool {
    &&& sorted.len() == ids.len()
    &&& sorted.no_duplicates()
    &&& sorted.to_set() == ids.to_set()
    &&& forall|a: int, b: int|
        0 <= a < b < sorted.len() ==> m.tasks[sorted[b] as int].estimated.unwrap() <= m.tasks[sorted[a] as int].estimated.unwrap()
}

impl Scheduler {
    /// The scheduler's view: the load of each worker.
    pub closed spec fn loads(&self) -> Seq<LoadModel> {
        self.worker_loads@.map_values(|l: WorkerLoad| load_model(l))
    }

    /// The number of workers.
    pub closed spec fn workers(&self) -> nat {
        self.num_workers as nat
    }

    /// The worker last chosen in turn.
    pub closed spec fn last(&self) -> usize {
        self.last_used
    }

    /// There is a load for each worker.
    pub closed spec fn wf(&self) -> bool {
        self.worker_loads@.len() == self.num_workers
    }

    /// A scheduler for `num_workers` idle workers.
    pub fn new(num_workers: usize) -> (r: Scheduler)
        ensures
            r.wf(),
            r.workers() == num_workers,
            r.last() == 0,
            r.loads() == Seq::new(num_workers as nat, |i: int| LoadModel { time: 0, complexity: 0, count: 0 }),
    {
        let mut loads: Vec<WorkerLoad> = Vec::new();
        let mut i: usize = 0;
        while i < num_workers
            invariant
                i <= num_workers,
                loads@.len() == i,
                forall|j: int| 0 <= j < i ==> load_model(#[trigger] loads@[j]) == (LoadModel { time: 0, complexity: 0, count: 0 }),
            decreases num_workers - i,
        {
            loads.push(WorkerLoad::new());
            i = i + 1;
        }
        let r = Scheduler { worker_loads: loads, num_workers, last_used: 0 };
        assert(r.loads() =~= Seq::new(num_workers as nat, |i: int| LoadModel { time: 0, complexity: 0, count: 0 }));
        r
    }

    /// Hands the ready tasks of `task_graph`, longest first and at most
    /// `limit` of them, each to the least loaded worker by time (see
    /// `assign`): the tasks each worker got. `None` where two or more tasks are
    /// ready and one has no estimated duration, and where `assign` fails (no
    /// worker, or a total that overflows).
    #[verifier::loop_isolation(false)]
    pub fn schedule(&mut self, task_graph: &TaskGraph, limit: usize) -> (r: Option<Vec<Vec<usize>>>)
        requires
            old(self).wf(),
            task_graph.wf(),
        ensures
            final(self).wf(),
            final(self).workers() == old(self).workers(),
            ({
                let ready = ready_upto(task_graph@, task_graph@.tasks.len());
                let m = task_graph@;
                if ready.len() >= 2 && exists|j: int| 0 <= j < ready.len() && m.tasks[#[trigger] ready[j] as int].estimated is None {
                    r is None
                } else {
                    exists|sorted: Seq<usize>|
                        #[trigger] longest_first(sorted, ready, m) && match assign(
                            old(self).loads(),
                            Seq::new(old(self).workers(), |i: int| Seq::<usize>::empty()),
                            m,
                            sorted.take(if limit < sorted.len() { limit as int } else { sorted.len() as int }),
                        ) {
                            None => r is None,
                            Some(p) => r matches Some(out) && out@.map_values(|v: Vec<usize>| v@) == p.1 && final(self).loads() == p.0,
                        }
                }
            }),
    {
        let ghost m = task_graph@;
        let ghost ready_ids = ready_upto(m, m.tasks.len());
        let mut ready = task_graph.get_ready_tasks();
        proof {
            lemma_ready_sorted(m, m.tasks.len());
            assert(ids_of(ready@) =~= ready_ids);
        }
        if ready.len() >= 2 {
            if !all_estimated(&ready) {
                proof {
                    let j = choose|j: int| 0 <= j < ready@.len() && task_model(ready@[j].1).estimated is None;
                    assert(m.tasks[ready_ids[j] as int].estimated is None);
                }
                return None;
            }
            ready = sort_longest_first(ready, Ghost(m));
        } else {
            proof {
                assert(ids_of(ready@).no_duplicates());
            }
        }
        let ghost sorted = ids_of(ready@);
        assert(longest_first(sorted, ready_ids, m));
        ready.truncate(limit);
        proof {
            assert(ids_of(ready@) =~= sorted.take(if limit < sorted.len() { limit as int } else { sorted.len() as int }));
        }
        let scheduled = empty_lists(self.num_workers);
        self.assign_all(&ready, scheduled, Ghost(m))
    }

    /// Hands the tasks of `ready` out in turn (see `assign`), adding each to the
    /// list of the worker that got it.
    fn assign_all(&mut self, ready: &Vec<(usize, Task)>, scheduled: Vec<Vec<usize>>, Ghost(m): Ghost<TaskGraphModel>) -> (r: Option<Vec<Vec<usize>>>)
        requires
            old(self).wf(),
            scheduled@.len() == old(self).workers(),
            forall|j: int| 0 <= j < scheduled@.len() ==> (#[trigger] scheduled@[j])@ == Seq::<usize>::empty(),
            forall|x: int| 0 <= x < ready@.len() ==> task_model((#[trigger] ready@[x]).1) == m.tasks[ready@[x].0 as int],
        ensures
            final(self).wf(),
            final(self).workers() == old(self).workers(),
            match assign(
                old(self).loads(),
                Seq::new(old(self).workers(), |i: int| Seq::<usize>::empty()),
                m,
                ids_of(ready@),
            ) {
                None => r is None,
                Some(p) => r matches Some(out) && out@.map_values(|v: Vec<usize>| v@) == p.1 && final(self).loads() == p.0,
            },
    {
        let ghost loads0 = self.loads();
        let ghost out0 = Seq::new(self.num_workers as nat, |i: int| Seq::<usize>::empty());
        let ghost chosen = ids_of(ready@);
        let mut scheduled = scheduled;
        proof {
            assert(scheduled@.map_values(|v: Vec<usize>| v@) =~= out0);
            assert(chosen.take(0) =~= Seq::<usize>::empty());
        }
        let policy = SchedulingPolicy::LeastLoaded(Load::Time);
        let mut k: usize = 0;
        while k < ready.len()
            invariant
                k <= ready.len(),
                policy == SchedulingPolicy::LeastLoaded(Load::Time),
                chosen == ids_of(ready@),
                forall|x: int| 0 <= x < ready@.len() ==> task_model((#[trigger] ready@[x]).1) == m.tasks[ready@[x].0 as int],
                self.wf(),
                self.workers() == old(self).workers(),
                loads0 == old(self).loads(),
                out0 == Seq::new(old(self).workers(), |i: int| Seq::<usize>::empty()),
                scheduled@.len() == self.workers(),
                assign(loads0, out0, m, chosen.take(k as int)) == Some((self.loads(), scheduled@.map_values(|v: Vec<usize>| v@))),
            decreases ready.len() - k,
        {
            let ghost lk = self.loads();
            let ghost ok = scheduled@.map_values(|v: Vec<usize>| v@);
            proof {
                assert(chosen.take(k + 1).drop_last() =~= chosen.take(k as int));
                assert(chosen.take(k + 1).last() == chosen[k as int]);
                assert(chosen[k as int] == ready@[k as int].0);
            }
            let worker_id = self.select_worker_with_policy(policy);
            if worker_id >= self.worker_loads.len() {
                proof {
                    lemma_assign_fails(loads0, out0, m, chosen, k as int);
                }
                return None;
            }
            let task = &ready[k].1;
            let c = task.get_complexity();
            let d = task.get_estimated_duration();
            let cur = &self.worker_loads[worker_id];
            let time_fits = match d {
                Some(d) => duration_ticks(&cur.assigned_time).checked_add(duration_ticks(&d)).is_some(),
                None => true,
            };
            let fits = time_fits && cur.assigned_complexity.checked_add(c).is_some() && cur.tasks_count < usize::MAX;
            if !fits {
                proof {
                    assert(load_add(lk[worker_id as int], c, opt_ticks(d)) is None);
                    lemma_assign_fails(loads0, out0, m, chosen, k as int);
                }
                return None;
            }
            self.schedule_task(task, worker_id);
            let mut inner = scheduled.remove(worker_id);
            inner.push(ready[k].0);
            scheduled.insert(worker_id, inner);
            proof {
                assert(scheduled@.map_values(|v: Vec<usize>| v@) =~= ok.update(worker_id as int, ok[worker_id as int].push(chosen[k as int])));
            }
            k = k + 1;
        }
        proof {
            assert(chosen.take(k as int) =~= chosen);
        }
        Some(scheduled)
    }

    /// Assigns `task` to `worker_id`, whose load takes its cost and duration.
    fn schedule_task(&mut self, task: &Task, worker_id: usize)
        requires
            old(self).wf(),
            worker_id < old(self).loads().len(),
            load_add(old(self).loads()[worker_id as int], task_model(*task).complexity, task_model(*task).estimated) is Some,
        ensures
            final(self).wf(),
            final(self).workers() == old(self).workers(),
            final(self).last() == old(self).last(),
            final(self).loads() == old(self).loads().update(
                worker_id as int,
                load_add(old(self).loads()[worker_id as int], task_model(*task).complexity, task_model(*task).estimated)->Some_0,
            ),
    {
        let mut load = self.worker_loads.remove(worker_id);
        load.add_task(task.get_complexity(), task.get_estimated_duration());
        self.worker_loads.insert(worker_id, load);
        proof {
            assert(self.loads() =~= old(self).loads().update(
                worker_id as int,
                load_add(old(self).loads()[worker_id as int], task_model(*task).complexity, task_model(*task).estimated)->Some_0,
            ));
        }
    }

    /// Tells the scheduler that a task of cost `complexity` that ran on
    /// `worker_id` completed (see `load_done`); an unknown worker is ignored.
    pub fn task_completed(&mut self, worker_id: usize, actual_duration: Option<Duration>, complexity: usize)
        requires
            old(self).wf(),
        ensures
            final(self).wf(),
            final(self).workers() == old(self).workers(),
            final(self).last() == old(self).last(),
            final(self).loads() == if worker_id < old(self).loads().len() {
                old(self).loads().update(worker_id as int, load_done(old(self).loads()[worker_id as int], complexity))
            } else {
                old(self).loads()
            },
    {
        if worker_id < self.worker_loads.len() {
            let mut load = self.worker_loads.remove(worker_id);
            load.complete_task(actual_duration, complexity);
            self.worker_loads.insert(worker_id, load);
            proof {
                assert(self.loads() =~= old(self).loads().update(worker_id as int, load_done(old(self).loads()[worker_id as int], complexity)));
            }
        }
    }

    /// The first worker with the smallest load of the given kind; 0 where there
    /// is no worker.
    fn find_least_loaded_worker(&self, load_type: Load) -> (r: usize)
        ensures
            r == least_loaded(self.loads(), load_type is Time),
    {
        let ghost by_time = load_type is Time;
        let ghost ls = self.loads();
        let n = self.worker_loads.len();
        if n == 0 {
            return 0;
        }
        let mut best: usize = 0;
        let mut best_key: usize = match load_type {
            Load::Complexity => self.worker_loads[0].assigned_complexity,
            Load::Time => duration_ticks(&self.worker_loads[0].assigned_time) as usize,
        };
        let mut i: usize = 1;
        while i < n
            invariant
                1 <= i <= n,
                n == ls.len(),
                ls == self.loads(),
                by_time == (load_type is Time),
                best == least_upto(ls, by_time, i as int),
                best < i,
                best_key == load_key(ls[best as int], by_time),
            decreases n - i,
        {
            let key = match load_type {
                Load::Complexity => self.worker_loads[i].assigned_complexity,
                Load::Time => duration_ticks(&self.worker_loads[i].assigned_time) as usize,
            };
            assert(key == load_key(ls[i as int], by_time));
            if key < best_key {
                best = i;
                best_key = key;
            }
            i = i + 1;
        }
        best
    }

    /// The first worker with the fewest tasks; 0 where there is no worker.
    fn find_worker_with_fewest_tasks(&self) -> (r: usize)
        ensures
            r == fewest_tasks(self.loads()),
    {
        let ghost ls = self.loads();
        let n = self.worker_loads.len();
        if n == 0 {
            return 0;
        }
        let mut best: usize = 0;
        let mut i: usize = 1;
        while i < n
            invariant
                1 <= i <= n,
                n == ls.len(),
                ls == self.loads(),
                best == fewest_upto(ls, i as int),
                best < i,
            decreases n - i,
        {
            if self.worker_loads[i].tasks_count < self.worker_loads[best].tasks_count {
                best = i;
            }
            i = i + 1;
        }
        best
    }

    /// Forgets every load.
    fn reset(&mut self)
        requires
            old(self).wf(),
        ensures
            final(self).wf(),
            final(self).workers() == old(self).workers(),
            final(self).last() == old(self).last(),
            final(self).loads() == Seq::new(old(self).loads().len(), |i: int| LoadModel { time: 0, complexity: 0, count: 0 }),
    {
        let n = self.worker_loads.len();
        let mut i: usize = 0;
        while i < n
            invariant
                i <= n,
                n == self.worker_loads@.len(),
                self.wf(),
                self.workers() == old(self).workers(),
                self.last() == old(self).last(),
                forall|j: int| 0 <= j < i ==> #[trigger] self.loads()[j] == (LoadModel { time: 0, complexity: 0, count: 0 }),
            decreases n - i,
        {
            let ghost l0 = self.loads();
            self.worker_loads.set(i, WorkerLoad::new());
            assert(self.loads() =~= l0.update(i as int, LoadModel { time: 0, complexity: 0, count: 0 }));
            i = i + 1;
        }
        assert(self.loads() =~= Seq::new(old(self).loads().len(), |i: int| LoadModel { time: 0, complexity: 0, count: 0 }));
    }

    /// Chooses a worker by the given policy. Round robin gives the worker
    /// last chosen plus `1 % n`, with `n` the number of workers: the one after
    /// it for two workers or more, the same one for a single worker. Nothing
    /// wraps it round to the first worker.
    fn select_worker_with_policy(&mut self, policy: SchedulingPolicy) -> (r: usize)
        requires
            policy is RoundRobin ==> old(self).workers() > 0,
            policy is RoundRobin ==> old(self).last() + 1int % (old(self).workers() as int) <= usize::MAX,
        ensures
            final(self).loads() == old(self).loads(),
            final(self).workers() == old(self).workers(),
            final(self).wf() == old(self).wf(),
            match policy {
                SchedulingPolicy::LeastLoaded(l) => r == least_loaded(old(self).loads(), l is Time) && final(self).last() == old(self).last(),
                SchedulingPolicy::FewestTasks => r == fewest_tasks(old(self).loads()) && final(self).last() == old(self).last(),
                SchedulingPolicy::RoundRobin => r == old(self).last() + 1int % (old(self).workers() as int)
                    && final(self).last() == r,
            },
    {
        match policy {
            SchedulingPolicy::LeastLoaded(load_type) => self.find_least_loaded_worker(load_type),
            SchedulingPolicy::FewestTasks => self.find_worker_with_fewest_tasks(),
            SchedulingPolicy::RoundRobin => {
                let next = self.last_used + 1 % self.num_workers;
                self.last_used = next;
                next
            },
        }
    }
}

/// Whether every task of the list has an estimated duration.
fn all_estimated(v: &Vec<(usize, Task)>) -> (r: bool)
    ensures
        r == forall|j: int| 0 <= j < v@.len() ==> (#[trigger] task_model(v@[j].1)).estimated is Some,
{
    let mut j: usize = 0;
    while j < v.len()
        invariant
            j <= v.len(),
            forall|x: int| 0 <= x < j ==> (#[trigger] task_model(v@[x].1)).estimated is Some,
        decreases v.len() - j,
    {
        if v[j].1.get_estimated_duration().is_none() {
            return false;
        }
        j = j + 1;
    }
    true
}

/// `n` empty lists.
fn empty_lists(n: usize) -> (r: Vec<Vec<usize>>)
    ensures
        r@.len() == n,
        forall|j: int| 0 <= j < n ==> (#[trigger] r@[j])@ == Seq::<usize>::empty(),
{
    let mut r: Vec<Vec<usize>> = Vec::new();
    let mut k: usize = 0;
    while k < n
        invariant
            k <= n,
            r@.len() == k,
            forall|j: int| 0 <= j < k ==> (#[trigger] r@[j])@ == Seq::<usize>::empty(),
        decreases n - k,
    {
        r.push(Vec::new());
        k = k + 1;
    }
    r
}

/// The ready tasks come in increasing index order, none twice.
proof fn lemma_ready_sorted(m: TaskGraphModel, k: nat)
    requires
        k <= TASK_LIMIT,
    ensures
        forall|a: int, b: int| 0 <= a < b < ready_upto(m, k).len() ==> ready_upto(m, k)[a] < ready_upto(m, k)[b],
        forall|a: int| 0 <= a < ready_upto(m, k).len() ==> ready_upto(m, k)[a] < k,
        ready_upto(m, k).no_duplicates(),
    decreases k,
{
    if k > 0 {
        lemma_ready_sorted(m, (k - 1) as nat);
        let prev = ready_upto(m, (k - 1) as nat);
        let cur = ready_upto(m, k);
        assert(cur == if task_ready(m, (k - 1) as usize) {
            prev.push((k - 1) as usize)
        } else {
            prev
        });
        assert forall|a: int, b: int| 0 <= a < b < cur.len() implies cur[a] < cur[b] by {
            if b < prev.len() {
                assert(cur[a] == prev[a] && cur[b] == prev[b]);
            } else {
                assert(task_ready(m, (k - 1) as usize));
                assert(cur[b] == k - 1);
                assert(cur[a] == prev[a]);
                assert(prev[a] < k - 1);
            }
        }
        assert forall|a: int| 0 <= a < cur.len() implies cur[a] < k by {
            if a < prev.len() {
                assert(cur[a] == prev[a]);
            }
        }
        assert forall|a: int, b: int| 0 <= a < cur.len() && 0 <= b < cur.len() && a != b implies cur[a] != cur[b] by {
            if a < b {
                assert(cur[a] < cur[b]);
            } else {
                assert(cur[b] < cur[a]);
            }
        }
    }
}

/// Once a task cannot be handed out, the whole assignment fails.
proof fn lemma_assign_fails(loads: Seq<LoadModel>, out: Seq<Seq<usize>>, m: TaskGraphModel, ids: Seq<usize>, k: int)
    requires
        0 <= k < ids.len(),
        assign(loads, out, m, ids.take(k + 1)) is None,
    ensures
        assign(loads, out, m, ids) is None,
    decreases ids.len() - k,
{
    if k + 1 < ids.len() {
        assert(ids.take(k + 2).drop_last() =~= ids.take(k + 1));
        lemma_assign_fails(loads, out, m, ids, k + 1);
    } else {
        assert(ids.take(k + 1) =~= ids);
    }
}

/// Sorts the tasks longest first, keeping the order of tasks of equal length.
#[verifier::rlimit(30)]
fn sort_longest_first(v: Vec<(usize, Task)>, Ghost(m): Ghost<TaskGraphModel>) -> (r: Vec<(usize, Task)>)
    requires
        forall|x: int| 0 <= x < v@.len() ==> task_model((#[trigger] v@[x]).1) == m.tasks[v@[x].0 as int]
            && m.tasks[v@[x].0 as int].estimated is Some,
        ids_of(v@).no_duplicates(),
    ensures
        forall|x: int| 0 <= x < r@.len() ==> task_model((#[trigger] r@[x]).1) == m.tasks[r@[x].0 as int],
        longest_first(ids_of(r@), ids_of(v@), m),
{
    let ghost ids = ids_of(v@);
    let mut src = v;
    proof {
        assert(ids.subrange(0, 0) =~= Seq::<usize>::empty());
        assert(ids.subrange(0, ids.len() as int) =~= ids);
        assert(ids_of(Seq::<(usize, Task)>::empty()) =~= Seq::<usize>::empty());
    }
    let mut sorted: Vec<(usize, Task)> = Vec::new();
    let ghost total = src@.len();
    while src.len() > 0
        invariant
            forall|x: int| 0 <= x < src@.len() ==> task_model((#[trigger] src@[x]).1) == m.tasks[src@[x].0 as int]
                && m.tasks[src@[x].0 as int].estimated is Some,
            forall|x: int| 0 <= x < sorted@.len() ==> task_model((#[trigger] sorted@[x]).1) == m.tasks[sorted@[x].0 as int]
                && m.tasks[sorted@[x].0 as int].estimated is Some,
            ids_of(src@) == ids.subrange(ids.len() - src@.len(), ids.len() as int),
            src@.len() <= ids.len(),
            ids.no_duplicates(),
            longest_first(ids_of(sorted@), ids.subrange(0, ids.len() - src@.len()), m),
        decreases src.len(),
    {
        let ghost slen = src@.len();
        let ghost pre = ids.subrange(0, ids.len() - slen);
        let ghost s_before = src@;
        let x = src.remove(0);
        proof {
            assert(ids_of(s_before)[0] == s_before[0].0);
            assert(ids.subrange(ids.len() - slen, ids.len() as int)[0] == ids[ids.len() - slen]);
            assert forall|i: int| 0 <= i < src@.len() implies ids_of(src@)[i] == ids.subrange(ids.len() - src@.len(), ids.len() as int)[i] by {
                assert(src@[i] == s_before[i + 1]);
                assert(ids_of(s_before)[i + 1] == s_before[i + 1].0);
                assert(ids.subrange(ids.len() - slen, ids.len() as int)[i + 1] == ids[ids.len() - slen + i + 1]);
            }
            assert(ids_of(src@) =~= ids.subrange(ids.len() - src@.len(), ids.len() as int));
            assert(x.0 == ids[ids.len() - slen]);
        }
        let xt = duration_ticks(&x.1.get_estimated_duration().unwrap());
        let mut p: usize = 0;
        while p < sorted.len() && duration_ticks(&sorted[p].1.get_estimated_duration().unwrap()) >= xt
            invariant
                p <= sorted.len(),
                forall|y: int| 0 <= y < sorted@.len() ==> task_model((#[trigger] sorted@[y]).1) == m.tasks[sorted@[y].0 as int]
                    && m.tasks[sorted@[y].0 as int].estimated is Some,
                forall|y: int| 0 <= y < p ==> m.tasks[(#[trigger] sorted@[y]).0 as int].estimated.unwrap() >= xt,
            decreases sorted.len() - p,
        {
            p = p + 1;
        }
        let ghost before = sorted@;
        sorted.insert(p, x);
        proof {
            let s0 = ids_of(before);
            let s1 = ids_of(sorted@);
            let post = ids.subrange(0, ids.len() - src@.len());
            assert(s1 =~= s0.insert(p as int, x.0));
            assert(post =~= pre.push(x.0));
            assert(xt == m.tasks[x.0 as int].estimated.unwrap());
            if p < s0.len() {
                assert(m.tasks[s0[p as int] as int].estimated.unwrap() < xt);
            }
            assert forall|a: int, b: int| 0 <= a < b < s1.len() implies m.tasks[s1[b] as int].estimated.unwrap()
                <= m.tasks[s1[a] as int].estimated.unwrap() by {
                if a == p {
                    assert(s1[b] == s0[b - 1]);
                    if b - 1 > p {
                        assert(m.tasks[s0[b - 1] as int].estimated.unwrap() <= m.tasks[s0[p as int] as int].estimated.unwrap());
                    }
                } else if b == p {
                    assert(s1[a] == s0[a]);
                    assert(before[a].0 == s0[a]);
                } else {
                    let a0 = if a < p { a } else { a - 1 };
                    let b0 = if b < p { b } else { b - 1 };
                    assert(s1[a] == s0[a0]);
                    assert(s1[b] == s0[b0]);
                }
            }
            assert(!s0.contains(x.0)) by {
                if s0.contains(x.0) {
                    assert(s0.to_set().contains(x.0));
                    assert(pre.to_set().contains(x.0));
                    let y = choose|y: int| 0 <= y < pre.len() && pre[y] == x.0;
                    assert(ids[y] == ids[ids.len() - slen]);
                }
            }
            assert forall|a: int, b: int| 0 <= a < s1.len() && 0 <= b < s1.len() && a != b implies s1[a] != s1[b] by {
                if a == p {
                    let b0 = if b < p { b } else { b - 1 };
                    assert(s1[b] == s0[b0]);
                } else if b == p {
                    let a0 = if a < p { a } else { a - 1 };
                    assert(s1[a] == s0[a0]);
                } else {
                    let a0 = if a < p { a } else { a - 1 };
                    let b0 = if b < p { b } else { b - 1 };
                    assert(s1[a] == s0[a0]);
                    assert(s1[b] == s0[b0]);
                }
            }
            assert forall|y: usize| #[trigger] s1.to_set().contains(y) == post.to_set().contains(y) by {
                if s1.contains(y) {
                    let a = choose|a: int| 0 <= a < s1.len() && s1[a] == y;
                    if a != p {
                        let a0 = if a < p { a } else { a - 1 };
                        assert(s1[a] == s0[a0]);
                        assert(s0.to_set().contains(y));
                        let c = choose|c: int| 0 <= c < pre.len() && pre[c] == y;
                        assert(post[c] == y);
                    } else {
                        assert(post[post.len() - 1] == y);
                    }
                }
                if post.contains(y) {
                    let c = choose|c: int| 0 <= c < post.len() && post[c] == y;
                    if c < pre.len() {
                        assert(pre[c] == y);
                        assert(pre.to_set().contains(y));
                        assert(s0.to_set().contains(y));
                        let a0 = choose|a0: int| 0 <= a0 < s0.len() && s0[a0] == y;
                        let a = if a0 < p { a0 } else { a0 + 1 };
                        assert(s1[a] == y);
                    } else {
                        assert(s1[p as int] == y);
                    }
                }
            }
            assert(s1.to_set() =~= post.to_set());
            assert forall|y: int| 0 <= y < sorted@.len() implies task_model((#[trigger] sorted@[y]).1) == m.tasks[sorted@[y].0 as int]
                && m.tasks[sorted@[y].0 as int].estimated is Some by {
                if y < p {
                    assert(sorted@[y] == before[y]);
                } else if y > p {
                    assert(sorted@[y] == before[y - 1]);
                }
            }
        }
    }
    proof {
        assert(ids.subrange(0, ids.len() as int) =~= ids);
    }
    sorted
}

} // verus!
