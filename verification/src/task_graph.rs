//! The graph of tasks that the parallel executor runs: each task executes a
//! node of the dependency graph (or may expand into the tasks of a loop's
//! body), waits for the tasks it depends on, and ends done or failed with the
//! environment it produced.

use crate::meta::{DeclarationMeta, MetaModel};
use crate::scope::{Env, EnvModel};
use coarsetime::Duration;
use petgraph::graph::{Graph, NodeIndex};
use petgraph::Direction;
use rustc_hash::{FxBuildHasher, FxHashMap};
use vstd::prelude::*;

verus! {

#[verifier::external_type_specification]
#[verifier::external_body]
pub struct ExDuration(Duration);

#[verifier::external_type_specification]
#[verifier::external_body]
pub struct ExFxBuildHasher(FxBuildHasher);

// ---------------------------------------------------------------------------
// Durations
// ---------------------------------------------------------------------------

/// The number of ticks (2^-32 s) a duration holds.
pub uninterp spec fn ticks(d: Duration) -> u64;

/// `a * b`, or `u64::MAX` where it does not fit.
pub open spec fn sat_mul(a: nat, b: nat) -> u64 {
    if a * b <= u64::MAX {
        (a * b) as u64
    } else {
        u64::MAX
    }
}

/// The ticks of a number of milliseconds: the whole seconds times 2^32
/// (saturating), the rest of the milliseconds shifted left by 22 bits.
pub open spec fn millis_ticks(ms: u64) -> u64 {
    sat_mul((ms / 1000) as nat, 0x1_0000_0000) | (((ms % 1000) as u64) << 22u64)
}

/// Calls `Duration::as_ticks`.
#[verifier::external_body]
pub(crate) fn duration_ticks(d: &Duration) -> (r: u64)
    ensures
        r == ticks(*d),
{
    d.as_ticks()
}

/// Calls `Duration::from_millis` (see `millis_ticks`).
#[verifier::external_body]
pub(crate) fn duration_from_millis(ms: u64) -> (r: Duration)
    ensures
        ticks(r) == millis_ticks(ms),
{
    Duration::from_millis(ms)
}

/// Calls `Duration::from_days`: the days as seconds times 2^32, saturating.
/// The days are multiplied by 86400 first, which must fit.
#[verifier::external_body]
pub(crate) fn duration_from_days(days: u64) -> (r: Duration)
    requires
        days * 86400 <= u64::MAX,
    ensures
        ticks(r) == sat_mul((days * 86400) as nat, 0x1_0000_0000),
{
    Duration::from_days(days)
}

/// Calls `Duration`'s `+`, which adds the ticks and must not overflow.
#[verifier::external_body]
pub(crate) fn duration_add(a: Duration, b: Duration) -> (r: Duration)
    requires
        ticks(a) + ticks(b) <= u64::MAX,
    ensures
        ticks(r) == ticks(a) + ticks(b),
{
    a + b
}

/// Calls `Duration`'s `/` by a `u32`, which divides the ticks (rounding
/// down) and panics on 0.
#[verifier::external_body]
pub(crate) fn duration_div(d: Duration, n: u32) -> (r: Duration)
    requires
        n != 0,
    ensures
        ticks(r) == ticks(d) / (n as u64),
{
    d / n
}

/// Calls `Duration::saturating_sub`.
#[verifier::external_body]
pub(crate) fn duration_saturating_sub(a: Duration, b: Duration) -> (r: Duration)
    ensures
        ticks(r) == if ticks(a) >= ticks(b) {
            (ticks(a) - ticks(b)) as u64
        } else {
            0
        },
{
    a.saturating_sub(b)
}

// ---------------------------------------------------------------------------
// Maps keyed by task or node index
// ---------------------------------------------------------------------------

/// The map with no keys.
pub open spec fn no_bindings<V>() -> Map<usize, V> {
    Map::empty()
}

/// Calls `FxHashMap::default`: an empty map.
#[verifier::external_body]
pub(crate) fn fx_new<V>() -> (r: FxHashMap<usize, V>)
    ensures
        r@ == no_bindings::<V>(),
{
    FxHashMap::default()
}

/// Calls `HashMap::get`.
#[verifier::external_body]
pub(crate) fn fx_get<V>(m: &FxHashMap<usize, V>, k: usize) -> (r: Option<&V>)
    ensures
        m@.contains_key(k) ==> r == Some(&m@[k]),
        !m@.contains_key(k) ==> r is None,
{
    m.get(&k)
}

/// Calls `HashMap::insert`: `k` is bound to `v`.
#[verifier::external_body]
pub(crate) fn fx_insert<V>(m: &mut FxHashMap<usize, V>, k: usize, v: V)
    ensures
        final(m)@ == old(m)@.insert(k, v),
{
    m.insert(k, v);
}

/// Calls `HashMap::iter` and collects the bindings: each once, in an order the
/// contract leaves open.
#[verifier::external_body]
pub(crate) fn fx_status_entries(m: &FxHashMap<usize, Status>) -> (r: Vec<(usize, Status)>)
    ensures
        forall|i: int| #![trigger r@[i]] 0 <= i < r@.len() ==> m@.contains_key(r@[i].0) && m@[r@[i].0] == r@[i].1,
        forall|k: usize| #[trigger] m@.contains_key(k) ==> exists|i: int| 0 <= i < r@.len() && #[trigger] r@[i].0 == k,
{
    m.iter().map(|(k, v)| (*k, *v)).collect()
}

// ---------------------------------------------------------------------------
// Tasks
// ---------------------------------------------------------------------------

#[derive(Debug, Clone, Copy, PartialEq, Eq, Structural)]
pub enum Status {
    Pending,
    Running,
    Done,
    Failed,
}

/// The maps between dependency-graph nodes and tasks known when a task was
/// created, and the node it runs.
pub type TaskContext = (FxHashMap<usize, usize>, FxHashMap<usize, usize>, DeclarationMeta);

/// A task: run one node of the dependency graph (`ExecuteNode`), or a loop
/// that may be split into the tasks of its iterations (`MaybeExpand`).
#[derive(Debug)]
pub enum Task {
    ExecuteNode {
        code_graph_id: usize,
        complexity: usize,
        estimated_duration: Option<Duration>,
        loo: Option<TaskContext>,
    },
    MaybeExpand {
        code_graph_id: usize,
        complexity: usize,
        estimated_duration: Option<Duration>,
        loo: Option<TaskContext>,
    },
}

/// The mathematical content of a task.
pub struct TaskModel {
    pub expand: bool,
    pub code_graph_id: usize,
    pub complexity: usize,
    pub estimated: Option<u64>,
    pub loo: Option<(Map<usize, usize>, Map<usize, usize>, MetaModel)>,
}

/// The ticks of an optional duration.
pub open spec fn opt_ticks(d: Option<Duration>) -> Option<u64> {
    match d {
        Some(x) => Some(ticks(x)),
        None => None,
    }
}

/// The content of a task's context.
pub open spec fn context_model(l: Option<TaskContext>) -> Option<(Map<usize, usize>, Map<usize, usize>, MetaModel)> {
    match l {
        Some(c) => Some((c.0@, c.1@, c.2@)),
        None => None,
    }
}

/// The content of a task.
pub open spec fn task_model(t: Task) -> TaskModel {
    match t {
        Task::ExecuteNode { code_graph_id, complexity, estimated_duration, loo } => TaskModel {
            expand: false,
            code_graph_id,
            complexity,
            estimated: opt_ticks(estimated_duration),
            loo: context_model(loo),
        },
        Task::MaybeExpand { code_graph_id, complexity, estimated_duration, loo } => TaskModel {
            expand: true,
            code_graph_id,
            complexity,
            estimated: opt_ticks(estimated_duration),
            loo: context_model(loo),
        },
    }
}

/// A copy of a task's context.
fn duplicate_context(c: &Option<TaskContext>) -> (r: Option<TaskContext>)
    ensures
        context_model(r) == context_model(*c),
{
    match c {
        None => None,
        Some((a, b, m)) => Some((a.clone(), b.clone(), m.clone())),
    }
}

impl Task {
    /// How long the task is expected to take.
    pub fn get_estimated_duration(&self) -> (r: Option<Duration>)
        ensures
            opt_ticks(r) == task_model(*self).estimated,
    {
        match self {
            Task::ExecuteNode { estimated_duration, .. } => *estimated_duration,
            Task::MaybeExpand { estimated_duration, .. } => *estimated_duration,
        }
    }

    /// The estimated cost of the task's node.
    pub fn get_complexity(&self) -> (r: usize)
        ensures
            r == task_model(*self).complexity,
    {
        match self {
            Task::ExecuteNode { complexity, .. } => *complexity,
            Task::MaybeExpand { complexity, .. } => *complexity,
        }
    }

    /// The node of the dependency graph the task runs.
    pub fn get_code_graph_id(&self) -> (r: usize)
        ensures
            r == task_model(*self).code_graph_id,
    {
        match self {
            Task::ExecuteNode { code_graph_id, .. } => *code_graph_id,
            Task::MaybeExpand { code_graph_id, .. } => *code_graph_id,
        }
    }

    /// A copy of the task.
    pub fn duplicate(&self) -> (r: Task)
        ensures
            task_model(r) == task_model(*self),
    {
        match self {
            Task::ExecuteNode { code_graph_id, complexity, estimated_duration, loo } => Task::ExecuteNode {
                code_graph_id: *code_graph_id,
                complexity: *complexity,
                estimated_duration: *estimated_duration,
                loo: duplicate_context(loo),
            },
            Task::MaybeExpand { code_graph_id, complexity, estimated_duration, loo } => Task::MaybeExpand {
                code_graph_id: *code_graph_id,
                complexity: *complexity,
                estimated_duration: *estimated_duration,
                loo: duplicate_context(loo),
            },
        }
    }
}

// ---------------------------------------------------------------------------
// The task tree
// ---------------------------------------------------------------------------

/// The tasks of a task tree, by node index.
pub uninterp spec fn task_nodes(g: Graph<Task, ()>) -> Seq<TaskModel>;

/// The dependencies of a task tree, as (from, to), by edge index.
pub uninterp spec fn task_edges(g: Graph<Task, ()>) -> Seq<(usize, usize)>;

/// Task and edge indices are `u32` in the task tree, and the largest `u32`
/// marks no node or edge: the tree holds at most this many tasks, and as many
/// edges.
pub const TASK_LIMIT: usize = 0xffff_ffff;

/// Calls `Graph::new`: no tasks and no dependencies.
#[verifier::external_body]
fn tree_new() -> (g: Graph<Task, ()>)
    ensures
        task_nodes(g) == Seq::<TaskModel>::empty(),
        task_edges(g) == Seq::<(usize, usize)>::empty(),
{
    Graph::new()
}

/// Calls `Graph::node_count`.
#[verifier::external_body]
pub(crate) fn tree_node_count(g: &Graph<Task, ()>) -> (r: usize)
    ensures
        r == task_nodes(*g).len(),
{
    g.node_count()
}

/// Calls `Graph::add_node`: the task becomes the last node, whose index comes
/// back. It panics at the largest `u32` index, hence the bound.
#[verifier::external_body]
fn tree_add_node(g: &mut Graph<Task, ()>, t: Task) -> (r: usize)
    requires
        task_nodes(*old(g)).len() < TASK_LIMIT,
    ensures
        task_nodes(*final(g)) == task_nodes(*old(g)).push(task_model(t)),
        task_edges(*final(g)) == task_edges(*old(g)),
        r == task_nodes(*old(g)).len(),
{
    g.add_node(t).index()
}

/// Calls `Graph::add_edge`: the edge becomes the last one. It panics where a
/// node does not exist.
#[verifier::external_body]
fn tree_add_edge(g: &mut Graph<Task, ()>, a: usize, b: usize)
    requires
        a < task_nodes(*old(g)).len(),
        b < task_nodes(*old(g)).len(),
        task_edges(*old(g)).len() < TASK_LIMIT,
    ensures
        task_nodes(*final(g)) == task_nodes(*old(g)),
        task_edges(*final(g)) == task_edges(*old(g)).push((a, b)),
{
    g.add_edge(NodeIndex::new(a), NodeIndex::new(b), ());
}

/// Calls `Graph::edge_count`.
#[verifier::external_body]
pub(crate) fn tree_edge_count(g: &Graph<Task, ()>) -> (r: usize)
    ensures
        r == task_edges(*g).len(),
{
    g.edge_count()
}

/// Calls `Graph::node_weight`: the task at `i`, if there is one.
#[verifier::external_body]
fn tree_node(g: &Graph<Task, ()>, i: usize) -> (r: Option<&Task>)
    requires
        i < TASK_LIMIT,
    ensures
        match r {
            Some(t) => i < task_nodes(*g).len() && task_model(*t) == task_nodes(*g)[i as int],
            None => i >= task_nodes(*g).len(),
        },
{
    g.node_weight(NodeIndex::new(i))
}

/// Writes the task at `i` through `IndexMut`, which panics where there is
/// none.
#[verifier::external_body]
pub(crate) fn tree_set_node(g: &mut Graph<Task, ()>, i: usize, t: Task)
    requires
        i < task_nodes(*old(g)).len(),
    ensures
        task_nodes(*final(g)) == task_nodes(*old(g)).update(i as int, task_model(t)),
        task_edges(*final(g)) == task_edges(*old(g)),
{
    g[NodeIndex::new(i)] = t;
}

/// Calls `Graph::neighbors_directed` with `Incoming` and collects the sources:
/// one for each edge into `n`, in an order that the contract leaves open.
#[verifier::external_body]
fn tree_incoming(g: &Graph<Task, ()>, n: usize) -> (r: Vec<usize>)
    requires
        n < TASK_LIMIT,
    ensures
        forall|s: usize| #[trigger] r@.to_multiset().count(s) == task_edges(*g).to_multiset().count((s, n)),
{
    g.neighbors_directed(NodeIndex::new(n), Direction::Incoming).map(|x| x.index()).collect()
}

/// The task graph: the status of each task, the environment each finished
/// task produced, and the tree of tasks and their dependencies.
pub struct TaskGraph {
    pub tasks_status: FxHashMap<usize, Status>,
    pub tasks_results: FxHashMap<usize, Env>,
    pub tasks_tree: Graph<Task, ()>,
}

/// The mathematical content of a task graph.
pub struct TaskGraphModel {
    pub tasks: Seq<TaskModel>,
    pub deps: Seq<(usize, usize)>,
    pub status: Map<usize, Status>,
    pub results: Map<usize, EnvModel>,
}

impl View for TaskGraph {
    type V = TaskGraphModel;

    open spec fn view(&self) -> TaskGraphModel {
        TaskGraphModel {
            tasks: task_nodes(self.tasks_tree),
            deps: task_edges(self.tasks_tree),
            status: self.tasks_status@,
            results: self.tasks_results@.map_values(|e: Env| e@),
        }
    }
}

/// A task that waits for nothing more: it is pending and every task it depends
/// on is done.
pub open spec fn task_ready(m: TaskGraphModel, id: usize) -> bool {
    &&& m.status.contains_key(id) && m.status[id] == Status::Pending
    &&& forall|e: int|
        0 <= e < m.deps.len() && (#[trigger] m.deps[e]).1 == id ==> m.status.contains_key(m.deps[e].0)
            && m.status[m.deps[e].0] == Status::Done
}

/// The ready tasks among the first `k`, in index order.
pub open spec fn ready_upto(m: TaskGraphModel, k: nat) -> Seq<usize>
    decreases k,
{
    if k == 0 {
        Seq::empty()
    } else if task_ready(m, (k - 1) as usize) {
        ready_upto(m, (k - 1) as nat).push((k - 1) as usize)
    } else {
        ready_upto(m, (k - 1) as nat)
    }
}

/// Every task has ended, done or failed.
pub open spec fn all_ended(m: TaskGraphModel) -> bool {
    forall|k: usize| #[trigger] m.status.contains_key(k) ==> m.status[k] == Status::Done || m.status[k] == Status::Failed
}

/// A task just added (see `TaskGraph::add_task`) to a graph whose
/// dependencies all end at existing tasks waits for nothing: it is ready.
pub proof fn law_new_task_is_ready(m: TaskGraphModel, m2: TaskGraphModel, t: TaskModel)
    requires
        forall|e: int| 0 <= e < m.deps.len() ==> (#[trigger] m.deps[e]).1 < m.tasks.len(),
        m.tasks.len() <= usize::MAX,
        m2.tasks == m.tasks.push(t),
        m2.deps == m.deps,
        m2.status == m.status.insert(m.tasks.len() as usize, Status::Pending),
    ensures
        task_ready(m2, m.tasks.len() as usize),
{
}

/// Once every task a pending task depends on is done (see
/// `TaskGraph::mark_done`), it is ready; while one of them is not done, it is
/// not.
pub proof fn law_ready_when_dependencies_done(m: TaskGraphModel, id: usize)
    requires
        m.status.contains_key(id) && m.status[id] == Status::Pending,
    ensures
        task_ready(m, id) <==> forall|e: int|
            0 <= e < m.deps.len() && (#[trigger] m.deps[e]).1 == id ==> m.status.contains_key(m.deps[e].0)
                && m.status[m.deps[e].0] == Status::Done,
{
}

/// Marking a task done (see `TaskGraph::mark_done`) keeps it done and gives
/// back, through `TaskGraph::get_result`, the environment it was marked with;
/// the results of the other tasks do not change.
pub proof fn law_result_after_done(m: TaskGraphModel, m2: TaskGraphModel, id: usize, env: EnvModel)
    requires
        m2.status == m.status.insert(id, Status::Done),
        m2.results == m.results.insert(id, env),
    ensures
        m2.status[id] == Status::Done,
        m2.results.contains_key(id) && m2.results[id] == env,
        forall|k: usize| k != id ==> (#[trigger] m2.results.contains_key(k)) == m.results.contains_key(k),
        forall|k: usize| k != id && m.results.contains_key(k) ==> #[trigger] m2.results[k] == m.results[k],
{
}

/// A task that is running, done or failed is not ready: a task is handed out
/// once.
pub proof fn law_started_task_is_not_ready(m: TaskGraphModel, m2: TaskGraphModel, id: usize, s: Status)
    requires
        s != Status::Pending,
        m2.status == m.status.insert(id, s),
    ensures
        !task_ready(m2, id),
{
}

/// A pending task is ready exactly when every task that
/// `TaskGraph::get_dependencies` lists for it (one for each dependency) is
/// done.
pub proof fn law_ready_iff_listed_dependencies_done(m: TaskGraphModel, id: usize, deps: Seq<usize>)
    requires
        forall|s: usize| #[trigger] deps.to_multiset().count(s) == m.deps.to_multiset().count((s, id)),
    ensures
        task_ready(m, id) <==> (m.status.contains_key(id) && m.status[id] == Status::Pending && forall|j: int|
            0 <= j < deps.len() ==> m.status.contains_key(#[trigger] deps[j]) && m.status[deps[j]] == Status::Done),
{
    broadcast use vstd::seq_lib::group_to_multiset_ensures;

    if m.status.contains_key(id) && m.status[id] == Status::Pending {
        if task_ready(m, id) {
            assert forall|j: int| 0 <= j < deps.len() implies m.status.contains_key(#[trigger] deps[j])
                && m.status[deps[j]] == Status::Done by {
                let s = deps[j];
                assert(deps.contains(s));
                assert(deps.to_multiset().count(s) > 0);
                assert(m.deps.to_multiset().count((s, id)) > 0);
                assert(m.deps.contains((s, id)));
                let e = choose|e: int| 0 <= e < m.deps.len() && m.deps[e] == (s, id);
                assert(m.deps[e].1 == id);
            }
        }
        if forall|j: int|
            0 <= j < deps.len() ==> m.status.contains_key(#[trigger] deps[j]) && m.status[deps[j]] == Status::Done {
            assert forall|e: int| 0 <= e < m.deps.len() && (#[trigger] m.deps[e]).1 == id implies m.status.contains_key(
                m.deps[e].0,
            ) && m.status[m.deps[e].0] == Status::Done by {
                let s = m.deps[e].0;
                assert(m.deps[e] == (s, id));
                assert(m.deps.contains((s, id)));
                assert(m.deps.to_multiset().count((s, id)) > 0);
                assert(deps.to_multiset().count(s) > 0);
                assert(deps.contains(s));
                let j = choose|j: int| 0 <= j < deps.len() && deps[j] == s;
                assert(m.status.contains_key(deps[j]));
            }
        }
    }
}

/// The ready tasks among the first `k` (what `TaskGraph::get_ready_tasks`
/// lists, with `k` the number of tasks) are exactly those of them that are
/// ready, in increasing order, so each once.
pub proof fn law_ready_list(m: TaskGraphModel, k: nat)
    requires
        k <= usize::MAX,
    ensures
        forall|a: int, b: int| 0 <= a < b < ready_upto(m, k).len() ==> ready_upto(m, k)[a] < ready_upto(m, k)[b],
        ready_upto(m, k).no_duplicates(),
        forall|x: usize| #[trigger] ready_upto(m, k).contains(x) <==> (x < k && task_ready(m, x)),
    decreases k,
{
    if k > 0 {
        law_ready_list(m, (k - 1) as nat);
        let prev = ready_upto(m, (k - 1) as nat);
        let cur = ready_upto(m, k);
        assert forall|x: usize| prev.contains(x) implies x < k - 1 by {}
        assert forall|x: usize| #[trigger] cur.contains(x) <==> (x < k && task_ready(m, x)) by {
            if task_ready(m, (k - 1) as usize) {
                assert(cur == prev.push((k - 1) as usize));
                if cur.contains(x) && x != k - 1 {
                    let i = choose|i: int| 0 <= i < cur.len() && cur[i] == x;
                    assert(cur[prev.len() as int] == (k - 1) as usize);
                    assert(i < prev.len());
                    assert(prev[i] == x);
                }
                if prev.contains(x) {
                    let i = choose|i: int| 0 <= i < prev.len() && prev[i] == x;
                    assert(cur[i] == x);
                }
                if x == k - 1 {
                    assert(cur[prev.len() as int] == x);
                }
            }
        }
        assert forall|a: int, b: int| 0 <= a < b < cur.len() implies cur[a] < cur[b] by {
            if task_ready(m, (k - 1) as usize) {
                assert(cur == prev.push((k - 1) as usize));
                assert(cur[a] == prev[a]);
                if b == prev.len() {
                    assert(prev.contains(prev[a]));
                } else {
                    assert(cur[b] == prev[b]);
                }
            }
        }
    }
}

/// Once a task is added (see `TaskGraph::add_task`) the graph is not
/// complete: the new task is pending.
pub proof fn law_not_complete_after_add(m2: TaskGraphModel, id: usize)
    requires
        m2.status.contains_key(id) && m2.status[id] == Status::Pending,
    ensures
        !all_ended(m2),
{
}

impl TaskGraph {
    /// Every environment a task produced is well formed, and the tree has
    /// room for its indices.
    pub open spec fn wf(&self) -> bool {
        &&& forall|k: usize| #[trigger] self.tasks_results@.contains_key(k) ==> self.tasks_results@[k].wf()
        &&& task_nodes(self.tasks_tree).len() <= TASK_LIMIT
    }

    /// An empty task graph.
    pub fn new() -> (r: TaskGraph)
        ensures
            r.wf(),
            r@.tasks == Seq::<TaskModel>::empty(),
            r@.deps == Seq::<(usize, usize)>::empty(),
            r@.status == Map::<usize, Status>::empty(),
            r@.results == Map::<usize, EnvModel>::empty(),
    {
        let r = TaskGraph { tasks_status: fx_new(), tasks_results: fx_new(), tasks_tree: tree_new() };
        assert(r@.results =~= Map::<usize, EnvModel>::empty());
        r
    }

    /// Whether task `node_id` is ready to run (see `task_ready`).
    pub fn is_node_ready(&self, node_id: usize) -> (r: bool)
        requires
            node_id < TASK_LIMIT,
        ensures
            r == task_ready(self@, node_id),
    {
        match fx_get(&self.tasks_status, node_id) {
            Some(s) => {
                if *s != Status::Pending {
                    return false;
                }
            },
            None => {
                return false;
            },
        }
        let deps = tree_incoming(&self.tasks_tree, node_id);
        let ghost edges = self@.deps;
        let mut i: usize = 0;
        while i < deps.len()
            invariant
                i <= deps.len(),
                edges == self@.deps,
                forall|s: usize| #[trigger] deps@.to_multiset().count(s) == edges.to_multiset().count((s, node_id)),
                forall|j: int| 0 <= j < i ==> self@.status.contains_key(#[trigger] deps@[j]) && self@.status[deps@[j]]
                    == Status::Done,
            decreases deps.len() - i,
        {
            let d = deps[i];
            let done = match fx_get(&self.tasks_status, d) {
                Some(s) => *s == Status::Done,
                None => false,
            };
            if !done {
                proof {
                    broadcast use vstd::seq_lib::group_to_multiset_ensures;

                    assert(deps@.contains(d));
                    assert(deps@.to_multiset().count(d) > 0);
                    assert(edges.to_multiset().count((d, node_id)) > 0);
                    assert(edges.contains((d, node_id)));
                    let e = choose|e: int| 0 <= e < edges.len() && edges[e] == (d, node_id);
                    assert(edges[e].1 == node_id);
                }
                return false;
            }
            i = i + 1;
        }
        proof {
            broadcast use vstd::seq_lib::group_to_multiset_ensures;

            assert forall|e: int| 0 <= e < edges.len() && (#[trigger] edges[e]).1 == node_id implies self@.status.contains_key(
                edges[e].0,
            ) && self@.status[edges[e].0] == Status::Done by {
                let s = edges[e].0;
                assert(edges[e] == (s, node_id));
                assert(edges.contains((s, node_id)));
                assert(edges.to_multiset().count((s, node_id)) > 0);
                assert(deps@.to_multiset().count(s) > 0);
                assert(deps@.contains(s));
                let j = choose|j: int| 0 <= j < deps@.len() && deps@[j] == s;
                assert(self@.status.contains_key(deps@[j]));
            }
        }
        true
    }

    /// Whether every task has ended, done or failed.
    pub fn is_complete(&self) -> (r: bool)
        ensures
            r == all_ended(self@),
    {
        let entries = fx_status_entries(&self.tasks_status);
        let mut i: usize = 0;
        while i < entries.len()
            invariant
                i <= entries.len(),
                forall|j: int| 0 <= j < i ==> entries@[j].1 == Status::Done || entries@[j].1 == Status::Failed,
                forall|j: int| #![trigger entries@[j]]
                    0 <= j < entries@.len() ==> self.tasks_status@.contains_key(entries@[j].0)
                        && self.tasks_status@[entries@[j].0] == entries@[j].1,
            decreases entries.len() - i,
        {
            if entries[i].1 != Status::Done && entries[i].1 != Status::Failed {
                proof {
                    assert(self@.status.contains_key(entries@[i as int].0));
                }
                return false;
            }
            i = i + 1;
        }
        proof {
            assert forall|k: usize| #[trigger] self@.status.contains_key(k) implies self@.status[k] == Status::Done
                || self@.status[k] == Status::Failed by {
                let j = choose|j: int| 0 <= j < entries@.len() && #[trigger] entries@[j].0 == k;
                assert(self.tasks_status@.contains_key(entries@[j].0));
            }
        }
        true
    }

    /// Adds a pending task, whose index comes back.
    pub fn add_task(&mut self, task: Task) -> (r: usize)
        requires
            old(self).wf(),
            old(self)@.tasks.len() < TASK_LIMIT,
        ensures
            final(self).wf(),
            r == old(self)@.tasks.len(),
            final(self)@.tasks == old(self)@.tasks.push(task_model(task)),
            final(self)@.deps == old(self)@.deps,
            final(self)@.status == old(self)@.status.insert(r, Status::Pending),
            final(self)@.results == old(self)@.results,
    {
        let node_id = tree_add_node(&mut self.tasks_tree, task);
        fx_insert(&mut self.tasks_status, node_id, Status::Pending);
        node_id
    }

    /// Makes task `to` wait for task `from`.
    pub fn add_dependency(&mut self, from: usize, to: usize)
        requires
            from < old(self)@.tasks.len(),
            to < old(self)@.tasks.len(),
            old(self)@.deps.len() < TASK_LIMIT,
        ensures
            final(self)@.tasks == old(self)@.tasks,
            final(self)@.deps == old(self)@.deps.push((from, to)),
            final(self)@.status == old(self)@.status,
            final(self)@.results == old(self)@.results,
            final(self).wf() == old(self).wf(),
    {
        tree_add_edge(&mut self.tasks_tree, from, to);
    }

    /// Marks task `node_id` as running.
    pub fn mark_running(&mut self, node_id: usize)
        ensures
            final(self)@.tasks == old(self)@.tasks,
            final(self)@.deps == old(self)@.deps,
            final(self)@.status == old(self)@.status.insert(node_id, Status::Running),
            final(self)@.results == old(self)@.results,
            final(self).wf() == old(self).wf(),
    {
        fx_insert(&mut self.tasks_status, node_id, Status::Running);
    }

    /// Marks task `node_id` as done, with the environment it produced.
    pub fn mark_done(&mut self, node_id: usize, result: Env)
        requires
            old(self).wf(),
            result.wf(),
        ensures
            final(self).wf(),
            final(self)@.tasks == old(self)@.tasks,
            final(self)@.deps == old(self)@.deps,
            final(self)@.status == old(self)@.status.insert(node_id, Status::Done),
            final(self)@.results == old(self)@.results.insert(node_id, result@),
    {
        fx_insert(&mut self.tasks_status, node_id, Status::Done);
        fx_insert(&mut self.tasks_results, node_id, result);
        assert(self@.results =~= old(self)@.results.insert(node_id, result@));
    }

    /// Marks task `node_id` as failed.
    pub fn mark_failed(&mut self, node_id: usize)
        ensures
            final(self)@.tasks == old(self)@.tasks,
            final(self)@.deps == old(self)@.deps,
            final(self)@.status == old(self)@.status.insert(node_id, Status::Failed),
            final(self)@.results == old(self)@.results,
            final(self).wf() == old(self).wf(),
    {
        fx_insert(&mut self.tasks_status, node_id, Status::Failed);
    }

    /// A copy of the environment task `node_id` produced, if it is done.
    pub fn get_result(&self, node_id: usize) -> (r: Option<Env>)
        requires
            self.wf(),
        ensures
            match r {
                None => !self@.results.contains_key(node_id),
                Some(e) => self@.results.contains_key(node_id) && e.wf() && e@ == self@.results[node_id],
            },
    {
        match fx_get(&self.tasks_results, node_id) {
            None => None,
            Some(e) => Some(e.duplicate()),
        }
    }

    /// Task `node_id`, if there is one.
    pub fn get_task(&self, node_id: usize) -> (r: Option<&Task>)
        requires
            node_id < TASK_LIMIT,
        ensures
            match r {
                Some(t) => node_id < self@.tasks.len() && task_model(*t) == self@.tasks[node_id as int],
                None => node_id >= self@.tasks.len(),
            },
    {
        tree_node(&self.tasks_tree, node_id)
    }

    /// The ready tasks, in index order, each with a copy of it.
    pub fn get_ready_tasks(&self) -> (r: Vec<(usize, Task)>)
        requires
            self.wf(),
        ensures
            r@.len() == ready_upto(self@, self@.tasks.len()).len(),
            forall|j: int|
                0 <= j < r@.len() ==> (#[trigger] r@[j]).0 == ready_upto(self@, self@.tasks.len())[j]
                    && task_model(r@[j].1) == self@.tasks[r@[j].0 as int],
    {
        let n = tree_node_count(&self.tasks_tree);
        let mut r: Vec<(usize, Task)> = Vec::new();
        let mut i: usize = 0;
        while i < n
            invariant
                i <= n,
                n == self@.tasks.len(),
                n <= TASK_LIMIT,
                r@.len() == ready_upto(self@, i as nat).len(),
                forall|j: int|
                    0 <= j < r@.len() ==> (#[trigger] r@[j]).0 == ready_upto(self@, i as nat)[j]
                        && r@[j].0 < n && task_model(r@[j].1) == self@.tasks[r@[j].0 as int],
            decreases n - i,
        {
            if self.is_node_ready(i) {
                match tree_node(&self.tasks_tree, i) {
                    Some(t) => {
                        let ghost r0 = r@;
                        r.push((i, t.duplicate()));
                        proof {
                            assert forall|j: int| 0 <= j < r@.len() implies (#[trigger] r@[j]).0 == ready_upto(self@, (i + 1) as nat)[j]
                                && r@[j].0 < n && task_model(r@[j].1) == self@.tasks[r@[j].0 as int] by {
                                if j < r0.len() {
                                    assert(r@[j] == r0[j]);
                                }
                            }
                        }
                    },
                    None => {},
                }
            }
            i = i + 1;
        }
        r
    }

    /// The tasks task `node_id` waits for, one for each dependency, in an
    /// order the contract leaves open.
    pub fn get_dependencies(&self, node_id: usize) -> (r: Vec<usize>)
        requires
            node_id < TASK_LIMIT,
        ensures
            forall|s: usize| #[trigger] r@.to_multiset().count(s) == self@.deps.to_multiset().count((s, node_id)),
    {
        tree_incoming(&self.tasks_tree, node_id)
    }
}

} // verus!
