//! Turning the plan graph into tasks. Each declaration becomes a task that
//! waits for the tasks of the earlier declarations it depends on. A loop with
//! no mutable dependencies that is worth running in parallel becomes a task
//! that may later be split by iteration; a block worth running in parallel is
//! expanded declaration by declaration.

use crate::codegraph::{plan_edge_list, plan_edges, plan_node, plan_node_count, plan_nodes, PlanGraph};
use crate::meta::{Class, MetaModel};
use crate::scope::{Env, EnvModel};
use crate::stmt::{Decl, DeclModel, Stmt, StmtModel};
use crate::task_graph::{
    duration_div, duration_from_millis, duration_ticks, fx_get, fx_insert, fx_new, millis_ticks, opt_ticks, ticks,
    tree_edge_count, tree_node_count, tree_set_node, Status, Task, TaskGraph, TaskGraphModel, TaskModel,
    TASK_LIMIT,
};
use coarsetime::Duration;
use rustc_hash::FxHashMap;
use vstd::prelude::*;

verus! {

// ---------------------------------------------------------------------------
// What expanding a node does
// ---------------------------------------------------------------------------

/// Whether a node runs in parallel: by its predicted duration (in ticks)
/// against the threshold, or, where nothing is predicted, where it is nested
/// at most one level deep.
pub open spec fn par_block(dur: Option<u64>, depth: usize, par: u64) -> bool {
    match dur {
        Some(t) => t >= par,
        None => depth <= 1,
    }
}

/// The declaration is a `for` loop.
pub open spec fn is_for(d: DeclModel) -> bool {
    d matches DeclModel::Stmt(StmtModel::For(_, _, _))
}

/// The declaration is a block.
pub open spec fn is_block(d: DeclModel) -> bool {
    d matches DeclModel::Stmt(StmtModel::Block(_))
}

/// The declarations that a node records (a loop's body) come after it.
pub open spec fn kids_after(nodes: Seq<MetaModel>) -> bool {
    forall|i: int, j: int|
        0 <= i < nodes.len() && 0 <= j < nodes[i].loops_decls_indexes.len() ==> i < (
        #[trigger] nodes[i].loops_decls_indexes[j]) < nodes.len()
}

/// The task graph with the two maps between nodes and tasks.
pub struct Expansion {
    pub graph: TaskGraphModel,
    pub code_to_task: Map<usize, usize>,
    pub task_to_code: Map<usize, usize>,
}

/// The dependencies that task `t` of `node` gets from the first `j` edges:
/// one for each edge into `node` from an earlier node, on that node's task.
pub open spec fn node_deps(edges: Seq<(usize, usize)>, c2t: Map<usize, usize>, node: usize, t: usize, j: int) -> Seq<
    (usize, usize),
>
    decreases j,
{
    if j <= 0 {
        Seq::empty()
    } else {
        let rest = node_deps(edges, c2t, node, t, j - 1);
        if edges[j - 1].1 == node && edges[j - 1].0 < node {
            rest.push((c2t[edges[j - 1].0], t))
        } else {
            rest
        }
    }
}

/// Every edge into `node` from an earlier node starts at a node that has one
/// of the first `n` tasks.
pub open spec fn preds_have_tasks(edges: Seq<(usize, usize)>, c2t: Map<usize, usize>, node: usize, n: nat) -> bool {
    forall|j: int|
        0 <= j < edges.len() && (#[trigger] edges[j]).1 == node && edges[j].0 < node ==> c2t.contains_key(edges[j].0)
            && c2t[edges[j].0] < n
}

/// The task made for `node`, holding the maps as they were once it was made.
pub open spec fn node_task(
    meta: MetaModel,
    node: usize,
    expand: bool,
    est: u64,
    c2t: Map<usize, usize>,
    t2c: Map<usize, usize>,
) -> TaskModel {
    TaskModel {
        expand,
        code_graph_id: node,
        complexity: meta.complexity as usize,
        estimated: Some(est),
        loo: Some((c2t, t2c, meta)),
    }
}

/// Adds the pending task of `node`, after every task, with its dependencies:
/// `None` where the task tree is full, or an earlier node that `node` depends
/// on has no task.
pub open spec fn add_node_task(
    nodes: Seq<MetaModel>,
    edges: Seq<(usize, usize)>,
    x: Expansion,
    node: usize,
    expand: bool,
    est: u64,
) -> Option<Expansion> {
    let t = x.graph.tasks.len();
    let deps = node_deps(edges, x.code_to_task, node, t as usize, edges.len() as int);
    if t < TASK_LIMIT && preds_have_tasks(edges, x.code_to_task, node, t + 1) && (deps.len() == 0
        || x.graph.deps.len() + deps.len() <= TASK_LIMIT) {
        let c2t = x.code_to_task.insert(node, t as usize);
        let t2c = x.task_to_code.insert(t as usize, node);
        Some(
            Expansion {
                graph: TaskGraphModel {
                    tasks: x.graph.tasks.push(node_task(nodes[node as int], node, expand, est, c2t, t2c)),
                    deps: x.graph.deps + deps,
                    status: x.graph.status.insert(t as usize, Status::Pending),
                    results: x.graph.results,
                },
                code_to_task: c2t,
                task_to_code: t2c,
            },
        )
    } else {
        None
    }
}

/// One level deeper, short of overflow.
pub open spec fn deeper(depth: usize) -> usize {
    if depth < usize::MAX {
        (depth + 1) as usize
    } else {
        depth
    }
}

/// Expands `node` (with `dur` its predicted duration in ticks, `depth` its
/// nesting and `par` the threshold in ticks): the expansion, and how many of
/// the declarations that follow it are part of it. `None` where a loop is not
/// classed as a loop, a node does not exist, the task tree is full, or a node
/// depends on an earlier node that has no task.
pub open spec fn exp_node(
    nodes: Seq<MetaModel>,
    edges: Seq<(usize, usize)>,
    x: Expansion,
    node: usize,
    dur: Option<u64>,
    depth: usize,
    par: u64,
) -> Option<(Expansion, Option<usize>)>
    decreases nodes.len() - node, 1int, 0int,
{
    if node >= nodes.len() {
        None
    } else {
        let meta = nodes[node as int];
        let len = meta.loops_decls_indexes.len() as usize;
        if is_for(meta.decl) && meta.mut_deps.len() == 0 && par_block(dur, depth, par) {
            if meta.class != Class::Loop {
                None
            } else {
                let est = match dur {
                    Some(t) => t,
                    None => millis_ticks(0),
                };
                match add_node_task(nodes, edges, x, node, true, est) {
                    Some(y) => Some((y, Some(len))),
                    None => None,
                }
            }
        } else if is_block(meta.decl) && par_block(dur, depth, par) {
            match exp_kids(nodes, edges, x, node, 0, 0, depth, par) {
                Some(y) => Some((y, Some(len))),
                None => None,
            }
        } else {
            let est = match dur {
                Some(t) => t,
                None => millis_ticks(meta.complexity as u64),
            };
            match add_node_task(nodes, edges, x, node, false, est) {
                Some(y) => Some((y, if meta.decl is Stmt && len > 0 { Some(len) } else { None })),
                None => None,
            }
        }
    }
}

/// Expands the declarations that `parent` records from the `i`-th on, leaving
/// out the next `skip` and, after each, those it covers.
pub open spec fn exp_kids(
    nodes: Seq<MetaModel>,
    edges: Seq<(usize, usize)>,
    x: Expansion,
    parent: usize,
    i: int,
    skip: nat,
    depth: usize,
    par: u64,
) -> Option<Expansion>
    decreases nodes.len() - parent, 0int, nodes[parent as int].loops_decls_indexes.len() - i,
{
    let kids = nodes[parent as int].loops_decls_indexes;
    if i < 0 || i >= kids.len() {
        Some(x)
    } else if skip > 0 {
        exp_kids(nodes, edges, x, parent, i + 1, (skip - 1) as nat, depth, par)
    } else {
        let kid = kids[i];
        if kid <= parent || kid >= nodes.len() {
            None
        } else {
            match exp_node(nodes, edges, x, kid, None, deeper(depth), par) {
                Some((y, covered)) => exp_kids(
                    nodes,
                    edges,
                    y,
                    parent,
                    i + 1,
                    match covered {
                        Some(s) => s as nat,
                        None => 0,
                    },
                    depth,
                    par,
                ),
                None => None,
            }
        }
    }
}

/// Expands each of `firsts`, from the `i`-th on, at the top level with nothing
/// predicted.
pub open spec fn exp_all(
    nodes: Seq<MetaModel>,
    edges: Seq<(usize, usize)>,
    x: Expansion,
    firsts: Seq<usize>,
    i: int,
    par: u64,
) -> Option<Expansion>
    decreases firsts.len() - i,
{
    if i < 0 || i >= firsts.len() {
        Some(x)
    } else {
        match exp_node(nodes, edges, x, firsts[i], None, 0, par) {
            Some((y, _)) => exp_all(nodes, edges, y, firsts, i + 1, par),
            None => None,
        }
    }
}

/// One iteration of a loop split by iteration: a task of the loop's `node`,
/// done at once with the environment `env` of the iteration, then the
/// expansion of the first declaration of the body. `None` where the task tree
/// is full, the node does not exist or its body is empty, or `exp_node` is
/// `None`.
pub open spec fn exp_iteration(
    nodes: Seq<MetaModel>,
    edges: Seq<(usize, usize)>,
    x: Expansion,
    node: usize,
    env: EnvModel,
    dur: Option<u64>,
    depth: usize,
    par: u64,
) -> Option<(Expansion, Option<usize>)> {
    let t = x.graph.tasks.len();
    if t >= TASK_LIMIT || node >= nodes.len() || nodes[node as int].loops_decls_indexes.len() == 0 {
        None
    } else {
        let start = Expansion {
            graph: TaskGraphModel {
                tasks: x.graph.tasks.push(
                    TaskModel {
                        expand: false,
                        code_graph_id: node,
                        complexity: nodes[node as int].complexity as usize,
                        estimated: None,
                        loo: None,
                    },
                ),
                deps: x.graph.deps,
                status: x.graph.status.insert(t as usize, Status::Done),
                results: x.graph.results.insert(t as usize, env),
            },
            code_to_task: x.code_to_task.insert(node, t as usize),
            task_to_code: x.task_to_code.insert(t as usize, node),
        };
        exp_node(nodes, edges, start, nodes[node as int].loops_decls_indexes[0], dur, depth, par)
    }
}

/// The expansion a task graph and two maps stand for.
pub open spec fn expansion_of(g: TaskGraphModel, c2t: Map<usize, usize>, t2c: Map<usize, usize>) -> Expansion {
    Expansion { graph: g, code_to_task: c2t, task_to_code: t2c }
}

proof fn lemma_node_deps_len(edges: Seq<(usize, usize)>, c2t: Map<usize, usize>, node: usize, t: usize, i: int, j: int)
    requires
        0 <= i <= j,
    ensures
        node_deps(edges, c2t, node, t, i).len() <= node_deps(edges, c2t, node, t, j).len(),
    decreases j - i,
{
    if i < j {
        lemma_node_deps_len(edges, c2t, node, t, i, j - 1);
    }
}

/// Every node that has a task has one of the existing tasks.
pub open spec fn maps_ok(x: Expansion) -> bool {
    forall|k: usize| #[trigger] x.code_to_task.contains_key(k) ==> x.code_to_task[k] < x.graph.tasks.len()
}

/// `y` extends `x`: tasks and dependencies are only added after those of `x`,
/// results are kept, every node keeps a task, and every added dependency
/// makes an added task wait for an earlier task.
pub open spec fn extends(x: Expansion, y: Expansion) -> bool {
    &&& x.graph.tasks.len() <= y.graph.tasks.len()
    &&& y.graph.tasks.take(x.graph.tasks.len() as int) == x.graph.tasks
    &&& x.graph.deps.len() <= y.graph.deps.len()
    &&& y.graph.deps.take(x.graph.deps.len() as int) == x.graph.deps
    &&& y.graph.results == x.graph.results
    &&& maps_ok(y)
    &&& forall|e: int|
        x.graph.deps.len() <= e < y.graph.deps.len() ==> (#[trigger] y.graph.deps[e]).0 < y.graph.deps[e].1
            && x.graph.tasks.len() <= y.graph.deps[e].1 < y.graph.tasks.len()
}

proof fn lemma_extends_trans(x: Expansion, y: Expansion, z: Expansion)
    requires
        extends(x, y),
        extends(y, z),
    ensures
        extends(x, z),
{
    assert(z.graph.tasks.take(x.graph.tasks.len() as int) =~= x.graph.tasks) by {
        assert forall|i: int| 0 <= i < x.graph.tasks.len() implies z.graph.tasks[i] == x.graph.tasks[i] by {
            assert(z.graph.tasks.take(y.graph.tasks.len() as int)[i] == y.graph.tasks[i]);
            assert(y.graph.tasks.take(x.graph.tasks.len() as int)[i] == x.graph.tasks[i]);
        }
    }
    assert(z.graph.deps.take(x.graph.deps.len() as int) =~= x.graph.deps) by {
        assert forall|i: int| 0 <= i < x.graph.deps.len() implies z.graph.deps[i] == x.graph.deps[i] by {
            assert(z.graph.deps.take(y.graph.deps.len() as int)[i] == y.graph.deps[i]);
            assert(y.graph.deps.take(x.graph.deps.len() as int)[i] == x.graph.deps[i]);
        }
    }
    assert forall|e: int| x.graph.deps.len() <= e < z.graph.deps.len() implies (#[trigger] z.graph.deps[e]).0
        < z.graph.deps[e].1 && x.graph.tasks.len() <= z.graph.deps[e].1 < z.graph.tasks.len() by {
        if e < y.graph.deps.len() {
            assert(z.graph.deps.take(y.graph.deps.len() as int)[e] == y.graph.deps[e]);
            assert(y.graph.deps[e] == z.graph.deps[e]);
        }
    }
}

/// Each dependency `node_deps` lists comes from an edge into `node` from an
/// earlier node, on that node's task, for task `t`.
proof fn lemma_node_deps_from_edges(edges: Seq<(usize, usize)>, c2t: Map<usize, usize>, node: usize, t: usize, j: int)
    requires
        0 <= j <= edges.len(),
    ensures
        forall|i: int|
            #![trigger node_deps(edges, c2t, node, t, j)[i]]
            0 <= i < node_deps(edges, c2t, node, t, j).len() ==> exists|k: int|
                0 <= k < j && (#[trigger] edges[k]).1 == node && edges[k].0 < node && node_deps(edges, c2t, node, t, j)[i]
                    == (c2t[edges[k].0], t),
    decreases j,
{
    if j > 0 {
        lemma_node_deps_from_edges(edges, c2t, node, t, j - 1);
        let prev = node_deps(edges, c2t, node, t, j - 1);
        let cur = node_deps(edges, c2t, node, t, j);
        assert forall|i: int| #![trigger cur[i]] 0 <= i < cur.len() implies exists|k: int|
            0 <= k < j && (#[trigger] edges[k]).1 == node && edges[k].0 < node && cur[i] == (c2t[edges[k].0], t) by {
            if i < prev.len() {
                assert(cur[i] == prev[i]);
                let k = choose|k: int|
                    0 <= k < j - 1 && (#[trigger] edges[k]).1 == node && edges[k].0 < node && prev[i] == (c2t[edges[k].0], t);
            } else {
                assert(edges[j - 1].1 == node);
            }
        }
    }
}

/// Adding the task of a node extends the expansion (see `extends`).
proof fn lemma_add_node_task_extends(
    nodes: Seq<MetaModel>,
    edges: Seq<(usize, usize)>,
    x: Expansion,
    node: usize,
    expand: bool,
    est: u64,
)
    requires
        maps_ok(x),
    ensures
        add_node_task(nodes, edges, x, node, expand, est) matches Some(y) ==> extends(x, y),
{
    if let Some(y) = add_node_task(nodes, edges, x, node, expand, est) {
        let t = x.graph.tasks.len();
        let deps = node_deps(edges, x.code_to_task, node, t as usize, edges.len() as int);
        lemma_node_deps_from_edges(edges, x.code_to_task, node, t as usize, edges.len() as int);
        assert(y.graph.tasks.take(t as int) =~= x.graph.tasks);
        assert(y.graph.deps.take(x.graph.deps.len() as int) =~= x.graph.deps);
        assert forall|e: int| x.graph.deps.len() <= e < y.graph.deps.len() implies (#[trigger] y.graph.deps[e]).0
            < y.graph.deps[e].1 && x.graph.tasks.len() <= y.graph.deps[e].1 < y.graph.tasks.len() by {
            let i = e - x.graph.deps.len();
            assert(y.graph.deps[e] == deps[i]);
            let k = choose|k: int|
                0 <= k < edges.len() && (#[trigger] edges[k]).1 == node && edges[k].0 < node && deps[i] == (
                x.code_to_task[edges[k].0], t as usize);
            assert(x.code_to_task.contains_key(edges[k].0));
        }
        assert forall|k: usize| #[trigger] y.code_to_task.contains_key(k) implies y.code_to_task[k] < y.graph.tasks.len() by {
            if k != node {
                assert(x.code_to_task.contains_key(k));
            }
        }
    }
}

proof fn lemma_extends_refl(x: Expansion)
    requires
        maps_ok(x),
    ensures
        extends(x, x),
{
    assert(x.graph.tasks.take(x.graph.tasks.len() as int) =~= x.graph.tasks);
    assert(x.graph.deps.take(x.graph.deps.len() as int) =~= x.graph.deps);
}

/// Among the first `j` edges, every edge into `node` from an earlier node
/// gives a dependency of `t` on that node's task.
proof fn lemma_node_deps_complete(
    edges: Seq<(usize, usize)>,
    c2t: Map<usize, usize>,
    node: usize,
    t: usize,
    j: int,
    k: int,
)
    requires
        0 <= k < j <= edges.len(),
        edges[k].1 == node,
        edges[k].0 < node,
    ensures
        node_deps(edges, c2t, node, t, j).contains((c2t[edges[k].0], t)),
    decreases j,
{
    let rest = node_deps(edges, c2t, node, t, j - 1);
    if k < j - 1 {
        lemma_node_deps_complete(edges, c2t, node, t, j - 1, k);
        let i = choose|i: int| 0 <= i < rest.len() && rest[i] == (c2t[edges[k].0], t);
        if edges[j - 1].1 == node && edges[j - 1].0 < node {
            assert(rest.push((c2t[edges[j - 1].0], t))[i] == (c2t[edges[k].0], t));
        }
    } else {
        assert(rest.push((c2t[edges[k].0], t))[rest.len() as int] == (c2t[edges[k].0], t));
    }
}

/// Every dependency drawn from the first `j` edges comes from an edge into
/// `node` from an earlier node, and is on that node's task.
proof fn lemma_node_deps_sound(
    edges: Seq<(usize, usize)>,
    c2t: Map<usize, usize>,
    node: usize,
    t: usize,
    j: int,
    i: int,
)
    requires
        0 <= j <= edges.len(),
        0 <= i < node_deps(edges, c2t, node, t, j).len(),
    ensures
        exists|k: int|
            0 <= k < j && (#[trigger] edges[k]).1 == node && edges[k].0 < node && node_deps(edges, c2t, node, t, j)[i]
                == (c2t[edges[k].0], t),
    decreases j,
{
    let rest = node_deps(edges, c2t, node, t, j - 1);
    if i < rest.len() {
        lemma_node_deps_sound(edges, c2t, node, t, j - 1, i);
        let k = choose|k: int|
            0 <= k < j - 1 && (#[trigger] edges[k]).1 == node && edges[k].0 < node && rest[i] == (c2t[edges[k].0], t);
        if edges[j - 1].1 == node && edges[j - 1].0 < node {
            assert(rest.push((c2t[edges[j - 1].0], t))[i] == rest[i]);
        }
        assert(node_deps(edges, c2t, node, t, j)[i] == (c2t[edges[k].0], t));
    } else {
        let k = j - 1;
        assert(edges[k].1 == node && edges[k].0 < node);
        assert(node_deps(edges, c2t, node, t, j)[i] == (c2t[edges[k].0], t));
    }
}

/// `d` is a dependency of task `t` on the task of an earlier node with an
/// edge into `node`.
pub open spec fn dep_on_earlier(
    edges: Seq<(usize, usize)>,
    c2t: Map<usize, usize>,
    node: usize,
    t: usize,
    d: (usize, usize),
) -> bool {
    exists|k: int| 0 <= k < edges.len() && (#[trigger] edges[k]).1 == node && edges[k].0 < node && d == (c2t[edges[k].0], t)
}

/// The task made for a node waits on the task of every earlier node it
/// depends on: for each plan edge `(p, node)` with `p < node`, the new task
/// `t` gets the dependency `(task of p, t)`. The dependencies there were stay
/// first, and every one added is of that form.
pub proof fn law_task_waits_on_every_earlier_node(
    nodes: Seq<MetaModel>,
    edges: Seq<(usize, usize)>,
    x: Expansion,
    node: usize,
    expand: bool,
    est: u64,
)
    requires
        add_node_task(nodes, edges, x, node, expand, est) is Some,
    ensures
        ({
            let y = add_node_task(nodes, edges, x, node, expand, est).unwrap();
            let t = x.graph.tasks.len() as usize;
            &&& y.graph.tasks.len() == t + 1
            &&& y.graph.deps.take(x.graph.deps.len() as int) == x.graph.deps
            &&& forall|k: int|
                0 <= k < edges.len() && (#[trigger] edges[k]).1 == node && edges[k].0 < node
                    ==> y.graph.deps.contains((x.code_to_task[edges[k].0], t))
            &&& forall|i: int|
                x.graph.deps.len() <= i < y.graph.deps.len() ==> dep_on_earlier(
                    edges,
                    x.code_to_task,
                    node,
                    t,
                    #[trigger] y.graph.deps[i],
                )
        }),
{
    let y = add_node_task(nodes, edges, x, node, expand, est).unwrap();
    let t = x.graph.tasks.len() as usize;
    let deps = node_deps(edges, x.code_to_task, node, t, edges.len() as int);
    assert(x.graph.tasks.len() < TASK_LIMIT);
    assert(y.graph.tasks.len() == t + 1);
    assert(y.graph.deps == x.graph.deps + deps);
    assert(y.graph.deps.take(x.graph.deps.len() as int) =~= x.graph.deps);
    assert forall|k: int|
        0 <= k < edges.len() && (#[trigger] edges[k]).1 == node && edges[k].0 < node
            implies y.graph.deps.contains((x.code_to_task[edges[k].0], t)) by {
        lemma_node_deps_complete(edges, x.code_to_task, node, t, edges.len() as int, k);
        let i = choose|i: int| 0 <= i < deps.len() && deps[i] == (x.code_to_task[edges[k].0], t);
        assert(y.graph.deps[x.graph.deps.len() + i] == deps[i]);
    }
    assert forall|i: int| x.graph.deps.len() <= i < y.graph.deps.len() implies dep_on_earlier(
        edges,
        x.code_to_task,
        node,
        t,
        #[trigger] y.graph.deps[i],
    ) by {
        lemma_node_deps_sound(edges, x.code_to_task, node, t, edges.len() as int, i - x.graph.deps.len());
        assert(y.graph.deps[i] == deps[i - x.graph.deps.len()]);
    }
}

/// Expanding keeps what was there and only adds dependencies of new tasks on
/// earlier ones; so where every node's task exists, the task graph stays
/// free of cycles (see `extends`).
pub proof fn law_expansion_extends(
    nodes: Seq<MetaModel>,
    edges: Seq<(usize, usize)>,
    x: Expansion,
    node: usize,
    dur: Option<u64>,
    depth: usize,
    par: u64,
)
    requires
        maps_ok(x),
    ensures
        exp_node(nodes, edges, x, node, dur, depth, par) matches Some((y, _)) ==> extends(x, y),
    decreases nodes.len() - node, 1int, 0int,
{
    if node < nodes.len() {
        let meta = nodes[node as int];
        if is_for(meta.decl) && meta.mut_deps.len() == 0 && par_block(dur, depth, par) {
            let est = match dur {
                Some(t) => t,
                None => millis_ticks(0),
            };
            lemma_add_node_task_extends(nodes, edges, x, node, true, est);
        } else if is_block(meta.decl) && par_block(dur, depth, par) {
            lemma_kids_extend(nodes, edges, x, node, 0, 0, depth, par);
        } else {
            let est = match dur {
                Some(t) => t,
                None => millis_ticks(meta.complexity as u64),
            };
            lemma_add_node_task_extends(nodes, edges, x, node, false, est);
        }
    }
}

proof fn lemma_kids_extend(
    nodes: Seq<MetaModel>,
    edges: Seq<(usize, usize)>,
    x: Expansion,
    parent: usize,
    i: int,
    skip: nat,
    depth: usize,
    par: u64,
)
    requires
        maps_ok(x),
    ensures
        exp_kids(nodes, edges, x, parent, i, skip, depth, par) matches Some(y) ==> extends(x, y),
    decreases nodes.len() - parent, 0int, nodes[parent as int].loops_decls_indexes.len() - i,
{
    let kids = nodes[parent as int].loops_decls_indexes;
    if i < 0 || i >= kids.len() {
        lemma_extends_refl(x);
    } else if skip > 0 {
        lemma_kids_extend(nodes, edges, x, parent, i + 1, (skip - 1) as nat, depth, par);
    } else {
        let kid = kids[i];
        if parent < kid < nodes.len() {
            law_expansion_extends(nodes, edges, x, kid, None, deeper(depth), par);
            if let Some((y, covered)) = exp_node(nodes, edges, x, kid, None, deeper(depth), par) {
                let s: nat = match covered {
                    Some(s) => s as nat,
                    None => 0,
                };
                lemma_kids_extend(nodes, edges, y, parent, i + 1, s, depth, par);
                if let Some(z) = exp_kids(nodes, edges, y, parent, i + 1, s, depth, par) {
                    lemma_extends_trans(x, y, z);
                }
            }
        }
    }
}

// ---------------------------------------------------------------------------
// The executor
// ---------------------------------------------------------------------------

/// The plan graph to run, the top-level declarations that start it, and the
/// number of workers.
pub struct Executor {
    pub code_graph: PlanGraph,
    pub first_decls: Vec<usize>,
    pub workers_num: usize,
}

impl Executor {
    /// An executor of `graph` from the top-level declarations `first_decls`,
    /// with `workers_num` workers.
    pub fn new(graph: PlanGraph, first_decls: Vec<usize>, workers_num: usize) -> (r: Executor)
        ensures
            r.code_graph == graph,
            r.first_decls@ == first_decls@,
            r.workers_num == workers_num,
    {
        Executor { code_graph: graph, first_decls, workers_num }
    }

    /// Whether a node runs in parallel (see `par_block`), the threshold given
    /// in milliseconds.
    pub fn is_parallel_execution(duration: Option<Duration>, depth: usize, par_ms: u64) -> (r: bool)
        ensures
            r == par_block(opt_ticks(duration), depth, millis_ticks(par_ms)),
    {
        match duration {
            None => depth <= 1,
            Some(x) => {
                let threshold = duration_from_millis(par_ms);
                duration_ticks(&x) >= duration_ticks(&threshold)
            },
        }
    }

    /// Whether a worker expands the node it was handed instead of running it:
    /// only a loop, and only where it runs in parallel (see `par_block`) by the
    /// duration predicted for it.
    pub fn expands_node(class: Class, estimated: Option<Duration>, depth: usize, par_ms: u64) -> (r: bool)
        ensures
            r == (class == Class::Loop && par_block(opt_ticks(estimated), depth, millis_ticks(par_ms))),
    {
        class == Class::Loop && Self::is_parallel_execution(estimated, depth, par_ms)
    }

    /// Whether a loop that may be split runs whole: where the duration
    /// predicted for it, shared among its `elements` iterations (their number
    /// taken as a `u32`), is below `iter_ms` milliseconds an iteration. Where
    /// nothing is predicted it is split.
    pub fn runs_loop_whole(estimated: Option<Duration>, elements: usize, iter_ms: u64) -> (r: bool)
        requires
            estimated is Some ==> elements as u32 != 0,
        ensures
            r == match estimated {
                None => false,
                Some(d) => ticks(d) / ((elements as u32) as u64) < millis_ticks(iter_ms),
            },
    {
        match estimated {
            None => false,
            Some(d) => {
                let share = duration_div(d, elements as u32);
                let limit = duration_from_millis(iter_ms);
                duration_ticks(&share) < duration_ticks(&limit)
            },
        }
    }

    /// Adds the task of `node` (see `add_node_task`), estimated to take `est`.
    fn add_node_task(
        graph: &PlanGraph,
        all: &Vec<(usize, usize)>,
        state: &mut TaskGraph,
        code_to_task: FxHashMap<usize, usize>,
        task_to_code: FxHashMap<usize, usize>,
        node: usize,
        expand: bool,
        est: Duration,
    ) -> (r: Option<(FxHashMap<usize, usize>, FxHashMap<usize, usize>)>)
        requires
            node < plan_nodes(*graph).len(),
            all@ == plan_edges(*graph),
            old(state).wf(),
        ensures
            final(state).wf(),
            ({
                let before = expansion_of(old(state)@, code_to_task@, task_to_code@);
                let spec = add_node_task(plan_nodes(*graph), plan_edges(*graph), before, node, expand, ticks(est));
                match r {
                    Some((c2t, t2c)) => spec == Some(expansion_of(final(state)@, c2t@, t2c@)),
                    None => spec is None,
                }
            }),
    {
        let ghost nodes = plan_nodes(*graph);
        let ghost edges = plan_edges(*graph);
        let ghost g0 = state@;
        let ghost m0 = code_to_task@;
        if tree_node_count(&state.tasks_tree) >= TASK_LIMIT {
            return None;
        }
        let meta = plan_node(graph, node);
        let task = if expand {
            Task::MaybeExpand {
                code_graph_id: node,
                complexity: meta.complexity,
                estimated_duration: Some(est),
                loo: None,
            }
        } else {
            Task::ExecuteNode {
                code_graph_id: node,
                complexity: meta.complexity,
                estimated_duration: Some(est),
                loo: None,
            }
        };
        let inserted = state.add_task(task);
        let mut ndeps = tree_edge_count(&state.tasks_tree);
        let ghost g1 = state@;
        let mut e: usize = 0;
        while e < all.len()
            invariant
                e <= all.len(),
                all@ == edges,
                edges == plan_edges(*graph),
                g0 == old(state)@,
                nodes == plan_nodes(*graph),
                node < nodes.len(),
                inserted == g0.tasks.len(),
                code_to_task@ == m0,
                state.wf(),
                state@.tasks == g1.tasks,
                state@.status == g1.status,
                state@.results == g1.results,
                g1.tasks.len() == g0.tasks.len() + 1,
                g1.deps == g0.deps,
                state@.deps == g0.deps + node_deps(edges, m0, node, inserted, e as int),
                ndeps == state@.deps.len(),
                g0.deps.len() + node_deps(edges, m0, node, inserted, e as int).len() <= TASK_LIMIT || node_deps(
                    edges,
                    m0,
                    node,
                    inserted,
                    e as int,
                ).len() == 0,
                forall|j: int|
                    0 <= j < e && (#[trigger] edges[j]).1 == node && edges[j].0 < node ==> m0.contains_key(edges[j].0)
                        && m0[edges[j].0] < g0.tasks.len() + 1,
            decreases all.len() - e,
        {
            let (s, t) = all[e];
            if t == node && s < node {
                proof {
                    assert(edges[e as int] == (s, t));
                    lemma_node_deps_len(edges, m0, node, inserted, e + 1, edges.len() as int);
                }
                let from = match fx_get(&code_to_task, s) {
                    Some(f) => *f,
                    None => {
                        return None;
                    },
                };
                if from > inserted || ndeps >= TASK_LIMIT {
                    return None;
                }
                state.add_dependency(from, inserted);
                ndeps = ndeps + 1;
            }
            e = e + 1;
        }
        let mut c2t = code_to_task;
        let mut t2c = task_to_code;
        fx_insert(&mut c2t, node, inserted);
        fx_insert(&mut t2c, inserted, node);
        let loo = Some((c2t.clone(), t2c.clone(), meta.clone()));
        let full = if expand {
            Task::MaybeExpand { code_graph_id: node, complexity: meta.complexity, estimated_duration: Some(est), loo }
        } else {
            Task::ExecuteNode { code_graph_id: node, complexity: meta.complexity, estimated_duration: Some(est), loo }
        };
        tree_set_node(&mut state.tasks_tree, inserted, full);
        proof {
            let spec = add_node_task(nodes, edges, expansion_of(g0, m0, task_to_code@), node, expand, ticks(est));
            assert(state@.tasks =~= g0.tasks.push(node_task(nodes[node as int], node, expand, ticks(est), c2t@, t2c@)));
            assert(spec is Some);
        }
        Some((c2t, t2c))
    }

    /// Expands `node` (see `exp_node`).
    fn expand_node(
        graph: &PlanGraph,
        all: &Vec<(usize, usize)>,
        state: &mut TaskGraph,
        code_to_task: FxHashMap<usize, usize>,
        task_to_code: FxHashMap<usize, usize>,
        node: usize,
        duration: Option<Duration>,
        depth: usize,
        par_ms: u64,
    ) -> (r: Option<(FxHashMap<usize, usize>, FxHashMap<usize, usize>, Option<usize>)>)
        requires
            all@ == plan_edges(*graph),
            kids_after(plan_nodes(*graph)),
            old(state).wf(),
        ensures
            final(state).wf(),
            ({
                let before = expansion_of(old(state)@, code_to_task@, task_to_code@);
                let spec = exp_node(
                    plan_nodes(*graph),
                    plan_edges(*graph),
                    before,
                    node,
                    opt_ticks(duration),
                    depth,
                    millis_ticks(par_ms),
                );
                match r {
                    Some((c2t, t2c, covered)) => spec == Some((expansion_of(final(state)@, c2t@, t2c@), covered)),
                    None => spec is None,
                }
            }),
        decreases plan_nodes(*graph).len() - node,
    {
        let ghost nodes = plan_nodes(*graph);
        let ghost edges = plan_edges(*graph);
        let ghost par = millis_ticks(par_ms);
        let ghost before = expansion_of(state@, code_to_task@, task_to_code@);
        if node >= plan_node_count(graph) {
            return None;
        }
        let meta = plan_node(graph, node);
        let par_blk = Self::is_parallel_execution(duration, depth, par_ms);
        let len = meta.loops_decls_indexes.len();
        let (for_loop, block, statement) = match &*meta.decl {
            Decl::Stmt(Stmt::For(..)) => (true, false, true),
            Decl::Stmt(Stmt::Block(..)) => (false, true, true),
            Decl::Stmt(..) => (false, false, true),
            _ => (false, false, false),
        };
        if for_loop && meta.mut_deps.len() == 0 && par_blk {
            if meta.class != Class::Loop {
                return None;
            }
            let est = match duration {
                Some(d) => d,
                None => duration_from_millis(0),
            };
            match Self::add_node_task(graph, all, state, code_to_task, task_to_code, node, true, est) {
                Some((c2t, t2c)) => Some((c2t, t2c, Some(len))),
                None => None,
            }
        } else if block && par_blk {
            let next = if depth < usize::MAX {
                depth + 1
            } else {
                depth
            };
            let mut c2t = code_to_task;
            let mut t2c = task_to_code;
            let mut skip: usize = 0;
            let mut i: usize = 0;
            let ghost whole = exp_node(nodes, edges, before, node, opt_ticks(duration), depth, par);
            assert(whole == match exp_kids(nodes, edges, before, node, 0, 0, depth, par) {
                Some(y) => Some((y, Some(len))),
                None => None,
            });
            while i < len
                invariant
                    whole == exp_node(nodes, edges, before, node, opt_ticks(duration), depth, par),
                    whole == match exp_kids(nodes, edges, before, node, 0, 0, depth, par) {
                        Some(y) => Some((y, Some(len))),
                        None => None,
                    },
                    i <= len,
                    len == nodes[node as int].loops_decls_indexes.len(),
                    meta@ == nodes[node as int],
                    node < nodes.len(),
                    nodes == plan_nodes(*graph),
                    edges == plan_edges(*graph),
                    all@ == edges,
                    kids_after(nodes),
                    next == deeper(depth),
                    par == millis_ticks(par_ms),
                    before == expansion_of(old(state)@, code_to_task@, task_to_code@),
                    state.wf(),
                    exp_kids(nodes, edges, before, node, 0, 0, depth, par) == exp_kids(
                        nodes,
                        edges,
                        expansion_of(state@, c2t@, t2c@),
                        node,
                        i as int,
                        skip as nat,
                        depth,
                        par,
                    ),
                decreases len - i,
            {
                let ghost cur = expansion_of(state@, c2t@, t2c@);
                if skip > 0 {
                    proof {
                        assert(exp_kids(nodes, edges, cur, node, i as int, skip as nat, depth, par) == exp_kids(
                            nodes,
                            edges,
                            cur,
                            node,
                            i + 1,
                            (skip - 1) as nat,
                            depth,
                            par,
                        ));
                    }
                    skip = skip - 1;
                } else {
                    let kid = meta.loops_decls_indexes[i];
                    assert(node < kid < nodes.len());
                    proof {
                        assert(kid == nodes[node as int].loops_decls_indexes[i as int]);
                        assert(exp_kids(nodes, edges, cur, node, i as int, 0, depth, par) == match exp_node(
                            nodes,
                            edges,
                            cur,
                            kid,
                            None,
                            deeper(depth),
                            par,
                        ) {
                            Some((y, covered)) => exp_kids(
                                nodes,
                                edges,
                                y,
                                node,
                                i + 1,
                                match covered {
                                    Some(s) => s as nat,
                                    None => 0,
                                },
                                depth,
                                par,
                            ),
                            None => None,
                        });
                    }
                    match Self::expand_node(graph, all, state, c2t, t2c, kid, None, next, par_ms) {
                        Some((a, b, covered)) => {
                            c2t = a;
                            t2c = b;
                            skip = match covered {
                                Some(s) => s,
                                None => 0,
                            };
                        },
                        None => {
                            return None;
                        },
                    }
                }
                i = i + 1;
            }
            Some((c2t, t2c, Some(len)))
        } else {
            let est = match duration {
                Some(d) => d,
                None => duration_from_millis(meta.complexity as u64),
            };
            match Self::add_node_task(graph, all, state, code_to_task, task_to_code, node, false, est) {
                Some((c2t, t2c)) => {
                    let covered = if statement && len > 0 {
                        Some(len)
                    } else {
                        None
                    };
                    Some((c2t, t2c, covered))
                },
                None => None,
            }
        }
    }

    /// Adds to `state` the tasks of every top-level declaration in turn, at
    /// depth 0 and with nothing predicted (see `exp_all`), each expansion
    /// starting from the maps the one before it left; `par_ms` is the threshold
    /// of running in parallel. False exactly where `exp_all` is `None`.
    pub fn build_available_part_task_graph(&self, state: &mut TaskGraph, par_ms: u64) -> (r: bool)
        requires
            kids_after(plan_nodes(self.code_graph)),
            old(state).wf(),
        ensures
            final(state).wf(),
            ({
                let spec = exp_all(
                    plan_nodes(self.code_graph),
                    plan_edges(self.code_graph),
                    expansion_of(old(state)@, Map::empty(), Map::empty()),
                    self.first_decls@,
                    0,
                    millis_ticks(par_ms),
                );
                match spec {
                    Some(y) => r && y.graph == final(state)@,
                    None => !r,
                }
            }),
    {
        let ghost nodes = plan_nodes(self.code_graph);
        let ghost edges = plan_edges(self.code_graph);
        let ghost par = millis_ticks(par_ms);
        let all = plan_edge_list(&self.code_graph);
        let mut task_to_code: FxHashMap<usize, usize> = fx_new();
        let mut code_to_task: FxHashMap<usize, usize> = fx_new();
        let ghost start = expansion_of(state@, code_to_task@, task_to_code@);
        assert(start == expansion_of(old(state)@, Map::empty(), Map::empty()));
        let mut i: usize = 0;
        while i < self.first_decls.len()
            invariant
                i <= self.first_decls.len(),
                nodes == plan_nodes(self.code_graph),
                edges == plan_edges(self.code_graph),
                all@ == edges,
                par == millis_ticks(par_ms),
                start == expansion_of(old(state)@, Map::empty(), Map::empty()),
                kids_after(nodes),
                state.wf(),
                exp_all(nodes, edges, start, self.first_decls@, 0, par) == exp_all(
                    nodes,
                    edges,
                    expansion_of(state@, code_to_task@, task_to_code@),
                    self.first_decls@,
                    i as int,
                    par,
                ),
            decreases self.first_decls.len() - i,
        {
            let node_idx = self.first_decls[i];
            let ghost cur = expansion_of(state@, code_to_task@, task_to_code@);
            assert(exp_all(nodes, edges, cur, self.first_decls@, i as int, par) == match exp_node(
                nodes,
                edges,
                cur,
                node_idx,
                None,
                0,
                par,
            ) {
                Some((y, _)) => exp_all(nodes, edges, y, self.first_decls@, i + 1, par),
                None => None,
            });
            match Self::expand_node(&self.code_graph, &all, state, code_to_task, task_to_code, node_idx, None, 0, par_ms) {
                Some((a, b, _)) => {
                    code_to_task = a;
                    task_to_code = b;
                },
                None => {
                    return false;
                },
            }
            i = i + 1;
        }
        true
    }

    /// Whether every declaration that a node records comes after it and
    /// exists (see `kids_after`), which expanding needs.
    pub fn loop_bodies_follow(graph: &PlanGraph) -> (r: bool)
        ensures
            r == kids_after(plan_nodes(*graph)),
    {
        let ghost nodes = plan_nodes(*graph);
        let n = plan_node_count(graph);
        let mut i: usize = 0;
        while i < n
            invariant
                i <= n,
                n == nodes.len(),
                nodes == plan_nodes(*graph),
                forall|a: int, j: int|
                    0 <= a < i && 0 <= j < nodes[a].loops_decls_indexes.len() ==> a < (
                    #[trigger] nodes[a].loops_decls_indexes[j]) < nodes.len(),
            decreases n - i,
        {
            let kids = &plan_node(graph, i).loops_decls_indexes;
            let mut j: usize = 0;
            while j < kids.len()
                invariant
                    j <= kids.len(),
                    i < n,
                    n == nodes.len(),
                    nodes == plan_nodes(*graph),
                    kids@ == nodes[i as int].loops_decls_indexes,
                    forall|b: int| 0 <= b < j ==> i < #[trigger] kids@[b] < n,
                decreases kids.len() - j,
            {
                if kids[j] <= i || kids[j] >= n {
                    proof {
                        assert(nodes[i as int].loops_decls_indexes[j as int] == kids@[j as int]);
                    }
                    return false;
                }
                j = j + 1;
            }
            proof {
                assert forall|a: int, b: int|
                    0 <= a < i + 1 && 0 <= b < nodes[a].loops_decls_indexes.len() implies a < (
                    #[trigger] nodes[a].loops_decls_indexes[b]) < nodes.len() by {
                    if a == i {
                        assert(nodes[a].loops_decls_indexes[b] == kids@[b]);
                    }
                }
            }
            i = i + 1;
        }
        true
    }

    /// Plans one iteration of the loop `node_id` (see `exp_iteration`): a task
    /// of the loop done at once with the iteration's environment `env`, then
    /// the first declaration of the body expanded after it, at `depth`, with
    /// `duration` predicted for it. Gives back the maps and how many
    /// declarations that expansion covered.
    pub fn expand_iteration(
        code_graph: &PlanGraph,
        state: &mut TaskGraph,
        code_to_task: FxHashMap<usize, usize>,
        task_to_code: FxHashMap<usize, usize>,
        node_id: usize,
        env: Env,
        duration: Option<Duration>,
        depth: usize,
        par_ms: u64,
    ) -> (r: Option<(FxHashMap<usize, usize>, FxHashMap<usize, usize>, Option<usize>)>)
        requires
            kids_after(plan_nodes(*code_graph)),
            old(state).wf(),
            env.wf(),
        ensures
            final(state).wf(),
            ({
                let before = expansion_of(old(state)@, code_to_task@, task_to_code@);
                let spec = exp_iteration(
                    plan_nodes(*code_graph),
                    plan_edges(*code_graph),
                    before,
                    node_id,
                    env@,
                    opt_ticks(duration),
                    depth,
                    millis_ticks(par_ms),
                );
                match r {
                    Some((c2t, t2c, covered)) => spec == Some((expansion_of(final(state)@, c2t@, t2c@), covered)),
                    None => spec is None,
                }
            }),
    {
        if tree_node_count(&state.tasks_tree) >= TASK_LIMIT || node_id >= plan_node_count(code_graph) {
            return None;
        }
        let meta = plan_node(code_graph, node_id);
        if meta.loops_decls_indexes.len() == 0 {
            return None;
        }
        let first = meta.loops_decls_indexes[0];
        let task = Task::ExecuteNode {
            code_graph_id: node_id,
            complexity: meta.complexity,
            estimated_duration: None,
            loo: None,
        };
        let inserted = state.add_task(task);
        state.mark_done(inserted, env);
        let mut c2t = code_to_task;
        let mut t2c = task_to_code;
        fx_insert(&mut c2t, node_id, inserted);
        fx_insert(&mut t2c, inserted, node_id);
        proof {
            assert(state@.status =~= old(state)@.status.insert(inserted, Status::Done));
            assert(first == plan_nodes(*code_graph)[node_id as int].loops_decls_indexes[0]);
        }
        Self::expand(code_graph, state, c2t, t2c, first, duration, depth, par_ms)
    }

    /// Adds the tasks of `node_id` to `state` (see `exp_node`), given the
    /// duration `duration` predicted for it, how deeply it is nested (`depth`,
    /// 0 at the top level; what a block holds is one level deeper than the
    /// block) and the threshold of running in parallel, `par_ms`
    /// milliseconds. Gives back the two maps between nodes and tasks and how
    /// many of the declarations that follow `node_id` it covered; `None`
    /// exactly where `exp_node` is `None`.
    pub fn expand(
        code_graph: &PlanGraph,
        state: &mut TaskGraph,
        code_to_task: FxHashMap<usize, usize>,
        task_to_code: FxHashMap<usize, usize>,
        node_id: usize,
        duration: Option<Duration>,
        depth: usize,
        par_ms: u64,
    ) -> (r: Option<(FxHashMap<usize, usize>, FxHashMap<usize, usize>, Option<usize>)>)
        requires
            kids_after(plan_nodes(*code_graph)),
            old(state).wf(),
        ensures
            final(state).wf(),
            ({
                let before = expansion_of(old(state)@, code_to_task@, task_to_code@);
                let spec = exp_node(
                    plan_nodes(*code_graph),
                    plan_edges(*code_graph),
                    before,
                    node_id,
                    opt_ticks(duration),
                    depth,
                    millis_ticks(par_ms),
                );
                match r {
                    Some((c2t, t2c, covered)) => spec == Some((expansion_of(final(state)@, c2t@, t2c@), covered)),
                    None => spec is None,
                }
            }),
    {
        let all = plan_edge_list(code_graph);
        Self::expand_node(code_graph, &all, state, code_to_task, task_to_code, node_id, duration, depth, par_ms)
    }
}

} // verus!
