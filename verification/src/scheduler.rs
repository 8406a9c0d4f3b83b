//! An order in which the declarations of a plan graph can run one after the
//! other: Kahn's algorithm, taking among the declarations that are ready the
//! most costly first.
//!
//! A declaration is left out ("blocked") where an edge into it comes from a
//! later declaration, from itself, or from a loop: those run inside the loop
//! or in a later round. Edges to or from a blocked declaration do not count.

use crate::codegraph::{plan_edge_list, plan_edges, plan_node, plan_node_count, plan_nodes, plan_outgoing, PlanGraph};
use crate::meta::{Class, MetaModel};
use std::collections::{HashMap, HashSet, VecDeque};
use vstd::prelude::*;

verus! {

broadcast use vstd::std_specs::hash::group_hash_axioms;

/// Calls `HashMap::iter` and collects the bindings: each once, in an order the
/// contract leaves open.
#[verifier::external_body]
fn degree_entries(m: &HashMap<usize, usize>) -> (r: Vec<(usize, usize)>)
    ensures
        forall|i: int| #![trigger r@[i]] 0 <= i < r@.len() ==> m@.contains_key(r@[i].0) && m@[r@[i].0] == r@[i].1,
        forall|i: int, j: int| 0 <= i < j < r@.len() ==> r@[i].0 != r@[j].0,
        forall|k: usize| #[trigger] m@.contains_key(k) ==> exists|i: int| 0 <= i < r@.len() && #[trigger] r@[i].0 == k,
{
    m.iter().map(|(k, v)| (*k, *v)).collect()
}

/// Some edge into `k` comes from a later declaration, from `k` itself, or from
/// a loop.
pub open spec fn blocked(nodes: Seq<MetaModel>, edges: Seq<(usize, usize)>, k: usize) -> bool {
    exists|j: int|
        0 <= j < edges.len() && (#[trigger] edges[j]).1 == k && (k <= edges[j].0 || nodes[edges[j].0 as int].class
            == Class::Loop)
}

/// A node that the order must place.
pub open spec fn candidate(nodes: Seq<MetaModel>, edges: Seq<(usize, usize)>, k: usize) -> bool {
    k < nodes.len() && !blocked(nodes, edges, k)
}

/// Edge `j` joins two nodes that the order places.
pub open spec fn inner(nodes: Seq<MetaModel>, edges: Seq<(usize, usize)>, j: int) -> bool {
    candidate(nodes, edges, edges[j].0) && candidate(nodes, edges, edges[j].1)
}

/// Every edge into `v` between placed nodes starts in `p`.
pub open spec fn waits_only_on(nodes: Seq<MetaModel>, edges: Seq<(usize, usize)>, p: Seq<usize>, v: usize) -> bool {
    forall|j: int| 0 <= j < edges.len() && inner(nodes, edges, j) && (#[trigger] edges[j]).1 == v ==> p.contains(edges[j].0)
}

/// `v` may come next after `p`.
pub open spec fn ready_after(nodes: Seq<MetaModel>, edges: Seq<(usize, usize)>, p: Seq<usize>, v: usize) -> bool {
    candidate(nodes, edges, v) && !p.contains(v) && waits_only_on(nodes, edges, p, v)
}

/// `p` lists placed nodes, each once, each after every node it waits for and
/// each at least as costly as any other node that could have come in its place.
pub open spec fn kahn_order(nodes: Seq<MetaModel>, edges: Seq<(usize, usize)>, p: Seq<usize>) -> bool {
    &&& p.no_duplicates()
    &&& forall|k: usize| p.contains(k) ==> candidate(nodes, edges, k)
    &&& forall|b: int| 0 <= b < p.len() ==> #[trigger] waits_only_on(nodes, edges, p.take(b), p[b])
    &&& forall|b: int, v: usize|
        0 <= b < p.len() && #[trigger] ready_after(nodes, edges, p.take(b), v) ==> nodes[p[b] as int].complexity
            >= nodes[v as int].complexity
}

/// The number of edges among the first `j` between placed nodes that go into
/// `k` from a node not in `p`.
pub open spec fn pending(nodes: Seq<MetaModel>, edges: Seq<(usize, usize)>, p: Seq<usize>, k: usize, j: int) -> nat
    decreases j,
{
    if j <= 0 {
        0
    } else {
        pending(nodes, edges, p, k, j - 1) + if inner(nodes, edges, j - 1) && edges[j - 1].1 == k && !p.contains(
            edges[j - 1].0,
        ) {
            1nat
        } else {
            0nat
        }
    }
}

/// The number of the first `j` edges that are `x`.
pub open spec fn occurrences(edges: Seq<(usize, usize)>, x: (usize, usize), j: int) -> nat
    decreases j,
{
    if j <= 0 {
        0
    } else {
        occurrences(edges, x, j - 1) + if edges[j - 1] == x {
            1nat
        } else {
            0nat
        }
    }
}

/// Counting the edges that are `x` counts them in the multiset of edges.
proof fn lemma_occurrences(edges: Seq<(usize, usize)>, x: (usize, usize), j: int)
    requires
        0 <= j <= edges.len(),
    ensures
        occurrences(edges, x, j) == edges.take(j).to_multiset().count(x),
    decreases j,
{
    broadcast use vstd::seq_lib::group_to_multiset_ensures;

    if j == 0 {
        assert(edges.take(0) =~= Seq::<(usize, usize)>::empty());
    } else {
        lemma_occurrences(edges, x, j - 1);
        assert(edges.take(j) =~= edges.take(j - 1).push(edges[j - 1]));
    }
}

/// No edge into `k` is pending exactly where `k` waits only on `p`.
proof fn lemma_pending_zero(nodes: Seq<MetaModel>, edges: Seq<(usize, usize)>, p: Seq<usize>, k: usize, j: int)
    requires
        0 <= j <= edges.len(),
    ensures
        pending(nodes, edges, p, k, j) == 0 <==> forall|i: int|
            0 <= i < j && inner(nodes, edges, i) && (#[trigger] edges[i]).1 == k ==> p.contains(edges[i].0),
    decreases j,
{
    if j > 0 {
        lemma_pending_zero(nodes, edges, p, k, j - 1);
    }
}

/// Placing `u`, which waits for nothing more and is no candidate's own edge
/// end twice over, takes from each node's pending count the edges from `u`.
proof fn lemma_pending_place(
    nodes: Seq<MetaModel>,
    edges: Seq<(usize, usize)>,
    p: Seq<usize>,
    u: usize,
    k: usize,
    j: int,
)
    requires
        0 <= j <= edges.len(),
        !p.contains(u),
        candidate(nodes, edges, u),
        candidate(nodes, edges, k),
    ensures
        pending(nodes, edges, p, k, j) == pending(nodes, edges, p.push(u), k, j) + occurrences(edges, (u, k), j),
    decreases j,
{
    if j > 0 {
        lemma_pending_place(nodes, edges, p, u, k, j - 1);
        let e = edges[j - 1];
        assert(p.push(u).contains(u)) by {
            assert(p.push(u)[p.len() as int] == u);
        }
        if e.0 != u {
            assert(p.push(u).contains(e.0) == p.contains(e.0)) by {
                if p.push(u).contains(e.0) {
                    let i = choose|i: int| 0 <= i < p.push(u).len() && p.push(u)[i] == e.0;
                    assert(p[i] == e.0);
                }
                if p.contains(e.0) {
                    let i = choose|i: int| 0 <= i < p.len() && p[i] == e.0;
                    assert(p.push(u)[i] == e.0);
                }
            }
        }
        if e == (u, k) {
            assert(inner(nodes, edges, j - 1));
        }
    }
}

/// The nodes that some edge blocks (see `blocked`).
fn blocked_nodes(graph: &PlanGraph, all: &Vec<(usize, usize)>) -> (r: HashSet<usize>)
    requires
        all@ == plan_edges(*graph),
        forall|x: int| 0 <= x < all@.len() ==> (#[trigger] all@[x]).0 < plan_nodes(*graph).len() && all@[x].1 < plan_nodes(*graph).len(),
    ensures
        forall|k: usize| #[trigger] r@.contains(k) == blocked(plan_nodes(*graph), plan_edges(*graph), k),
{
    let ghost nodes = plan_nodes(*graph);
    let ghost edges = plan_edges(*graph);
    let mut blacklisted: HashSet<usize> = HashSet::new();
    let mut e: usize = 0;
    while e < all.len()
        invariant
            e <= all.len(),
            all@ == edges,
            nodes == plan_nodes(*graph),
            edges == plan_edges(*graph),
            forall|x: int| 0 <= x < all@.len() ==> (#[trigger] all@[x]).0 < nodes.len() && all@[x].1 < nodes.len(),
            forall|k: usize|
                #[trigger] blacklisted@.contains(k) <==> exists|j: int|
                    0 <= j < e && (#[trigger] edges[j]).1 == k && (k <= edges[j].0 || nodes[edges[j].0 as int].class
                        == Class::Loop),
        decreases all.len() - e,
    {
        let (s, t) = all[e];
        let source = plan_node(graph, s);
        if t <= s || source.class == Class::Loop {
            blacklisted.insert(t);
        }
        proof {
            assert forall|k: usize| #[trigger] blacklisted@.contains(k) <==> exists|j: int|
                0 <= j < e + 1 && (#[trigger] edges[j]).1 == k && (k <= edges[j].0 || nodes[edges[j].0 as int].class
                    == Class::Loop) by {
                if exists|j: int|
                    0 <= j < e + 1 && (#[trigger] edges[j]).1 == k && (k <= edges[j].0 || nodes[edges[j].0 as int].class
                        == Class::Loop) {
                    let j = choose|j: int|
                        0 <= j < e + 1 && (#[trigger] edges[j]).1 == k && (k <= edges[j].0 || nodes[edges[j].0 as int].class
                            == Class::Loop);
                    if j < e {
                        assert(exists|j: int|
                            0 <= j < e && (#[trigger] edges[j]).1 == k && (k <= edges[j].0 || nodes[edges[j].0 as int].class
                                == Class::Loop));
                    }
                }
                if k == t && (t <= s || source.class == Class::Loop) {
                    assert(edges[e as int].1 == k);
                }
            }
        }
        e = e + 1;
    }
    blacklisted
}

/// For each node to place, the number of edges between placed nodes that go
/// into it.
fn initial_degrees(
    n: usize,
    all: &Vec<(usize, usize)>,
    blacklisted: &HashSet<usize>,
    Ghost(nodes): Ghost<Seq<MetaModel>>,
) -> (r: HashMap<usize, usize>)
    requires
        n == nodes.len(),
        forall|x: int| 0 <= x < all@.len() ==> (#[trigger] all@[x]).0 < nodes.len() && all@[x].1 < nodes.len(),
        forall|k: usize| #[trigger] blacklisted@.contains(k) == blocked(nodes, all@, k),
    ensures
        forall|k: usize| #[trigger] r@.contains_key(k) <==> candidate(nodes, all@, k),
        forall|k: usize| #[trigger] r@.contains_key(k) ==> r@[k] == pending(nodes, all@, Seq::empty(), k, all@.len() as int),
{
    let ghost edges = all@;
    let mut in_degree: HashMap<usize, usize> = HashMap::new();
    let mut node: usize = 0;
    while node < n
        invariant
            node <= n,
            n == nodes.len(),
            edges == all@,
            forall|k: usize| #[trigger] blacklisted@.contains(k) == blocked(nodes, edges, k),
            forall|k: usize| #[trigger] in_degree@.contains_key(k) <==> (k < node && candidate(nodes, edges, k)),
            forall|k: usize| #[trigger] in_degree@.contains_key(k) ==> in_degree@[k] == 0,
        decreases n - node,
    {
        if !blacklisted.contains(&node) {
            in_degree.insert(node, 0);
        }
        node = node + 1;
    }
    let ghost empty = Seq::<usize>::empty();
    let mut e: usize = 0;
    while e < all.len()
        invariant
            e <= all.len(),
            edges == all@,
            empty == Seq::<usize>::empty(),
            n == nodes.len(),
            forall|x: int| 0 <= x < all@.len() ==> (#[trigger] all@[x]).0 < nodes.len() && all@[x].1 < nodes.len(),
            forall|k: usize| #[trigger] blacklisted@.contains(k) == blocked(nodes, edges, k),
            forall|k: usize| #[trigger] in_degree@.contains_key(k) <==> candidate(nodes, edges, k),
            forall|k: usize| #[trigger] in_degree@.contains_key(k) ==> in_degree@[k] == pending(nodes, edges, empty, k, e as int),
            forall|k: usize| #[trigger] in_degree@.contains_key(k) ==> in_degree@[k] <= e,
        decreases all.len() - e,
    {
        let (s, t) = all[e];
        let skip = blacklisted.contains(&t) || blacklisted.contains(&s);
        if !skip {
            let c = match in_degree.get(&t) {
                Some(c) => *c,
                None => 0,
            };
            in_degree.insert(t, c + 1);
        }
        proof {
            assert(inner(nodes, edges, e as int) == !skip);
            assert forall|k: usize| #[trigger] in_degree@.contains_key(k) implies in_degree@[k] == pending(nodes, edges, empty, k, e + 1)
                && in_degree@[k] <= e + 1 by {
                let step: nat = if inner(nodes, edges, e as int) && edges[e as int].1 == k && !empty.contains(edges[e as int].0) {
                    1nat
                } else {
                    0nat
                };
                assert(pending(nodes, edges, empty, k, e + 1) == pending(nodes, edges, empty, k, e as int) + step);
                assert(!empty.contains(edges[e as int].0));
                if !skip && k == t {
                    assert(step == 1);
                } else {
                    assert(step == 0);
                }
            }
        }
        e = e + 1;
    }
    in_degree
}

/// The nodes that wait for nothing, most costly first; of equal cost, in the
/// order the map lists them.
fn initial_queue(graph: &PlanGraph, in_degree: &HashMap<usize, usize>) -> (q: VecDeque<(usize, usize)>)
    requires
        forall|k: usize| #[trigger] in_degree@.contains_key(k) ==> k < plan_nodes(*graph).len(),
    ensures
        queue_ok(plan_nodes(*graph), q@),
        forall|k: usize| #[trigger] queue_has(q@, k) <==> (in_degree@.contains_key(k) && in_degree@[k] == 0),
{
    let ghost nodes = plan_nodes(*graph);
    let entries = degree_entries(in_degree);
    let mut queue: VecDeque<(usize, usize)> = VecDeque::new();
    let mut i: usize = 0;
    while i < entries.len()
        invariant
            i <= entries.len(),
            nodes == plan_nodes(*graph),
            queue_ok(nodes, queue@),
            forall|k: usize| #[trigger] in_degree@.contains_key(k) ==> k < nodes.len(),
            forall|x: int| #![trigger entries@[x]]
                0 <= x < entries@.len() ==> in_degree@.contains_key(entries@[x].0) && in_degree@[entries@[x].0]
                    == entries@[x].1,
            forall|x: int, y: int| 0 <= x < y < entries@.len() ==> entries@[x].0 != entries@[y].0,
            forall|k: usize|
                #[trigger] queue_has(queue@, k) <==> exists|x: int| 0 <= x < i && entries@[x].0 == k && entries@[x].1 == 0,
        decreases entries.len() - i,
    {
        let (k, d) = entries[i];
        assert(in_degree@.contains_key(entries@[i as int].0));
        if d == 0 {
            let c = plan_node(graph, k).complexity;
            proof {
                if queue_has(queue@, k) {
                    let x = choose|x: int| 0 <= x < i && entries@[x].0 == k && entries@[x].1 == 0;
                }
            }
            queue_insert(&mut queue, k, c, Ghost(nodes));
        }
        proof {
            assert forall|v: usize| #[trigger] queue_has(queue@, v) <==> exists|x: int|
                0 <= x < i + 1 && entries@[x].0 == v && entries@[x].1 == 0 by {
                if exists|x: int| 0 <= x < i + 1 && entries@[x].0 == v && entries@[x].1 == 0 {
                    let x = choose|x: int| 0 <= x < i + 1 && entries@[x].0 == v && entries@[x].1 == 0;
                    if x < i {
                        assert(exists|x: int| 0 <= x < i && entries@[x].0 == v && entries@[x].1 == 0);
                    }
                }
            }
        }
        i = i + 1;
    }
    proof {
        assert forall|k: usize| #[trigger] queue_has(queue@, k) <==> (in_degree@.contains_key(k) && in_degree@[k] == 0) by {
            if in_degree@.contains_key(k) {
                let x = choose|x: int| 0 <= x < entries@.len() && #[trigger] entries@[x].0 == k;
                assert(in_degree@.contains_key(entries@[x].0));
            }
            if queue_has(queue@, k) {
                let x = choose|x: int| 0 <= x < i && entries@[x].0 == k && entries@[x].1 == 0;
                assert(in_degree@.contains_key(entries@[x].0));
            }
        }
    }
    queue
}

/// The state of the algorithm between two placements: `result` is a Kahn
/// order, `in_degree` holds each node still to place with its pending count,
/// and the queue holds the nodes still to place that wait for nothing.
pub open spec fn kahn_state(
    nodes: Seq<MetaModel>,
    edges: Seq<(usize, usize)>,
    result: Seq<usize>,
    in_degree: Map<usize, usize>,
    queue: Seq<(usize, usize)>,
) -> bool {
    &&& kahn_order(nodes, edges, result)
    &&& forall|k: usize| #[trigger] in_degree.contains_key(k) <==> (candidate(nodes, edges, k) && !result.contains(k))
    &&& forall|k: usize| #[trigger] in_degree.contains_key(k) ==> in_degree[k] == pending(nodes, edges, result, k, edges.len() as int)
    &&& queue_ok(nodes, queue)
    &&& forall|k: usize| #[trigger] queue_has(queue, k) <==> (in_degree.contains_key(k) && in_degree[k] == 0)
}

/// Takes the first node off the queue and places it: the nodes it waits for
/// no longer count it, and those that then wait for nothing join the queue.
fn place_next(
    graph: &PlanGraph,
    blacklisted: &HashSet<usize>,
    result: &mut Vec<usize>,
    in_degree: &mut HashMap<usize, usize>,
    queue: &mut VecDeque<(usize, usize)>,
)
    requires
        old(queue)@.len() > 0,
        forall|k: usize| #[trigger] blacklisted@.contains(k) == blocked(plan_nodes(*graph), plan_edges(*graph), k),
        kahn_state(plan_nodes(*graph), plan_edges(*graph), old(result)@, old(in_degree)@, old(queue)@),
    ensures
        kahn_state(plan_nodes(*graph), plan_edges(*graph), final(result)@, final(in_degree)@, final(queue)@),
        final(in_degree)@.dom().len() < old(in_degree)@.dom().len(),
{
    let ghost nodes = plan_nodes(*graph);
    let ghost edges = plan_edges(*graph);
    let ghost p_old = result@;
    let ghost q_old = queue@;
    let ghost d_old = in_degree@;
    let (u, _) = queue.pop_front().unwrap();
    proof {
        assert(queue_has(q_old, u)) by {
            assert(q_old[0].0 == u);
        }
        assert(d_old.contains_key(u) && d_old[u] == 0);
        lemma_pending_zero(nodes, edges, p_old, u, edges.len() as int);
        assert forall|k: usize| #[trigger] queue_has(queue@, k) <==> (in_degree@.contains_key(k) && in_degree@[k] == 0 && k != u) by {
            if queue_has(queue@, k) {
                let x = choose|x: int| 0 <= x < queue@.len() && (#[trigger] queue@[x]).0 == k;
                assert(queue@[x] == q_old[x + 1]);
                assert(q_old[x + 1].0 != q_old[0].0);
                assert(queue_has(q_old, k));
            }
            if queue_has(q_old, k) && k != u {
                let x = choose|x: int| 0 <= x < q_old.len() && (#[trigger] q_old[x]).0 == k;
                assert(x != 0);
                assert(queue@[x - 1] == q_old[x]);
            }
        }
        assert(queue_ok(nodes, queue@)) by {
            assert forall|x: int| 0 <= x < queue@.len() implies (#[trigger] queue@[x]).0 < nodes.len() && queue@[x].1
                == nodes[queue@[x].0 as int].complexity by {
                assert(queue@[x] == q_old[x + 1]);
            }
            assert forall|x: int, y: int| 0 <= x < y < queue@.len() implies queue@[x].0 != queue@[y].0 && queue@[y].1 <= queue@[x].1 by {
                assert(queue@[x] == q_old[x + 1] && queue@[y] == q_old[y + 1]);
            }
        }
        assert forall|v: usize| ready_after(nodes, edges, p_old, v) implies #[trigger] queue_has(q_old, v) by {
            lemma_pending_zero(nodes, edges, p_old, v, edges.len() as int);
            assert(d_old.contains_key(v));
            assert(d_old[v] == pending(nodes, edges, p_old, v, edges.len() as int));
            assert(waits_only_on(nodes, edges, p_old, v));
            assert(d_old[v] == 0);
        }
        lemma_place_keeps_order(nodes, edges, p_old, u, q_old);
    }
    result.push(u);
    let ghost p_new = result@;
    let targets = plan_outgoing(graph, u);
    proof {
        broadcast use vstd::seq_lib::group_to_multiset_ensures;

        lemma_count_in(targets@, u, targets@.len() as int);
        assert(targets@.take(targets@.len() as int) =~= targets@);
        if targets@.to_multiset().count(u) > 0 {
            assert(edges.to_multiset().count((u, u)) > 0);
            assert(edges.contains((u, u)));
            let j = choose|j: int| 0 <= j < edges.len() && edges[j] == (u, u);
            assert(edges[j].1 == u);
            assert(blocked(nodes, edges, u));
        }
    }
    let mut i: usize = 0;
    while i < targets.len()
        invariant
            i <= targets.len(),
            nodes == plan_nodes(*graph),
            edges == plan_edges(*graph),
            forall|k: usize| #[trigger] blacklisted@.contains(k) == blocked(nodes, edges, k),
            forall|t: usize| #[trigger] targets@.to_multiset().count(t) == edges.to_multiset().count((u, t)),
            count_in(targets@, u, targets@.len() as int) == 0,
            !p_old.contains(u),
            candidate(nodes, edges, u),
            in_degree@.dom() == d_old.dom(),
            in_degree@.contains_key(u) && in_degree@[u] == 0,
            forall|k: usize| #[trigger] in_degree@.contains_key(k) <==> (candidate(nodes, edges, k) && !p_old.contains(k)),
            forall|k: usize|
                #[trigger] in_degree@.contains_key(k) ==> in_degree@[k] + count_in(targets@, k, i as int) == pending(
                    nodes,
                    edges,
                    p_old,
                    k,
                    edges.len() as int,
                ),
            queue_ok(nodes, queue@),
            forall|k: usize| #[trigger] queue_has(queue@, k) <==> (in_degree@.contains_key(k) && in_degree@[k] == 0 && k != u),
        decreases targets.len() - i,
    {
        let t = targets[i];
        proof {
            lemma_count_in_step(targets@, t, i as int);
        }
        if !blacklisted.contains(&t) {
            match in_degree.get(&t) {
                Some(deg) => {
                    let d = *deg;
                    proof {
                        assert(in_degree@.contains_key(t));
                        assert(candidate(nodes, edges, t));
                        lemma_count_in(targets@, t, targets@.len() as int);
                        assert(targets@.take(targets@.len() as int) =~= targets@);
                        lemma_count_in_mono(targets@, t, i + 1, targets@.len() as int);
                        lemma_occurrences(edges, (u, t), edges.len() as int);
                        assert(edges.take(edges.len() as int) =~= edges);
                        assert(targets@.to_multiset().count(t) == edges.to_multiset().count((u, t)));
                        lemma_pending_place(nodes, edges, p_old, u, t, edges.len() as int);
                        assert(d + count_in(targets@, t, i as int) == pending(nodes, edges, p_old, t, edges.len() as int));
                        if t == u {
                            lemma_count_in_mono(targets@, u, i + 1, targets@.len() as int);
                        }
                        assert(t != u);
                        assert(d >= 1);
                    }
                    let d2 = d - 1;
                    in_degree.insert(t, d2);
                    if d2 == 0 {
                        let c = plan_node(graph, t).complexity;
                        queue_insert(queue, t, c, Ghost(nodes));
                    }
                    proof {
                        assert(in_degree@.dom() =~= d_old.dom());
                    }
                },
                None => {},
            }
        }
        proof {
            assert forall|k: usize| #[trigger] in_degree@.contains_key(k) implies in_degree@[k] + count_in(targets@, k, i + 1)
                == pending(nodes, edges, p_old, k, edges.len() as int) by {
                lemma_count_in_step(targets@, k, i as int);
            }
        }
        i = i + 1;
    }
    proof {
        assert forall|k: usize| #[trigger] in_degree@.contains_key(k) && k != u implies in_degree@[k] == pending(
            nodes,
            edges,
            p_new,
            k,
            edges.len() as int,
        ) by {
            lemma_count_in(targets@, k, targets@.len() as int);
            lemma_occurrences(edges, (u, k), edges.len() as int);
            assert(edges.take(edges.len() as int) =~= edges);
            lemma_pending_place(nodes, edges, p_old, u, k, edges.len() as int);
        }
    }
    in_degree.remove(&u);
    proof {
        assert forall|k: usize| #[trigger] p_new.contains(k) == (p_old.contains(k) || k == u) by {
            if p_new.contains(k) && k != u {
                let x = choose|x: int| 0 <= x < p_new.len() && p_new[x] == k;
                assert(p_old[x] == k);
            }
            if p_old.contains(k) {
                let x = choose|x: int| 0 <= x < p_old.len() && p_old[x] == k;
                assert(p_new[x] == k);
            }
            if k == u {
                assert(p_new[p_old.len() as int] == u);
            }
        }
        assert(in_degree@.dom() =~= d_old.dom().remove(u));
    }
}

/// Orders the nodes of `graph` (see `kahn_order`): an order that places every
/// node it must. The `Err` of the nodes left over never comes: an edge between
/// two nodes that are placed always goes from an earlier node to a later one,
/// so none of them can wait on another in a cycle. The graph is not changed.
pub fn kahn_topsort(graph: &mut PlanGraph) -> (r: Result<Vec<usize>, Vec<usize>>)
    ensures
        *final(graph) == *old(graph),
        r matches Ok(out) && kahn_order(plan_nodes(*old(graph)), plan_edges(*old(graph)), out@) && forall|k: usize|
            candidate(plan_nodes(*old(graph)), plan_edges(*old(graph)), k) ==> #[trigger] out@.contains(k),
{
    let graph: &PlanGraph = graph;
    let ghost nodes = plan_nodes(*graph);
    let ghost edges = plan_edges(*graph);
    let n = plan_node_count(graph);
    let all = plan_edge_list(graph);
    let blacklisted = blocked_nodes(graph, &all);
    let mut in_degree = initial_degrees(n, &all, &blacklisted, Ghost(nodes));
    let mut queue = initial_queue(graph, &in_degree);
    let mut result: Vec<usize> = Vec::new();
    proof {
        let empty = Seq::<usize>::empty();
        assert(result@ =~= empty);
        assert forall|b: int, v: usize| 0 <= b < empty.len() && #[trigger] ready_after(nodes, edges, empty.take(b), v) implies nodes[empty[b] as int].complexity
            >= nodes[v as int].complexity by {}
        assert(kahn_order(nodes, edges, empty));
        assert(kahn_state(nodes, edges, result@, in_degree@, queue@));
    }
    while queue.len() > 0
        invariant
            nodes == plan_nodes(*graph),
            edges == plan_edges(*graph),
            forall|k: usize| #[trigger] blacklisted@.contains(k) == blocked(nodes, edges, k),
            kahn_state(nodes, edges, result@, in_degree@, queue@),
        decreases in_degree@.dom().len(),
    {
        place_next(graph, &blacklisted, &mut result, &mut in_degree, &mut queue);
    }
    if in_degree.is_empty() {
        proof {
            assert forall|k: usize| candidate(nodes, edges, k) implies #[trigger] result@.contains(k) by {
                assert(!in_degree@.contains_key(k));
            }
        }
        Ok(result)
    } else {
        let rem = remaining(&in_degree);
        proof {
            lemma_stuck(nodes, edges, result@, in_degree@, queue@, rem@);
            lemma_nothing_left(nodes, edges, rem@);
            let v = choose|v: usize|
                #[trigger] rem@.contains(v) && forall|j: int|
                    0 <= j < edges.len() && inner(nodes, edges, j) && (#[trigger] edges[j]).1 == v ==> !rem@.contains(
                        edges[j].0,
                    );
            assert(rem@.contains(v));
        }
        Err(rem)
    }
}

/// Where the queue is empty but nodes are left, each left node waits on
/// another left node.
proof fn lemma_stuck(
    nodes: Seq<MetaModel>,
    edges: Seq<(usize, usize)>,
    result: Seq<usize>,
    in_degree: Map<usize, usize>,
    queue: Seq<(usize, usize)>,
    rem: Seq<usize>,
)
    requires
        kahn_state(nodes, edges, result, in_degree, queue),
        queue.len() == 0,
        !in_degree.is_empty(),
        rem.no_duplicates(),
        forall|k: usize| #[trigger] rem.contains(k) <==> in_degree.contains_key(k),
    ensures
        rem.len() > 0,
        forall|k: usize| #[trigger] rem.contains(k) ==> candidate(nodes, edges, k),
        forall|v: usize|
            #[trigger] rem.contains(v) ==> exists|j: int|
                0 <= j < edges.len() && inner(nodes, edges, j) && (#[trigger] edges[j]).1 == v && rem.contains(edges[j].0),
        exists|p: Seq<usize>|
            #[trigger] kahn_order(nodes, edges, p) && forall|k: usize|
                candidate(nodes, edges, k) ==> (p.contains(k) <==> !rem.contains(k)),
{
    assert(rem.len() > 0) by {
        let k0 = in_degree.dom().choose();
        assert(in_degree.dom().contains(k0));
        assert(rem.contains(k0));
    }
    assert forall|k: usize| #[trigger] rem.contains(k) implies candidate(nodes, edges, k) by {
        assert(in_degree.contains_key(k));
    }
    assert forall|v: usize| #[trigger] rem.contains(v) implies exists|j: int|
        0 <= j < edges.len() && inner(nodes, edges, j) && (#[trigger] edges[j]).1 == v && rem.contains(edges[j].0) by {
        assert(in_degree.contains_key(v));
        assert(!queue_has(queue, v));
        lemma_pending_zero(nodes, edges, result, v, edges.len() as int);
        let j = choose|j: int|
            0 <= j < edges.len() && inner(nodes, edges, j) && (#[trigger] edges[j]).1 == v && !result.contains(edges[j].0);
        assert(in_degree.contains_key(edges[j].0));
    }
    assert forall|k: usize| candidate(nodes, edges, k) implies (result.contains(k) <==> !rem.contains(k)) by {
        assert(in_degree.contains_key(k) <==> !result.contains(k));
    }
    assert(kahn_order(nodes, edges, result));
}

/// The smallest element of a nonempty sequence.
proof fn lemma_seq_min(s: Seq<usize>) -> (m: usize)
    requires
        s.len() > 0,
    ensures
        s.contains(m),
        forall|x: usize| #[trigger] s.contains(x) ==> m <= x,
    decreases s.len(),
{
    if s.len() == 1 {
        assert(s[0] == s[0]);
        assert forall|x: usize| #[trigger] s.contains(x) implies s[0] <= x by {
            let i = choose|i: int| 0 <= i < s.len() && s[i] == x;
        }
        s[0]
    } else {
        let rest = s.drop_last();
        let m0 = lemma_seq_min(rest);
        let last = s[s.len() - 1];
        let i0 = choose|i: int| 0 <= i < rest.len() && rest[i] == m0;
        assert(s[i0] == m0);
        assert forall|x: usize| #[trigger] s.contains(x) implies (if last < m0 { last } else { m0 }) <= x by {
            let i = choose|i: int| 0 <= i < s.len() && s[i] == x;
            if i < s.len() - 1 {
                assert(rest[i] == x);
                assert(rest.contains(x));
            }
        }
        if last < m0 {
            assert(s[s.len() - 1] == last);
            last
        } else {
            m0
        }
    }
}

/// Among nodes that the order must place, the smallest waits on none of the
/// others: every edge into it between placed nodes comes from a smaller node.
proof fn lemma_nothing_left(nodes: Seq<MetaModel>, edges: Seq<(usize, usize)>, rem: Seq<usize>)
    requires
        rem.len() > 0,
    ensures
        exists|v: usize|
            #[trigger] rem.contains(v) && forall|j: int|
                0 <= j < edges.len() && inner(nodes, edges, j) && (#[trigger] edges[j]).1 == v ==> !rem.contains(
                    edges[j].0,
                ),
{
    let m = lemma_seq_min(rem);
    assert forall|j: int| 0 <= j < edges.len() && inner(nodes, edges, j) && (#[trigger] edges[j]).1 == m implies !rem.contains(
        edges[j].0,
    ) by {
        assert(!blocked(nodes, edges, m));
        assert(edges[j].0 < m);
    }
    assert(rem.contains(m));
}

/// The keys of the map, each once.
fn remaining(in_degree: &HashMap<usize, usize>) -> (rem: Vec<usize>)
    ensures
        rem@.no_duplicates(),
        forall|k: usize| #[trigger] rem@.contains(k) <==> in_degree@.contains_key(k),
{
    let left = degree_entries(in_degree);
    let mut rem: Vec<usize> = Vec::new();
    let mut x: usize = 0;
    while x < left.len()
        invariant
            x <= left.len(),
            rem@.len() == x,
            forall|y: int| 0 <= y < x ==> rem@[y] == left@[y].0,
        decreases left.len() - x,
    {
        rem.push(left[x].0);
        x = x + 1;
    }
    proof {
        assert forall|k: usize| #[trigger] rem@.contains(k) <==> in_degree@.contains_key(k) by {
            if rem@.contains(k) {
                let y = choose|y: int| 0 <= y < rem@.len() && rem@[y] == k;
                assert(in_degree@.contains_key(left@[y].0));
            }
            if in_degree@.contains_key(k) {
                let y = choose|y: int| 0 <= y < left@.len() && #[trigger] left@[y].0 == k;
                assert(rem@[y] == k);
            }
        }
        assert forall|i: int, j: int| 0 <= i < rem@.len() && 0 <= j < rem@.len() && i != j implies rem@[i] != rem@[j] by {
            if i < j {
                assert(left@[i].0 != left@[j].0);
            } else {
                assert(left@[j].0 != left@[i].0);
            }
        }
    }
    rem
}

/// How often `x` occurs among the first `j` elements of `s`.
pub open spec fn count_in(s: Seq<usize>, x: usize, j: int) -> nat
    decreases j,
{
    if j <= 0 {
        0
    } else {
        count_in(s, x, j - 1) + if s[j - 1] == x {
            1nat
        } else {
            0nat
        }
    }
}

/// Counting `x` in a prefix counts it in the multiset of the prefix.
proof fn lemma_count_in(s: Seq<usize>, x: usize, j: int)
    requires
        0 <= j <= s.len(),
    ensures
        count_in(s, x, j) == s.take(j).to_multiset().count(x),
    decreases j,
{
    broadcast use vstd::seq_lib::group_to_multiset_ensures;

    if j == 0 {
        assert(s.take(0) =~= Seq::<usize>::empty());
    } else {
        lemma_count_in(s, x, j - 1);
        assert(s.take(j) =~= s.take(j - 1).push(s[j - 1]));
    }
}

/// One more element counted.
proof fn lemma_count_in_step(s: Seq<usize>, x: usize, j: int)
    requires
        0 <= j < s.len(),
    ensures
        count_in(s, x, j + 1) == count_in(s, x, j) + if s[j] == x {
            1nat
        } else {
            0nat
        },
{
}

/// Counts grow with the prefix.
proof fn lemma_count_in_mono(s: Seq<usize>, x: usize, i: int, j: int)
    requires
        0 <= i <= j,
    ensures
        count_in(s, x, i) <= count_in(s, x, j),
    decreases j - i,
{
    if i < j {
        lemma_count_in_mono(s, x, i, j - 1);
    }
}

/// Placing the most costly ready node keeps the order a Kahn order.
proof fn lemma_place_keeps_order(
    nodes: Seq<MetaModel>,
    edges: Seq<(usize, usize)>,
    p: Seq<usize>,
    u: usize,
    q: Seq<(usize, usize)>,
)
    requires
        kahn_order(nodes, edges, p),
        candidate(nodes, edges, u),
        !p.contains(u),
        waits_only_on(nodes, edges, p, u),
        queue_ok(nodes, q),
        q.len() > 0,
        q[0].0 == u,
        forall|v: usize| ready_after(nodes, edges, p, v) ==> #[trigger] queue_has(q, v),
    ensures
        kahn_order(nodes, edges, p.push(u)),
{
    let p2 = p.push(u);
    assert forall|i: int, j: int| 0 <= i < p2.len() && 0 <= j < p2.len() && i != j implies p2[i] != p2[j] by {
        if i == p.len() {
            assert(p2[j] == p[j]);
        } else if j == p.len() {
            assert(p2[i] == p[i]);
        } else {
            assert(p2[i] == p[i] && p2[j] == p[j]);
        }
    }
    assert forall|k: usize| p2.contains(k) implies candidate(nodes, edges, k) by {
        let x = choose|x: int| 0 <= x < p2.len() && p2[x] == k;
        if x < p.len() {
            assert(p[x] == k);
            assert(p.contains(k));
        }
    }
    assert forall|b: int| 0 <= b < p2.len() implies #[trigger] waits_only_on(nodes, edges, p2.take(b), p2[b]) by {
        if b < p.len() {
            assert(p2.take(b) =~= p.take(b));
            assert(p2[b] == p[b]);
        } else {
            assert(p2.take(b) =~= p);
        }
    }
    assert forall|b: int, v: usize| 0 <= b < p2.len() && #[trigger] ready_after(nodes, edges, p2.take(b), v) implies nodes[p2[b] as int].complexity
        >= nodes[v as int].complexity by {
        if b < p.len() {
            assert(p2.take(b) =~= p.take(b));
            assert(p2[b] == p[b]);
        } else {
            assert(p2.take(b) =~= p);
            assert(queue_has(q, v));
            let x = choose|x: int| 0 <= x < q.len() && (#[trigger] q[x]).0 == v;
            if x > 0 {
                assert(q[x].1 <= q[0].1);
            }
        }
    }
}

/// The queue holds each node at most once, with its cost, most costly first.
pub open spec fn queue_ok(nodes: Seq<MetaModel>, q: Seq<(usize, usize)>) -> bool {
    &&& forall|x: int| 0 <= x < q.len() ==> (#[trigger] q[x]).0 < nodes.len() && q[x].1 == nodes[q[x].0 as int].complexity
    &&& forall|x: int, y: int| 0 <= x < y < q.len() ==> q[x].0 != q[y].0 && q[y].1 <= q[x].1
}

/// The queue holds node `k`.
pub open spec fn queue_has(q: Seq<(usize, usize)>, k: usize) -> bool {
    exists|x: int| 0 <= x < q.len() && (#[trigger] q[x]).0 == k
}

/// Inserts node `k` of cost `c` before the first node that costs less.
fn queue_insert(queue: &mut VecDeque<(usize, usize)>, k: usize, c: usize, Ghost(nodes): Ghost<Seq<MetaModel>>)
    requires
        queue_ok(nodes, old(queue)@),
        !queue_has(old(queue)@, k),
        k < nodes.len(),
        c == nodes[k as int].complexity,
    ensures
        queue_ok(nodes, final(queue)@),
        forall|x: usize| #[trigger] queue_has(final(queue)@, x) <==> queue_has(old(queue)@, x) || x == k,
        final(queue)@.len() == old(queue)@.len() + 1,
{
    let mut pos: usize = 0;
    while pos < queue.len() && queue[pos].1 >= c
        invariant
            pos <= queue@.len(),
            queue@ == old(queue)@,
            forall|x: int| 0 <= x < pos ==> (#[trigger] queue@[x]).1 >= c,
        decreases queue@.len() - pos,
    {
        pos = pos + 1;
    }
    let ghost q0 = queue@;
    queue.insert(pos, (k, c));
    proof {
        let q1 = queue@;
        assert(q1 =~= q0.insert(pos as int, (k, c)));
        if pos < q0.len() {
            assert(q0[pos as int].1 < c);
        }
        assert forall|x: int, y: int| 0 <= x < y < q1.len() implies q1[x].0 != q1[y].0 && q1[y].1 <= q1[x].1 by {
            if x == pos {
                assert(q1[y] == q0[y - 1]);
                if y - 1 > pos {
                    assert(q0[y - 1].1 <= q0[pos as int].1);
                }
                assert(!queue_has(q0, k));
                assert(q0[y - 1].0 != k);
            } else if y == pos {
                assert(q1[x] == q0[x]);
                assert(q0[x].0 != k);
            } else {
                let x0 = if x < pos { x } else { x - 1 };
                let y0 = if y < pos { y } else { y - 1 };
                assert(q1[x] == q0[x0] && q1[y] == q0[y0]);
            }
        }
        assert forall|x: int| 0 <= x < q1.len() implies (#[trigger] q1[x]).0 < nodes.len() && q1[x].1 == nodes[q1[x].0 as int].complexity by {
            if x < pos {
                assert(q1[x] == q0[x]);
            } else if x > pos {
                assert(q1[x] == q0[x - 1]);
            }
        }
        assert forall|v: usize| #[trigger] queue_has(q1, v) <==> queue_has(q0, v) || v == k by {
            if queue_has(q1, v) {
                let x = choose|x: int| 0 <= x < q1.len() && (#[trigger] q1[x]).0 == v;
                if x < pos {
                    assert(q0[x].0 == v);
                } else if x > pos {
                    assert(q0[x - 1].0 == v);
                }
            }
            if queue_has(q0, v) {
                let x = choose|x: int| 0 <= x < q0.len() && (#[trigger] q0[x]).0 == v;
                if x < pos {
                    assert(q1[x].0 == v);
                } else {
                    assert(q1[x + 1].0 == v);
                }
            }
            if v == k {
                assert(q1[pos as int].0 == v);
            }
        }
    }
}

} // verus!
