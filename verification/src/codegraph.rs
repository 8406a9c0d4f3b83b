//! The dependency graph of a script, held in a `petgraph` graph whose node `i`
//! stands for declaration `i` (or is an empty placeholder).
//!
//! Its contents are two names: the node weights, by node index, and the edges,
//! by edge index. The functions here state what each `petgraph` operation that
//! the analysis uses does to them.

use crate::meta::{opt_meta, DeclarationMeta, MetaModel};
use petgraph::graph::{DiGraph, Graph, NodeIndex};
use petgraph::visit::EdgeRef;
use petgraph::{Directed, Direction};
use vstd::prelude::*;

verus! {

#[verifier::external_type_specification]
#[verifier::external_body]
#[verifier::reject_recursive_types(N)]
#[verifier::reject_recursive_types(E)]
#[verifier::reject_recursive_types(Ty)]
#[verifier::reject_recursive_types(Ix)]
pub struct ExGraph<N, E, Ty, Ix>(Graph<N, E, Ty, Ix>);

#[verifier::external_type_specification]
#[verifier::external_body]
pub struct ExDirected(Directed);

/// The graph the analysis builds.
pub type CodeGraph = DiGraph<Option<DeclarationMeta>, ()>;

/// The node weights of a dependency graph, by node index.
pub uninterp spec fn code_nodes(g: DiGraph<Option<DeclarationMeta>, ()>) -> Seq<Option<MetaModel>>;

/// The edges of a dependency graph, as (source, target), by edge index.
pub uninterp spec fn code_edges(g: DiGraph<Option<DeclarationMeta>, ()>) -> Seq<(usize, usize)>;

/// Node and edge indices are `u32` in this graph, and the largest `u32` marks
/// no node or edge: the graph holds at most this many nodes, and as many edges.
pub const NODE_LIMIT: usize = 0xffff_ffff;

/// Every edge joins two nodes of the graph.
pub open spec fn edges_in_range(g: CodeGraph) -> bool {
    forall|e: int|
        0 <= e < code_edges(g).len() ==> (#[trigger] code_edges(g)[e]).0 < code_nodes(g).len()
            && code_edges(g)[e].1 < code_nodes(g).len()
}

/// Calls `Graph::new`: no nodes and no edges.
#[verifier::external_body]
pub(crate) fn code_graph_new() -> (g: CodeGraph)
    ensures
        code_nodes(g) == Seq::<Option<MetaModel>>::empty(),
        code_edges(g) == Seq::<(usize, usize)>::empty(),
{
    DiGraph::new()
}

/// Calls `Graph::clone`: the same nodes (each cloned) and the same edges, at
/// the same indices.
#[verifier::external_body]
pub(crate) fn code_graph_clone(g: &CodeGraph) -> (r: CodeGraph)
    ensures
        code_nodes(r) == code_nodes(*g),
        code_edges(r) == code_edges(*g),
{
    g.clone()
}

/// Calls `Graph::node_count`.
#[verifier::external_body]
pub(crate) fn code_node_count(g: &CodeGraph) -> (r: usize)
    ensures
        r == code_nodes(*g).len(),
{
    g.node_count()
}

/// Calls `Graph::edge_count`.
#[verifier::external_body]
pub(crate) fn code_edge_count(g: &CodeGraph) -> (r: usize)
    ensures
        r == code_edges(*g).len(),
{
    g.edge_count()
}

/// Calls `Graph::add_node`: the weight becomes the last node, whose index
/// comes back; the edges stay. It panics when the node count has reached the
/// largest `u32` index, hence the bound.
#[verifier::external_body]
pub(crate) fn code_add_node(g: &mut CodeGraph, w: Option<DeclarationMeta>) -> (r: usize)
    requires
        code_nodes(*old(g)).len() < NODE_LIMIT,
    ensures
        code_nodes(*final(g)) == code_nodes(*old(g)).push(opt_meta(w)),
        code_edges(*final(g)) == code_edges(*old(g)),
        r == code_nodes(*old(g)).len(),
{
    g.add_node(w).index()
}

/// Writes the weight of node `i` through `IndexMut`, which panics where the
/// node does not exist.
#[verifier::external_body]
pub(crate) fn code_set_node(g: &mut CodeGraph, i: usize, w: Option<DeclarationMeta>)
    requires
        i < code_nodes(*old(g)).len(),
    ensures
        code_nodes(*final(g)) == code_nodes(*old(g)).update(i as int, opt_meta(w)),
        code_edges(*final(g)) == code_edges(*old(g)),
{
    g[NodeIndex::new(i)] = w;
}

/// Reads the weight of node `i` through `Index`, which panics where the node
/// does not exist.
#[verifier::external_body]
pub(crate) fn code_node(g: &CodeGraph, i: usize) -> (r: &Option<DeclarationMeta>)
    requires
        i < code_nodes(*g).len(),
    ensures
        opt_meta(*r) == code_nodes(*g)[i as int],
{
    &g[NodeIndex::new(i)]
}

/// Calls `Graph::update_edge`: where an edge from `a` to `b` exists nothing
/// changes (its weight is `()`); else one is added as the last edge. It panics
/// where a node does not exist, and where a new edge would take the largest
/// `u32` index, hence the bound on the number of edges.
#[verifier::external_body]
pub(crate) fn code_update_edge(g: &mut CodeGraph, a: usize, b: usize)
    requires
        a < code_nodes(*old(g)).len(),
        b < code_nodes(*old(g)).len(),
        code_edges(*old(g)).contains((a, b)) || code_edges(*old(g)).len() < NODE_LIMIT,
    ensures
        code_nodes(*final(g)) == code_nodes(*old(g)),
        code_edges(*final(g)) == if code_edges(*old(g)).contains((a, b)) {
            code_edges(*old(g))
        } else {
            code_edges(*old(g)).push((a, b))
        },
{
    g.update_edge(NodeIndex::new(a), NodeIndex::new(b), ());
}

/// Calls `Graph::find_edge`: the index of an edge from `a` to `b`, if any.
#[verifier::external_body]
pub(crate) fn code_find_edge(g: &CodeGraph, a: usize, b: usize) -> (r: Option<usize>)
    requires
        a < code_nodes(*g).len(),
        b < code_nodes(*g).len(),
    ensures
        r is None <==> !code_edges(*g).contains((a, b)),
        r matches Some(e) ==> e < code_edges(*g).len() && code_edges(*g)[e as int] == (a, b),
{
    g.find_edge(NodeIndex::new(a), NodeIndex::new(b)).map(|e| e.index())
}

/// Calls `Graph::edge_endpoints` on an existing edge: its source and target.
#[verifier::external_body]
pub(crate) fn code_edge_endpoints(g: &CodeGraph, e: usize) -> (r: (usize, usize))
    requires
        e < code_edges(*g).len(),
    ensures
        r == code_edges(*g)[e as int],
{
    let (a, b) = g.edge_endpoints(petgraph::graph::EdgeIndex::new(e)).unwrap();
    (a.index(), b.index())
}

/// Calls `Graph::remove_edge`: the last edge takes the index of the removed
/// one.
#[verifier::external_body]
pub(crate) fn code_remove_edge(g: &mut CodeGraph, e: usize)
    requires
        e < code_edges(*old(g)).len(),
    ensures
        code_nodes(*final(g)) == code_nodes(*old(g)),
        code_edges(*final(g)) == code_edges(*old(g)).update(e as int, code_edges(*old(g)).last()).drop_last(),
{
    g.remove_edge(petgraph::graph::EdgeIndex::new(e));
}

/// Where `a` is a node, calls `Graph::remove_node`: the last node takes the
/// index `a`, the edges with an end in `a` go, and the others keep their ends
/// (the last node's index renamed to `a`). The order in which the remaining
/// edges are then indexed is left unsaid. Where `a` is no node, nothing
/// changes.
#[verifier::external_body]
pub(crate) fn code_remove_node(g: &mut CodeGraph, a: usize)
    requires
        a < NODE_LIMIT,
        edges_in_range(*old(g)),
    ensures
        a >= code_nodes(*old(g)).len() ==> *final(g) == *old(g),
        a < code_nodes(*old(g)).len() ==> {
            let n = code_nodes(*old(g)).len();
            &&& code_nodes(*final(g)) == code_nodes(*old(g)).update(a as int, code_nodes(*old(g)).last()).drop_last()
            &&& forall|s: usize, t: usize|
                #[trigger] code_edges(*final(g)).to_multiset().count((s, t)) == if s < n - 1 && t < n - 1 {
                    code_edges(*old(g)).to_multiset().count((renamed(s, a, n), renamed(t, a, n)))
                } else {
                    0
                }
        },
        edges_in_range(*final(g)),
{
    g.remove_node(NodeIndex::new(a));
}

/// The index a node had before node `a` of `n` nodes was removed: the node now
/// at `a` was the last one.
pub open spec fn renamed(x: usize, a: usize, n: nat) -> usize {
    if x == a {
        (n - 1) as usize
    } else {
        x
    }
}

/// Calls `Graph::edge_references` and collects the ends of each edge, in the
/// order of the edge indices.
#[verifier::external_body]
pub(crate) fn code_edge_list(g: &CodeGraph) -> (r: Vec<(usize, usize)>)
    ensures
        r@ == code_edges(*g),
{
    g.edge_references().map(|e| (e.source().index(), e.target().index())).collect()
}

/// Calls `Graph::neighbors_directed` with `Incoming` and collects the sources:
/// one for each edge into `n`, in an order that the contract leaves open.
#[verifier::external_body]
pub(crate) fn code_incoming(g: &CodeGraph, n: usize) -> (r: Vec<usize>)
    requires
        n < code_nodes(*g).len(),
    ensures
        forall|s: usize| #[trigger] r@.to_multiset().count(s) == code_edges(*g).to_multiset().count((s, n)),
{
    g.neighbors_directed(NodeIndex::new(n), Direction::Incoming).map(|x| x.index()).collect()
}

// ---------------------------------------------------------------------------
// The dependency graph once every node holds a declaration
// ---------------------------------------------------------------------------

/// The graph the planner and the executor read.
pub type PlanGraph = DiGraph<DeclarationMeta, ()>;

/// The node weights of a plan graph, by node index.
pub uninterp spec fn plan_nodes(g: DiGraph<DeclarationMeta, ()>) -> Seq<MetaModel>;

/// The edges of a plan graph, as (source, target), by edge index.
pub uninterp spec fn plan_edges(g: DiGraph<DeclarationMeta, ()>) -> Seq<(usize, usize)>;

/// Calls `Graph::node_count`.
#[verifier::external_body]
pub(crate) fn plan_node_count(g: &PlanGraph) -> (r: usize)
    ensures
        r == plan_nodes(*g).len(),
{
    g.node_count()
}

/// Reads the weight of node `i` through `Index`, which panics where the node
/// does not exist.
#[verifier::external_body]
pub(crate) fn plan_node(g: &PlanGraph, i: usize) -> (r: &DeclarationMeta)
    requires
        i < plan_nodes(*g).len(),
    ensures
        r@ == plan_nodes(*g)[i as int],
{
    &g[NodeIndex::new(i)]
}

/// Calls `Graph::edge_references` and collects the ends of each edge, in the
/// order of the edge indices; every edge of a graph joins two of its nodes.
#[verifier::external_body]
pub(crate) fn plan_edge_list(g: &PlanGraph) -> (r: Vec<(usize, usize)>)
    ensures
        r@ == plan_edges(*g),
        forall|e: int| 0 <= e < r@.len() ==> (#[trigger] r@[e]).0 < plan_nodes(*g).len() && r@[e].1 < plan_nodes(*g).len(),
{
    g.edge_references().map(|e| (e.source().index(), e.target().index())).collect()
}

/// Calls `Graph::edges` and collects the targets: one for each edge out of
/// `n`, in an order that the contract leaves open.
#[verifier::external_body]
pub(crate) fn plan_outgoing(g: &PlanGraph, n: usize) -> (r: Vec<usize>)
    requires
        n < plan_nodes(*g).len(),
    ensures
        forall|t: usize| #[trigger] r@.to_multiset().count(t) == plan_edges(*g).to_multiset().count((n, t)),
{
    g.edges(NodeIndex::new(n)).map(|e| e.target().index()).collect()
}

} // verus!
