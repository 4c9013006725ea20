//! The petgraph graphs that the library keeps, with what each call does to them.

use crate::graph::{EdgeLabel, Node, NodeView};
use petgraph::graph::{DiGraph, EdgeIndex, NodeIndex};
use vstd::prelude::*;

verus! {

#[verifier::external_type_specification]
#[verifier::external_body]
#[verifier::reject_recursive_types(N)]
#[verifier::reject_recursive_types(E)]
#[verifier::reject_recursive_types(Ty)]
#[verifier::reject_recursive_types(Ix)]
pub struct ExGraph<N, E, Ty, Ix>(petgraph::graph::Graph<N, E, Ty, Ix>);

#[verifier::external_type_specification]
#[verifier::external_body]
pub struct ExDirected(petgraph::Directed);

/// The node weights of a constraint graph, by node index.
pub uninterp spec fn graph_nodes(g: DiGraph<Node, EdgeLabel>) -> Seq<NodeView>;

/// The edges of a constraint graph, by edge index: source, target, label.
pub uninterp spec fn graph_edges(g: DiGraph<Node, EdgeLabel>) -> Seq<(int, int, EdgeLabel)>;

/// The largest count of nodes or edges that a graph indexed by `u32` takes.
pub open spec fn index_limit() -> int {
    u32::MAX as int
}

/// Relies on Graph::new: the graph starts with no node and no edge.
#[verifier::external_body]
pub(crate) fn new_graph() -> (g: DiGraph<Node, EdgeLabel>)
    ensures
        graph_nodes(g) == Seq::<NodeView>::empty(),
        graph_edges(g) == Seq::<(int, int, EdgeLabel)>::empty(),
{
    DiGraph::new()
}

/// Relies on Graph::node_count: the length of the node list.
#[verifier::external_body]
pub(crate) fn node_count(g: &DiGraph<Node, EdgeLabel>) -> (r: usize)
    ensures
        r == graph_nodes(*g).len(),
{
    g.node_count()
}

/// Relies on Graph::edge_count: the length of the edge list.
#[verifier::external_body]
pub(crate) fn edge_count(g: &DiGraph<Node, EdgeLabel>) -> (r: usize)
    ensures
        r == graph_edges(*g).len(),
{
    g.edge_count()
}

/// Relies on Graph::add_node: the weight is pushed on the node list and its position
/// returned; it panics only when the index type is full.
#[verifier::external_body]
pub(crate) fn push_node(g: &mut DiGraph<Node, EdgeLabel>, n: Node) -> (r: usize)
    requires
        graph_nodes(*old(g)).len() + 1 < index_limit(),
    ensures
        r == graph_nodes(*old(g)).len(),
        graph_nodes(*final(g)) == graph_nodes(*old(g)).push(n@),
        graph_edges(*final(g)) == graph_edges(*old(g)),
{
    g.add_node(n).index()
}

/// Relies on Graph::add_edge: the edge is pushed on the edge list, parallel edges
/// included; it panics only on an absent endpoint or a full index type.
#[verifier::external_body]
pub(crate) fn push_edge(g: &mut DiGraph<Node, EdgeLabel>, a: usize, b: usize, w: EdgeLabel)
    requires
        a < graph_nodes(*old(g)).len(),
        b < graph_nodes(*old(g)).len(),
        graph_nodes(*old(g)).len() < index_limit(),
        graph_edges(*old(g)).len() + 1 < index_limit(),
    ensures
        graph_nodes(*final(g)) == graph_nodes(*old(g)),
        graph_edges(*final(g)) == graph_edges(*old(g)).push((a as int, b as int, w)),
{
    g.add_edge(NodeIndex::new(a), NodeIndex::new(b), w);
}

/// Relies on Graph::node_weight: the weight stored at that position.
#[verifier::external_body]
pub(crate) fn node_at(g: &DiGraph<Node, EdgeLabel>, i: usize) -> (r: &Node)
    requires
        i < graph_nodes(*g).len(),
        graph_nodes(*g).len() < index_limit(),
    ensures
        r@ == graph_nodes(*g)[i as int],
{
    g.node_weight(NodeIndex::new(i)).unwrap()
}

/// Relies on Graph::edge_endpoints: the source and target stored for that edge.
#[verifier::external_body]
pub(crate) fn edge_ends(g: &DiGraph<Node, EdgeLabel>, i: usize) -> (r: (usize, usize))
    requires
        i < graph_edges(*g).len(),
        graph_edges(*g).len() < index_limit(),
    ensures
        r.0 as int == graph_edges(*g)[i as int].0,
        r.1 as int == graph_edges(*g)[i as int].1,
{
    let (a, b) = g.edge_endpoints(EdgeIndex::new(i)).unwrap();
    (a.index(), b.index())
}

/// Relies on Graph::edge_weight: the label stored for that edge.
#[verifier::external_body]
pub(crate) fn edge_label(g: &DiGraph<Node, EdgeLabel>, i: usize) -> (r: EdgeLabel)
    requires
        i < graph_edges(*g).len(),
        graph_edges(*g).len() < index_limit(),
    ensures
        r == graph_edges(*g)[i as int].2,
{
    *g.edge_weight(EdgeIndex::new(i)).unwrap()
}

/// The procedure names of a call graph, by node index.
pub uninterp spec fn call_nodes(g: DiGraph<String, ()>) -> Seq<Seq<char>>;

/// The calls of a call graph, by edge index: caller, callee.
pub uninterp spec fn call_edges(g: DiGraph<String, ()>) -> Seq<(int, int)>;

/// A path of calls leads from `u` to `v` (the empty path included).
pub open spec fn reachable(es: Seq<(int, int)>, u: int, v: int) -> bool {
    exists|p: Seq<int>|
        p.len() >= 1 && p[0] == u && p.last() == v && forall|i: int|
            0 <= i < p.len() - 1 ==> #[trigger] es.contains((p[i], p[i + 1]))
}

/// Node `v` is listed in some component.
pub open spec fn placed(comps: Seq<Vec<usize>>, v: int) -> bool {
    exists|c: int, k: int| 0 <= c < comps.len() && 0 <= k < comps[c]@.len() && comps[c]@[k] == v
}

/// Relies on Graph::node_weight: the name stored at that position.
#[verifier::external_body]
pub(crate) fn call_node_at(g: &DiGraph<String, ()>, i: usize) -> (r: &String)
    requires
        i < call_nodes(*g).len(),
        call_nodes(*g).len() < index_limit(),
    ensures
        r@ == call_nodes(*g)[i as int],
{
    g.node_weight(NodeIndex::new(i)).unwrap()
}

/// Relies on petgraph::algo::tarjan_scc: the strongly connected components, each
/// node in exactly one, listed in reverse topological order (a component comes
/// before every component that calls into it).
#[verifier::external_body]
pub(crate) fn components(g: &DiGraph<String, ()>) -> (r: Vec<Vec<usize>>)
    ensures
        forall|c: int, k: int|
            0 <= c < r@.len() && 0 <= k < r@[c]@.len() ==> #[trigger] r@[c]@[k] < call_nodes(*g).len(),
        forall|v: int| 0 <= v < call_nodes(*g).len() ==> #[trigger] placed(r@, v),
        forall|c1: int, k1: int, c2: int, k2: int|
            0 <= c1 < r@.len() && 0 <= k1 < r@[c1]@.len() && 0 <= c2 < r@.len() && 0 <= k2 < r@[c2]@.len()
                && #[trigger] r@[c1]@[k1] == #[trigger] r@[c2]@[k2] ==> c1 == c2 && k1 == k2,
        forall|e: int, c1: int, k1: int, c2: int, k2: int|
            #![trigger call_edges(*g)[e], r@[c1]@[k1], r@[c2]@[k2]]
            0 <= e < call_edges(*g).len() && 0 <= c1 < r@.len() && 0 <= k1 < r@[c1]@.len() && 0 <= c2 < r@.len()
                && 0 <= k2 < r@[c2]@.len() && r@[c1]@[k1] == call_edges(*g)[e].0 && r@[c2]@[k2]
                == call_edges(*g)[e].1 ==> c2 <= c1,
        forall|c: int, k1: int, k2: int|
            0 <= c < r@.len() && 0 <= k1 < r@[c]@.len() && 0 <= k2 < r@[c]@.len() ==> reachable(
                call_edges(*g),
                #[trigger] r@[c]@[k1] as int,
                #[trigger] r@[c]@[k2] as int,
            ),
{
    petgraph::algo::tarjan_scc(g).into_iter().map(|c| c.into_iter().map(|v| v.index()).collect()).collect()
}

} // verus!
