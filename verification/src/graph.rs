//! The directed graphs of the graph library, and what this crate trusts of them.
//!
//! Nothing here is proved. Each function below calls the graph library and
//! carries the contract that the rest of the crate relies on.

use vstd::prelude::*;
use petgraph::graph::{Graph, NodeIndex};
use petgraph::Directed;
use crate::clause::Literal;

verus! {

/// `Graph` of the graph library: an adjacency list with weights of type `N`
/// at the nodes and `E` at the edges. Nothing of its inside is known here.
#[verifier::external_type_specification]
#[verifier::external_body]
#[verifier::reject_recursive_types(N)]
#[verifier::reject_recursive_types(E)]
#[verifier::reject_recursive_types(Ty)]
#[verifier::reject_recursive_types(Ix)]
pub struct ExGraph<N, E, Ty, Ix>(Graph<N, E, Ty, Ix>);

/// `Directed` of the graph library: the marker of graphs with directed edges.
#[verifier::external_type_specification]
#[verifier::external_body]
pub struct ExDirected(Directed);

/// The weights of the nodes of a graph, by node index.
pub uninterp spec fn node_weights(g: Graph<isize, isize, Directed, u32>) -> Seq<isize>;

/// The edges of a graph as pairs of node indices, source first, by edge index.
pub uninterp spec fn edge_ends(g: Graph<isize, isize, Directed, u32>) -> Seq<(usize, usize)>;

/// The sequence `walk` follows edges from each of its nodes to the next.
pub open spec fn is_walk(edges: Seq<(usize, usize)>, walk: Seq<usize>) -> bool {
    &&& walk.len() > 0
    &&& forall|k: int| 0 <= k < walk.len() - 1 ==> edges.contains((#[trigger] walk[k], walk[k + 1]))
}

/// A walk leads from node `a` to node `b`.
pub open spec fn reaches(edges: Seq<(usize, usize)>, a: usize, b: usize) -> bool {
    exists|walk: Seq<usize>| #[trigger] is_walk(edges, walk) && walk.first() == a && walk.last() == b
}

/// Node `v` stands in the component `parts[c]`.
pub open spec fn in_part(parts: Seq<Vec<usize>>, c: int, v: usize) -> bool {
    0 <= c < parts.len() && parts[c]@.contains(v)
}

/// Node `v` stands in some component of `parts`.
pub open spec fn covered(parts: Seq<Vec<usize>>, v: usize) -> bool {
    exists|c: int| in_part(parts, c, v)
}

/// `parts` lists the strongly connected components of the graph with `n`
/// nodes and the given edges, each before every component from which an
/// edge leads into it.
#[verifier::opaque]
pub open spec fn is_condensation(n: nat, edges: Seq<(usize, usize)>, parts: Seq<Vec<usize>>) -> bool {
    &&& forall|v: usize| v < n ==> #[trigger] covered(parts, v)
    &&& forall|c: int, d: int, v: usize| #[trigger] in_part(parts, c, v) && #[trigger] in_part(parts, d, v) ==> c == d
    &&& forall|c: int, v: usize| #[trigger] in_part(parts, c, v) ==> v < n
    &&& forall|c: int, v: usize, w: usize| #[trigger] in_part(parts, c, v) && #[trigger] in_part(parts, c, w)
        ==> reaches(edges, v, w)
    &&& forall|e: int, c: int, d: int|
        0 <= e < edges.len() && #[trigger] in_part(parts, c, edges[e].0)
            && #[trigger] in_part(parts, d, edges[e].1) ==> d <= c
}

/// `Graph::new` of the graph library: a graph without nodes and edges.
#[verifier::external_body]
pub(crate) fn new_graph() -> (g: Graph<isize, isize, Directed, u32>)
    ensures
        node_weights(g) == Seq::<isize>::empty(),
        edge_ends(g) == Seq::<(usize, usize)>::empty(),
{
    Graph::new()
}

/// `Graph::add_node`: appends a node with the given weight and returns its
/// index, which is the number of nodes before. The library panics at
/// `u32::MAX` nodes, which the precondition leaves out.
#[verifier::external_body]
pub(crate) fn add_node(g: &mut Graph<isize, isize, Directed, u32>, weight: isize) -> (id: usize)
    requires
        node_weights(*old(g)).len() < u32::MAX,
    ensures
        node_weights(*final(g)) == node_weights(*old(g)).push(weight),
        edge_ends(*final(g)) == edge_ends(*old(g)),
        id == node_weights(*old(g)).len(),
{
    g.add_node(weight).index()
}

/// `Graph::add_edge`: appends an edge from node `a` to node `b`. The library
/// panics where a node does not exist and at `u32::MAX` edges, which the
/// precondition leaves out.
#[verifier::external_body]
pub(crate) fn add_edge(g: &mut Graph<isize, isize, Directed, u32>, a: usize, b: usize, weight: isize)
    requires
        a < node_weights(*old(g)).len(),
        b < node_weights(*old(g)).len(),
        edge_ends(*old(g)).len() < u32::MAX,
    ensures
        edge_ends(*final(g)) == edge_ends(*old(g)).push((a, b)),
        node_weights(*final(g)) == node_weights(*old(g)),
{
    g.add_edge(NodeIndex::new(a), NodeIndex::new(b), weight);
}

/// Indexing a graph by a node: the weight of node `id`.
#[verifier::external_body]
pub(crate) fn node_weight(g: &Graph<isize, isize, Directed, u32>, id: usize) -> (w: isize)
    requires
        id < node_weights(*g).len(),
    ensures
        w == node_weights(*g)[id as int],
{
    g[NodeIndex::new(id)]
}

/// `algo::tarjan_scc`: the strongly connected components, as lists of node
/// indices. Every node is in exactly one component, the nodes of a component
/// reach each other, and the components come in postorder: no edge leads
/// from a component to a later one.
#[verifier::external_body]
pub(crate) fn tarjan_scc(g: &Graph<isize, isize, Directed, u32>) -> (parts: Vec<Vec<usize>>)
    ensures
        is_condensation(node_weights(*g).len(), edge_ends(*g), parts@),
{
    petgraph::algo::tarjan_scc(g).into_iter().map(|scc| scc.into_iter().map(|n| n.index()).collect()).collect()
}

/// The literals at the nodes of a graph of literals, by node index.
pub uninterp spec fn literal_nodes(g: Graph<Literal, Literal, Directed, u32>) -> Seq<Literal>;

/// The edges of a graph of literals as pairs of node indices, source first, by edge index.
pub uninterp spec fn literal_edges(g: Graph<Literal, Literal, Directed, u32>) -> Seq<(usize, usize)>;

/// `Graph::add_node` on a graph of literals: appends a node with the given
/// literal and returns its index, which is the number of nodes before. The
/// library panics at `u32::MAX` nodes, which the precondition leaves out.
#[verifier::external_body]
pub(crate) fn add_literal_node(g: &mut Graph<Literal, Literal, Directed, u32>, weight: Literal) -> (id: usize)
    requires
        literal_nodes(*old(g)).len() < u32::MAX,
    ensures
        literal_nodes(*final(g)) == literal_nodes(*old(g)).push(weight),
        literal_edges(*final(g)) == literal_edges(*old(g)),
        id == literal_nodes(*old(g)).len(),
{
    g.add_node(weight).index()
}

/// `Graph::add_edge` on a graph of literals: appends an edge from node `a`
/// to node `b`. The library panics where a node does not exist and at
/// `u32::MAX` edges, which the precondition leaves out.
#[verifier::external_body]
pub(crate) fn add_literal_edge(g: &mut Graph<Literal, Literal, Directed, u32>, a: usize, b: usize, weight: Literal)
    requires
        a < literal_nodes(*old(g)).len(),
        b < literal_nodes(*old(g)).len(),
        literal_edges(*old(g)).len() < u32::MAX,
    ensures
        literal_edges(*final(g)) == literal_edges(*old(g)).push((a, b)),
        literal_nodes(*final(g)) == literal_nodes(*old(g)),
{
    g.add_edge(NodeIndex::new(a), NodeIndex::new(b), weight);
}

/// Indexing a graph of literals by a node: the literal at node `id`.
#[verifier::external_body]
pub(crate) fn literal_node(g: &Graph<Literal, Literal, Directed, u32>, id: usize) -> (w: Literal)
    requires
        id < literal_nodes(*g).len(),
    ensures
        w == literal_nodes(*g)[id as int],
{
    g[NodeIndex::new(id)]
}

/// `Graph::node_count` on a graph of literals: the number of nodes.
#[verifier::external_body]
pub(crate) fn literal_node_count(g: &Graph<Literal, Literal, Directed, u32>) -> (n: usize)
    ensures
        n == literal_nodes(*g).len(),
{
    g.node_count()
}

} // verus!
