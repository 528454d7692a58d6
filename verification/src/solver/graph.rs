//! The graph of chosen versions that the resolver hands out.
//!
//! The graph is `petgraph::Graph`. Verus does not look inside it: the
//! functions of this module state what the graph's methods do, over the
//! sequence of its nodes and, for every node, the sequence of the nodes that
//! its edges lead to.

use crate::package::retriever::PackageId;
use crate::solver::summary::Summary;
use petgraph::graph::NodeIndex;
use petgraph::visit::{Bfs, Dfs};
use vstd::prelude::*;

verus! {

#[verifier::external_type_specification]
#[verifier::external_body]
#[verifier::reject_recursive_types(N)]
#[verifier::reject_recursive_types(E)]
#[verifier::reject_recursive_types(Ty)]
#[verifier::reject_recursive_types(Ix)]
pub struct ExGraph<N, E, Ty, Ix>(petgraph::graph::Graph<N, E, Ty, Ix>);

#[verifier::external_type_specification]
#[verifier::external_body]
pub struct ExDirected(petgraph::Directed);

/// The graph of chosen versions.
pub type Solution = petgraph::graph::Graph<Summary<PackageId>, ()>;

/// The nodes of the graph, by their positions.
pub uninterp spec fn graph_nodes(g: Solution) -> Seq<Summary<PackageId>>;

/// For every node, the nodes that its edges lead to, in the order in which
/// the graph lists them: the latest edge first.
pub uninterp spec fn graph_successors(g: Solution) -> Seq<Seq<int>>;

/// The order in which a depth-first walk from `start` comes to the nodes.
pub uninterp spec fn depth_first_order(successors: Seq<Seq<int>>, start: int) -> Seq<int>;

/// The order in which a breadth-first walk from `start` comes to the nodes.
pub uninterp spec fn breadth_first_order(successors: Seq<Seq<int>>, start: int) -> Seq<int>;

/// The number of edges.
pub open spec fn edge_count(successors: Seq<Seq<int>>) -> nat
    decreases successors.len(),
{
    if successors.len() == 0 {
        0
    } else {
        edge_count(successors.drop_last()) + successors.last().len()
    }
}

/// The nodes of the paths without repetitions that lead from `from` to
/// `to`, path after path.
pub uninterp spec fn simple_path_nodes(successors: Seq<Seq<int>>, from: int, to: int) -> Seq<int>;

/// The numbers of a vector of positions.
pub open spec fn positions(v: Seq<usize>) -> Seq<int> {
    v.map_values(|x: usize| x as int)
}

/// Trusted: `Graph::new` makes a graph without nodes.
#[verifier::external_body]
pub(crate) fn graph_new() -> (g: Solution)
    ensures
        graph_nodes(g) == Seq::<Summary<PackageId>>::empty(),
        graph_successors(g) == Seq::<Seq<int>>::empty(),
{
    petgraph::graph::Graph::new()
}

/// Trusted: `Graph::node_count` is the number of nodes, which is also the
/// number of lists of successors.
#[verifier::external_body]
pub(crate) fn graph_node_count(g: &Solution) -> (n: usize)
    ensures
        n == graph_nodes(*g).len(),
        n == graph_successors(*g).len(),
{
    g.node_count()
}

/// The number of nodes of the graph.
pub fn node_count(g: &Solution) -> (n: usize)
    ensures
        n == graph_nodes(*g).len(),
        n == graph_successors(*g).len(),
{
    graph_node_count(g)
}

/// Trusted: `Graph::edge_count` is the number of edges.
#[verifier::external_body]
pub(crate) fn graph_edge_count(g: &Solution) -> (n: usize)
    ensures
        n == edge_count(graph_successors(*g)),
{
    g.edge_count()
}

/// Trusted: `Graph::add_node` adds a node without edges after the nodes that
/// are there and answers its position. It panics only when the positions run
/// out, which `requires` excludes.
#[verifier::external_body]
pub(crate) fn graph_add_node(g: &mut Solution, s: Summary<PackageId>) -> (at: usize)
    requires
        graph_nodes(*old(g)).len() < u32::MAX,
    ensures
        at == graph_nodes(*old(g)).len(),
        graph_nodes(*final(g)) == graph_nodes(*old(g)).push(s),
        graph_successors(*final(g)) == graph_successors(*old(g)).push(Seq::<int>::empty()),
{
    g.add_node(s).index()
}

/// Trusted: `Graph::add_edge` adds an edge from `a` to `b`, which from then
/// on is the first that `neighbors` lists for `a`. It panics only for a node
/// that does not exist or when the positions of edges run out, which
/// `requires` excludes.
#[verifier::external_body]
pub(crate) fn graph_add_edge(g: &mut Solution, a: usize, b: usize)
    requires
        a < graph_nodes(*old(g)).len(),
        b < graph_nodes(*old(g)).len(),
        edge_count(graph_successors(*old(g))) < u32::MAX,
    ensures
        graph_nodes(*final(g)) == graph_nodes(*old(g)),
        graph_successors(*final(g)) == graph_successors(*old(g)).update(
            a as int,
            seq![b as int] + graph_successors(*old(g))[a as int],
        ),
{
    g.add_edge(NodeIndex::new(a), NodeIndex::new(b), ());
}

/// Trusted: indexing a graph by a position below the number of nodes gives
/// the node there.
#[verifier::external_body]
pub(crate) fn graph_node(g: &Solution, i: usize) -> (s: &Summary<PackageId>)
    requires
        i < graph_nodes(*g).len(),
    ensures
        *s == graph_nodes(*g)[i as int],
{
    &g[NodeIndex::new(i)]
}

/// Trusted: `Graph::neighbors` lists the nodes that the edges of a node lead
/// to, the latest edge first; all of them are nodes of the graph.
#[verifier::external_body]
pub(crate) fn graph_neighbors(g: &Solution, i: usize) -> (r: Vec<usize>)
    requires
        i < graph_nodes(*g).len(),
    ensures
        positions(r@) == graph_successors(*g)[i as int],
        forall|k: int| 0 <= k < r@.len() ==> #[trigger] r@[k] < graph_nodes(*g).len(),
{
    g.neighbors(NodeIndex::new(i)).map(|n| n.index()).collect()
}

/// Trusted: a walk with `Dfs` from `start` comes to nodes of the graph only,
/// in an order that the edges and `start` determine.
#[verifier::external_body]
pub(crate) fn graph_depth_first(g: &Solution, start: usize) -> (r: Vec<usize>)
    requires
        start < graph_nodes(*g).len(),
    ensures
        positions(r@) == depth_first_order(graph_successors(*g), start as int),
        forall|k: int| 0 <= k < r@.len() ==> #[trigger] r@[k] < graph_nodes(*g).len(),
{
    let mut walk = Dfs::new(g, NodeIndex::new(start));
    let mut order = Vec::new();
    while let Some(n) = walk.next(g) {
        order.push(n.index());
    }
    order
}

/// Trusted: a walk with `Bfs` from `start` comes to nodes of the graph only,
/// in an order that the edges and `start` determine.
#[verifier::external_body]
pub(crate) fn graph_breadth_first(g: &Solution, start: usize) -> (r: Vec<usize>)
    requires
        start < graph_nodes(*g).len(),
    ensures
        positions(r@) == breadth_first_order(graph_successors(*g), start as int),
        forall|k: int| 0 <= k < r@.len() ==> #[trigger] r@[k] < graph_nodes(*g).len(),
{
    let mut walk = Bfs::new(g, NodeIndex::new(start));
    let mut order = Vec::new();
    while let Some(n) = walk.next(g) {
        order.push(n.index());
    }
    order
}

/// Trusted: `all_simple_paths` gives the paths without repetitions from one
/// node of a graph to another; the nodes on them, path after path, are nodes
/// of the graph, in an order that the edges and the two nodes determine.
#[verifier::external_body]
pub(crate) fn graph_simple_paths(g: &Solution, from: usize, to: usize) -> (r: Vec<usize>)
    requires
        from < graph_nodes(*g).len(),
        to < graph_nodes(*g).len(),
    ensures
        positions(r@) == simple_path_nodes(graph_successors(*g), from as int, to as int),
        forall|k: int| 0 <= k < r@.len() ==> #[trigger] r@[k] < graph_nodes(*g).len(),
{
    let from = NodeIndex::new(from);
    let to = NodeIndex::new(to);
    petgraph::algo::all_simple_paths::<Vec<_>, _>(g, from, to, 0, None)
        .flatten()
        .map(|n| n.index())
        .collect()
}

} // verus!
