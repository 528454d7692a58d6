//! The graph of chosen versions as two lists: what the root depends on
//! itself, and all the rest.

use crate::package::name::NameView;
use crate::package::retriever::PackageId;
use crate::project::application::{pin_views, pins_ascend, AppDependencies, Pin};
use crate::project::pins::{lemma_no_pins, pin_map, set_pin};
use crate::semver::version::Version;
use crate::solver::graph::{
    breadth_first_order, graph_breadth_first, graph_neighbors, graph_node, graph_nodes,
    graph_successors, positions, Solution,
};
use crate::solver::summary::Summary;
use vstd::prelude::*;

verus! {

/// The two lists as maps.
pub struct Flat {
    pub direct: Map<NameView, Version>,
    pub indirect: Map<NameView, Version>,
}

/// Goes through the nodes of `order`: a published package is a direct
/// dependency if the root has an edge to it, and an indirect one if not.
pub open spec fn flatten_pass(
    nodes: Seq<Summary<PackageId>>,
    neighbours: Seq<int>,
    order: Seq<int>,
) -> Flat
    decreases order.len(),
{
    if order.len() == 0 {
        Flat { direct: Map::empty(), indirect: Map::empty() }
    } else {
        let f = flatten_pass(nodes, neighbours, order.drop_last());
        let nx = order.last();
        if !(nodes[nx].id@ is Pkg) {
            f
        } else if neighbours.contains(nx) {
            Flat { direct: f.direct.insert(nodes[nx].id@->Pkg_0, nodes[nx].version), ..f }
        } else {
            Flat { indirect: f.indirect.insert(nodes[nx].id@->Pkg_0, nodes[nx].version), ..f }
        }
    }
}

/// What the two lists are for a graph whose first node is the root: all that
/// a breadth-first walk from the root comes to.
pub open spec fn flatten_spec(nodes: Seq<Summary<PackageId>>, successors: Seq<Seq<int>>) -> Flat {
    flatten_pass(nodes, successors[0], breadth_first_order(successors, 0))
}

fn holds_position(list: &Vec<usize>, x: usize) -> (r: bool)
    ensures
        r == positions(list@).contains(x as int),
{
    let n = list.len();
    let mut i: usize = 0;
    while i < n
        invariant
            i <= n,
            n == list.len(),
            forall|k: int| 0 <= k < i ==> list@[k] != x,
        decreases n - i,
    {
        if list[i] == x {
            proof {
                assert(positions(list@)[i as int] == x as int);
            }
            return true;
        }
        i += 1;
    }
    proof {
        let p = positions(list@);
        if p.contains(x as int) {
            let k = choose|k: int| 0 <= k < p.len() && p[k] == x as int;
            assert(list@[k] != x);
        }
    }
    false
}

/// The two lists for the nodes of `order`, where `neighbours` are the nodes
/// that the root has an edge to: a published package among them is a direct
/// dependency, any other an indirect one.
pub fn flatten_order(g: &Solution, neighbours: &Vec<usize>, order: &Vec<usize>) -> (r: AppDependencies)
    requires
        forall|k: int| 0 <= k < order@.len() ==> #[trigger] order@[k] < graph_nodes(*g).len(),
    ensures
        pins_ascend(pin_views(r.direct@)),
        pins_ascend(pin_views(r.indirect@)),
        pin_map(pin_views(r.direct@)) == flatten_pass(
            graph_nodes(*g),
            positions(neighbours@),
            positions(order@),
        ).direct,
        pin_map(pin_views(r.indirect@)) == flatten_pass(
            graph_nodes(*g),
            positions(neighbours@),
            positions(order@),
        ).indirect,
{
    let ghost nodes = graph_nodes(*g);
    let mut direct: Vec<Pin> = Vec::new();
    let mut indirect: Vec<Pin> = Vec::new();
    let ghost nbrs = positions(neighbours@);
    let ghost ord = positions(order@);
    proof {
        lemma_no_pins::<Version>();
        assert(pin_views(direct@) =~= Seq::<(NameView, Version)>::empty());
        assert(pin_views(indirect@) =~= Seq::<(NameView, Version)>::empty());
        assert(ord.take(0) =~= Seq::<int>::empty());
    }
    let n = order.len();
    let mut i: usize = 0;
    while i < n
        invariant
            i <= n,
            n == order@.len(),
            nodes == graph_nodes(*g),
            nbrs == positions(neighbours@),
            ord == positions(order@),
            forall|k: int| 0 <= k < order@.len() ==> #[trigger] order@[k] < nodes.len(),
            pins_ascend(pin_views(direct@)),
            pins_ascend(pin_views(indirect@)),
            pin_map(pin_views(direct@)) == flatten_pass(nodes, nbrs, ord.take(i as int)).direct,
            pin_map(pin_views(indirect@)) == flatten_pass(nodes, nbrs, ord.take(i as int)).indirect,
        decreases n - i,
    {
        let nx = order[i];
        proof {
            assert(ord.take(i + 1).drop_last() =~= ord.take(i as int));
            assert(ord.take(i + 1).last() == nx as int);
        }
        let item = graph_node(g, nx);
        match &item.id {
            PackageId::Pkg(name) => {
                if holds_position(neighbours, nx) {
                    set_pin(&mut direct, name.clone(), item.version);
                } else {
                    set_pin(&mut indirect, name.clone(), item.version);
                }
            },
            _ => {},
        }
        i += 1;
    }
    proof {
        assert(ord.take(n as int) =~= ord);
    }
    AppDependencies { direct, indirect }
}

impl AppDependencies {
    /// The dependencies that the graph `g` of chosen versions stands for: the
    /// published packages that the root has an edge to are direct, all
    /// others that can be reached from the root are indirect.
    pub fn from_graph(g: &Solution) -> (r: Self)
        requires
            graph_nodes(*g).len() > 0,
        ensures
            pins_ascend(pin_views(r.direct@)),
            pins_ascend(pin_views(r.indirect@)),
            pin_map(pin_views(r.direct@)) == flatten_spec(graph_nodes(*g), graph_successors(*g)).direct,
            pin_map(pin_views(r.indirect@)) == flatten_spec(
                graph_nodes(*g),
                graph_successors(*g),
            ).indirect,
    {
        let neighbours = graph_neighbors(g, 0);
        let order = graph_breadth_first(g, 0);
        flatten_order(g, &neighbours, &order)
    }
}

} // verus!
