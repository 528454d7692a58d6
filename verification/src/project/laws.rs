//! What holds of the lists that are made of a graph of chosen versions.

use crate::package::name::NameView;
use crate::package::retriever::{PackageId, PackageIdView};
use crate::project::reconstruct::{
    declared, distinct_packages, first_pass, reconstruct_spec, second_pass, visit_indirect,
    visit_test_indirect, Walk,
};
use crate::semver::canon::covers;
use crate::semver::interval::point_of;
use crate::solver::incompat::Incompatibility;
use crate::solver::resolver::{clause_of, complete, depends, each_once, met};
use crate::solver::summary::Summary;
use vstd::prelude::*;

verus! {

/// The neighbour of the root at the place `k` is the package `name`, and
/// `names` holds that name.
pub open spec fn named_neighbour(
    nodes: Seq<Summary<PackageId>>,
    names: Seq<NameView>,
    neighbours: Seq<int>,
    name: NameView,
    k: int,
) -> bool {
    0 <= k < neighbours.len() && names.contains(name) && nodes[neighbours[k]].id@
        == PackageIdView::Pkg(name)
}

/// A visit for indirect dependencies leaves the other lists as they are.
pub proof fn lemma_visit_indirect_keeps(
    w: Walk,
    nodes: Seq<Summary<PackageId>>,
    names: Seq<NameView>,
    order: Seq<int>,
)
    ensures
        visit_indirect(w, nodes, names, order).tests == w.tests,
        visit_indirect(w, nodes, names, order).direct == w.direct,
        visit_indirect(w, nodes, names, order).test_direct == w.test_direct,
        visit_indirect(w, nodes, names, order).test_indirect == w.test_indirect,
    decreases order.len(),
{
    if order.len() > 0 {
        lemma_visit_indirect_keeps(w, nodes, names, order.drop_last());
    }
}

/// A visit for indirect test-dependencies leaves the other lists as they
/// are.
pub proof fn lemma_visit_test_indirect_keeps(
    w: Walk,
    nodes: Seq<Summary<PackageId>>,
    order: Seq<int>,
)
    ensures
        visit_test_indirect(w, nodes, order).tests == w.tests,
        visit_test_indirect(w, nodes, order).direct == w.direct,
        visit_test_indirect(w, nodes, order).indirect == w.indirect,
        visit_test_indirect(w, nodes, order).test_direct == w.test_direct,
    decreases order.len(),
{
    if order.len() > 0 {
        lemma_visit_test_indirect_keeps(w, nodes, order.drop_last());
    }
}

/// The second pass leaves the dependencies as they are.
pub proof fn lemma_second_pass_keeps(
    w: Walk,
    nodes: Seq<Summary<PackageId>>,
    successors: Seq<Seq<int>>,
    tests: Seq<int>,
)
    ensures
        second_pass(w, nodes, successors, tests).direct == w.direct,
        second_pass(w, nodes, successors, tests).indirect == w.indirect,
    decreases tests.len(),
{
    if tests.len() > 0 {
        lemma_second_pass_keeps(w, nodes, successors, tests.drop_last());
        let v = second_pass(w, nodes, successors, tests.drop_last());
        let idx = tests.last();
        if nodes[idx].id@ is Pkg {
            lemma_visit_test_indirect_keeps(
                Walk {
                    test_direct: v.test_direct.insert(nodes[idx].id@->Pkg_0, nodes[idx].version),
                    ..v
                },
                nodes,
                crate::solver::graph::breadth_first_order(successors, idx),
            );
        }
    }
}

/// After the first pass the direct dependencies are the named neighbours of
/// the root, each at the version of its node.
pub proof fn lemma_first_pass_direct(
    nodes: Seq<Summary<PackageId>>,
    successors: Seq<Seq<int>>,
    names: Seq<NameView>,
    neighbours: Seq<int>,
)
    requires
        distinct_packages(nodes),
        forall|k: int| 0 <= k < neighbours.len() ==> 0 <= #[trigger] neighbours[k] < nodes.len(),
    ensures
        forall|name: NameView|
            first_pass(nodes, successors, names, neighbours).direct.dom().contains(name)
                <==> exists|k: int| #[trigger] named_neighbour(nodes, names, neighbours, name, k),
        forall|name: NameView, k: int| #[trigger]
            named_neighbour(nodes, names, neighbours, name, k) ==> first_pass(
                nodes,
                successors,
                names,
                neighbours,
            ).direct[name] == nodes[neighbours[k]].version,
    decreases neighbours.len(),
{
    let w = first_pass(nodes, successors, names, neighbours);
    if neighbours.len() == 0 {
        assert forall|name: NameView| w.direct.dom().contains(name) <==> exists|k: int| #[trigger]
            named_neighbour(nodes, names, neighbours, name, k) by {}
    } else {
        let shorter = neighbours.drop_last();
        lemma_first_pass_direct(nodes, successors, names, shorter);
        let v = first_pass(nodes, successors, names, shorter);
        let last = neighbours.len() - 1;
        let idx = neighbours[last];
        let s = Walk { seen: v.seen.insert(idx), ..v };
        let takes = declared(names, nodes[idx].id@);
        if takes {
            lemma_visit_indirect_keeps(
                Walk { direct: s.direct.insert(nodes[idx].id@->Pkg_0, nodes[idx].version), ..s },
                nodes,
                names,
                crate::solver::graph::depth_first_order(successors, idx),
            );
            assert(w.direct == v.direct.insert(nodes[idx].id@->Pkg_0, nodes[idx].version));
        } else {
            assert(w.direct == v.direct);
        }
        assert forall|name: NameView, k: int| #[trigger]
            named_neighbour(nodes, names, neighbours, name, k) implies w.direct.dom().contains(name)
            && w.direct[name] == nodes[neighbours[k]].version by {
            if takes && nodes[idx].id@ == PackageIdView::Pkg(name) {
                let x = neighbours[k];
                if x < idx {
                    assert(nodes[x].id@ != nodes[idx].id@);
                } else if idx < x {
                    assert(nodes[idx].id@ != nodes[x].id@);
                }
            } else {
                assert(k < last) by {
                    if k == last {
                        assert(declared(names, nodes[idx].id@));
                    }
                }
                assert(shorter[k] == neighbours[k]);
                assert(named_neighbour(nodes, names, shorter, name, k));
                assert(v.direct.dom().contains(name));
            }
        }
        assert forall|name: NameView| w.direct.dom().contains(name) implies exists|k: int|
            #[trigger] named_neighbour(nodes, names, neighbours, name, k) by {
            if takes && nodes[idx].id@ == PackageIdView::Pkg(name) {
                assert(named_neighbour(nodes, names, neighbours, name, last));
            } else {
                assert(v.direct.dom().contains(name));
                let k = choose|k: int| #[trigger] named_neighbour(nodes, names, shorter, name, k);
                assert(shorter[k] == neighbours[k]);
                assert(named_neighbour(nodes, names, neighbours, name, k));
            }
        }
    }
}

/// The direct dependencies that are made of a graph in which no package
/// occurs twice are exactly the packages, among those named as direct, to
/// which the root has an edge, each at the version chosen for it.
pub proof fn law_direct_dependencies_are_the_named_neighbours(
    nodes: Seq<Summary<PackageId>>,
    successors: Seq<Seq<int>>,
    names: Seq<NameView>,
)
    requires
        successors.len() > 0,
        distinct_packages(nodes),
        forall|k: int| 0 <= k < successors[0].len() ==> 0 <= #[trigger] successors[0][k] < nodes.len(),
    ensures
        forall|name: NameView|
            reconstruct_spec(nodes, successors, names).direct.dom().contains(name) <==> exists|
                k: int,
            | #[trigger] named_neighbour(nodes, names, successors[0], name, k),
        forall|name: NameView, k: int| #[trigger]
            named_neighbour(nodes, names, successors[0], name, k) ==> reconstruct_spec(
                nodes,
                successors,
                names,
            ).direct[name] == nodes[successors[0][k]].version,
{
    let first = first_pass(nodes, successors, names, successors[0]);
    lemma_first_pass_direct(nodes, successors, names, successors[0]);
    lemma_second_pass_keeps(first, nodes, successors, first.tests);
}

/// A package that the root depends on and that is named as direct is a
/// direct dependency in the lists that are made of a resolved graph, at a
/// version that the dependency allows.
///
/// The graph is one in which every package occurs once and which meets
/// every dependency that was reported for its nodes, as a resolved graph
/// does; the dependency is one of those reported for the root.
pub proof fn law_what_the_root_needs_is_listed(
    nodes: Seq<Summary<PackageId>>,
    successors: Seq<Seq<int>>,
    reported: Seq<Vec<Incompatibility>>,
    names: Seq<NameView>,
    name: NameView,
    j: int,
)
    requires
        nodes.len() > 0,
        successors.len() == nodes.len(),
        each_once(nodes),
        complete(nodes, successors, reported),
        forall|k: int| 0 <= k < successors[0].len() ==> 0 <= #[trigger] successors[0][k] < nodes.len(),
        0 <= j < reported[0]@.len(),
        depends(clause_of(reported[0]@[j]), nodes[0]),
        clause_of(reported[0]@[j]).0[1].0 == PackageIdView::Pkg(name),
        names.contains(name),
    ensures
        reconstruct_spec(nodes, successors, names).direct.dom().contains(name),
        !covers(
            clause_of(reported[0]@[j]).0[1].1,
            point_of(reconstruct_spec(nodes, successors, names).direct[name]),
        ),
{
    let clause = clause_of(reported[0]@[j]);
    assert(met(nodes, successors, 0, clause));
    let c = choose|c: int|
        0 <= c < nodes.len() && #[trigger] successors[0].contains(c) && nodes[c].id@ == clause.0[1].0
            && !covers(clause.0[1].1, point_of(nodes[c].version));
    let k = choose|k: int| 0 <= k < successors[0].len() && successors[0][k] == c;
    assert(named_neighbour(nodes, names, successors[0], name, k));
    law_direct_dependencies_are_the_named_neighbours(nodes, successors, names);
}

} // verus!
