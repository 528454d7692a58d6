//! What holds of every graph that the resolver hands out.

use crate::package::retriever::{incompat_views, IncompatView, PackageId, PackageIdView};
use crate::semver::canon::covers;
use crate::semver::interval::point_of;
use crate::semver::version::Version;
use crate::solver::incompat::{Incompatibility, IncompatibilityCause};
use crate::solver::resolver::{answered, clause_of, complete, depends, each_once, met};
use crate::solver::retriever::Retriever;
use crate::solver::summary::Summary;
use vstd::prelude::*;

verus! {

/// The incompatibility states a dependency of the version `version` of the
/// package `id`.
pub open spec fn needs(clause: IncompatView, id: PackageIdView, version: Version) -> bool {
    &&& clause.1 == IncompatibilityCause::Dependency
    &&& clause.0.len() == 2
    &&& clause.0[0].0 == id
    &&& covers(clause.0[0].1, point_of(version))
}

/// The versions `chosen` are a choice that the source of packages admits:
/// the root is chosen at its version, the source holds the
/// incompatibilities of every chosen version, and for every dependency
/// among them the package depended on is chosen at a version that the
/// dependency allows.
pub open spec fn admitted<R: Retriever>(
    source: &R,
    root: Summary<PackageId>,
    chosen: Map<PackageIdView, Version>,
) -> bool {
    &&& chosen.dom().contains(root.id@)
    &&& chosen[root.id@] == root.version
    &&& forall|id: PackageIdView| #[trigger]
        chosen.dom().contains(id) ==> source.held(id, chosen[id]) is Some
    &&& forall|id: PackageIdView, j: int|
        chosen.dom().contains(id) && 0 <= j < source.held(id, chosen[id])->0.len() && needs(
            #[trigger] source.held(id, chosen[id])->0[j],
            id,
            chosen[id],
        ) ==> {
            let clause = source.held(id, chosen[id])->0[j];
            chosen.dom().contains(clause.0[1].0) && !covers(
                clause.0[1].1,
                point_of(chosen[clause.0[1].0]),
            )
        }
}

/// The versions of the nodes, by package.
pub open spec fn choice_of(nodes: Seq<Summary<PackageId>>) -> Map<PackageIdView, Version> {
    Map::new(
        |id: PackageIdView| exists|k: int| 0 <= k < nodes.len() && (#[trigger] nodes[k]).id@ == id,
        |id: PackageIdView|
            nodes[choose|k: int| 0 <= k < nodes.len() && (#[trigger] nodes[k]).id@ == id].version,
    )
}

/// Where every package has one node, the choice holds the version of every
/// node for its package.
pub proof fn lemma_choice_of(nodes: Seq<Summary<PackageId>>, at: int)
    requires
        each_once(nodes),
        0 <= at < nodes.len(),
    ensures
        choice_of(nodes).dom().contains(nodes[at].id@),
        choice_of(nodes)[nodes[at].id@] == nodes[at].version,
{
    let id = nodes[at].id@;
    let k = choose|k: int| 0 <= k < nodes.len() && (#[trigger] nodes[k]).id@ == id;
    if k < at {
        assert(nodes[k].id@ != nodes[at].id@);
    } else if at < k {
        assert(nodes[at].id@ != nodes[k].id@);
    }
}

/// The graph that the resolver hands out is a choice of versions that the
/// source of packages admits. So where the source admits no choice, there
/// is no graph: the resolver ends with an error.
pub proof fn law_a_resolved_graph_is_a_choice<R: Retriever>(
    source: &R,
    nodes: Seq<Summary<PackageId>>,
    successors: Seq<Seq<int>>,
    reported: Seq<Vec<Incompatibility>>,
)
    requires
        nodes.len() > 0,
        each_once(nodes),
        complete(nodes, successors, reported),
        answered(source, nodes, reported, nodes.len() as int),
    ensures
        admitted(source, nodes[0], choice_of(nodes)),
{
    let chosen = choice_of(nodes);
    lemma_choice_of(nodes, 0);
    assert forall|id: PackageIdView| #[trigger] chosen.dom().contains(id) implies source.held(
        id,
        chosen[id],
    ) is Some by {
        let k = choose|k: int| 0 <= k < nodes.len() && (#[trigger] nodes[k]).id@ == id;
        lemma_choice_of(nodes, k);
    }
    assert forall|id: PackageIdView, j: int|
        chosen.dom().contains(id) && 0 <= j < source.held(id, chosen[id])->0.len() && needs(
            #[trigger] source.held(id, chosen[id])->0[j],
            id,
            chosen[id],
        ) implies {
        let clause = source.held(id, chosen[id])->0[j];
        chosen.dom().contains(clause.0[1].0) && !covers(
            clause.0[1].1,
            point_of(chosen[clause.0[1].0]),
        )
    } by {
        let k = choose|k: int| 0 <= k < nodes.len() && (#[trigger] nodes[k]).id@ == id;
        lemma_choice_of(nodes, k);
        let views = incompat_views(reported[k]@);
        assert(source.held(nodes[k].id@, nodes[k].version) == Some(views));
        let clause = views[j];
        assert(clause == clause_of(reported[k]@[j]));
        assert(depends(clause, nodes[k]));
        assert(met(nodes, successors, k, clause));
        let c = choose|c: int|
            0 <= c < nodes.len() && #[trigger] successors[k].contains(c) && nodes[c].id@
                == clause.0[1].0 && !covers(clause.0[1].1, point_of(nodes[c].version));
        lemma_choice_of(nodes, c);
    }
}

} // verus!
