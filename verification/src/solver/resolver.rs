//! The resolver: picks one version for every package that is needed, so
//! that no incompatibility holds.
//!
//! It works as a conflict-driven search. Incompatibilities are propagated:
//! when all terms of one but a single term hold, the opposite of that term
//! is derived. When all terms hold, the conflict is traced back through the
//! causes of the derivations to a new incompatibility, the search goes back
//! to an earlier decision, and goes on from there.
//!
//! Each of these is written down twice: as a function of the program, and
//! as a function of mathematics on the log and the incompatibilities
//! (`traced`, `propagated`, `reach`, `built`). The contracts say that the
//! program does what the mathematics says. What the source of packages
//! answers is not for the resolver to say: there the contracts hold for the
//! answers that were given, whatever they were.

use crate::package::retriever::{exactly, incompat_views, PackageId, PackageIdView};
use crate::semver::canon::{
    complement_of, covers, intersection_of, lemma_complement_of, lemma_intersection_of,
};
use crate::semver::range::Range;
use crate::semver::version::Version;
use crate::semver::constraint::Constraint;
use crate::semver::interval::point_of;
use crate::solver::graph::{
    edge_count, graph_add_edge, graph_add_node, graph_edge_count, graph_new, graph_node, graph_nodes,
    graph_successors, Solution,
};
use crate::package::retriever::IncompatView;
use crate::solver::incompat::{
    combined_text, incompat_text, shaped, term_views, IncompatMatch, Incompatibility,
    IncompatibilityCause, TermView,
};
use crate::solver::retriever::Retriever;
use crate::solver::retriever::RetrieveFailure;
use crate::solver::state::{
    analysed, decided_from, gained, holds_in, kept, known_from, lemma_gained_push,
    lemma_gained_stable, stuck, unit_step, EntryView, ResolveError, Resolver, Search, UnitEnd,
};
use crate::solver::summary::Summary;
use crate::solver::term_map::{has_term, map_get, map_insert, map_len, map_new, map_terms};
use crate::text::{join, join_strings, push_decimal, string_views};
use indexmap::IndexMap;
use vstd::prelude::*;
use vstd::string::*;

verus! {

/// One dependency that the chosen versions meet: the node at `parent` must
/// not go together with a version of the node at `child` in `forbidden`.
#[derive(Debug)]
pub struct Requirement {
    pub parent: usize,
    pub child: usize,
    pub forbidden: Constraint,
}

/// The graph of chosen versions together with the dependencies that were
/// checked against it, and with what the source of packages reported for
/// every node, by the positions of the nodes.
#[derive(Debug)]
pub struct Resolution {
    pub graph: Solution,
    pub requirements: Vec<Requirement>,
    pub reported: Vec<Vec<Incompatibility>>,
}

/// Every edge of the graph stands for a requirement, and every requirement
/// is met: its edge is there, it does not lead to the first node, and the
/// version chosen for the child is not one of those that the parent
/// forbids.
pub open spec fn certified(
    nodes: Seq<Summary<PackageId>>,
    successors: Seq<Seq<int>>,
    requirements: Seq<Requirement>,
) -> bool {
    &&& forall|k: int|
        0 <= k < requirements.len() ==> {
            let r = #[trigger] requirements[k];
            &&& r.parent < nodes.len()
            &&& 0 < r.child < nodes.len()
            &&& successors[r.parent as int].contains(r.child as int)
            &&& !covers(r.forbidden@, point_of(nodes[r.child as int].version))
        }
    &&& forall|a: int, b: int|
        0 <= a < successors.len() && #[trigger] successors[a].contains(b) ==> exists|k: int|
            0 <= k < requirements.len() && (#[trigger] requirements[k]).parent == a
                && requirements[k].child == b
}

/// No package occurs twice among the nodes.
pub open spec fn each_once(nodes: Seq<Summary<PackageId>>) -> bool {
    forall|i: int, j: int|
        0 <= i < j < nodes.len() ==> (#[trigger] nodes[i]).id@ != (#[trigger] nodes[j]).id@
}

/// What an incompatibility says.
pub open spec fn clause_of(i: Incompatibility) -> IncompatView {
    (i.terms(), i.cause)
}

/// The incompatibility states a dependency of the node: its first term
/// holds the version of the node, its second term the versions of another
/// package that cannot go with it.
pub open spec fn depends(clause: IncompatView, node: Summary<PackageId>) -> bool {
    &&& clause.1 == IncompatibilityCause::Dependency
    &&& clause.0.len() == 2
    &&& clause.0[0].0 == node.id@
    &&& covers(clause.0[0].1, point_of(node.version))
}

/// The graph meets the dependency that `clause` states of the node at
/// `parent`: an edge leads from it to a node for the package depended on,
/// and the version chosen there is none of those that cannot go with it.
pub open spec fn met(
    nodes: Seq<Summary<PackageId>>,
    successors: Seq<Seq<int>>,
    parent: int,
    clause: IncompatView,
) -> bool {
    exists|c: int|
        0 <= c < nodes.len() && #[trigger] successors[parent].contains(c) && nodes[c].id@
            == clause.0[1].0 && !covers(clause.0[1].1, point_of(nodes[c].version))
}

/// The graph meets every dependency that was reported for one of its first
/// `upto` nodes.
pub open spec fn reported_met(
    nodes: Seq<Summary<PackageId>>,
    successors: Seq<Seq<int>>,
    reported: Seq<Vec<Incompatibility>>,
    upto: int,
) -> bool {
    forall|k: int, j: int|
        0 <= k < upto && 0 <= j < reported[k]@.len() && depends(
            clause_of(#[trigger] reported[k]@[j]),
            nodes[k],
        ) ==> met(nodes, successors, k, clause_of(reported[k]@[j]))
}

/// Something was reported for every node, and the graph meets every
/// dependency among it.
pub open spec fn complete(
    nodes: Seq<Summary<PackageId>>,
    successors: Seq<Seq<int>>,
    reported: Seq<Vec<Incompatibility>>,
) -> bool {
    reported.len() == nodes.len() && reported_met(nodes, successors, reported, nodes.len() as int)
}

/// The requirement is what `clause` states: a dependency of its parent on
/// the package of its child, with the same versions forbidden.
pub open spec fn founded_on(
    requirement: Requirement,
    nodes: Seq<Summary<PackageId>>,
    clause: IncompatView,
) -> bool {
    &&& requirement.parent < nodes.len()
    &&& requirement.child < nodes.len()
    &&& depends(clause, nodes[requirement.parent as int])
    &&& clause.0[1].0 == nodes[requirement.child as int].id@
    &&& clause.0[1].1 == requirement.forbidden@
}

/// Every requirement whose parent is one of the first `upto` nodes is a
/// dependency that was reported for its parent.
pub open spec fn founded(
    nodes: Seq<Summary<PackageId>>,
    requirements: Seq<Requirement>,
    reported: Seq<Vec<Incompatibility>>,
    upto: int,
) -> bool {
    forall|k: int|
        0 <= k < requirements.len() && (#[trigger] requirements[k]).parent < upto ==> exists|j: int|
            0 <= j < reported[requirements[k].parent as int]@.len() && founded_on(
                requirements[k],
                nodes,
                clause_of(#[trigger] reported[requirements[k].parent as int]@[j]),
            )
}

/// The second graph has all nodes and edges of the first, its nodes at their
/// places.
pub open spec fn grown(
    nodes: Seq<Summary<PackageId>>,
    successors: Seq<Seq<int>>,
    nodes2: Seq<Summary<PackageId>>,
    successors2: Seq<Seq<int>>,
) -> bool {
    &&& nodes.len() <= nodes2.len()
    &&& successors.len() == nodes.len()
    &&& successors2.len() == nodes2.len()
    &&& forall|k: int| 0 <= k < nodes.len() ==> #[trigger] nodes2[k] == nodes[k]
    &&& forall|a: int, c: int|
        0 <= a < nodes.len() && #[trigger] successors[a].contains(c) ==> successors2[a].contains(c)
}

/// A dependency that a graph meets is met by every graph that grew out of
/// it.
pub proof fn lemma_met_grown(
    nodes: Seq<Summary<PackageId>>,
    successors: Seq<Seq<int>>,
    nodes2: Seq<Summary<PackageId>>,
    successors2: Seq<Seq<int>>,
    parent: int,
    clause: IncompatView,
)
    requires
        grown(nodes, successors, nodes2, successors2),
        0 <= parent < nodes.len(),
        met(nodes, successors, parent, clause),
    ensures
        met(nodes2, successors2, parent, clause),
{
    let c = choose|c: int|
        0 <= c < nodes.len() && #[trigger] successors[parent].contains(c) && nodes[c].id@
            == clause.0[1].0 && !covers(clause.0[1].1, point_of(nodes[c].version));
    assert(successors2[parent].contains(c));
    assert(nodes2[c] == nodes[c]);
}

/// The dependencies that a graph meets are met by every graph that grew out
/// of it.
pub proof fn lemma_reported_met_grown(
    nodes: Seq<Summary<PackageId>>,
    successors: Seq<Seq<int>>,
    nodes2: Seq<Summary<PackageId>>,
    successors2: Seq<Seq<int>>,
    reported: Seq<Vec<Incompatibility>>,
    upto: int,
)
    requires
        grown(nodes, successors, nodes2, successors2),
        upto <= nodes.len(),
        reported_met(nodes, successors, reported, upto),
    ensures
        reported_met(nodes2, successors2, reported, upto),
{
    assert forall|k: int, j: int|
        0 <= k < upto && 0 <= j < reported[k]@.len() && depends(
            clause_of(#[trigger] reported[k]@[j]),
            nodes2[k],
        ) implies met(nodes2, successors2, k, clause_of(reported[k]@[j])) by {
        assert(nodes2[k] == nodes[k]);
        lemma_met_grown(nodes, successors, nodes2, successors2, k, clause_of(reported[k]@[j]));
    }
}

/// What is said when a conflict was traced back and nothing follows from
/// what was learned.
pub open spec fn nothing_follows() -> Seq<char> {
    "Nothing follows from a resolved conflict"@
}

/// One of the incompatibilities is said to follow from others.
pub open spec fn any_derived(views: Seq<IncompatView>) -> bool {
    exists|i: int| 0 <= i < views.len() && (#[trigger] views[i]).1 is Derived
}

/// The entry of the log that a decision makes.
pub open spec fn decision_entry(step: u16, level: u16, id: PackageIdView, version: Version) -> EntryView {
    EntryView {
        step,
        level,
        pkg: id,
        decision: Some(version),
        admits: exactly(version),
        cause: None,
        positive: true,
    }
}

/// What was reported for each of the first `upto` nodes is what the source
/// of packages holds for the version of the package there.
pub open spec fn answered<R: Retriever>(
    source: &R,
    nodes: Seq<Summary<PackageId>>,
    reported: Seq<Vec<Incompatibility>>,
    upto: int,
) -> bool {
    forall|k: int|
        0 <= k < upto ==> source.held((#[trigger] nodes[k]).id@, nodes[k].version) == Some(
            incompat_views(reported[k]@),
        )
}

/// No edge leads to the first node.
pub open spec fn rootless(successors: Seq<Seq<int>>) -> bool {
    forall|a: int, c: int| 0 <= a < successors.len() && #[trigger] successors[a].contains(c) ==> c != 0
}

/// In a certified graph no edge leads to the first node.
pub proof fn lemma_certified_rootless(
    nodes: Seq<Summary<PackageId>>,
    successors: Seq<Seq<int>>,
    requirements: Seq<Requirement>,
)
    requires
        certified(nodes, successors, requirements),
    ensures
        rootless(successors),
{
    assert forall|a: int, c: int|
        0 <= a < successors.len() && #[trigger] successors[a].contains(c) implies c != 0 by {
        let k = choose|k: int|
            0 <= k < requirements.len() && (#[trigger] requirements[k]).parent == a
                && requirements[k].child == c;
        assert(0 < requirements[k].child);
    }
}

/// The package `id` has a node.
pub open spec fn placed(nodes: Seq<Summary<PackageId>>, id: PackageIdView) -> bool {
    exists|k: int| 0 <= k < nodes.len() && (#[trigger] nodes[k]).id@ == id
}

/// Where the package `id` has its node.
pub open spec fn place_of(nodes: Seq<Summary<PackageId>>, id: PackageIdView) -> int {
    choose|k: int| 0 <= k < nodes.len() && (#[trigger] nodes[k]).id@ == id
}

/// Where every package has one node at most, a node for a package is the
/// node of the package.
pub proof fn lemma_place_of(nodes: Seq<Summary<PackageId>>, id: PackageIdView, at: int)
    requires
        each_once(nodes),
        0 <= at < nodes.len(),
        nodes[at].id@ == id,
    ensures
        placed(nodes, id),
        place_of(nodes, id) == at,
{
    let k = place_of(nodes, id);
    if k < at {
        assert(nodes[k].id@ != nodes[at].id@);
    } else if at < k {
        assert(nodes[at].id@ != nodes[k].id@);
    }
}

/// The version at which the package `id` stands in the graph, or would
/// stand there: that of its node, else the version decided on.
pub open spec fn version_for(
    nodes: Seq<Summary<PackageId>>,
    decided: Option<Version>,
    id: PackageIdView,
) -> Option<Version> {
    if placed(nodes, id) {
        Some(nodes[place_of(nodes, id)].version)
    } else {
        decided
    }
}

/// The dependency that `clause` states cannot be met: the package depended
/// on has no node and no version was decided on for it, or it is the first
/// node, or its version is one that the dependency forbids.
#[verifier::opaque]
pub open spec fn unmet(
    nodes: Seq<Summary<PackageId>>,
    decided: Option<Version>,
    clause: IncompatView,
) -> bool {
    let id = clause.0[1].0;
    ||| version_for(nodes, decided, id) is None
    ||| (placed(nodes, id) && place_of(nodes, id) == 0)
    ||| covers(clause.0[1].1, point_of(version_for(nodes, decided, id)->0))
}

/// The graph has no room for the dependency that `clause` states: for the
/// node that it needs, or for its edge.
#[verifier::opaque]
pub open spec fn no_room(
    nodes: Seq<Summary<PackageId>>,
    successors: Seq<Seq<int>>,
    clause: IncompatView,
) -> bool {
    (!placed(nodes, clause.0[1].0) && nodes.len() >= 0xffff_fffe) || edge_count(successors)
        >= 0xffff_fffe
}

/// The second graph is the first with the dependency that `clause` states
/// of the node at `head`: the package depended on has its node, a new one
/// at the end with the version decided on if it had none, an edge leads
/// there from `head`, and the requirement is written down last.
#[verifier::opaque]
pub open spec fn attached(
    nodes: Seq<Summary<PackageId>>,
    successors: Seq<Seq<int>>,
    requirements: Seq<Requirement>,
    nodes2: Seq<Summary<PackageId>>,
    successors2: Seq<Seq<int>>,
    requirements2: Seq<Requirement>,
    head: int,
    clause: IncompatView,
    decided: Option<Version>,
) -> bool {
    let id = clause.0[1].0;
    let child = if placed(nodes, id) {
        place_of(nodes, id)
    } else {
        nodes.len() as int
    };
    &&& if placed(nodes, id) {
        nodes2 == nodes
    } else {
        &&& nodes2.len() == nodes.len() + 1
        &&& nodes2.drop_last() == nodes
        &&& nodes2.last().id@ == id
        &&& Some(nodes2.last().version) == decided
    }
    &&& successors2 == (if placed(nodes, id) {
        successors
    } else {
        successors.push(Seq::<int>::empty())
    }).update(head, seq![child] + successors[head])
    &&& requirements2.len() == requirements.len() + 1
    &&& requirements2.drop_last() == requirements
    &&& requirements2.last().parent == head
    &&& requirements2.last().child == child
    &&& requirements2.last().forbidden@ == clause.0[1].1
}

/// A graph of chosen versions as mathematics sees it: the package and the
/// version of every node, the edges, and for every requirement its parent,
/// its child and the versions that it forbids.
pub struct Plan {
    pub nodes: Seq<(PackageIdView, Version)>,
    pub successors: Seq<Seq<int>>,
    pub requirements: Seq<(int, int, Seq<Range>)>,
}

/// What the nodes say.
pub open spec fn node_views(nodes: Seq<Summary<PackageId>>) -> Seq<(PackageIdView, Version)> {
    nodes.map_values(|n: Summary<PackageId>| (n.id@, n.version))
}

/// What the requirements say.
pub open spec fn requirement_views(requirements: Seq<Requirement>) -> Seq<(int, int, Seq<Range>)> {
    requirements.map_values(|r: Requirement| (r.parent as int, r.child as int, r.forbidden@))
}

/// The graph and the requirements as mathematics sees them.
pub open spec fn plan_of(
    nodes: Seq<Summary<PackageId>>,
    successors: Seq<Seq<int>>,
    requirements: Seq<Requirement>,
) -> Plan {
    Plan {
        nodes: node_views(nodes),
        successors,
        requirements: requirement_views(requirements),
    }
}

/// Why a graph could not be built.
pub enum BuildEnd {
    /// The source of packages failed to report.
    Failed(RetrieveFailure),
    /// A dependency cannot be met.
    Unmet,
    /// The graph has no room.
    NoRoom,
    /// What is said to be reported is not what the source holds.
    Astray,
}

/// The package `id` has a node in the plan.
pub open spec fn planned(nodes: Seq<(PackageIdView, Version)>, id: PackageIdView) -> bool {
    exists|k: int| 0 <= k < nodes.len() && (#[trigger] nodes[k]).0 == id
}

/// Where the package `id` has its node in the plan.
pub open spec fn planned_at(nodes: Seq<(PackageIdView, Version)>, id: PackageIdView) -> int {
    choose|k: int| 0 <= k < nodes.len() && (#[trigger] nodes[k]).0 == id
}

/// The plan with the incompatibility `clause` taken up for the node at
/// `head`. If it states a dependency of the node, the package depended on
/// gets a node with the version `decided`, unless it has one, and an edge
/// from `head`, and the requirement is written down. That fails if no
/// version is there for the package, if the package is the first node, if
/// the version is one that the dependency forbids, or if the graph has no
/// room.
#[verifier::opaque]
pub open spec fn joined(p: Plan, decided: Option<Version>, head: int, clause: IncompatView) -> Result<
    Plan,
    BuildEnd,
> {
    let id = clause.0[1].0;
    let there = planned(p.nodes, id);
    let at = planned_at(p.nodes, id);
    let version = if there {
        Some(p.nodes[at].1)
    } else {
        decided
    };
    if !(clause.1 == IncompatibilityCause::Dependency && clause.0.len() == 2 && clause.0[0].0
        == p.nodes[head].0 && covers(clause.0[0].1, point_of(p.nodes[head].1))) {
        Ok(p)
    } else if version is None || (there && at == 0) || covers(clause.0[1].1, point_of(version->0)) {
        Err(BuildEnd::Unmet)
    } else if (!there && p.nodes.len() >= 0xffff_fffe) || edge_count(p.successors) >= 0xffff_fffe {
        Err(BuildEnd::NoRoom)
    } else {
        let child = if there {
            at
        } else {
            p.nodes.len() as int
        };
        Ok(
            Plan {
                nodes: if there {
                    p.nodes
                } else {
                    p.nodes.push((id, version->0))
                },
                successors: (if there {
                    p.successors
                } else {
                    p.successors.push(Seq::<int>::empty())
                }).update(head, seq![child] + p.successors[head]),
                requirements: p.requirements.push((head, child, clause.0[1].1)),
            },
        )
    }
}

/// The plan with the last `done` of the incompatibilities `views` taken up
/// for the node at `head`, the last first. The version for a package that
/// has no node is the one that the log decides on.
#[verifier::opaque]
pub open spec fn joined_all(
    p: Plan,
    log: Seq<EntryView>,
    head: int,
    views: Seq<IncompatView>,
    done: nat,
) -> Result<Plan, BuildEnd>
    decreases done,
{
    if done == 0 {
        Ok(p)
    } else {
        match joined_all(p, log, head, views, (done - 1) as nat) {
            Err(e) => Err(e),
            Ok(q) => {
                let clause = views[views.len() - done];
                joined(q, decided_from(log, clause.0[1].0), head, clause)
            },
        }
    }
}

/// Where the building of a graph stands: going on with a plan, or ended.
pub enum BuildReach {
    Running(Plan),
    Ended(BuildEnd),
}

/// Where the building of the graph stands after the source of packages has
/// reported for the first nodes, node by node: the graph begins with the
/// root, and what is reported for a node is taken up for it.
#[verifier::opaque]
pub open spec fn built<R: Retriever>(
    source: &R,
    log: Seq<EntryView>,
    root: (PackageIdView, Version),
    reports: Seq<Result<Seq<IncompatView>, RetrieveFailure>>,
) -> BuildReach
    decreases reports.len(),
{
    if reports.len() == 0 {
        BuildReach::Running(
            Plan {
                nodes: seq![root],
                successors: seq![Seq::<int>::empty()],
                requirements: Seq::empty(),
            },
        )
    } else {
        match built(source, log, root, reports.drop_last()) {
            BuildReach::Ended(e) => BuildReach::Ended(e),
            BuildReach::Running(p) => {
                let head = reports.len() - 1;
                if head >= p.nodes.len() {
                    BuildReach::Ended(BuildEnd::Astray)
                } else {
                    match reports.last() {
                        Err(failure) => BuildReach::Ended(BuildEnd::Failed(failure)),
                        Ok(views) => if source.held(p.nodes[head].0, p.nodes[head].1) != Some(views) {
                            BuildReach::Ended(BuildEnd::Astray)
                        } else {
                            match joined_all(p, log, head, views, views.len()) {
                                Ok(q) => BuildReach::Running(q),
                                Err(e) => BuildReach::Ended(e),
                            }
                        },
                    }
                }
            },
        }
    }
}

/// The result is what the building of the graph comes to: the graph of the
/// plan, once the source has reported for every node, or the error that
/// the end asks for.
pub open spec fn drawn(reach: BuildReach, reports: nat, r: Result<Resolution, ResolveError>) -> bool {
    match reach {
        BuildReach::Running(p) => p.nodes.len() == reports && r is Ok && plan_of(
            graph_nodes(r->Ok_0.graph),
            graph_successors(r->Ok_0.graph),
            r->Ok_0.requirements@,
        ) == p,
        BuildReach::Ended(BuildEnd::Failed(failure)) => r is Err && r->Err_0 is Retrieve
            && r->Err_0->Retrieve_0@ == failure,
        BuildReach::Ended(BuildEnd::Unmet) => r is Err && r->Err_0 is Inconsistent,
        BuildReach::Ended(BuildEnd::NoRoom) => r is Err && r->Err_0 is GaveUp,
        BuildReach::Ended(BuildEnd::Astray) => false,
    }
}

/// What `attach` does to a graph is what `joined` says of its plan.
pub proof fn lemma_joined(
    nodes: Seq<Summary<PackageId>>,
    successors: Seq<Seq<int>>,
    requirements: Seq<Requirement>,
    nodes2: Seq<Summary<PackageId>>,
    successors2: Seq<Seq<int>>,
    requirements2: Seq<Requirement>,
    decided: Option<Version>,
    head: int,
    clause: IncompatView,
    r: Result<(), ResolveError>,
)
    requires
        each_once(nodes),
        0 <= head < nodes.len(),
        ({
            let same = nodes2 == nodes && successors2 == successors && requirements2 == requirements;
            if !depends(clause, nodes[head]) {
                r is Ok && same
            } else if unmet(nodes, decided, clause) {
                r is Err && r->Err_0 is Inconsistent && same
            } else if no_room(nodes, successors, clause) {
                r is Err && r->Err_0 is GaveUp && same
            } else {
                r is Ok && attached(
                    nodes,
                    successors,
                    requirements,
                    nodes2,
                    successors2,
                    requirements2,
                    head,
                    clause,
                    decided,
                )
            }
        }),
    ensures
        match joined(plan_of(nodes, successors, requirements), decided, head, clause) {
            Ok(p) => r is Ok && plan_of(nodes2, successors2, requirements2) == p,
            Err(BuildEnd::Unmet) => r is Err && r->Err_0 is Inconsistent,
            Err(BuildEnd::NoRoom) => r is Err && r->Err_0 is GaveUp,
            Err(_) => false,
        },
{
    reveal(unmet);
    reveal(no_room);
    reveal(attached);
    reveal(joined);
    let views = node_views(nodes);
    let id = clause.0[1].0;
    assert(views[head] == (nodes[head].id@, nodes[head].version));
    assert(planned(views, id) == placed(nodes, id)) by {
        if planned(views, id) {
            let k = planned_at(views, id);
            assert(nodes[k].id@ == id);
        }
        if placed(nodes, id) {
            let k = place_of(nodes, id);
            assert(views[k].0 == id);
        }
    }
    if placed(nodes, id) {
        let k = planned_at(views, id);
        assert(nodes[k].id@ == id);
        lemma_place_of(nodes, id, k);
        assert(views[k].1 == nodes[k].version);
    }
    if depends(clause, nodes[head]) && !unmet(nodes, decided, clause) && !no_room(
        nodes,
        successors,
        clause,
    ) {
        if placed(nodes, id) {
            assert(node_views(nodes2) =~= views);
        } else {
            assert(nodes2.drop_last() == nodes);
            assert(node_views(nodes2) =~= views.push((id, decided->0))) by {
                assert forall|k: int| 0 <= k < nodes.len() implies node_views(nodes2)[k]
                    == views[k] by {
                    assert(nodes2.drop_last()[k] == nodes2[k]);
                }
            }
        }
        let child = if placed(nodes, id) {
            place_of(nodes, id)
        } else {
            nodes.len() as int
        };
        assert(requirement_views(requirements2) =~= requirement_views(requirements).push(
            (head, child, clause.0[1].1),
        )) by {
            assert forall|k: int| 0 <= k < requirements.len() implies requirement_views(
                requirements2,
            )[k] == requirement_views(requirements)[k] by {
                assert(requirements2.drop_last()[k] == requirements2[k]);
            }
        }
    }
}

/// The requirements of the node at `head` are founded on the
/// incompatibilities from the place `from` on, those of the nodes before it
/// on what was reported for them.
pub open spec fn founded_so_far(
    nodes: Seq<Summary<PackageId>>,
    requirements: Seq<Requirement>,
    reported: Seq<Vec<Incompatibility>>,
    incompats: Seq<Incompatibility>,
    head: int,
    from: int,
) -> bool {
    &&& forall|k: int| 0 <= k < requirements.len() ==> (#[trigger] requirements[k]).parent <= head
    &&& founded(nodes, requirements, reported, head)
    &&& forall|k: int|
        0 <= k < requirements.len() && (#[trigger] requirements[k]).parent == head ==> exists|j: int|
            from <= j < incompats.len() && founded_on(
                requirements[k],
                nodes,
                clause_of(#[trigger] incompats[j]),
            )
}

/// The dependencies of the node at `head` among the incompatibilities from
/// the place `from` on are met.
pub open spec fn met_so_far(
    nodes: Seq<Summary<PackageId>>,
    successors: Seq<Seq<int>>,
    incompats: Seq<Incompatibility>,
    head: int,
    from: int,
) -> bool {
    forall|j: int|
        from <= j < incompats.len() && depends(clause_of(#[trigger] incompats[j]), nodes[head])
            ==> met(nodes, successors, head, clause_of(incompats[j]))
}

/// What was met stays met when the incompatibility before it is taken up.
pub proof fn lemma_met_step(
    nodes: Seq<Summary<PackageId>>,
    successors: Seq<Seq<int>>,
    nodes2: Seq<Summary<PackageId>>,
    successors2: Seq<Seq<int>>,
    incompats: Seq<Incompatibility>,
    head: int,
    at: int,
)
    requires
        grown(nodes, successors, nodes2, successors2),
        0 <= head < nodes.len(),
        0 <= at < incompats.len(),
        met_so_far(nodes, successors, incompats, head, at + 1),
        depends(clause_of(incompats[at]), nodes[head]) ==> met(
            nodes2,
            successors2,
            head,
            clause_of(incompats[at]),
        ),
    ensures
        met_so_far(nodes2, successors2, incompats, head, at),
{
    assert(nodes2[head] == nodes[head]);
    assert forall|j: int|
        at <= j < incompats.len() && depends(
            clause_of(#[trigger] incompats[j]),
            nodes2[head],
        ) implies met(nodes2, successors2, head, clause_of(incompats[j])) by {
        if j > at {
            lemma_met_grown(nodes, successors, nodes2, successors2, head, clause_of(incompats[j]));
        }
    }
}

/// What the requirements are founded on stays so when one more
/// incompatibility is taken up.
pub proof fn lemma_founded_step(
    nodes: Seq<Summary<PackageId>>,
    nodes2: Seq<Summary<PackageId>>,
    requirements: Seq<Requirement>,
    requirements2: Seq<Requirement>,
    reported: Seq<Vec<Incompatibility>>,
    incompats: Seq<Incompatibility>,
    head: int,
    at: int,
)
    requires
        nodes.len() <= nodes2.len(),
        forall|k: int| 0 <= k < nodes.len() ==> #[trigger] nodes2[k] == nodes[k],
        0 <= head < nodes.len(),
        0 <= at < incompats.len(),
        founded_so_far(nodes, requirements, reported, incompats, head, at + 1),
        requirements2 == requirements || {
            &&& requirements2.len() > 0
            &&& requirements2.drop_last() == requirements
            &&& requirements2.last().parent == head
            &&& founded_on(requirements2.last(), nodes2, clause_of(incompats[at]))
        },
    ensures
        founded_so_far(nodes2, requirements2, reported, incompats, head, at),
{
    assert forall|k: int| 0 <= k < requirements2.len() implies {
        let r = #[trigger] requirements2[k];
        &&& r.parent <= head
        &&& r.parent < head ==> exists|j: int|
            0 <= j < reported[r.parent as int]@.len() && founded_on(
                r,
                nodes2,
                clause_of(#[trigger] reported[r.parent as int]@[j]),
            )
        &&& r.parent == head ==> exists|j: int|
            at <= j < incompats.len() && founded_on(r, nodes2, clause_of(#[trigger] incompats[j]))
    } by {
        let r = requirements2[k];
        if k < requirements.len() {
            assert(r == requirements[k]) by {
                if requirements2 != requirements {
                    assert(requirements2.drop_last()[k] == requirements2[k]);
                }
            }
            if r.parent < head {
                let j = choose|j: int|
                    0 <= j < reported[r.parent as int]@.len() && founded_on(
                        r,
                        nodes,
                        clause_of(#[trigger] reported[r.parent as int]@[j]),
                    );
                assert(nodes2[r.parent as int] == nodes[r.parent as int]);
                assert(nodes2[r.child as int] == nodes[r.child as int]);
                assert(founded_on(r, nodes2, clause_of(reported[r.parent as int]@[j])));
            } else {
                let j = choose|j: int|
                    at < j < incompats.len() && founded_on(r, nodes, clause_of(#[trigger] incompats[j]));
                assert(nodes2[r.parent as int] == nodes[r.parent as int]);
                assert(nodes2[r.child as int] == nodes[r.child as int]);
                assert(founded_on(r, nodes2, clause_of(incompats[j])));
            }
        } else {
            assert(requirements2.drop_last().len() == requirements.len());
            assert(r == requirements2.last());
            assert(founded_on(r, nodes2, clause_of(incompats[at])));
        }
    }
}

/// Once taking up the incompatibilities has failed it has failed for good.
pub proof fn lemma_joined_all_fails(
    p: Plan,
    log: Seq<EntryView>,
    head: int,
    views: Seq<IncompatView>,
    done: nat,
    all: nat,
)
    requires
        done <= all,
        joined_all(p, log, head, views, done) is Err,
    ensures
        joined_all(p, log, head, views, all) == joined_all(p, log, head, views, done),
    decreases all - done,
{
    reveal_with_fuel(joined_all, 2);
    if done < all {
        lemma_joined_all_fails(p, log, head, views, done + 1, all);
    }
}

/// Taking up one more incompatibility is taking up what came before it,
/// and then that one.
pub proof fn lemma_joined_all_step(
    p: Plan,
    log: Seq<EntryView>,
    head: int,
    views: Seq<IncompatView>,
    done: nat,
)
    ensures
        joined_all(p, log, head, views, 0) == Ok::<Plan, BuildEnd>(p),
        joined_all(p, log, head, views, done + 1) == (match joined_all(p, log, head, views, done) {
            Err(e) => Err(e),
            Ok(q) => joined(
                q,
                decided_from(log, views[views.len() - (done + 1)].0[1].0),
                head,
                views[views.len() - (done + 1)],
            ),
        }),
{
    reveal_with_fuel(joined_all, 2);
}

/// The building of a graph begins with the root alone.
pub proof fn lemma_built_first<R: Retriever>(
    source: &R,
    log: Seq<EntryView>,
    root: (PackageIdView, Version),
)
    ensures
        built(source, log, root, Seq::empty()) == BuildReach::Running(
            Plan {
                nodes: seq![root],
                successors: seq![Seq::<int>::empty()],
                requirements: Seq::empty(),
            },
        ),
{
    reveal_with_fuel(built, 2);
}

/// One more report takes the building of a graph one node on.
pub proof fn lemma_built_step<R: Retriever>(
    source: &R,
    log: Seq<EntryView>,
    root: (PackageIdView, Version),
    reports: Seq<Result<Seq<IncompatView>, RetrieveFailure>>,
    report: Result<Seq<IncompatView>, RetrieveFailure>,
    p: Plan,
)
    requires
        built(source, log, root, reports) == BuildReach::Running(p),
        reports.len() < p.nodes.len(),
        report is Ok ==> source.held(p.nodes[reports.len() as int].0, p.nodes[reports.len() as int].1)
            == Some(report->Ok_0),
    ensures
        built(source, log, root, reports.push(report)) == (match report {
            Err(failure) => BuildReach::Ended(BuildEnd::Failed(failure)),
            Ok(views) => match joined_all(p, log, reports.len() as int, views, views.len()) {
                Ok(q) => BuildReach::Running(q),
                Err(e) => BuildReach::Ended(e),
            },
        }),
{
    reveal_with_fuel(built, 2);
    assert(reports.push(report).drop_last() =~= reports);
}

/// While the building of a graph goes on, it stands the same with a source
/// that holds all that the first source holds.
pub proof fn lemma_built_stable<R: Retriever>(
    a: &R,
    b: &R,
    log: Seq<EntryView>,
    root: (PackageIdView, Version),
    reports: Seq<Result<Seq<IncompatView>, RetrieveFailure>>,
)
    requires
        forall|id: PackageIdView, v: Version| #[trigger]
            a.held(id, v) is Some ==> b.held(id, v) == a.held(id, v),
        built(a, log, root, reports) is Running,
    ensures
        built(b, log, root, reports) == built(a, log, root, reports),
    decreases reports.len(),
{
    reveal_with_fuel(built, 2);
    if reports.len() > 0 {
        lemma_built_stable(a, b, log, root, reports.drop_last());
        let p = built(a, log, root, reports.drop_last())->Running_0;
        let head = reports.len() - 1;
        assert(a.held(p.nodes[head].0, p.nodes[head].1) is Some);
    }
}

/// The list of packages names the nodes of the graph, in order, and the
/// graph has room for more.
pub open spec fn names_nodes(ids: Seq<PackageId>, g: Solution) -> bool {
    &&& ids.len() == graph_nodes(g).len()
    &&& ids.len() <= u32::MAX
    &&& graph_successors(g).len() == graph_nodes(g).len()
    &&& forall|i: int| 0 <= i < ids.len() ==> (#[trigger] ids[i])@ == graph_nodes(g)[i].id@
}

/// The packages as mathematics sees them, in order.
pub open spec fn package_views(s: Seq<PackageId>) -> Seq<PackageIdView> {
    s.map_values(|p: PackageId| p@)
}

fn holds_id(s: &Vec<PackageId>, id: &PackageId) -> (r: bool)
    ensures
        r == package_views(s@).contains(id@),
{
    let found = find_in(s, id);
    proof {
        let views = package_views(s@);
        if found is Some {
            assert(views[found->0 as int] == id@);
        } else if views.contains(id@) {
            let k = choose|k: int| 0 <= k < views.len() && views[k] == id@;
            assert(s@[k]@ == id@);
        }
    }
    found.is_some()
}

/// Where the first term for the package `id` is.
pub open spec fn first_term(terms: Seq<TermView>, id: PackageIdView, at: int) -> bool {
    &&& 0 <= at < terms.len()
    &&& terms[at].0 == id
    &&& forall|k: int| 0 <= k < at ==> (#[trigger] terms[k]).0 != id
}

/// The terms with one more term. Two terms for one package make one term,
/// which holds what both hold; it stands where the package had its term.
pub open spec fn with_term(terms: Seq<TermView>, t: TermView) -> Seq<TermView> {
    if exists|at: int| first_term(terms, t.0, at) {
        let at = choose|at: int| first_term(terms, t.0, at);
        let merged = intersection_of(terms[at].1, t.1);
        terms.map_values(
            |old: TermView|
                if old.0 == t.0 {
                    (old.0, merged)
                } else {
                    old
                },
        )
    } else {
        terms.push(t)
    }
}

/// Where the package of a term has its first term already, the two terms
/// make one, and every other term stays.
pub proof fn lemma_with_term(terms: Seq<TermView>, t: TermView, at: int)
    requires
        first_term(terms, t.0, at),
    ensures
        with_term(terms, t).len() == terms.len(),
        forall|j: int|
            0 <= j < terms.len() ==> #[trigger] with_term(terms, t)[j] == (if terms[j].0 == t.0 {
                (terms[j].0, intersection_of(terms[at].1, t.1))
            } else {
                terms[j]
            }),
{
    let found = choose|a: int| first_term(terms, t.0, a);
    assert(first_term(terms, t.0, found));
    if found < at {
        assert(terms[found].0 != t.0);
    } else if at < found {
        assert(terms[at].0 != t.0);
    }
}

/// The terms with the terms of `more` added one by one, but for those about
/// the package `but`.
pub open spec fn with_terms_but(terms: Seq<TermView>, more: Seq<TermView>, but: PackageIdView) -> Seq<
    TermView,
>
    decreases more.len(),
{
    if more.len() == 0 {
        terms
    } else {
        let before = with_terms_but(terms, more.drop_last(), but);
        if more.last().0 == but {
            before
        } else {
            with_term(before, more.last())
        }
    }
}

/// What follows from a conflict and from the cause of the derivation that
/// satisfied its last term, which is about `culprit`: the terms of both but
/// those about `culprit`, and, where the derivation admitted more than the
/// conflict's term, a term about `culprit` that holds all but that rest.
pub open spec fn resolved(
    conflict: Seq<TermView>,
    cause: Seq<TermView>,
    culprit: PackageIdView,
    difference: Option<Seq<Range>>,
) -> Seq<TermView> {
    let joined = with_terms_but(
        with_terms_but(Seq::empty(), conflict, culprit),
        cause,
        culprit,
    );
    match difference {
        Some(rest) => with_term(joined, (culprit, complement_of(rest))),
        None => joined,
    }
}

/// Adds a term to the terms of a new incompatibility.
pub fn add_term(terms: &mut IndexMap<PackageId, Constraint>, pkg: &PackageId, con: &Constraint)
    ensures
        term_views(map_terms(*final(terms))) == with_term(
            term_views(map_terms(*old(terms))),
            (pkg@, con@),
        ),
{
    let n = map_len(terms);
    let ghost before = map_terms(*terms);
    let ghost views = term_views(before);
    let mut i: usize = 0;
    let mut merged: Option<Constraint> = None;
    while i < n && merged.is_none()
        invariant
            i <= n,
            n == before.len(),
            before == map_terms(*terms),
            views == term_views(before),
            forall|k: int| 0 <= k < i ==> (#[trigger] views[k]).0 != pkg@,
            merged is Some ==> i < n && first_term(views, pkg@, i as int) && merged->0@
                == intersection_of(views[i as int].1, con@),
        decreases n - i + (if merged is None {
            1int
        } else {
            0int
        }),
    {
        let t = map_get(terms, i);
        if t.0.same(pkg) {
            let both = t.1.intersection(con);
            proof {
                lemma_intersection_of(t.1@, con@, both@);
                assert(views[i as int] == (t.0@, t.1@));
            }
            merged = Some(both);
        } else {
            proof {
                assert(views[i as int] == (t.0@, t.1@));
            }
            i += 1;
        }
    }
    match merged {
        Some(c) => {
            proof {
                assert(first_term(views, pkg@, i as int));
                assert(has_term(before, pkg@)) by {
                    assert(before[i as int].0@ == pkg@);
                }
                let at = choose|at: int| first_term(views, pkg@, at);
                assert(at == i) by {
                    if at < i {
                        assert(views[at].0 != pkg@);
                    } else if i < at {
                        assert(views[i as int].0 != pkg@);
                    }
                }
            }
            let ghost cv = c@;
            let _ = map_insert(terms, pkg.clone(), c);
            proof {
                let after = term_views(map_terms(*terms));
                let wanted = with_term(views, (pkg@, con@));
                lemma_with_term(views, (pkg@, con@), i as int);
                assert(map_terms(*terms).len() == before.len());
                assert(after.len() == wanted.len());
                assert forall|j: int| 0 <= j < after.len() implies after[j] == wanted[j] by {
                    assert(map_terms(*terms)[j] == (if before[j].0@ == pkg@ {
                        (before[j].0, c)
                    } else {
                        before[j]
                    }));
                    assert(views[j] == (before[j].0@, before[j].1@));
                }
                assert(after =~= wanted);
            }
        },
        None => {
            proof {
                if has_term(before, pkg@) {
                    let k = choose|k: int| 0 <= k < before.len() && (#[trigger] before[k]).0@ == pkg@;
                    assert(views[k].0 != pkg@);
                }
                if exists|at: int| first_term(views, pkg@, at) {
                    let at = choose|at: int| first_term(views, pkg@, at);
                    assert(views[at].0 != pkg@);
                }
            }
            let key = pkg.clone();
            let value = con.clone();
            let _ = map_insert(terms, key, value);
            proof {
                assert(term_views(map_terms(*terms)) =~= views.push((pkg@, con@)));
            }
        },
    }
}

/// Adds the terms of the incompatibility `inc` to `terms`, but for those
/// about the package `but`.
pub fn add_terms_but(terms: &mut IndexMap<PackageId, Constraint>, inc: &Incompatibility, but: &PackageId)
    ensures
        term_views(map_terms(*final(terms))) == with_terms_but(
            term_views(map_terms(*old(terms))),
            inc.terms(),
            but@,
        ),
{
    let n = inc.len();
    let ghost start = term_views(map_terms(*terms));
    let ghost more = inc.terms();
    let mut k: usize = 0;
    proof {
        assert(more.take(0) =~= Seq::<TermView>::empty());
    }
    while k < n
        invariant
            k <= n,
            n == more.len(),
            more == inc.terms(),
            term_views(map_terms(*terms)) == with_terms_but(start, more.take(k as int), but@),
        decreases n - k,
    {
        let term = inc.term(k);
        proof {
            assert(more.take(k + 1).drop_last() =~= more.take(k as int));
            assert(more.take(k + 1).last() == more[k as int]);
        }
        if !term.0.same(but) {
            add_term(terms, term.0, term.1);
        }
        k += 1;
    }
    proof {
        assert(more.take(n as int) =~= more);
    }
}

/// The steps of a proof written so far, and the numbers of the
/// incompatibilities that have a step.
pub struct Written {
    pub lines: Seq<Seq<char>>,
    pub numbers: Seq<Option<u16>>,
}

/// The sentence for an incompatibility; one that has not the number of terms
/// that its cause asks for cannot be worded.
pub open spec fn sentence_text(clause: IncompatView) -> Seq<char> {
    if shaped(clause.0, clause.1) {
        incompat_text(clause.0, clause.1)
    } else {
        "some packages cannot go together"@
    }
}

/// The sentence that names the two causes of a step.
pub open spec fn causes_text(
    left: IncompatView,
    left_number: Option<u16>,
    right: IncompatView,
    right_number: Option<u16>,
) -> Seq<char> {
    if shaped(left.0, left.1) && shaped(right.0, right.1) {
        combined_text(left.0, left.1, left_number, right.0, right.1, right_number)
    } else {
        sentence_text(left) + " and "@ + sentence_text(right)
    }
}

/// The number that the next step gets.
pub open spec fn next_number(lines: nat) -> u16 {
    if lines < 65535 {
        (lines + 1) as u16
    } else {
        u16::MAX
    }
}

/// The proof so far with the steps that lead to the incompatibility at
/// `icix`: first those that lead to its two causes, if it follows from
/// others, then the step that states it, with the next free number. An
/// incompatibility that has a number already is not written again.
pub open spec fn explained(clauses: Seq<IncompatView>, icix: int, w: Written) -> Written
    decreases icix,
{
    if !(0 <= icix < clauses.len()) || clauses.len() != w.numbers.len() || w.numbers[icix] is Some {
        w
    } else {
        let clause = clauses[icix];
        let follows = clause.1 is Derived && clause.1->Derived_0 < icix && clause.1->Derived_1 < icix;
        let before = if follows {
            explained(clauses, clause.1->Derived_1 as int, explained(clauses, clause.1->Derived_0 as int, w))
        } else {
            w
        };
        let body = if follows {
            "Because "@ + causes_text(
                clauses[clause.1->Derived_0 as int],
                before.numbers[clause.1->Derived_0 as int],
                clauses[clause.1->Derived_1 as int],
                before.numbers[clause.1->Derived_1 as int],
            ) + ", "@ + sentence_text(clause) + "."@
        } else {
            sentence_text(clause) + "."@
        };
        let number = next_number(before.lines.len());
        Written {
            lines: before.lines.push(body + " ("@ + crate::text::decimal(number as nat) + ")"@),
            numbers: before.numbers.update(icix, Some(number)),
        }
    }
}

/// Writing steps keeps the number of incompatibilities that can have one.
pub proof fn lemma_explained(clauses: Seq<IncompatView>, icix: int, w: Written)
    ensures
        explained(clauses, icix, w).numbers.len() == w.numbers.len(),
        explained(clauses, icix, w).lines.len() >= w.lines.len(),
    decreases icix,
{
    if 0 <= icix < clauses.len() && clauses.len() == w.numbers.len() && w.numbers[icix] is None {
        let clause = clauses[icix];
        if clause.1 is Derived && clause.1->Derived_0 < icix && clause.1->Derived_1 < icix {
            lemma_explained(clauses, clause.1->Derived_0 as int, w);
            lemma_explained(
                clauses,
                clause.1->Derived_1 as int,
                explained(clauses, clause.1->Derived_0 as int, w),
            );
        }
    }
}

/// No steps, and no incompatibility with a number.
pub open spec fn unwritten(clauses: nat) -> Written {
    Written { lines: Seq::empty(), numbers: Seq::new(clauses, |i: int| None::<u16>) }
}

/// The proof that there is no solution, from the incompatibility at `icix`
/// back to the dependencies that it follows from, one step to a line.
pub open spec fn proof_text_of(clauses: Seq<IncompatView>, icix: int) -> Seq<char> {
    join(explained(clauses, icix, unwritten(clauses.len())).lines, seq!['\n'])
}

/// The proof that is written for an incompatibility of the store is never
/// empty.
pub proof fn law_proof_is_not_empty(clauses: Seq<IncompatView>, icix: int)
    requires
        0 <= icix < clauses.len(),
    ensures
        proof_text_of(clauses, icix).len() > 0,
{
    let start = unwritten(clauses.len());
    let clause = clauses[icix];
    let lines = explained(clauses, icix, start).lines;
    assert(lines.len() > 0 && lines.last().len() > 0) by {
        reveal_strlit(")");
        if clause.1 is Derived && clause.1->Derived_0 < icix && clause.1->Derived_1 < icix {
            lemma_explained(clauses, clause.1->Derived_0 as int, start);
            lemma_explained(
                clauses,
                clause.1->Derived_1 as int,
                explained(clauses, clause.1->Derived_0 as int, start),
            );
        }
    }
    if lines.len() > 1 {
        assert(join(lines, seq!['\n']) == join(lines.drop_last(), seq!['\n']) + seq!['\n']
            + lines.last());
    }
}

/// The incompatibility shows that there is no solution: it has no terms, or
/// its only term is about the root.
pub open spec fn is_failure(clause: IncompatView) -> bool {
    clause.0.len() == 0 || (clause.0.len() == 1 && clause.0[0].0 == PackageIdView::Root)
}

/// The candidate at `a` is to be decided on before the candidate at `b`: it
/// has fewer versions, or as many and comes first in the order of packages.
pub open spec fn goes_first(
    candidates: Seq<(PackageId, Constraint)>,
    counts: Seq<usize>,
    a: int,
    b: int,
) -> bool {
    counts[a] < counts[b] || (counts[a] == counts[b] && candidates[a].0@.less(candidates[b].0@))
}

/// Picks the candidate to decide on next, given how many versions each has:
/// the first in the list before which no other candidate goes.
pub fn pick_candidate(candidates: &Vec<(PackageId, Constraint)>, counts: &Vec<usize>) -> (r: Option<
    usize,
>)
    requires
        counts@.len() == candidates@.len(),
    ensures
        r is None <==> candidates@.len() == 0,
        r is Some ==> r->0 < candidates@.len(),
        r is Some ==> forall|k: int|
            0 <= k < candidates@.len() ==> !goes_first(candidates@, counts@, k, r->0 as int),
        r is Some ==> forall|k: int|
            0 <= k < r->0 ==> goes_first(candidates@, counts@, r->0 as int, k),
{
    let n = candidates.len();
    if n == 0 {
        return None;
    }
    let mut chosen: usize = 0;
    let mut i: usize = 1;
    proof {
        lemma_goes_first(candidates@, counts@, 0, 0, 0);
    }
    while i < n
        invariant
            1 <= i <= n,
            n == candidates@.len(),
            n == counts@.len(),
            chosen < i,
            forall|k: int| 0 <= k < i ==> !goes_first(candidates@, counts@, k, chosen as int),
            forall|k: int| 0 <= k < chosen ==> goes_first(candidates@, counts@, chosen as int, k),
        decreases n - i,
    {
        let better = counts[i] < counts[chosen] || (counts[i] == counts[chosen]
            && candidates[i].0.precedes(&candidates[chosen].0));
        if better {
            proof {
                assert forall|k: int| 0 <= k < i + 1 implies !goes_first(
                    candidates@,
                    counts@,
                    k,
                    i as int,
                ) by {
                    lemma_goes_first(candidates@, counts@, k, i as int, chosen as int);
                    lemma_goes_first(candidates@, counts@, i as int, i as int, i as int);
                }
                assert forall|k: int| 0 <= k < i implies goes_first(
                    candidates@,
                    counts@,
                    i as int,
                    k,
                ) by {
                    lemma_goes_first(candidates@, counts@, i as int, chosen as int, k);
                }
            }
            chosen = i;
        }
        i += 1;
    }
    Some(chosen)
}

/// Going first is a strict order, and what goes before a candidate goes
/// before all that do not go before that candidate.
pub proof fn lemma_goes_first(
    candidates: Seq<(PackageId, Constraint)>,
    counts: Seq<usize>,
    a: int,
    b: int,
    c: int,
)
    ensures
        !goes_first(candidates, counts, a, a),
        goes_first(candidates, counts, a, b) && goes_first(candidates, counts, b, c) ==> goes_first(
            candidates,
            counts,
            a,
            c,
        ),
        goes_first(candidates, counts, a, b) && !goes_first(candidates, counts, c, b) ==> goes_first(
            candidates,
            counts,
            a,
            c,
        ),
{
    lemma_id_order(candidates[a].0@, candidates[b].0@, candidates[c].0@);
    lemma_id_order(candidates[b].0@, candidates[c].0@, candidates[a].0@);
    lemma_id_order(candidates[c].0@, candidates[b].0@, candidates[a].0@);
}

/// The order of packages is a strict total order.
pub proof fn lemma_id_order(a: PackageIdView, b: PackageIdView, c: PackageIdView)
    ensures
        !a.less(a),
        a.less(b) ==> !b.less(a),
        a != b ==> a.less(b) || b.less(a),
        a.less(b) && b.less(c) ==> a.less(c),
{
    match (a, b, c) {
        (PackageIdView::Pkg(x), PackageIdView::Pkg(y), PackageIdView::Pkg(z)) => {
            crate::package::name::lemma_name_order(x, y, z);
        },
        (PackageIdView::Pkg(x), PackageIdView::Pkg(y), _) => {
            crate::package::name::lemma_name_order(x, y, x);
        },
        (PackageIdView::Pkg(x), _, _) => {
            crate::package::name::lemma_name_order(x, x, x);
        },
        _ => {},
    }
}

/// How the tracing of a conflict ends.
pub enum TraceEnd {
    /// No step was left to take.
    Spent,
    /// The incompatibility at this place shows that there is no solution.
    Failure(usize),
    /// The log does not satisfy every term of the incompatibility at this
    /// place, or the incompatibility has no term.
    Stuck(usize),
    /// The search goes back to the level, and the incompatibility at this
    /// place is what it has learned.
    Back(usize, u16),
}

/// What the tracing of a conflict comes to: the incompatibilities with
/// those that were learned on the way, how it ends, and the steps that are
/// left.
pub struct Trace {
    pub clauses: Seq<IncompatView>,
    pub end: TraceEnd,
    pub budget: nat,
}

/// The tracing of the conflict at `at` against the log, round by round.
///
/// A round takes one step. An incompatibility without terms, or with the
/// root as its only term, ends the tracing: there is no solution. Else the
/// term that the log satisfied last is found. If a decision satisfied it,
/// or the other terms were satisfied at a lower level, the search goes back
/// to that level with this incompatibility. Else what follows from it and
/// from the cause of the derivation that satisfied the term is taken up as
/// a new incompatibility, and the next round traces that.
pub open spec fn traced(log: Seq<EntryView>, clauses: Seq<IncompatView>, at: usize, budget: nat) -> Trace
    decreases budget,
{
    if budget == 0 {
        Trace { clauses, end: TraceEnd::Spent, budget }
    } else if is_failure(clauses[at as int]) {
        Trace { clauses, end: TraceEnd::Failure(at), budget: (budget - 1) as nat }
    } else {
        match analysed(log, clauses[at as int].0, clauses[at as int].0.len()) {
            None => Trace { clauses, end: TraceEnd::Stuck(at), budget: (budget - 1) as nat },
            Some(a) => if a.satisfier < 0 {
                Trace { clauses, end: TraceEnd::Stuck(at), budget: (budget - 1) as nat }
            } else {
                let entry = log[a.satisfier];
                if entry.cause is None || a.previous_level < entry.level {
                    Trace {
                        clauses,
                        end: TraceEnd::Back(at, a.previous_level),
                        budget: (budget - 1) as nat,
                    }
                } else {
                    let learned = (
                        resolved(
                            clauses[at as int].0,
                            clauses[entry.cause->0 as int].0,
                            entry.pkg,
                            a.difference,
                        ),
                        IncompatibilityCause::Derived(at, entry.cause->0),
                    );
                    traced(log, clauses.push(learned), clauses.len() as usize, (budget - 1) as nat)
                }
            },
        }
    }
}

/// How the drawing of what follows ends.
pub enum PassEnd {
    /// Nothing is left to go through, and a pass over all
    /// incompatibilities yielded nothing.
    Rest,
    /// No step was left to take, or the log could not take another entry.
    Spent,
    /// The incompatibility at this place shows that there is no solution.
    Failure(usize),
    /// A conflict was traced to the incompatibility at this place, which the
    /// log does not satisfy.
    Stuck(usize),
    /// A conflict was traced back, and nothing new follows from the
    /// incompatibility at this place, which was learned from it.
    Idle(usize),
}

/// Where a pass over the incompatibilities stands: the search, the packages
/// for which something new was derived, whether nothing has followed yet,
/// and how all ends if it ends here.
pub struct Pass {
    pub state: Search,
    pub changed: Seq<PackageIdView>,
    pub calm: bool,
    pub end: Option<PassEnd>,
}

/// What the drawing of what follows comes to: the search, and how it ends.
pub struct Outcome {
    pub state: Search,
    pub end: PassEnd,
}

/// The incompatibility is one to go through for `package`: it has a term
/// about it; with no package given, every incompatibility is.
pub open spec fn about(clause: IncompatView, package: Option<PackageIdView>) -> bool {
    package is None || exists|i: int|
        0 <= i < clause.0.len() && (#[trigger] clause.0[i]).0 == package->0
}

/// The packages with `name` added at the end, unless they hold it.
pub open spec fn noted(changed: Seq<PackageIdView>, name: PackageIdView) -> Seq<PackageIdView> {
    if changed.contains(name) {
        changed
    } else {
        changed.push(name)
    }
}

/// What a pass comes to at a conflict with the incompatibility at `at`: the
/// conflict is traced back. If that ends the search, all ends. Else the
/// search goes back, the incompatibility that was learned is held against
/// the log, and the pass ends with the package for which that derives
/// something as the only one to go through; if it derives nothing, all
/// ends.
pub open spec fn resolved_pass(s: Search, at: usize) -> Pass {
    let t = traced(s.log, s.clauses, at, s.budget);
    let after = Search { clauses: t.clauses, budget: t.budget, ..s };
    let none = Seq::<PackageIdView>::empty();
    match t.end {
        TraceEnd::Spent => Pass { state: after, changed: none, calm: false, end: Some(PassEnd::Spent) },
        TraceEnd::Failure(x) => Pass {
            state: after,
            changed: none,
            calm: false,
            end: Some(PassEnd::Failure(x)),
        },
        TraceEnd::Stuck(x) => Pass {
            state: after,
            changed: none,
            calm: false,
            end: Some(PassEnd::Stuck(x)),
        },
        TraceEnd::Back(root, level) => {
            let back = Search { log: s.log.take(kept(s.log, level)), level, ..after };
            let u = unit_step(back.log, back.clauses[root as int], root, level);
            let then = Search { log: u.log, ..back };
            match u.end {
                UnitEnd::Derived(name) => Pass {
                    state: then,
                    changed: seq![name],
                    calm: false,
                    end: None,
                },
                UnitEnd::Full => Pass {
                    state: then,
                    changed: none,
                    calm: false,
                    end: Some(PassEnd::Spent),
                },
                _ => Pass { state: then, changed: none, calm: false, end: Some(PassEnd::Idle(root)) },
            }
        },
    }
}

/// A pass over the incompatibilities below the place `icix`, from the
/// latest to the first. Each that is to be gone through for `package` is
/// held against the log. What is derived is written to the log, and its
/// package is noted. A conflict is resolved, which ends the pass.
pub open spec fn passed(
    s: Search,
    package: Option<PackageIdView>,
    icix: nat,
    changed: Seq<PackageIdView>,
    calm: bool,
) -> Pass
    decreases icix,
{
    if icix == 0 {
        Pass { state: s, changed, calm, end: None }
    } else {
        let at = (icix - 1) as nat;
        if !about(s.clauses[at as int], package) {
            passed(s, package, at, changed, calm)
        } else {
            let u = unit_step(s.log, s.clauses[at as int], at as usize, s.level);
            match u.end {
                UnitEnd::Nothing => passed(s, package, at, changed, calm),
                UnitEnd::Full => Pass { state: s, changed, calm, end: Some(PassEnd::Spent) },
                UnitEnd::Derived(name) => passed(
                    Search { log: u.log, ..s },
                    package,
                    at,
                    noted(changed, name),
                    false,
                ),
                UnitEnd::Conflict => resolved_pass(s, at as usize),
            }
        }
    }
}

/// What comes after a pass for `package`: where the pass ended all, that
/// is the end. Where the pass went over all incompatibilities and nothing
/// followed, all is at rest. Else the next pass is made.
pub open spec fn finish(p: Pass, package: Option<PackageIdView>, fuel: nat) -> Outcome
    decreases fuel, 0nat,
{
    if p.end is Some {
        Outcome { state: p.state, end: p.end->0 }
    } else if package is None && p.calm {
        Outcome { state: p.state, end: PassEnd::Rest }
    } else if fuel == 0 {
        Outcome { state: p.state, end: PassEnd::Spent }
    } else {
        propagated_from(p.state, p.changed, (fuel - 1) as nat)
    }
}

/// The drawing of what follows, pass by pass, with `changed` as the
/// packages to go through. A pass takes one step. It goes through the
/// incompatibilities about the last of the packages, or through all of
/// them if no package is left.
pub open spec fn propagated_from(s: Search, changed: Seq<PackageIdView>, fuel: nat) -> Outcome
    decreases fuel, 1nat,
{
    if s.budget == 0 {
        Outcome { state: s, end: PassEnd::Spent }
    } else {
        let package = if changed.len() > 0 {
            Some(changed.last())
        } else {
            None
        };
        let rest = if changed.len() > 0 {
            changed.drop_last()
        } else {
            changed
        };
        finish(
            passed(Search { budget: (s.budget - 1) as nat, ..s }, package, s.clauses.len(), rest, true),
            package,
            fuel,
        )
    }
}

/// What drawing all that follows comes to, beginning with the
/// incompatibilities about `pkg`.
pub open spec fn propagated(s: Search, pkg: PackageIdView) -> Outcome {
    propagated_from(s, seq![pkg], s.budget)
}

/// After the entries of `log` the package is needed and no version is
/// decided on for it.
pub open spec fn waiting_in(log: Seq<EntryView>, id: PackageIdView) -> bool {
    known_from(log, id) is Some && known_from(log, id)->0.positive && decided_from(log, id) is None
}

/// After the entries of `log` every term of the incompatibility that is not
/// about `id` holds.
pub open spec fn strikes_in(log: Seq<EntryView>, clause: IncompatView, id: PackageIdView) -> bool {
    forall|i: int|
        0 <= i < clause.0.len() ==> (#[trigger] clause.0[i]).0 == id || holds_in(log, clause.0, i)
}

/// One of the incompatibilities strikes at `id`.
pub open spec fn any_strikes_in(
    log: Seq<EntryView>,
    views: Seq<IncompatView>,
    id: PackageIdView,
) -> bool {
    exists|i: int| 0 <= i < views.len() && strikes_in(log, #[trigger] views[i], id)
}

/// What the source of packages said in one round of the search: the
/// package that was picked by the numbers of versions that it gave, the
/// version to try first, if it has one, and what it reported for that
/// version.
pub struct Answer {
    pub picked: PackageIdView,
    pub best: Option<Version>,
    pub reported: Result<Seq<IncompatView>, RetrieveFailure>,
}

/// How a search ends.
pub enum SearchEnd {
    /// Every package that is needed has its version.
    Done,
    /// Drawing what follows ended the search.
    Drawn(PassEnd),
    /// The source of packages failed to report.
    Failed(RetrieveFailure),
    /// The source of packages reported an incompatibility as following from
    /// others.
    Derived,
    /// A decision was to be made, and the log or the levels could not take
    /// another.
    Full,
    /// The package picked is not one that waits for a decision.
    Astray,
}

/// Where a search stands: going on with a package, or ended.
pub enum Reach {
    Running(Search, PackageIdView),
    Ended(Search, SearchEnd),
}

/// The search once the source of packages has answered for the package
/// picked. Without a version to try, that is taken up as an
/// incompatibility. Else what was reported is taken up, and the decision is
/// made unless one of the incompatibilities strikes at the package.
pub open spec fn decided_with(s: Search, answer: Answer) -> Reach {
    let id = answer.picked;
    match answer.best {
        None => Reach::Running(
            Search {
                clauses: s.clauses.push(
                    (
                        seq![(id, known_from(s.log, id)->0.constraint)],
                        IncompatibilityCause::Unavailable,
                    ),
                ),
                ..s
            },
            id,
        ),
        Some(version) => match answer.reported {
            Err(failure) => Reach::Ended(s, SearchEnd::Failed(failure)),
            Ok(views) => if any_derived(views) {
                Reach::Ended(s, SearchEnd::Derived)
            } else {
                let taken = Search { clauses: s.clauses + views, ..s };
                if any_strikes_in(s.log, views, id) {
                    Reach::Running(taken, id)
                } else if s.log.len() >= u16::MAX || s.level == u16::MAX {
                    Reach::Ended(taken, SearchEnd::Full)
                } else {
                    Reach::Running(
                        Search {
                            log: s.log.push(
                                decision_entry(s.log.len() as u16, (s.level + 1) as u16, id, version),
                            ),
                            level: (s.level + 1) as u16,
                            ..taken
                        },
                        id,
                    )
                }
            },
        },
    }
}

/// One round of the search for the package `p`: a step is taken, all that
/// follows is drawn, and if a package still waits, the one picked is
/// decided on with what the source of packages answered.
pub open spec fn round(s: Search, p: PackageIdView, answer: Answer) -> Reach {
    if s.budget == 0 {
        Reach::Ended(s, SearchEnd::Drawn(PassEnd::Spent))
    } else {
        let o = propagated(Search { budget: (s.budget - 1) as nat, ..s }, p);
        if !(o.end is Rest) {
            Reach::Ended(o.state, SearchEnd::Drawn(o.end))
        } else if forall|id: PackageIdView| !waiting_in(o.state.log, id) {
            Reach::Ended(o.state, SearchEnd::Done)
        } else if !waiting_in(o.state.log, answer.picked) {
            Reach::Ended(o.state, SearchEnd::Astray)
        } else {
            decided_with(o.state, answer)
        }
    }
}

/// Where the search for `p` stands after the rounds in which the source of
/// packages gave the answers.
pub open spec fn reach(s: Search, p: PackageIdView, answers: Seq<Answer>) -> Reach
    decreases answers.len(),
{
    if answers.len() == 0 {
        Reach::Running(s, p)
    } else {
        match reach(s, p, answers.drop_last()) {
            Reach::Running(then, next) => round(then, next, answers.last()),
            Reach::Ended(then, end) => Reach::Ended(then, end),
        }
    }
}

/// The answer is one that the source gave: what it holds for the version to
/// try is what was reported.
pub open spec fn sourced<R: Retriever>(source: &R, answer: Answer) -> bool {
    answer.best is Some && answer.reported is Ok ==> source.held(answer.picked, answer.best->0)
        == Some(answer.reported->Ok_0)
}

/// The error of a result, if it is one.
pub open spec fn failure_of<T>(r: Result<T, ResolveError>) -> Option<ResolveError> {
    match r {
        Ok(_) => None,
        Err(e) => Some(e),
    }
}

/// The error, or that there is none, is what the end of the search asks
/// for.
pub open spec fn fits(r: Option<ResolveError>, end: SearchEnd, clauses: Seq<IncompatView>) -> bool {
    match end {
        SearchEnd::Done => r is None,
        SearchEnd::Drawn(PassEnd::Rest) => false,
        SearchEnd::Drawn(PassEnd::Spent) => r is Some && r->0 is GaveUp,
        SearchEnd::Drawn(PassEnd::Failure(at)) => r is Some && r->0 is NoResolution
            && r->0->NoResolution_0@ == proof_text_of(clauses, at as int),
        SearchEnd::Drawn(PassEnd::Stuck(at)) => r is Some && r->0 is Inconsistent,
        SearchEnd::Drawn(PassEnd::Idle(at)) => r is Some && r->0 is Inconsistent
            && r->0->Inconsistent_0@ == nothing_follows(),
        SearchEnd::Failed(failure) => r is Some && r->0 is Retrieve && r->0->Retrieve_0@ == failure,
        SearchEnd::Derived => r is Some && r->0 is Inconsistent,
        SearchEnd::Full => r is Some && r->0 is GaveUp,
        SearchEnd::Astray => false,
    }
}

/// The search has ended in the state `state`, with the error, or without
/// one, that its end asks for.
pub open spec fn ended(reach: Reach, state: Search, failure: Option<ResolveError>) -> bool {
    match reach {
        Reach::Running(then, id) => false,
        Reach::Ended(then, end) => state == then && fits(failure, end, then.clauses),
    }
}

/// What says that the root must be had at its version.
pub open spec fn root_clause(root: Summary<PackageId>) -> IncompatView {
    (seq![(root.id@, complement_of(exactly(root.version)))], IncompatibilityCause::Root)
}

/// The search with that taken up which says that the root must be had at
/// its version.
pub open spec fn begun(s: Search, root: Summary<PackageId>) -> Search {
    Search { clauses: s.clauses.push(root_clause(root)), ..s }
}

/// The search has ended in the state `state`. If it ended with an error,
/// that is the error. If it ended with every needed package decided, the
/// graph was built from what the source holds for the nodes, and the result
/// is what that came to.
pub open spec fn resolved_with<R: Retriever>(
    reach: Reach,
    state: Search,
    r: Result<Resolution, ResolveError>,
    source: &R,
    root: (PackageIdView, Version),
) -> bool {
    match reach {
        Reach::Running(then, id) => false,
        Reach::Ended(then, end) => state == then && if end is Done {
            exists|reports: Seq<Result<Seq<IncompatView>, RetrieveFailure>>|
                drawn(#[trigger] built(source, then.log, root, reports), reports.len(), r)
        } else {
            fits(failure_of(r), end, then.clauses)
        },
    }
}

/// The state and the result of a decision are what `reach` says: the
/// search goes on with the package that was decided on, or it has ended
/// with the error that the end asks for.
pub open spec fn stands(state: Search, r: Result<Option<PackageId>, ResolveError>, reach: Reach) -> bool {
    match reach {
        Reach::Running(then, id) => state == then && r is Ok && r->Ok_0 is Some && r->Ok_0->0@ == id,
        Reach::Ended(then, end) => state == then && r is Err && fits(
            failure_of(r),
            end,
            then.clauses,
        ),
    }
}

/// The terms of the incompatibility that follows from a conflict and from
/// the cause of the derivation that satisfied the conflict's last term.
pub fn resolved_terms(
    conflict: &Incompatibility,
    cause: &Incompatibility,
    culprit: &PackageId,
    difference: &Option<Constraint>,
) -> (r: IndexMap<PackageId, Constraint>)
    ensures
        term_views(map_terms(r)) == resolved(
            conflict.terms(),
            cause.terms(),
            culprit@,
            match *difference {
                Some(rest) => Some(rest@),
                None => None,
            },
        ),
{
    let mut terms = map_new();
    proof {
        assert(term_views(map_terms(terms)) =~= Seq::<TermView>::empty());
    }
    add_terms_but(&mut terms, conflict, culprit);
    add_terms_but(&mut terms, cause, culprit);
    match difference {
        Some(rest) => {
            let outside = rest.complement();
            proof {
                lemma_complement_of(rest@, outside@);
            }
            add_term(&mut terms, culprit, &outside);
        },
        None => {},
    }
    terms
}

impl Resolver {
    /// The sentence for the incompatibility at `icix`.
    fn sentence(&self, icix: usize) -> (s: String)
        requires
            icix < self.clauses().len(),
        ensures
            s@ == sentence_text(self.clauses()[icix as int]),
    {
        let inc = self.incompat(icix);
        if inc.is_shaped() {
            inc.show()
        } else {
            "some packages cannot go together".to_owned()
        }
    }

    /// Writes the steps that lead to the incompatibility at `icix`: first
    /// those that lead to its two causes, if it has causes, then the step
    /// that draws it from them. Every step is written once and gets the
    /// next free number.
    fn explain(&self, icix: usize, lines: &mut Vec<String>, numbers: &mut Vec<Option<u16>>)
        requires
            self.wf(),
            icix < self.clauses().len(),
            old(numbers)@.len() == self.clauses().len(),
        ensures
            final(numbers)@.len() == self.clauses().len(),
            (Written { lines: string_views(final(lines)@), numbers: final(numbers)@ }) == explained(
                self.clauses(),
                icix as int,
                Written { lines: string_views(old(lines)@), numbers: old(numbers)@ },
            ),
        decreases icix,
    {
        let ghost clauses = self.clauses();
        let ghost start = Written { lines: string_views(lines@), numbers: numbers@ };
        if numbers[icix].is_some() {
            return ;
        }
        let inc = self.incompat(icix);
        let mut line = String::new();
        match inc.derived() {
            Some(causes) => {
                let (left, right) = causes;
                self.explain(left, lines, numbers);
                proof {
                    lemma_explained(clauses, left as int, start);
                }
                let ghost mid = Written { lines: string_views(lines@), numbers: numbers@ };
                self.explain(right, lines, numbers);
                proof {
                    lemma_explained(clauses, right as int, mid);
                }
                let first = self.incompat(left);
                let second = self.incompat(right);
                line.append("Because ");
                if first.is_shaped() && second.is_shaped() {
                    line.append(
                        first.show_combine(second, numbers[left], numbers[right]).as_str(),
                    );
                } else {
                    line.append(self.sentence(left).as_str());
                    line.append(" and ");
                    line.append(self.sentence(right).as_str());
                }
                line.append(", ");
                line.append(self.sentence(icix).as_str());
                line.append(".");
                proof {
                    let clause = clauses[icix as int];
                    assert(clause.1 is Derived && clause.1->Derived_0 == left && clause.1->Derived_1
                        == right);
                    assert(left < icix && right < icix);
                    let before = explained(
                        clauses,
                        right as int,
                        explained(clauses, left as int, start),
                    );
                    assert(before == (Written { lines: string_views(lines@), numbers: numbers@ }));
                    assert(line@ =~= "Because "@ + causes_text(
                        clauses[left as int],
                        numbers@[left as int],
                        clauses[right as int],
                        numbers@[right as int],
                    ) + ", "@ + sentence_text(clause) + "."@);
                }
            },
            None => {
                line.append(self.sentence(icix).as_str());
                line.append(".");
                proof {
                    let clause = clauses[icix as int];
                    assert(!(clause.1 is Derived));
                    assert(line@ =~= sentence_text(clause) + "."@);
                }
            },
        }
        let ghost body = line@;
        let number: u16 = if lines.len() < 65535 {
            (lines.len() + 1) as u16
        } else {
            u16::MAX
        };
        line.append(" (");
        push_decimal(&mut line, number as u64);
        line.append(")");
        let ghost held = lines@;
        lines.push(line);
        numbers.set(icix, Some(number));
        proof {
            let wanted = explained(clauses, icix as int, start);
            assert(number == next_number(held.len()));
            assert(string_views(held).len() == held.len());
            assert(line@ =~= body + " ("@ + crate::text::decimal(number as nat) + ")"@);
            assert(string_views(lines@) =~= string_views(held).push(line@));
            assert(string_views(lines@) =~= wanted.lines);
            assert(numbers@ =~= wanted.numbers);
        }
    }

    /// The proof that there is no solution, from the incompatibility at
    /// `icix` back to the dependencies that it follows from.
    fn proof_text(&self, icix: usize) -> (s: String)
        requires
            self.wf(),
            icix < self.clauses().len(),
        ensures
            s@ == proof_text_of(self.clauses(), icix as int),
    {
        let mut numbers: Vec<Option<u16>> = Vec::new();
        let n = self.known();
        let mut i: usize = 0;
        while i < n
            invariant
                i <= n,
                numbers@.len() == i,
                forall|k: int| 0 <= k < i ==> numbers@[k] is None,
            decreases n - i,
        {
            numbers.push(None);
            i += 1;
        }
        let mut lines: Vec<String> = Vec::new();
        proof {
            assert(numbers@ =~= unwritten(n as nat).numbers);
            assert(string_views(lines@) =~= unwritten(n as nat).lines);
        }
        self.explain(icix, &mut lines, &mut numbers);
        proof {
            reveal_strlit("\n");
            assert("\n"@ =~= seq!['\n']);
        }
        join_strings(&lines, "\n")
    }

    /// Traces the conflict at `start` back to its root cause: an
    /// incompatibility from which, after going back to an earlier decision,
    /// something new can be derived. If the cause is that there is no
    /// solution at all, that is the error.
    ///
    /// In every round the term of the conflict is found that was satisfied
    /// last, and the level up to which the other terms were satisfied. If
    /// the last term was satisfied by a decision, or at a higher level than
    /// the others, the search goes back to that level. Else the conflict is
    /// replaced by what follows from it and from the cause of the derivation
    /// that satisfied the last term.
    #[verifier::loop_isolation(false)]
    pub fn resolve_conflict(&mut self, start: usize) -> (r: Result<usize, ResolveError>)
        requires
            old(self).wf(),
            start < old(self).clauses().len(),
        ensures
            final(self).wf(),
            final(self).budget() <= old(self).budget(),
            final(self).extends(old(self)),
            r is Ok ==> r->Ok_0 < final(self).clauses().len(),
            r is Err && r->Err_0 is NoResolution ==> exists|at: int|
                0 <= at < final(self).clauses().len() && is_failure(
                    #[trigger] final(self).clauses()[at],
                ) && r->Err_0->NoResolution_0@ == proof_text_of(final(self).clauses(), at),
            r is Ok ==> exists|k: int|
                0 <= k <= old(self).log().len() && final(self).log() == #[trigger] old(self).log().take(k),
            r is Err ==> !(r->Err_0 is Retrieve),
            r is Err && r->Err_0 is GaveUp ==> final(self).budget() == 0,
            r is Err ==> final(self).log() == old(self).log(),
            r is Err ==> final(self).level() == old(self).level(),
            r is Err && r->Err_0 is Inconsistent ==> exists|at: int|
                0 <= at < final(self).clauses().len() && stuck(
                    final(self).log(),
                    #[trigger] final(self).clauses()[at],
                ),
            ({
                let t = traced(
                    old(self).log(),
                    old(self).clauses(),
                    start,
                    old(self).budget() as nat,
                );
                &&& final(self).clauses() == t.clauses
                &&& final(self).budget() == t.budget
                &&& match t.end {
                    TraceEnd::Spent => r is Err && r->Err_0 is GaveUp && final(self).log() == old(
                        self,
                    ).log(),
                    TraceEnd::Failure(at) => {
                        &&& r is Err
                        &&& r->Err_0 is NoResolution
                        &&& r->Err_0->NoResolution_0@ == proof_text_of(t.clauses, at as int)
                        &&& final(self).log() == old(self).log()
                    },
                    TraceEnd::Stuck(at) => r is Err && r->Err_0 is Inconsistent && final(self).log()
                        == old(self).log(),
                    TraceEnd::Back(at, level) => {
                        &&& r == Ok::<usize, ResolveError>(at)
                        &&& final(self).level() == level
                        &&& final(self).log() == old(self).log().take(
                            kept(old(self).log(), level),
                        )
                    },
                }
            }),
    {
        let mut inc = start;
        loop
            invariant
                self.wf(),
                inc < self.clauses().len(),
                self.budget() <= old(self).budget(),
                self.extends(old(self)),
                self.log() == old(self).log(),
                self.level() == old(self).level(),
                traced(old(self).log(), old(self).clauses(), start, old(self).budget() as nat)
                    == traced(self.log(), self.clauses(), inc, self.budget() as nat),
            decreases self.budget(),
        {
            if !self.spend() {
                return Err(ResolveError::GaveUp);
            }
            if self.is_failure(inc) {
                return Err(ResolveError::NoResolution(self.proof_text(inc)));
            }
            let found = match self.analyse(inc) {
                Ok(found) => found,
                Err(e) => {
                    proof {
                        assert(stuck(self.log(), self.clauses()[inc as int]));
                    }
                    return Err(e);
                },
            };
            let cause = self.entry(found.satisfier).cause();
            let level = self.entry(found.satisfier).level();
            let cause_ix = match cause {
                None => {
                    self.backtrack(found.previous_level);
                    return Ok(inc);
                },
                Some(c) => c,
            };
            if found.previous_level < level {
                self.backtrack(found.previous_level);
                return Ok(inc);
            }
            let terms = resolved_terms(
                self.incompat(inc),
                self.incompat(cause_ix),
                self.entry(found.satisfier).pkg(),
                &found.difference,
            );
            let ghost before = *self;
            inc = self.incompatibility(terms, IncompatibilityCause::Derived(inc, cause_ix));
            proof {
                self.lemma_extends(&before, old(self));
            }
        }
    }

    /// Draws all that follows from what is known, beginning with the
    /// incompatibilities about `pkg`, and resolves the conflicts that show.
    ///
    /// As long as something new was derived for a package, the
    /// incompatibilities about that package are gone through again. When
    /// nothing is left to go through, a pass over all incompatibilities
    /// follows, and the work ends when that pass yields nothing: then no
    /// incompatibility is a conflict, and none gives a derivation that is
    /// not known already. The search afterwards and the result are what
    /// `propagated` says of the search before.
    #[verifier::loop_isolation(false)]
    #[verifier::rlimit(80)]
    pub fn propagate(&mut self, pkg: PackageId) -> (r: Result<(), ResolveError>)
        requires
            old(self).wf(),
        ensures
            final(self).wf(),
            final(self).budget() <= old(self).budget(),
            final(self).extends(old(self)),
            ({
                let t = propagated(old(self).state(), pkg@);
                &&& final(self).state() == t.state
                &&& match t.end {
                    PassEnd::Rest => r is Ok,
                    PassEnd::Spent => r is Err && r->Err_0 is GaveUp,
                    PassEnd::Failure(at) => r is Err && r->Err_0 is NoResolution
                        && r->Err_0->NoResolution_0@ == proof_text_of(t.state.clauses, at as int),
                    PassEnd::Stuck(at) => r is Err && r->Err_0 is Inconsistent,
                    PassEnd::Idle(at) => r is Err && r->Err_0 is Inconsistent
                        && r->Err_0->Inconsistent_0@ == nothing_follows(),
                }
            }),
            r is Ok ==> final(self).at_rest(),
            old(self).at_rest() && old(self).budget() >= 2 ==> r is Ok && final(self).same_search(
                old(self),
            ),
            exists|upto: int| #[trigger]
                gained(old(self).log(), final(self).log(), final(self).clauses(), upto),
            r is Err ==> r->Err_0 is NoResolution || r->Err_0 is GaveUp || r->Err_0 is Inconsistent,
            r is Err && r->Err_0 is GaveUp ==> final(self).budget() == 0 || final(self).step()
                == u16::MAX,
            r is Err && r->Err_0 is Inconsistent ==> exists|at: int|
                0 <= at < final(self).clauses().len() && (stuck(
                    final(self).log(),
                    #[trigger] final(self).clauses()[at],
                ) || (final(self).idle(final(self).clauses()[at]) && r->Err_0->Inconsistent_0@
                    == nothing_follows())),
            r is Err && r->Err_0 is NoResolution ==> exists|at: int|
                0 <= at < final(self).clauses().len() && is_failure(
                    #[trigger] final(self).clauses()[at],
                ) && r->Err_0->NoResolution_0@ == proof_text_of(final(self).clauses(), at),
    {
        let ghost rested = old(self).at_rest() && old(self).budget() >= 2;
        let ghost target = propagated(old(self).state(), pkg@);
        let ghost mut fuel: nat = old(self).budget() as nat;
        let ghost mut upto: int = old(self).log().len() as int;
        let mut changed: Vec<PackageId> = Vec::new();
        changed.push(pkg);
        proof {
            assert(package_views(changed@) =~= seq![pkg@]);
        }
        loop
            invariant
                self.wf(),
                self.budget() <= old(self).budget(),
                self.extends(old(self)),
                gained(old(self).log(), self.log(), self.clauses(), upto),
                rested ==> self.same_search(old(self)) && changed@.len() <= 1 && self.budget()
                    == old(self).budget() + changed@.len() - 1,
                self.budget() <= fuel,
                target == propagated_from(self.state(), package_views(changed@), fuel),
            decreases self.budget(),
        {
            let ghost views0 = package_views(changed@);
            let ghost s0 = self.state();
            let package: Option<PackageId> = changed.pop();
            let ghost pview: Option<PackageIdView> = if package is Some {
                Some(package->0@)
            } else {
                None
            };
            proof {
                if views0.len() > 0 {
                    assert(package_views(changed@) =~= views0.drop_last());
                    assert(pview == Some(views0.last()));
                } else {
                    assert(package_views(changed@) =~= views0);
                }
            }
            let ghost at_entry = self.budget();
            if !self.spend() {
                return Err(ResolveError::GaveUp);
            }
            let mut icix = self.known();
            let mut done = false;
            let mut calm = true;
            while icix > 0 && !done
                invariant
                    self.wf(),
                    icix <= self.clauses().len(),
                    self.budget() < at_entry,
                    rested ==> self.budget() == at_entry - 1,
                    self.extends(old(self)),
                    gained(old(self).log(), self.log(), self.clauses(), upto),
                    done ==> !calm,
                    package is None && calm ==> forall|j: int|
                        icix <= j < self.clauses().len() ==> self.quiet(#[trigger] self.clauses()[j]),
                    rested ==> calm && self.same_search(old(self)) && changed@.len() == 0,
                    fuel > 0,
                    at_entry <= fuel,
                    target == finish(
                        if done {
                            Pass {
                                state: self.state(),
                                changed: package_views(changed@),
                                calm,
                                end: None,
                            }
                        } else {
                            passed(self.state(), pview, icix as nat, package_views(changed@), calm)
                        },
                        pview,
                        fuel,
                    ),
                decreases icix,
            {
                icix = icix - 1;
                let ghost before = *self;
                let ghost views = package_views(changed@);
                let about = match &package {
                    Some(p) => self.mentions(icix, p),
                    None => true,
                };
                if about {
                    proof {
                        if rested {
                            self.lemma_same_knowledge(old(self), self.clauses()[icix as int]);
                        }
                    }
                    match self.propagate_incompat(icix) {
                        Err(e) => {
                            return Err(e);
                        },
                        Ok(IncompatMatch::Almost(name)) => {
                            proof {
                                lemma_gained_push(
                                    old(self).log(),
                                    before.log(),
                                    before.clauses(),
                                    upto,
                                    self.log(),
                                );
                            }
                            calm = false;
                            if !holds_id(&changed, &name) {
                                changed.push(name);
                                proof {
                                    assert(package_views(changed@) =~= views.push(name@));
                                }
                            }
                        },
                        Ok(IncompatMatch::Satisfied) => {
                            calm = false;
                            let ghost struck = *self;
                            let answer = self.resolve_conflict(icix);
                            proof {
                                let keep = if answer is Ok {
                                    choose|k: int|
                                        0 <= k <= struck.log().len() && self.log()
                                            == #[trigger] struck.log().take(k)
                                } else {
                                    struck.log().len() as int
                                };
                                assert(struck.log().take(struck.log().len() as int) =~= struck.log());
                                lemma_gained_stable(
                                    old(self).log(),
                                    struck.log(),
                                    struck.clauses(),
                                    upto,
                                    self.log(),
                                    self.clauses(),
                                    keep,
                                );
                                if keep < upto {
                                    upto = keep;
                                }
                                self.lemma_extends(&struck, old(self));
                            }
                            let root = match answer {
                                Err(e) => {
                                    return Err(e);
                                },
                                Ok(root) => root,
                            };
                            changed = Vec::new();
                            let ghost learned = *self;
                            match self.propagate_incompat(root) {
                                Err(e) => {
                                    return Err(e);
                                },
                                Ok(IncompatMatch::Almost(name)) => {
                                    proof {
                                        lemma_gained_push(
                                            old(self).log(),
                                            learned.log(),
                                            learned.clauses(),
                                            upto,
                                            self.log(),
                                        );
                                    }
                                    changed.push(name);
                                    proof {
                                        assert(package_views(changed@) =~= seq![name@]);
                                    }
                                },
                                Ok(_) => {
                                    proof {
                                        reveal_strlit("Nothing follows from a resolved conflict");
                                        self.lemma_same_knowledge(
                                            &learned,
                                            self.clauses()[root as int],
                                        );
                                        assert(self.idle(self.clauses()[root as int]));
                                    }
                                    return Err(
                                        ResolveError::Inconsistent(
                                            "Nothing follows from a resolved conflict".to_owned(),
                                        ),
                                    );
                                },
                            }
                            done = true;
                        },
                        Ok(IncompatMatch::Contradicted) => {},
                    }
                }
                proof {
                    self.lemma_extends(&before, old(self));
                }
            }
            if package.is_none() && calm {
                return Ok(());
            }
            proof {
                fuel = (fuel - 1) as nat;
            }
        }
    }

    /// The search is through: nothing follows from any incompatibility, and
    /// every package that is needed has its version.
    pub open spec fn searched(&self) -> bool {
        self.at_rest() && forall|id: PackageIdView| !self.waiting(id)
    }

    /// The package is needed and no version is decided on for it.
    pub open spec fn waiting(&self, id: PackageIdView) -> bool {
        self.knowledge(id) is Some && self.knowledge(id)->0.positive && self.decision_of(id) is None
    }

    /// Every term of the incompatibility that is not about `id` holds
    /// already: with a decision for `id` that its term holds it would be a
    /// conflict.
    pub open spec fn strikes(&self, clause: IncompatView, id: PackageIdView) -> bool {
        forall|i: int|
            0 <= i < clause.0.len() ==> (#[trigger] clause.0[i]).0 == id || self.term_holds(
                clause.0,
                i,
            )
    }

    /// One of the incompatibilities strikes at `id`.
    pub open spec fn any_strikes(&self, views: Seq<IncompatView>, id: PackageIdView) -> bool {
        exists|i: int| 0 <= i < views.len() && self.strikes(#[trigger] views[i], id)
    }

    /// This state is `before` after `version` was tried for `id` and
    /// `views` was reported for it: the incompatibilities are taken up, and
    /// the decision is made unless one of them strikes at the package.
    pub open spec fn tried(
        &self,
        before: &Resolver,
        id: PackageIdView,
        version: Version,
        views: Seq<IncompatView>,
    ) -> bool {
        &&& self.clauses() == before.clauses() + views
        &&& if before.any_strikes(views, id) {
            self.log() == before.log()
        } else {
            self.log() == before.log().push(
                decision_entry(before.step(), (before.level() + 1) as u16, id, version),
            )
        }
    }

    /// This state is `before` after no version could be had for `id`: that
    /// is taken up as an incompatibility whose only term holds what was
    /// possible for the package.
    pub open spec fn ruled_out(&self, before: &Resolver, id: PackageIdView) -> bool {
        &&& before.knowledge(id) is Some
        &&& self.clauses() == before.clauses().push(
            (seq![(id, before.knowledge(id)->0.constraint)], IncompatibilityCause::Unavailable),
        )
        &&& self.log() == before.log()
    }

    /// Takes up that no version of `package` within `constraint` can be had.
    pub fn rule_out(&mut self, package: PackageId, constraint: Constraint)
        requires
            old(self).wf(),
        ensures
            final(self).wf(),
            final(self).clauses() == old(self).clauses().push(
                (seq![(package@, constraint@)], IncompatibilityCause::Unavailable),
            ),
            final(self).extends(old(self)),
            final(self).log() == old(self).log(),
            final(self).step() == old(self).step(),
            final(self).level() == old(self).level(),
            final(self).budget() == old(self).budget(),
            forall|id: PackageIdView| final(self).knowledge(id) == old(self).knowledge(id),
            forall|id: PackageIdView| final(self).decision_of(id) == old(self).decision_of(id),
    {
        let mut terms = map_new();
        let ghost view = (package@, constraint@);
        let _ = map_insert(&mut terms, package, constraint);
        proof {
            assert(term_views(map_terms(terms)) =~= seq![view]);
        }
        let _ = self.incompatibility(terms, IncompatibilityCause::Unavailable);
    }

    /// Takes up what the source of packages reported for the version `best`
    /// of `package`, and decides on that version unless one of the
    /// incompatibilities would then be a conflict. Nothing is taken up if
    /// one of them is said to follow from others: a source cannot know
    /// that.
    pub fn take_up(&mut self, package: PackageId, best: Version, incompats: Vec<Incompatibility>) -> (r:
        Result<(), ResolveError>)
        requires
            old(self).wf(),
        ensures
            final(self).wf(),
            final(self).budget() == old(self).budget(),
            final(self).extends(old(self)),
            ({
                let views = incompat_views(incompats@);
                if any_derived(views) {
                    r is Err && r->Err_0 is Inconsistent && final(self).same_search(old(self))
                } else if !old(self).any_strikes(views, package@) && (old(self).step() == u16::MAX
                    || old(self).level() == u16::MAX) {
                    &&& r is Err
                    &&& r->Err_0 is GaveUp
                    &&& final(self).clauses() == old(self).clauses() + views
                    &&& final(self).log() == old(self).log()
                    &&& final(self).step() == old(self).step()
                    &&& final(self).level() == old(self).level()
                } else {
                    &&& r is Ok
                    &&& final(self).tried(old(self), package@, best, views)
                    &&& !old(self).any_strikes(views, package@) ==> final(self).level() == old(
                        self,
                    ).level() + 1
                    &&& old(self).any_strikes(views, package@) ==> {
                        &&& final(self).step() == old(self).step()
                        &&& final(self).level() == old(self).level()
                        &&& forall|id: PackageIdView| final(self).knowledge(id) == old(self).knowledge(id)
                        &&& forall|id: PackageIdView|
                            final(self).decision_of(id) == old(self).decision_of(id)
                    }
                }
            }),
    {
        let ghost views = incompat_views(incompats@);
        let n = incompats.len();
        let mut i: usize = 0;
        while i < n
            invariant
                i <= n,
                n == incompats@.len(),
                views == incompat_views(incompats@),
                forall|k: int| 0 <= k < i ==> !((#[trigger] views[k]).1 is Derived),
                *self == *old(self),
                self.wf(),
            decreases n - i,
        {
            if incompats[i].is_derived() {
                proof {
                    assert(views[i as int].1 is Derived);
                }
                return Err(
                    ResolveError::Inconsistent("A manifest cannot hold what is derived".to_owned()),
                );
            }
            i += 1;
        }
        let mut conflict = false;
        let mut i: usize = 0;
        proof {
            assert(self.clauses() =~= old(self).clauses() + views.take(0));
        }
        while i < n
            invariant
                i <= n,
                n == incompats@.len(),
                views == incompat_views(incompats@),
                forall|k: int| 0 <= k < n ==> !((#[trigger] views[k]).1 is Derived),
                self.wf(),
                self.budget() == old(self).budget(),
                self.extends(old(self)),
                self.clauses() == old(self).clauses() + views.take(i as int),
                self.log() == old(self).log(),
                self.step() == old(self).step(),
                self.level() == old(self).level(),
                forall|id: PackageIdView| self.knowledge(id) == old(self).knowledge(id),
                forall|id: PackageIdView| self.decision_of(id) == old(self).decision_of(id),
                conflict == old(self).any_strikes(views.take(i as int), package@),
            decreases n - i,
        {
            let ic = incompats[i].clone();
            let ghost before = *self;
            let strikes = self.conflicts(&ic, &package);
            proof {
                assert(views[i as int] == (ic.terms(), ic.cause));
                assert forall|k: int| 0 <= k < ic.terms().len() implies self.term_holds(
                    ic.terms(),
                    k,
                ) == old(self).term_holds(ic.terms(), k) by {
                    assert(self.knowledge(ic.terms()[k].0) == old(self).knowledge(ic.terms()[k].0));
                }
                assert(views[i as int].0 == ic.terms());
                assert(strikes == old(self).strikes(views[i as int], package@));
                let shorter = views.take(i as int);
                let longer = views.take(i + 1);
                assert(longer =~= shorter.push(views[i as int]));
                if old(self).any_strikes(shorter, package@) {
                    let k = choose|k: int|
                        0 <= k < shorter.len() && old(self).strikes(#[trigger] shorter[k], package@);
                    assert(longer[k] == shorter[k]);
                }
                if strikes {
                    assert(longer[i as int] == views[i as int]);
                }
                if old(self).any_strikes(longer, package@) {
                    let k = choose|k: int|
                        0 <= k < longer.len() && old(self).strikes(#[trigger] longer[k], package@);
                    if k < i {
                        assert(shorter[k] == longer[k]);
                    }
                }
            }
            conflict = conflict || strikes;
            let Incompatibility { deps, cause } = ic;
            let _ = self.incompatibility(deps, cause);
            proof {
                self.lemma_extends(&before, old(self));
                assert(self.clauses() =~= old(self).clauses() + views.take(i + 1));
            }
            i += 1;
        }
        proof {
            assert(views.take(n as int) =~= views);
        }
        if conflict {
            return Ok(());
        }
        let ghost before = *self;
        let r = self.decision(package, best);
        proof {
            self.lemma_extends(&before, old(self));
        }
        r
    }

    /// Picks the package to decide on next, and decides on it: among the
    /// packages that are needed and not decided the one with the fewest
    /// versions, and of those with equally few the first in the order of
    /// packages. Its incompatibilities are taken up. If no version of it
    /// can be had, that is taken up as an incompatibility instead. Answers
    /// the package, or nothing if all that is needed is decided.
    ///
    /// Which version is tried and what is reported for it is for the source
    /// of packages to say. Whatever it says, the state afterwards is the
    /// state before with that taken up.
    pub fn choose_pkg_version<R: Retriever>(&mut self, retriever: &mut R) -> (r: Result<
        Option<PackageId>,
        ResolveError,
    >)
        requires
            old(self).wf(),
        ensures
            final(self).wf(),
            final(self).budget() == old(self).budget(),
            final(self).extends(old(self)),
            final(retriever).root_of() == old(retriever).root_of(),
            r is Err ==> !(r->Err_0 is NoResolution),
            r is Err && r->Err_0 is GaveUp ==> final(self).log() == old(self).log(),
            r is Err && r->Err_0 is GaveUp ==> final(self).step() == u16::MAX || final(self).level()
                == u16::MAX,
            r is Err && r->Err_0 is Inconsistent ==> final(self).same_search(old(self)) && exists|
                id: PackageIdView,
                v: Version,
            |
                old(self).waiting(id) && (#[trigger] final(retriever).held(id, v)) is Some
                    && any_derived(final(retriever).held(id, v)->0),
            r is Err && r->Err_0 is Retrieve ==> final(self).same_search(old(self)) && exists|
                id: PackageIdView,
            | #[trigger] old(self).waiting(id),
            (r is Ok && r->Ok_0 is None) == (r is Ok && forall|id: PackageIdView|
                !old(self).waiting(id)),
            forall|id: PackageIdView, v: Version| #[trigger]
                old(retriever).held(id, v) is Some ==> final(retriever).held(id, v) == old(
                    retriever,
                ).held(id, v),
            ({
                let s = old(self).state();
                if forall|id: PackageIdView| !waiting_in(s.log, id) {
                    r is Ok && r->Ok_0 is None && final(self).state() == s
                } else {
                    exists|answer: Answer|
                        waiting_in(s.log, answer.picked) && sourced(final(retriever), answer)
                            && stands(final(self).state(), r, #[trigger] decided_with(s, answer))
                }
            }),
            r is Ok && r->Ok_0 is None ==> final(self).same_search(old(self)),
            r is Ok && r->Ok_0 is Some ==> {
                let id = r->Ok_0->0@;
                &&& old(self).waiting(id)
                &&& final(self).ruled_out(old(self), id) || exists|v: Version|
                    (#[trigger] final(retriever).held(id, v)) is Some && final(self).tried(
                        old(self),
                        id,
                        v,
                        final(retriever).held(id, v)->0,
                    )
            },
    {
        let ghost s = self.state();
        proof {
            self.lemma_log_says();
            self.lemma_step();
            assert forall|id: PackageIdView| self.waiting(id) == waiting_in(s.log, id) by {
                assert(self.knowledge(id) == known_from(s.log, id));
                assert(self.decision_of(id) == decided_from(s.log, id));
            }
        }
        let candidates = self.candidates();
        let n = candidates.len();
        let mut counts: Vec<usize> = Vec::new();
        let mut i: usize = 0;
        while i < n
            invariant
                i <= n,
                n == candidates@.len(),
                counts@.len() == i,
            decreases n - i,
        {
            counts.push(retriever.count_versions(&candidates[i].0));
            i += 1;
        }
        let at = match pick_candidate(&candidates, &counts) {
            None => {
                proof {
                    assert forall|id: PackageIdView| !self.waiting(id) by {
                        if self.waiting(id) {
                            let k = choose|k: int|
                                0 <= k < candidates@.len() && (#[trigger] candidates@[k]).0@ == id;
                        }
                    }
                    assert forall|id: PackageIdView| !waiting_in(s.log, id) by {
                        assert(self.waiting(id) == waiting_in(s.log, id));
                    }
                }
                return Ok(None);
            },
            Some(at) => at,
        };
        let package = candidates[at].0.clone();
        let constraint = candidates[at].1.clone();
        proof {
            assert(self.waiting(candidates@[at as int].0@));
            assert(waiting_in(s.log, package@));
            assert(self.knowledge(package@) == known_from(s.log, package@));
        }
        match retriever.best(&package, &constraint) {
            Ok(best) => {
                let sum = Summary::new(package.clone(), best);
                let incompats = match retriever.incompats(&sum) {
                    Err(e) => {
                        proof {
                            let answer = Answer {
                                picked: package@,
                                best: Some(best),
                                reported: Err(e@),
                            };
                            assert(stands(
                                self.state(),
                                Err::<Option<PackageId>, ResolveError>(ResolveError::Retrieve(e)),
                                decided_with(s, answer),
                            ));
                        }
                        return Err(ResolveError::Retrieve(e));
                    },
                    Ok(incompats) => incompats,
                };
                let ghost views = incompat_views(incompats@);
                let ghost answer = Answer { picked: package@, best: Some(best), reported: Ok(views) };
                proof {
                    assert(retriever.held(package@, best) == Some(views));
                    assert(self.any_strikes(views, package@) == any_strikes_in(
                        s.log,
                        views,
                        package@,
                    )) by {
                        assert forall|k: int| 0 <= k < views.len() implies self.strikes(
                            #[trigger] views[k],
                            package@,
                        ) == strikes_in(s.log, views[k], package@) by {
                            self.lemma_standing_in(views[k].0);
                            assert forall|i: int| 0 <= i < views[k].0.len() implies self.term_holds(
                                views[k].0,
                                i,
                            ) == holds_in(s.log, views[k].0, i) by {
                                assert(self.knowledge(views[k].0[i].0) == known_from(
                                    s.log,
                                    views[k].0[i].0,
                                ));
                            }
                        }
                        if self.any_strikes(views, package@) {
                            let k = choose|k: int|
                                0 <= k < views.len() && self.strikes(#[trigger] views[k], package@);
                            assert(strikes_in(s.log, views[k], package@));
                        }
                        if any_strikes_in(s.log, views, package@) {
                            let k = choose|k: int|
                                0 <= k < views.len() && strikes_in(
                                    s.log,
                                    #[trigger] views[k],
                                    package@,
                                );
                            assert(self.strikes(views[k], package@));
                        }
                    }
                }
                let taken = self.take_up(package.clone(), best, incompats);
                proof {
                    let result: Result<Option<PackageId>, ResolveError> = if taken is Ok {
                        Ok(Some(package))
                    } else {
                        Err(taken->Err_0)
                    };
                    assert(stands(self.state(), result, decided_with(s, answer)));
                }
                match taken {
                    Err(e) => {
                        return Err(e);
                    },
                    Ok(_) => {},
                }
            },
            Err(_) => {
                self.rule_out(package.clone(), constraint);
                proof {
                    let answer = Answer {
                        picked: package@,
                        best: None,
                        reported: Ok(Seq::<IncompatView>::empty()),
                    };
                    assert(stands(
                        self.state(),
                        Ok::<Option<PackageId>, ResolveError>(Some(package)),
                        decided_with(s, answer),
                    ));
                }
            },
        }
        Ok(Some(package))
    }

    /// Takes up one incompatibility that was reported for the node at
    /// `head`. If it states a dependency of the node, the package depended on
    /// gets a node, unless it has one, and an edge from `head`; the version
    /// decided on for it must be one that the dependency allows, and it
    /// cannot be the first node. Where that fails, or the graph has no room,
    /// nothing changes.
    fn attach(
        &self,
        graph: &mut Solution,
        ids: &mut Vec<PackageId>,
        requirements: &mut Vec<Requirement>,
        head: usize,
        ic: &Incompatibility,
    ) -> (r: Result<(), ResolveError>)
        requires
            head < old(ids)@.len(),
            names_nodes(old(ids)@, *old(graph)),
            each_once(graph_nodes(*old(graph))),
            certified(graph_nodes(*old(graph)), graph_successors(*old(graph)), old(requirements)@),
        ensures
            names_nodes(final(ids)@, *final(graph)),
            each_once(graph_nodes(*final(graph))),
            certified(
                graph_nodes(*final(graph)),
                graph_successors(*final(graph)),
                final(requirements)@,
            ),
            grown(
                graph_nodes(*old(graph)),
                graph_successors(*old(graph)),
                graph_nodes(*final(graph)),
                graph_successors(*final(graph)),
            ),
            r is Ok && depends(clause_of(*ic), graph_nodes(*old(graph))[head as int]) ==> met(
                graph_nodes(*final(graph)),
                graph_successors(*final(graph)),
                head as int,
                clause_of(*ic),
            ),
            final(requirements)@ == old(requirements)@ || {
                &&& final(requirements)@.len() > 0
                &&& final(requirements)@.drop_last() == old(requirements)@
                &&& final(requirements)@.last().parent == head
                &&& founded_on(
                    final(requirements)@.last(),
                    graph_nodes(*final(graph)),
                    clause_of(*ic),
                )
            },
            ({
                let nodes = graph_nodes(*old(graph));
                let successors = graph_successors(*old(graph));
                let clause = clause_of(*ic);
                let decided = self.decision_of(clause.0[1].0);
                let same = {
                    &&& graph_nodes(*final(graph)) == nodes
                    &&& graph_successors(*final(graph)) == successors
                    &&& final(requirements)@ == old(requirements)@
                    &&& final(ids)@ == old(ids)@
                };
                if !depends(clause, nodes[head as int]) {
                    r is Ok && same
                } else if unmet(nodes, decided, clause) {
                    r is Err && r->Err_0 is Inconsistent && same
                } else if no_room(nodes, successors, clause) {
                    r is Err && r->Err_0 is GaveUp && same
                } else {
                    r is Ok && attached(
                        nodes,
                        successors,
                        old(requirements)@,
                        graph_nodes(*final(graph)),
                        graph_successors(*final(graph)),
                        final(requirements)@,
                        head as int,
                        clause,
                        decided,
                    )
                }
            }),
    {
        reveal(unmet);
        reveal(no_room);
        reveal(attached);
        let ghost nodes0 = graph_nodes(*graph);
        let ghost successors0 = graph_successors(*graph);
        let ghost clause = clause_of(*ic);
        let applies = ic.cause() == IncompatibilityCause::Dependency && ic.len() == 2 && ic.term(
            0,
        ).0.same(&graph_node(graph, head).id) && ic.term(0).1.satisfies(
            &graph_node(graph, head).version,
        );
        if !applies {
            return Ok(());
        }
        let dependee = ic.term(1);
        let found = find_in(ids, dependee.0);
        proof {
            match found {
                Some(at) => {
                    lemma_place_of(nodes0, dependee.0@, at as int);
                },
                None => {
                    assert(!placed(nodes0, dependee.0@)) by {
                        if placed(nodes0, dependee.0@) {
                            let k = place_of(nodes0, dependee.0@);
                            assert(ids@[k]@ == nodes0[k].id@);
                        }
                    }
                },
            }
        }
        let version = match found {
            Some(at) => {
                if at == 0 {
                    return Err(
                        ResolveError::Inconsistent("A package depends on the root".to_owned()),
                    );
                }
                graph_node(graph, at).version
            },
            None => match self.decided(dependee.0) {
                Some(v) => v,
                None => {
                    return Err(
                        ResolveError::Inconsistent(
                            "A package that is needed was not decided on".to_owned(),
                        ),
                    );
                },
            },
        };
        if dependee.1.satisfies(&version) {
            return Err(
                ResolveError::Inconsistent(
                    "A version was decided on that a dependency forbids".to_owned(),
                ),
            );
        }
        if found.is_none() && ids.len() >= 0xffff_fffe {
            return Err(ResolveError::GaveUp);
        }
        if graph_edge_count(graph) >= 0xffff_fffe {
            return Err(ResolveError::GaveUp);
        }
        let child = match found {
            Some(at) => at,
            None => {
                let at = graph_add_node(graph, Summary::new(dependee.0.clone(), version));
                ids.push(dependee.0.clone());
                proof {
                    lemma_certified_add_node(
                        nodes0,
                        successors0,
                        requirements@,
                        graph_nodes(*graph)[at as int],
                    );
                    assert(graph_nodes(*graph).drop_last() =~= nodes0);
                    assert(successors0.push(Seq::<int>::empty()).drop_last() =~= successors0);
                    assert(edge_count(graph_successors(*graph)) == edge_count(successors0));
                    assert forall|i: int, j: int|
                        0 <= i < j < graph_nodes(*graph).len() implies (#[trigger] graph_nodes(
                        *graph,
                    )[i]).id@ != (#[trigger] graph_nodes(*graph)[j]).id@ by {
                        if j < nodes0.len() {
                            assert(nodes0[i].id@ != nodes0[j].id@);
                        } else {
                            assert(old(ids)@[i]@ != dependee.0@);
                        }
                    }
                }
                at
            },
        };
        let ghost nodes1 = graph_nodes(*graph);
        let ghost successors1 = graph_successors(*graph);
        proof {
            assert(grown(nodes0, successors0, nodes1, successors1)) by {
                assert forall|a: int, c: int|
                    0 <= a < nodes0.len() && #[trigger] successors0[a].contains(
                        c,
                    ) implies successors1[a].contains(c) by {
                    assert(successors1[a] == successors0[a]);
                }
            }
        }
        let ghost before_requirements = requirements@;
        graph_add_edge(graph, head, child);
        let requirement = Requirement { parent: head, child, forbidden: dependee.1.clone() };
        requirements.push(requirement);
        proof {
            lemma_certified_add_edge(
                nodes1,
                successors1,
                before_requirements,
                requirements@[before_requirements.len() as int],
            );
            assert(requirements@ =~= before_requirements.push(
                requirements@[before_requirements.len() as int],
            ));
            assert(requirements@.drop_last() =~= before_requirements);
            assert(nodes1[head as int] == nodes0[head as int]);
            let successors2 = graph_successors(*graph);
            let added = seq![child as int] + successors1[head as int];
            assert(added[0] == child as int);
            assert(successors2[head as int].contains(child as int));
            assert(successors1[head as int] == successors0[head as int]);
            assert forall|a: int, c: int|
                0 <= a < nodes0.len() && #[trigger] successors0[a].contains(
                    c,
                ) implies successors2[a].contains(c) by {
                assert(successors1[a].contains(c));
                if a == head {
                    let at = choose|at: int|
                        0 <= at < successors1[a].len() && successors1[a][at] == c;
                    assert(added[at + 1] == c);
                } else {
                    assert(successors2[a] == successors1[a]);
                }
            }
        }
        Ok(())
    }

    /// Builds the graph of the versions decided on, from the root outwards:
    /// asks for the dependencies of every node, and checks each of them
    /// against the graph.
    #[verifier::rlimit(100)]
    fn build<R: Retriever>(&self, retriever: &mut R, root: Summary<PackageId>) -> (r: Result<
        Resolution,
        ResolveError,
    >)
        requires
            self.wf(),
        ensures
            exists|reports: Seq<Result<Seq<IncompatView>, RetrieveFailure>>|
                drawn(
                    #[trigger] built(final(retriever), self.log(), (root.id@, root.version), reports),
                    reports.len(),
                    r,
                ),
            r is Ok ==> {
                &&& graph_nodes(r->Ok_0.graph).len() > 0
                &&& graph_nodes(r->Ok_0.graph)[0] == root
                &&& graph_successors(r->Ok_0.graph).len() == graph_nodes(r->Ok_0.graph).len()
                &&& each_once(graph_nodes(r->Ok_0.graph))
                &&& certified(
                    graph_nodes(r->Ok_0.graph),
                    graph_successors(r->Ok_0.graph),
                    r->Ok_0.requirements@,
                )
                &&& complete(
                    graph_nodes(r->Ok_0.graph),
                    graph_successors(r->Ok_0.graph),
                    r->Ok_0.reported@,
                )
                &&& founded(
                    graph_nodes(r->Ok_0.graph),
                    r->Ok_0.requirements@,
                    r->Ok_0.reported@,
                    graph_nodes(r->Ok_0.graph).len() as int,
                )
                &&& rootless(graph_successors(r->Ok_0.graph))
                &&& answered(
                    final(retriever),
                    graph_nodes(r->Ok_0.graph),
                    r->Ok_0.reported@,
                    graph_nodes(r->Ok_0.graph).len() as int,
                )
            },
            r is Err ==> !(r->Err_0 is NoResolution),
            final(retriever).root_of() == old(retriever).root_of(),
            forall|id: PackageIdView, v: Version| #[trigger]
                old(retriever).held(id, v) is Some ==> final(retriever).held(id, v) == old(
                    retriever,
                ).held(id, v),
    {
        let ghost root_before = retriever.root_of();
        let ghost log = self.log();
        let ghost rootv = (root.id@, root.version);
        let ghost mut reports: Seq<Result<Seq<IncompatView>, RetrieveFailure>> = Seq::empty();
        let mut graph = graph_new();
        let mut requirements: Vec<Requirement> = Vec::new();
        let mut reported: Vec<Vec<Incompatibility>> = Vec::new();
        let mut ids: Vec<PackageId> = Vec::new();
        ids.push(root.id.clone());
        let _ = graph_add_node(&mut graph, root);
        proof {
            let p = plan_of(graph_nodes(graph), graph_successors(graph), requirements@);
            assert(p.nodes =~= seq![rootv]);
            assert(p.successors =~= seq![Seq::<int>::empty()]);
            assert(p.requirements =~= Seq::<(int, int, Seq<Range>)>::empty());
            lemma_built_first(retriever, log, rootv);
        }
        let mut head: usize = 0;
        while head < ids.len()
            invariant
                self.wf(),
                log == self.log(),
                rootv == (root.id@, root.version),
                reports.len() == head,
                built(retriever, log, rootv, reports) == BuildReach::Running(
                    plan_of(graph_nodes(graph), graph_successors(graph), requirements@),
                ),
                head <= ids@.len(),
                ids@.len() > 0,
                names_nodes(ids@, graph),
                graph_nodes(graph)[0] == root,
                each_once(graph_nodes(graph)),
                certified(graph_nodes(graph), graph_successors(graph), requirements@),
                reported@.len() == head,
                reported_met(graph_nodes(graph), graph_successors(graph), reported@, head as int),
                forall|k: int| 0 <= k < requirements@.len() ==> (#[trigger] requirements@[k]).parent < head,
                founded(graph_nodes(graph), requirements@, reported@, head as int),
                retriever.root_of() == root_before,
                root_before == old(retriever).root_of(),
                forall|id: PackageIdView, v: Version| #[trigger]
                    old(retriever).held(id, v) is Some ==> retriever.held(id, v) == old(
                        retriever,
                    ).held(id, v),
                answered(retriever, graph_nodes(graph), reported@, head as int),
            decreases u32::MAX - head,
        {
            let parent = Summary::new(graph_node(&graph, head).id.clone(), graph_node(&graph, head).version);
            let ghost asked = *retriever;
            let ghost plan0 = plan_of(graph_nodes(graph), graph_successors(graph), requirements@);
            let answer = retriever.incompats(&parent);
            proof {
                lemma_built_stable(&asked, retriever, log, rootv, reports);
                assert(plan0.nodes[head as int] == (parent.id@, parent.version));
            }
            let incompats = match answer {
                Err(e) => {
                    proof {
                        lemma_built_step(retriever, log, rootv, reports, Err(e@), plan0);
                    }
                    return Err(ResolveError::Retrieve(e));
                },
                Ok(incompats) => incompats,
            };
            let ghost views = incompat_views(incompats@);
            let ghost told = reports.push(Ok(views));
            let ghost all = joined_all(plan0, log, head as int, views, views.len());
            proof {
                lemma_built_step(retriever, log, rootv, reports, Ok(views), plan0);
                lemma_joined_all_step(plan0, log, head as int, views, 0);
            }
            proof {
                assert forall|k: int| 0 <= k < head implies retriever.held(
                    (#[trigger] graph_nodes(graph)[k]).id@,
                    graph_nodes(graph)[k].version,
                ) == Some(incompat_views(reported@[k]@)) by {
                    assert(asked.held(graph_nodes(graph)[k].id@, graph_nodes(graph)[k].version)
                        is Some);
                }
            }
            let mut i: usize = incompats.len();
            while i > 0
                invariant
                    self.wf(),
                    log == self.log(),
                    rootv == (root.id@, root.version),
                    views == incompat_views(incompats@),
                    reports.len() == head,
                    told.len() == head + 1,
                    all == joined_all(plan0, log, head as int, views, views.len()),
                    built(retriever, log, rootv, told) == (match all {
                        Ok(q) => BuildReach::Running(q),
                        Err(e) => BuildReach::Ended(e),
                    }),
                    joined_all(plan0, log, head as int, views, (incompats@.len() - i) as nat) == Ok::<
                        Plan,
                        BuildEnd,
                    >(plan_of(graph_nodes(graph), graph_successors(graph), requirements@)),
                    i <= incompats@.len(),
                    head < ids@.len(),
                    names_nodes(ids@, graph),
                    graph_nodes(graph)[0] == root,
                    each_once(graph_nodes(graph)),
                    certified(graph_nodes(graph), graph_successors(graph), requirements@),
                    reported@.len() == head,
                    reported_met(graph_nodes(graph), graph_successors(graph), reported@, head as int),
                    founded_so_far(
                        graph_nodes(graph),
                        requirements@,
                        reported@,
                        incompats@,
                        head as int,
                        i as int,
                    ),
                    met_so_far(
                        graph_nodes(graph),
                        graph_successors(graph),
                        incompats@,
                        head as int,
                        i as int,
                    ),
                    retriever.root_of() == root_before,
                    root_before == old(retriever).root_of(),
                    forall|id: PackageIdView, v: Version| #[trigger]
                        old(retriever).held(id, v) is Some ==> retriever.held(id, v) == old(
                            retriever,
                        ).held(id, v),
                    answered(retriever, graph_nodes(graph), reported@, head as int),
                    retriever.held(
                        graph_nodes(graph)[head as int].id@,
                        graph_nodes(graph)[head as int].version,
                    ) == Some(incompat_views(incompats@)),
                decreases i,
            {
                i -= 1;
                let ghost nodes0 = graph_nodes(graph);
                let ghost successors0 = graph_successors(graph);
                let ghost requirements0 = requirements@;
                let attached = self.attach(&mut graph, &mut ids, &mut requirements, head, &incompats[i]);
                proof {
                    let clause = clause_of(incompats@[i as int]);
                    assert(views[i as int] == clause);
                    self.lemma_log_says();
                    lemma_joined(
                        nodes0,
                        successors0,
                        requirements0,
                        graph_nodes(graph),
                        graph_successors(graph),
                        requirements@,
                        self.decision_of(clause.0[1].0),
                        head as int,
                        clause,
                        attached,
                    );
                    let done = (incompats@.len() - i) as nat;
                    lemma_joined_all_step(plan0, log, head as int, views, (done - 1) as nat);
                    let step = joined(
                        plan_of(nodes0, successors0, requirements0),
                        decided_from(log, clause.0[1].0),
                        head as int,
                        clause,
                    );
                    assert(self.decision_of(clause.0[1].0) == decided_from(log, clause.0[1].0));
                    assert(views[views.len() - done] == clause);
                    assert(joined_all(plan0, log, head as int, views, done) == step);
                    if attached is Err {
                        lemma_joined_all_fails(
                            plan0,
                            log,
                            head as int,
                            views,
                            done,
                            incompats@.len() as nat,
                        );
                        assert(step is Err);
                        assert(all == step);
                        assert(built(retriever, log, rootv, told) == BuildReach::Ended(step->Err_0));
                        assert(drawn(
                            built(retriever, log, rootv, told),
                            told.len(),
                            Err::<Resolution, ResolveError>(attached->Err_0),
                        ));
                    }
                }
                match attached {
                    Err(e) => {
                        return Err(e);
                    },
                    Ok(_) => {},
                }
                proof {
                    let nodes1 = graph_nodes(graph);
                    let successors1 = graph_successors(graph);
                    lemma_reported_met_grown(
                        nodes0,
                        successors0,
                        nodes1,
                        successors1,
                        reported@,
                        head as int,
                    );
                    assert(nodes1[head as int] == nodes0[head as int]);
                    assert(nodes1[0] == nodes0[0]);
                    assert forall|k: int| 0 <= k < head implies retriever.held(
                        (#[trigger] nodes1[k]).id@,
                        nodes1[k].version,
                    ) == Some(incompat_views(reported@[k]@)) by {
                        assert(nodes1[k] == nodes0[k]);
                    }
                    lemma_met_step(
                        nodes0,
                        successors0,
                        nodes1,
                        successors1,
                        incompats@,
                        head as int,
                        i as int,
                    );
                    lemma_founded_step(
                        nodes0,
                        nodes1,
                        requirements0,
                        requirements@,
                        reported@,
                        incompats@,
                        head as int,
                        i as int,
                    );
                }
            }
            proof {
                reports = told;
            }
            let ghost before = reported@;
            reported.push(incompats);
            proof {
                assert forall|k: int| 0 <= k < head + 1 implies retriever.held(
                    (#[trigger] graph_nodes(graph)[k]).id@,
                    graph_nodes(graph)[k].version,
                ) == Some(incompat_views(reported@[k]@)) by {
                    if k < head {
                        assert(reported@[k] == before[k]);
                    }
                }
            }
            proof {
                assert forall|k: int|
                    0 <= k < requirements@.len() && (#[trigger] requirements@[k]).parent < head
                        + 1 implies exists|j: int|
                    0 <= j < reported@[requirements@[k].parent as int]@.len() && founded_on(
                        requirements@[k],
                        graph_nodes(graph),
                        clause_of(#[trigger] reported@[requirements@[k].parent as int]@[j]),
                    ) by {
                    let r = requirements@[k];
                    if r.parent < head {
                        assert(reported@[r.parent as int] == before[r.parent as int]);
                        let j = choose|j: int|
                            0 <= j < before[r.parent as int]@.len() && founded_on(
                                r,
                                graph_nodes(graph),
                                clause_of(#[trigger] before[r.parent as int]@[j]),
                            );
                        assert(founded_on(r, graph_nodes(graph), clause_of(reported@[r.parent as int]@[j])));
                    } else {
                        let j = choose|j: int|
                            0 <= j < incompats@.len() && founded_on(
                                r,
                                graph_nodes(graph),
                                clause_of(#[trigger] incompats@[j]),
                            );
                        assert(reported@[head as int] == incompats);
                        assert(founded_on(r, graph_nodes(graph), clause_of(reported@[head as int]@[j])));
                    }
                }
            }
            proof {
                assert forall|k: int, j: int|
                    0 <= k < head + 1 && 0 <= j < reported@[k]@.len() && depends(
                        clause_of(#[trigger] reported@[k]@[j]),
                        graph_nodes(graph)[k],
                    ) implies met(
                    graph_nodes(graph),
                    graph_successors(graph),
                    k,
                    clause_of(reported@[k]@[j]),
                ) by {
                    if k < head {
                        assert(reported@[k] == before[k]);
                    }
                }
            }
            head += 1;
        }
        proof {
            lemma_certified_rootless(graph_nodes(graph), graph_successors(graph), requirements@);
        }
        Ok(Resolution { graph, requirements, reported })
    }

    /// Searches until every package that is needed is decided on, beginning
    /// with what follows for `first`. Round by round a step is taken, all
    /// that follows for the package at hand is drawn, and the package picked
    /// next is decided on with what the source of packages answers.
    ///
    /// What the source answers is for it to say. Whatever it says, the
    /// search ends where `reach` says for the answers that were given: with
    /// every needed package decided, or with the error that the end names.
    #[verifier::loop_isolation(false)]
    pub fn search<R: Retriever>(&mut self, retriever: &mut R, first: PackageId) -> (r: Result<
        (),
        ResolveError,
    >)
        requires
            old(self).wf(),
        ensures
            final(self).wf(),
            final(self).budget() <= old(self).budget(),
            final(self).extends(old(self)),
            final(retriever).root_of() == old(retriever).root_of(),
            forall|id: PackageIdView, v: Version| #[trigger]
                old(retriever).held(id, v) is Some ==> final(retriever).held(id, v) == old(
                    retriever,
                ).held(id, v),
            exists|answers: Seq<Answer>|
                ended(
                    #[trigger] reach(old(self).state(), first@, answers),
                    final(self).state(),
                    failure_of(r),
                ) && forall|k: int|
                    0 <= k < answers.len() ==> sourced(final(retriever), #[trigger] answers[k]),
            old(self).budget() == 0 ==> r is Err && r->Err_0 is GaveUp && final(self).same_search(
                old(self),
            ),
            r is Ok ==> forall|id: PackageIdView| !final(self).waiting(id),
            r is Ok ==> final(self).at_rest(),
            r is Err && r->Err_0 is GaveUp ==> final(self).budget() == 0 || final(self).step()
                == u16::MAX || final(self).level() == u16::MAX,
            r is Err && r->Err_0 is Retrieve ==> final(self).at_rest() && exists|id: PackageIdView|
             #[trigger] final(self).waiting(id),
            r is Err && r->Err_0 is Inconsistent ==> (exists|at: int|
                0 <= at < final(self).clauses().len() && (stuck(
                    final(self).log(),
                    #[trigger] final(self).clauses()[at],
                ) || final(self).idle(final(self).clauses()[at]))) || (exists|
                id: PackageIdView,
                v: Version,
            |
                (#[trigger] final(retriever).held(id, v)) is Some && any_derived(
                    final(retriever).held(id, v)->0,
                )),
            r is Err && r->Err_0 is NoResolution ==> exists|at: int|
                0 <= at < final(self).clauses().len() && is_failure(
                    #[trigger] final(self).clauses()[at],
                ) && r->Err_0->NoResolution_0@ == proof_text_of(final(self).clauses(), at),
    {
        let ghost start = old(self).state();
        let ghost mut answers: Seq<Answer> = Seq::empty();
        let ghost idle = Answer {
            picked: first@,
            best: None,
            reported: Ok(Seq::<IncompatView>::empty()),
        };
        let mut next: Option<PackageId> = Some(first);
        let ghost mut rounds: nat = 0;
        loop
            invariant
                self.wf(),
                self.budget() <= old(self).budget(),
                self.extends(old(self)),
                retriever.root_of() == old(retriever).root_of(),
                forall|id: PackageIdView, v: Version| #[trigger]
                    old(retriever).held(id, v) is Some ==> retriever.held(id, v) == old(
                        retriever,
                    ).held(id, v),
                next is None ==> self.at_rest() && forall|id: PackageIdView| !self.waiting(id),
                forall|k: int| 0 <= k < answers.len() ==> sourced(retriever, #[trigger] answers[k]),
                next is Some ==> reach(start, first@, answers) == Reach::Running(
                    self.state(),
                    next->0@,
                ),
                next is None ==> reach(start, first@, answers) == Reach::Ended(
                    self.state(),
                    SearchEnd::Done,
                ),
                rounds == 0 ==> *self == *old(self) && next is Some,
                rounds > 0 ==> old(self).budget() > 0,
            decreases self.budget(),
        {
            let ghost pview = if next is Some {
                next->0@
            } else {
                first@
            };
            let package = match next {
                Some(p) => p,
                None => {
                    return Ok(());
                },
            };
            let ghost s0 = self.state();
            let ghost asked = answers;
            if !self.spend() {
                proof {
                    answers = asked.push(idle);
                    assert(answers.drop_last() =~= asked);
                    assert(reach(start, first@, answers) == round(s0, pview, idle));
                }
                return Err(ResolveError::GaveUp);
            }
            proof {
                rounds = rounds + 1;
            }
            let ghost before = *self;
            match self.propagate(package) {
                Err(e) => {
                    proof {
                        self.lemma_extends(&before, old(self));
                        answers = asked.push(idle);
                        assert(answers.drop_last() =~= asked);
                        assert(reach(start, first@, answers) == round(s0, pview, idle));
                    }
                    return Err(e);
                },
                Ok(_) => {},
            }
            let ghost mid = *self;
            let ghost source = *retriever;
            let chosen = self.choose_pkg_version(retriever);
            proof {
                mid.lemma_extends(&before, old(self));
                self.lemma_extends(&mid, old(self));
                let said = if forall|id: PackageIdView| !waiting_in(mid.state().log, id) {
                    idle
                } else {
                    choose|answer: Answer|
                        waiting_in(mid.state().log, answer.picked) && sourced(retriever, answer)
                            && stands(self.state(), chosen, #[trigger] decided_with(
                            mid.state(),
                            answer,
                        ))
                };
                answers = asked.push(said);
                assert(answers.drop_last() =~= asked);
                assert(reach(start, first@, answers) == round(s0, pview, said));
                assert forall|k: int| 0 <= k < answers.len() implies sourced(
                    retriever,
                    #[trigger] answers[k],
                ) by {
                    if k < asked.len() {
                        assert(answers[k] == asked[k]);
                        assert(sourced(&source, asked[k]));
                        if asked[k].best is Some && asked[k].reported is Ok {
                            assert(source.held(asked[k].picked, asked[k].best->0) is Some);
                        }
                    }
                }
                if chosen is Err && chosen->Err_0 is Retrieve {
                    assert forall|i: int| 0 <= i < self.clauses().len() implies self.quiet(
                        #[trigger] self.clauses()[i],
                    ) by {
                        self.lemma_same_knowledge(&mid, self.clauses()[i]);
                    }
                    let id = choose|id: PackageIdView| #[trigger] mid.waiting(id);
                    assert(self.waiting(id));
                }
                if chosen is Ok && chosen->Ok_0 is None {
                    assert forall|i: int| 0 <= i < self.clauses().len() implies self.quiet(
                        #[trigger] self.clauses()[i],
                    ) by {
                        self.lemma_same_knowledge(&mid, self.clauses()[i]);
                    }
                    assert forall|id: PackageIdView| !self.waiting(id) by {
                        assert(!mid.waiting(id));
                    }
                }
            }
            next =
            match chosen {
                Err(e) => {
                    return Err(e);
                },
                Ok(next) => next,
            };
        }
    }

    /// Resolves the dependencies of the root that `retriever` names: finds
    /// one version for every package that is needed, directly or through
    /// other packages, such that every dependency is met. The search goes
    /// on from this state, which is a new one as a rule; the first thing
    /// taken up is that the root must be had at its version.
    ///
    /// The graph that comes out has the root that `retriever` names as its
    /// first node and every package at most once. With it comes what
    /// `retriever` holds for every node. For every dependency among that, an
    /// edge leads from the node to the node of the package depended on, and
    /// the version chosen there is one that the dependency allows; the graph
    /// has no other edges, and none leads to the root. Where there is no
    /// solution, the error carries the proof of that, which is never empty.
    #[verifier::rlimit(50)]
    pub fn solve<R: Retriever>(&mut self, retriever: &mut R) -> (r: Result<Resolution, ResolveError>)
        requires
            old(self).wf(),
        ensures
            final(self).wf(),
            final(self).budget() <= old(self).budget(),
            final(self).extends(old(self)),
            final(retriever).root_of() == old(retriever).root_of(),
            final(self).clauses().len() > old(self).clauses().len(),
            final(self).clauses()[old(self).clauses().len() as int] == (
                seq![
                    (
                        old(retriever).root_of().id@,
                        complement_of(exactly(old(retriever).root_of().version)),
                    ),
                ],
                IncompatibilityCause::Root,
            ),
            r is Ok ==> {
                &&& final(self).searched()
                &&& graph_nodes(r->Ok_0.graph).len() > 0
                &&& graph_nodes(r->Ok_0.graph)[0] == old(retriever).root_of()
                &&& graph_successors(r->Ok_0.graph).len() == graph_nodes(r->Ok_0.graph).len()
                &&& each_once(graph_nodes(r->Ok_0.graph))
                &&& rootless(graph_successors(r->Ok_0.graph))
                &&& answered(
                    final(retriever),
                    graph_nodes(r->Ok_0.graph),
                    r->Ok_0.reported@,
                    graph_nodes(r->Ok_0.graph).len() as int,
                )
                &&& certified(
                    graph_nodes(r->Ok_0.graph),
                    graph_successors(r->Ok_0.graph),
                    r->Ok_0.requirements@,
                )
                &&& complete(
                    graph_nodes(r->Ok_0.graph),
                    graph_successors(r->Ok_0.graph),
                    r->Ok_0.reported@,
                )
                &&& founded(
                    graph_nodes(r->Ok_0.graph),
                    r->Ok_0.requirements@,
                    r->Ok_0.reported@,
                    graph_nodes(r->Ok_0.graph).len() as int,
                )
            },
            exists|answers: Seq<Answer>|
                resolved_with(
                    #[trigger] reach(
                        begun(old(self).state(), old(retriever).root_of()),
                        old(retriever).root_of().id@,
                        answers,
                    ),
                    final(self).state(),
                    r,
                    final(retriever),
                    (old(retriever).root_of().id@, old(retriever).root_of().version),
                ) && forall|k: int|
                    0 <= k < answers.len() ==> sourced(final(retriever), #[trigger] answers[k]),
            old(self).budget() == 0 ==> r is Err && r->Err_0 is GaveUp && final(self).log() == old(
                self,
            ).log(),
            r is Err && r->Err_0 is NoResolution ==> r->Err_0->NoResolution_0@.len() > 0
                && exists|at: int|
                0 <= at < final(self).clauses().len() && is_failure(
                    #[trigger] final(self).clauses()[at],
                ) && r->Err_0->NoResolution_0@ == proof_text_of(final(self).clauses(), at),
            r is Err && r->Err_0 is GaveUp ==> final(self).budget() == 0 || final(self).step()
                == u16::MAX || final(self).level() == u16::MAX || final(self).searched(),
            r is Err && r->Err_0 is Retrieve ==> final(self).at_rest(),
            r is Err && r->Err_0 is Inconsistent ==> final(self).searched() || (exists|at: int|
                0 <= at < final(self).clauses().len() && (stuck(
                    final(self).log(),
                    #[trigger] final(self).clauses()[at],
                ) || final(self).idle(final(self).clauses()[at]))) || (exists|
                id: PackageIdView,
                v: Version,
            |
                (#[trigger] final(retriever).held(id, v)) is Some && any_derived(
                    final(retriever).held(id, v)->0,
                )),
    {
        let root = retriever.root();
        self.begin(&root);
        let ghost seeded = *self;
        let searched = self.search(retriever, root.id.clone());
        let ghost found = *self;
        let ghost answers = choose|answers: Seq<Answer>|
            ended(
                #[trigger] reach(seeded.state(), root.id@, answers),
                found.state(),
                failure_of(searched),
            ) && forall|k: int| 0 <= k < answers.len() ==> sourced(retriever, #[trigger] answers[k]);
        let ghost asked = *retriever;
        proof {
            self.lemma_extends(&seeded, old(self));
            assert(self.clauses()[old(self).clauses().len() as int] == seeded.clauses()[old(
                self,
            ).clauses().len() as int]);
            assert(seeded.state() == begun(old(self).state(), old(retriever).root_of()));
        }
        match searched {
            Err(e) => {
                proof {
                    if e is NoResolution {
                        let at = choose|at: int|
                            0 <= at < self.clauses().len() && is_failure(
                                #[trigger] self.clauses()[at],
                            ) && e->NoResolution_0@ == proof_text_of(self.clauses(), at);
                        law_proof_is_not_empty(self.clauses(), at);
                    }
                    assert(resolved_with(
                        reach(seeded.state(), root.id@, answers),
                        self.state(),
                        Err::<Resolution, ResolveError>(e),
                        retriever,
                        (root.id@, root.version),
                    ));
                }
                Err(e)
            },
            Ok(_) => {
                let built = self.build(retriever, root);
                proof {
                    assert forall|k: int| 0 <= k < answers.len() implies sourced(
                        retriever,
                        #[trigger] answers[k],
                    ) by {
                        assert(sourced(&asked, answers[k]));
                        if answers[k].best is Some && answers[k].reported is Ok {
                            assert(asked.held(answers[k].picked, answers[k].best->0) is Some);
                        }
                    }
                    assert(resolved_with(
                        reach(seeded.state(), root.id@, answers),
                        self.state(),
                        built,
                        retriever,
                        (root.id@, root.version),
                    ));
                }
                built
            },
        }
    }

    /// Takes up that the root must be had at its version.
    fn begin(&mut self, root: &Summary<PackageId>)
        requires
            old(self).wf(),
        ensures
            final(self).wf(),
            final(self).state() == begun(old(self).state(), *root),
            final(self).extends(old(self)),
            final(self).budget() == old(self).budget(),
            final(self).step() == old(self).step(),
            forall|id: PackageIdView| final(self).knowledge(id) == old(self).knowledge(id),
            forall|id: PackageIdView| final(self).decision_of(id) == old(self).decision_of(id),
    {
        let only = Constraint::from_version(root.version);
        let outside = only.complement();
        let mut terms = map_new();
        let ghost term = (root.id@, outside@);
        let _ = map_insert(&mut terms, root.id.clone(), outside);
        proof {
            only@[0].lemma_of_ends();
            assert(only@ =~= exactly(root.version));
            lemma_complement_of(only@, term.1);
            assert(term_views(map_terms(terms)) =~= seq![term]);
        }
        let _ = self.incompatibility(terms, IncompatibilityCause::Root);
    }
}

fn find_in(s: &Vec<PackageId>, id: &PackageId) -> (r: Option<usize>)
    ensures
        r is Some ==> r->0 < s.len() && s@[r->0 as int]@ == id@,
        r is None ==> forall|k: int| 0 <= k < s.len() ==> (#[trigger] s@[k])@ != id@,
{
    let n = s.len();
    let mut i: usize = 0;
    while i < n
        invariant
            i <= n,
            n == s.len(),
            forall|k: int| 0 <= k < i ==> (#[trigger] s@[k])@ != id@,
        decreases n - i,
    {
        if s[i].same(id) {
            return Some(i);
        }
        i += 1;
    }
    None
}

/// A new node without edges leaves a graph certified.
proof fn lemma_certified_add_node(
    nodes: Seq<Summary<PackageId>>,
    successors: Seq<Seq<int>>,
    requirements: Seq<Requirement>,
    node: Summary<PackageId>,
)
    requires
        certified(nodes, successors, requirements),
        successors.len() == nodes.len(),
    ensures
        certified(nodes.push(node), successors.push(Seq::<int>::empty()), requirements),
{
    let nodes2 = nodes.push(node);
    let successors2 = successors.push(Seq::<int>::empty());
    assert forall|k: int| 0 <= k < requirements.len() implies {
        let r = #[trigger] requirements[k];
        &&& r.parent < nodes2.len()
        &&& 0 < r.child < nodes2.len()
        &&& successors2[r.parent as int].contains(r.child as int)
        &&& !covers(r.forbidden@, point_of(nodes2[r.child as int].version))
    } by {
        let r = requirements[k];
        assert(successors2[r.parent as int] == successors[r.parent as int]);
        assert(nodes2[r.child as int] == nodes[r.child as int]);
    }
    assert forall|a: int, b: int|
        0 <= a < successors2.len() && #[trigger] successors2[a].contains(b) implies exists|k: int|
        0 <= k < requirements.len() && (#[trigger] requirements[k]).parent == a
            && requirements[k].child == b by {
        if a < successors.len() {
            assert(successors2[a] == successors[a]);
            assert(successors[a].contains(b));
        } else {
            assert(successors2[a] =~= Seq::<int>::empty());
            let i = choose|i: int| 0 <= i < successors2[a].len() && successors2[a][i] == b;
        }
    }
}

/// A new edge for a requirement that is met leaves a graph certified.
proof fn lemma_certified_add_edge(
    nodes: Seq<Summary<PackageId>>,
    successors: Seq<Seq<int>>,
    requirements: Seq<Requirement>,
    added: Requirement,
)
    requires
        certified(nodes, successors, requirements),
        successors.len() == nodes.len(),
        added.parent < nodes.len(),
        0 < added.child < nodes.len(),
        !covers(added.forbidden@, point_of(nodes[added.child as int].version)),
    ensures
        certified(
            nodes,
            successors.update(
                added.parent as int,
                seq![added.child as int] + successors[added.parent as int],
            ),
            requirements.push(added),
        ),
{
    let list = seq![added.child as int] + successors[added.parent as int];
    let successors2 = successors.update(added.parent as int, list);
    let requirements2 = requirements.push(added);
    assert(list[0] == added.child as int);
    assert forall|k: int| 0 <= k < requirements2.len() implies {
        let r = #[trigger] requirements2[k];
        &&& r.parent < nodes.len()
        &&& r.child < nodes.len()
        &&& successors2[r.parent as int].contains(r.child as int)
        &&& !covers(r.forbidden@, point_of(nodes[r.child as int].version))
    } by {
        let r = requirements2[k];
        if k < requirements.len() {
            assert(r == requirements[k]);
            assert(successors[r.parent as int].contains(r.child as int));
            if r.parent == added.parent {
                let i = choose|i: int|
                    0 <= i < successors[r.parent as int].len() && successors[r.parent as int][i]
                        == r.child as int;
                assert(list[i + 1] == r.child as int);
            }
        }
    }
    assert forall|a: int, b: int|
        0 <= a < successors2.len() && #[trigger] successors2[a].contains(b) implies exists|k: int|
        0 <= k < requirements2.len() && (#[trigger] requirements2[k]).parent == a
            && requirements2[k].child == b by {
        if a == added.parent {
            let i = choose|i: int| 0 <= i < list.len() && list[i] == b;
            if i == 0 {
                assert(requirements2[requirements.len() as int] == added);
            } else {
                assert(successors[a][i - 1] == b);
                assert(successors[a].contains(b));
                let k = choose|k: int|
                    0 <= k < requirements.len() && (#[trigger] requirements[k]).parent == a
                        && requirements[k].child == b;
                assert(requirements2[k] == requirements[k]);
            }
        } else {
            assert(successors[a].contains(b));
            let k = choose|k: int|
                0 <= k < requirements.len() && (#[trigger] requirements[k]).parent == a
                    && requirements[k].child == b;
            assert(requirements2[k] == requirements[k]);
        }
    }
}

} // verus!
