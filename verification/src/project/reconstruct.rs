//! From the graph of chosen versions back to the lists of a manifest.

use crate::package::name::{Name, NameView};
use crate::package::retriever::{PackageId, PackageIdView};
use crate::project::application::{pin_views, pins_ascend, AppDependencies, Pin};
use crate::project::pins::{lemma_no_pins, pin_map, set_pin};
use crate::semver::version::Version;
use crate::solver::graph::{
    breadth_first_order, depth_first_order, graph_breadth_first, graph_depth_first,
    graph_neighbors, graph_node, graph_node_count, graph_nodes, graph_successors, positions,
    Solution,
};
use crate::solver::summary::Summary;
use vstd::prelude::*;

verus! {

/// How far a walk over the graph has come: the nodes seen, the neighbours
/// of the root that are kept for the second pass, and what was found for
/// each list of the manifest.
pub struct Walk {
    pub seen: Set<int>,
    pub tests: Seq<int>,
    pub direct: Map<NameView, Version>,
    pub indirect: Map<NameView, Version>,
    pub test_direct: Map<NameView, Version>,
    pub test_indirect: Map<NameView, Version>,
}

/// Nothing seen and nothing found.
pub open spec fn start() -> Walk {
    Walk {
        seen: Set::empty(),
        tests: Seq::empty(),
        direct: Map::empty(),
        indirect: Map::empty(),
        test_direct: Map::empty(),
        test_indirect: Map::empty(),
    }
}

/// The package is published and `names` holds its name.
pub open spec fn declared(names: Seq<NameView>, id: PackageIdView) -> bool {
    id is Pkg && names.contains(id->Pkg_0)
}

/// Goes through the nodes of `order`. A node that was not seen before is
/// seen now, and if it is a published package that `names` does not hold,
/// it is an indirect dependency.
pub open spec fn visit_indirect(
    w: Walk,
    nodes: Seq<Summary<PackageId>>,
    names: Seq<NameView>,
    order: Seq<int>,
) -> Walk
    decreases order.len(),
{
    if order.len() == 0 {
        w
    } else {
        let v = visit_indirect(w, nodes, names, order.drop_last());
        let nx = order.last();
        if v.seen.contains(nx) {
            v
        } else if nodes[nx].id@ is Pkg && !declared(names, nodes[nx].id@) {
            Walk {
                seen: v.seen.insert(nx),
                indirect: v.indirect.insert(nodes[nx].id@->Pkg_0, nodes[nx].version),
                ..v
            }
        } else {
            Walk { seen: v.seen.insert(nx), ..v }
        }
    }
}

/// Goes through the nodes of `order`. A node that was not seen before is
/// seen now, and if it is a published package, it is an indirect
/// test-dependency.
pub open spec fn visit_test_indirect(w: Walk, nodes: Seq<Summary<PackageId>>, order: Seq<int>) -> Walk
    decreases order.len(),
{
    if order.len() == 0 {
        w
    } else {
        let v = visit_test_indirect(w, nodes, order.drop_last());
        let nx = order.last();
        if v.seen.contains(nx) {
            v
        } else if nodes[nx].id@ is Pkg {
            Walk {
                seen: v.seen.insert(nx),
                test_indirect: v.test_indirect.insert(nodes[nx].id@->Pkg_0, nodes[nx].version),
                ..v
            }
        } else {
            Walk { seen: v.seen.insert(nx), ..v }
        }
    }
}

/// Goes through the neighbours of the root. Each is seen. A published
/// package that `names` holds is a direct dependency, and what a depth-first
/// walk from it comes to is visited for indirect dependencies. Any other
/// published package that was not seen before is kept for the second pass.
pub open spec fn first_pass(
    nodes: Seq<Summary<PackageId>>,
    successors: Seq<Seq<int>>,
    names: Seq<NameView>,
    neighbours: Seq<int>,
) -> Walk
    decreases neighbours.len(),
{
    if neighbours.len() == 0 {
        start()
    } else {
        let v = first_pass(nodes, successors, names, neighbours.drop_last());
        let idx = neighbours.last();
        let s = Walk { seen: v.seen.insert(idx), ..v };
        if declared(names, nodes[idx].id@) {
            visit_indirect(
                Walk { direct: s.direct.insert(nodes[idx].id@->Pkg_0, nodes[idx].version), ..s },
                nodes,
                names,
                depth_first_order(successors, idx),
            )
        } else if nodes[idx].id@ is Pkg && !v.seen.contains(idx) {
            Walk { tests: s.tests.push(idx), ..s }
        } else {
            s
        }
    }
}

/// Goes through the nodes that the first pass kept. Each is a direct
/// test-dependency, and what a breadth-first walk from it comes to is
/// visited for indirect test-dependencies.
pub open spec fn second_pass(
    w: Walk,
    nodes: Seq<Summary<PackageId>>,
    successors: Seq<Seq<int>>,
    tests: Seq<int>,
) -> Walk
    decreases tests.len(),
{
    if tests.len() == 0 {
        w
    } else {
        let v = second_pass(w, nodes, successors, tests.drop_last());
        let idx = tests.last();
        if nodes[idx].id@ is Pkg {
            visit_test_indirect(
                Walk {
                    test_direct: v.test_direct.insert(nodes[idx].id@->Pkg_0, nodes[idx].version),
                    ..v
                },
                nodes,
                breadth_first_order(successors, idx),
            )
        } else {
            v
        }
    }
}

/// What the lists of a manifest are for a graph of chosen versions whose
/// first node is the root, given the names of the direct dependencies.
pub open spec fn reconstruct_spec(
    nodes: Seq<Summary<PackageId>>,
    successors: Seq<Seq<int>>,
    names: Seq<NameView>,
) -> Walk {
    let first = first_pass(nodes, successors, names, successors[0]);
    second_pass(first, nodes, successors, first.tests)
}

/// The names that the list holds.
pub open spec fn name_views(names: Seq<Name>) -> Seq<NameView> {
    names.map_values(|n: Name| n@)
}

/// No package occurs twice among the nodes.
pub open spec fn distinct_packages(nodes: Seq<Summary<PackageId>>) -> bool {
    forall|i: int, j: int|
        0 <= i < j < nodes.len() ==> (#[trigger] nodes[i]).id@ != (#[trigger] nodes[j]).id@
}

/// No name is in both maps.
pub open spec fn apart(a: Map<NameView, Version>, b: Map<NameView, Version>) -> bool {
    forall|name: NameView| !(a.dom().contains(name) && b.dom().contains(name))
}

/// No name is in more than one of the four lists.
pub open spec fn buckets_apart(w: Walk) -> bool {
    &&& apart(w.direct, w.indirect)
    &&& apart(w.direct, w.test_direct)
    &&& apart(w.direct, w.test_indirect)
    &&& apart(w.indirect, w.test_direct)
    &&& apart(w.indirect, w.test_indirect)
    &&& apart(w.test_direct, w.test_indirect)
}

/// Every name in the map is that of a node which `owner` gives to the list
/// numbered `list`.
pub open spec fn held(
    m: Map<NameView, Version>,
    owner: Map<int, int>,
    nodes: Seq<Summary<PackageId>>,
    list: int,
) -> bool {
    forall|name: NameView|
        m.dom().contains(name) ==> exists|i: int|
            0 <= i < nodes.len() && #[trigger] owner.dom().contains(i) && owner[i] == list
                && nodes[i].id@ == PackageIdView::Pkg(name)
}

/// `later` gives every node that `owner` gives to a list to the same list.
pub open spec fn extends(owner: Map<int, int>, later: Map<int, int>) -> bool {
    forall|i: int| owner.dom().contains(i) ==> #[trigger] later.dom().contains(i) && later[i] == owner[i]
}

proof fn lemma_held_extends(
    m: Map<NameView, Version>,
    owner: Map<int, int>,
    later: Map<int, int>,
    nodes: Seq<Summary<PackageId>>,
    list: int,
)
    requires
        held(m, owner, nodes, list),
        extends(owner, later),
    ensures
        held(m, later, nodes, list),
{
    assert forall|name: NameView| m.dom().contains(name) implies exists|i: int|
        0 <= i < nodes.len() && #[trigger] later.dom().contains(i) && later[i] == list
            && nodes[i].id@ == PackageIdView::Pkg(name) by {
        let i = choose|i: int|
            0 <= i < nodes.len() && #[trigger] owner.dom().contains(i) && owner[i] == list
                && nodes[i].id@ == PackageIdView::Pkg(name);
        assert(later.dom().contains(i));
    }
}

proof fn lemma_held_insert(
    m: Map<NameView, Version>,
    owner: Map<int, int>,
    nodes: Seq<Summary<PackageId>>,
    list: int,
    at: int,
    name: NameView,
    version: Version,
)
    requires
        held(m, owner, nodes, list),
        0 <= at < nodes.len(),
        owner.dom().contains(at),
        owner[at] == list,
        nodes[at].id@ == PackageIdView::Pkg(name),
    ensures
        held(m.insert(name, version), owner, nodes, list),
{
    assert forall|key: NameView| m.insert(name, version).dom().contains(key) implies exists|i: int|
        0 <= i < nodes.len() && #[trigger] owner.dom().contains(i) && owner[i] == list
            && nodes[i].id@ == PackageIdView::Pkg(key) by {
        if key == name {
            assert(owner.dom().contains(at));
        } else {
            assert(m.dom().contains(key));
        }
    }
}

/// Lists whose names belong to nodes of different lists share no name, if
/// no package occurs twice among the nodes.
proof fn lemma_apart(
    a: Map<NameView, Version>,
    b: Map<NameView, Version>,
    owner: Map<int, int>,
    nodes: Seq<Summary<PackageId>>,
    la: int,
    lb: int,
)
    requires
        held(a, owner, nodes, la),
        held(b, owner, nodes, lb),
        la != lb,
        distinct_packages(nodes),
    ensures
        apart(a, b),
{
    assert forall|name: NameView| !(a.dom().contains(name) && b.dom().contains(name)) by {
        if a.dom().contains(name) && b.dom().contains(name) {
            let i = choose|i: int|
                0 <= i < nodes.len() && #[trigger] owner.dom().contains(i) && owner[i] == la
                    && nodes[i].id@ == PackageIdView::Pkg(name);
            let j = choose|j: int|
                0 <= j < nodes.len() && #[trigger] owner.dom().contains(j) && owner[j] == lb
                    && nodes[j].id@ == PackageIdView::Pkg(name);
            if i < j {
                assert(nodes[i].id@ != nodes[j].id@);
            } else if j < i {
                assert(nodes[j].id@ != nodes[i].id@);
            }
        }
    }
}

/// Whether `names` holds `name`.
pub fn holds_name(names: &[Name], name: &Name) -> (r: bool)
    ensures
        r == name_views(names@).contains(name@),
{
    let n = names.len();
    let mut i: usize = 0;
    while i < n
        invariant
            i <= n,
            n == names@.len(),
            forall|k: int| 0 <= k < i ==> (#[trigger] names@[k])@ != name@,
        decreases n - i,
    {
        if names[i].same(name) {
            proof {
                assert(name_views(names@)[i as int] == name@);
            }
            return true;
        }
        i += 1;
    }
    proof {
        let views = name_views(names@);
        if views.contains(name@) {
            let k = choose|k: int| 0 <= k < views.len() && views[k] == name@;
            assert(names@[k]@ != name@);
        }
    }
    false
}

/// The nodes that are marked.
pub open spec fn seen_of(visited: Seq<bool>) -> Set<int> {
    Set::new(|i: int| 0 <= i < visited.len() && visited[i])
}

/// A walk of which only what was seen and one list are known; the list
/// stands in the place of the indirect dependencies.
pub open spec fn seen_with(visited: Seq<bool>, list: Seq<Pin>) -> Walk {
    Walk { seen: seen_of(visited), indirect: pin_map(pin_views(list)), ..start() }
}

/// A walk of which only what was seen and one list are known; the list
/// stands in the place of the indirect test-dependencies.
pub open spec fn seen_with_tests(visited: Seq<bool>, list: Seq<Pin>) -> Walk {
    Walk { seen: seen_of(visited), test_indirect: pin_map(pin_views(list)), ..start() }
}

/// Two walks see the same of the first `n` nodes.
pub open spec fn same_seen(a: Walk, b: Walk, n: int) -> bool {
    forall|i: int| 0 <= i < n ==> (#[trigger] a.seen.contains(i) <==> b.seen.contains(i))
}

/// A visit for indirect dependencies changes what was seen and the indirect
/// dependencies, and these depend on nothing else.
pub proof fn lemma_visit_indirect_frame(
    w: Walk,
    r: Walk,
    nodes: Seq<Summary<PackageId>>,
    names: Seq<NameView>,
    order: Seq<int>,
)
    requires
        same_seen(w, r, nodes.len() as int),
        w.indirect == r.indirect,
        forall|k: int| 0 <= k < order.len() ==> 0 <= #[trigger] order[k] < nodes.len(),
    ensures
        same_seen(
            visit_indirect(w, nodes, names, order),
            visit_indirect(r, nodes, names, order),
            nodes.len() as int,
        ),
        visit_indirect(w, nodes, names, order).indirect == visit_indirect(
            r,
            nodes,
            names,
            order,
        ).indirect,
        visit_indirect(w, nodes, names, order).tests == w.tests,
        visit_indirect(w, nodes, names, order).direct == w.direct,
        visit_indirect(w, nodes, names, order).test_direct == w.test_direct,
        visit_indirect(w, nodes, names, order).test_indirect == w.test_indirect,
    decreases order.len(),
{
    if order.len() > 0 {
        lemma_visit_indirect_frame(w, r, nodes, names, order.drop_last());
        let nx = order.last();
        assert(0 <= order[order.len() - 1] < nodes.len());
        let a = visit_indirect(w, nodes, names, order.drop_last());
        let b = visit_indirect(r, nodes, names, order.drop_last());
        assert(a.seen.contains(nx) <==> b.seen.contains(nx));
    }
}

/// A visit for indirect test-dependencies changes what was seen and the
/// indirect test-dependencies, and these depend on nothing else.
pub proof fn lemma_visit_test_indirect_frame(
    w: Walk,
    r: Walk,
    nodes: Seq<Summary<PackageId>>,
    order: Seq<int>,
)
    requires
        same_seen(w, r, nodes.len() as int),
        w.test_indirect == r.test_indirect,
        forall|k: int| 0 <= k < order.len() ==> 0 <= #[trigger] order[k] < nodes.len(),
    ensures
        same_seen(
            visit_test_indirect(w, nodes, order),
            visit_test_indirect(r, nodes, order),
            nodes.len() as int,
        ),
        visit_test_indirect(w, nodes, order).test_indirect == visit_test_indirect(
            r,
            nodes,
            order,
        ).test_indirect,
        visit_test_indirect(w, nodes, order).tests == w.tests,
        visit_test_indirect(w, nodes, order).direct == w.direct,
        visit_test_indirect(w, nodes, order).indirect == w.indirect,
        visit_test_indirect(w, nodes, order).test_direct == w.test_direct,
    decreases order.len(),
{
    if order.len() > 0 {
        lemma_visit_test_indirect_frame(w, r, nodes, order.drop_last());
        let nx = order.last();
        assert(0 <= order[order.len() - 1] < nodes.len());
        let a = visit_test_indirect(w, nodes, order.drop_last());
        let b = visit_test_indirect(r, nodes, order.drop_last());
        assert(a.seen.contains(nx) <==> b.seen.contains(nx));
    }
}

/// After a visit the names of every list still belong to nodes of that
/// list: the nodes that the visit came to first belong to the list
/// numbered `list`, which is the list that the visit fills.
proof fn lemma_visit_owned(
    w: Walk,
    owner: Map<int, int>,
    nodes: Seq<Summary<PackageId>>,
    names: Seq<NameView>,
    order: Seq<int>,
    tests: bool,
) -> (later: Map<int, int>)
    requires
        owned(w, owner, nodes),
        forall|k: int| 0 <= k < order.len() ==> 0 <= #[trigger] order[k] < nodes.len(),
    ensures
        owned(
            if tests {
                visit_test_indirect(w, nodes, order)
            } else {
                visit_indirect(w, nodes, names, order)
            },
            later,
            nodes,
        ),
        extends(owner, later),
        forall|i: int| #[trigger]
            later.dom().contains(i) && !owner.dom().contains(i) ==> if tests {
                later[i] == 3
            } else {
                later[i] == 1 && !declared(names, nodes[i].id@)
            },
    decreases order.len(),
{
    if order.len() == 0 {
        owner
    } else {
        let before_owner = lemma_visit_owned(w, owner, nodes, names, order.drop_last(), tests);
        let before = if tests {
            visit_test_indirect(w, nodes, order.drop_last())
        } else {
            visit_indirect(w, nodes, names, order.drop_last())
        };
        let nx = order.last();
        assert(0 <= order[order.len() - 1] < nodes.len());
        let list = if tests {
            3int
        } else {
            1int
        };
        let takes = !before.seen.contains(nx) && nodes[nx].id@ is Pkg && (tests || !declared(
            names,
            nodes[nx].id@,
        ));
        if takes {
            let later = before_owner.insert(nx, list);
            assert(!before_owner.dom().contains(nx));
            assert(extends(before_owner, later));
            lemma_held_extends(before.direct, before_owner, later, nodes, 0);
            lemma_held_extends(before.indirect, before_owner, later, nodes, 1);
            lemma_held_extends(before.test_direct, before_owner, later, nodes, 2);
            lemma_held_extends(before.test_indirect, before_owner, later, nodes, 3);
            if tests {
                lemma_held_insert(
                    before.test_indirect,
                    later,
                    nodes,
                    3,
                    nx,
                    nodes[nx].id@->Pkg_0,
                    nodes[nx].version,
                );
            } else {
                lemma_held_insert(
                    before.indirect,
                    later,
                    nodes,
                    1,
                    nx,
                    nodes[nx].id@->Pkg_0,
                    nodes[nx].version,
                );
            }
            later
        } else {
            before_owner
        }
    }
}

/// Goes through the nodes of `order` for indirect dependencies: a node that
/// is not marked yet is marked, and if it is a published package that
/// `direct_names` does not hold, it goes into the list.
pub fn visit_indirect_along(
    direct_names: &[Name],
    g: &Solution,
    order: &Vec<usize>,
    visited: &mut Vec<bool>,
    indirect: &mut Vec<Pin>,
)
    requires
        old(visited)@.len() == graph_nodes(*g).len(),
        forall|k: int| 0 <= k < order@.len() ==> #[trigger] order@[k] < graph_nodes(*g).len(),
        pins_ascend(pin_views(old(indirect)@)),
    ensures
        final(visited)@.len() == old(visited)@.len(),
        pins_ascend(pin_views(final(indirect)@)),
        ({
            let w = visit_indirect(
                seen_with(old(visited)@, old(indirect)@),
                graph_nodes(*g),
                name_views(direct_names@),
                positions(order@),
            );
            &&& forall|i: int|
                0 <= i < final(visited)@.len() ==> (#[trigger] final(visited)@[i]
                    <==> w.seen.contains(i))
            &&& pin_map(pin_views(final(indirect)@)) == w.indirect
        }),
{
    let ghost nodes = graph_nodes(*g);
    let ghost names = name_views(direct_names@);
    let ghost ord = positions(order@);
    let ghost base = seen_with(visited@, indirect@);
    let ghost mut w = base;
    proof {
        assert(ord.take(0) =~= Seq::<int>::empty());
    }
    let len = order.len();
    let mut b: usize = 0;
    while b < len
        invariant
            b <= len,
            len == order@.len(),
            nodes == graph_nodes(*g),
            names == name_views(direct_names@),
            ord == positions(order@),
            visited@.len() == nodes.len(),
            forall|k: int| 0 <= k < order@.len() ==> #[trigger] order@[k] < nodes.len(),
            w == visit_indirect(base, nodes, names, ord.take(b as int)),
            forall|i: int| 0 <= i < visited@.len() ==> (#[trigger] visited@[i] <==> w.seen.contains(i)),
            pins_ascend(pin_views(indirect@)),
            pin_map(pin_views(indirect@)) == w.indirect,
        decreases len - b,
    {
        let nx = order[b];
        let ghost before = w;
        proof {
            assert(ord.take(b + 1).drop_last() =~= ord.take(b as int));
            assert(ord.take(b + 1).last() == nx as int);
        }
        if !visited[nx] {
            visited.set(nx, true);
            proof {
                w = Walk { seen: before.seen.insert(nx as int), ..before };
            }
            let reached = graph_node(g, nx);
            match &reached.id {
                PackageId::Pkg(dep) => {
                    if !holds_name(direct_names, dep) {
                        set_pin(indirect, dep.clone(), reached.version);
                        proof {
                            w = Walk { indirect: w.indirect.insert(dep@, reached.version), ..w };
                        }
                    }
                },
                _ => {},
            }
        }
        b += 1;
    }
    proof {
        assert(ord.take(len as int) =~= ord);
    }
}

/// Goes through the nodes of `order` for indirect test-dependencies: a node
/// that is not marked yet is marked, and if it is a published package, it
/// goes into the list.
pub fn visit_test_indirect_along(
    g: &Solution,
    order: &Vec<usize>,
    visited: &mut Vec<bool>,
    test_indirect: &mut Vec<Pin>,
)
    requires
        old(visited)@.len() == graph_nodes(*g).len(),
        forall|k: int| 0 <= k < order@.len() ==> #[trigger] order@[k] < graph_nodes(*g).len(),
        pins_ascend(pin_views(old(test_indirect)@)),
    ensures
        final(visited)@.len() == old(visited)@.len(),
        pins_ascend(pin_views(final(test_indirect)@)),
        ({
            let w = visit_test_indirect(
                seen_with_tests(old(visited)@, old(test_indirect)@),
                graph_nodes(*g),
                positions(order@),
            );
            &&& forall|i: int|
                0 <= i < final(visited)@.len() ==> (#[trigger] final(visited)@[i]
                    <==> w.seen.contains(i))
            &&& pin_map(pin_views(final(test_indirect)@)) == w.test_indirect
        }),
{
    let ghost nodes = graph_nodes(*g);
    let ghost ord = positions(order@);
    let ghost base = seen_with_tests(visited@, test_indirect@);
    let ghost mut w = base;
    proof {
        assert(ord.take(0) =~= Seq::<int>::empty());
    }
    let len = order.len();
    let mut b: usize = 0;
    while b < len
        invariant
            b <= len,
            len == order@.len(),
            nodes == graph_nodes(*g),
            ord == positions(order@),
            visited@.len() == nodes.len(),
            forall|k: int| 0 <= k < order@.len() ==> #[trigger] order@[k] < nodes.len(),
            w == visit_test_indirect(base, nodes, ord.take(b as int)),
            forall|i: int| 0 <= i < visited@.len() ==> (#[trigger] visited@[i] <==> w.seen.contains(i)),
            pins_ascend(pin_views(test_indirect@)),
            pin_map(pin_views(test_indirect@)) == w.test_indirect,
        decreases len - b,
    {
        let nx = order[b];
        let ghost before = w;
        proof {
            assert(ord.take(b + 1).drop_last() =~= ord.take(b as int));
            assert(ord.take(b + 1).last() == nx as int);
        }
        if !visited[nx] {
            visited.set(nx, true);
            proof {
                w = Walk { seen: before.seen.insert(nx as int), ..before };
            }
            let reached = graph_node(g, nx);
            match &reached.id {
                PackageId::Pkg(dep) => {
                    set_pin(test_indirect, dep.clone(), reached.version);
                    proof {
                        w =
                        Walk { test_indirect: w.test_indirect.insert(dep@, reached.version), ..w };
                    }
                },
                _ => {},
            }
        }
        b += 1;
    }
    proof {
        assert(ord.take(len as int) =~= ord);
    }
}

/// What the program holds stands for the walk `w`.
pub open spec fn stands_for(
    visited: Seq<bool>,
    tests: Seq<usize>,
    direct: Seq<Pin>,
    indirect: Seq<Pin>,
    test_direct: Seq<Pin>,
    test_indirect: Seq<Pin>,
    w: Walk,
) -> bool {
    &&& forall|i: int| 0 <= i < visited.len() ==> (#[trigger] visited[i] <==> w.seen.contains(i))
    &&& positions(tests) == w.tests
    &&& pins_ascend(pin_views(direct))
    &&& pins_ascend(pin_views(indirect))
    &&& pins_ascend(pin_views(test_direct))
    &&& pins_ascend(pin_views(test_indirect))
    &&& pin_map(pin_views(direct)) == w.direct
    &&& pin_map(pin_views(indirect)) == w.indirect
    &&& pin_map(pin_views(test_direct)) == w.test_direct
    &&& pin_map(pin_views(test_indirect)) == w.test_indirect
}

/// The owners are nodes that were seen, and the names of every list belong
/// to nodes of that list.
pub open spec fn owned(w: Walk, owner: Map<int, int>, nodes: Seq<Summary<PackageId>>) -> bool {
    &&& forall|i: int| #[trigger] owner.dom().contains(i) ==> 0 <= i < nodes.len() && w.seen.contains(i)
    &&& held(w.direct, owner, nodes, 0)
    &&& held(w.indirect, owner, nodes, 1)
    &&& held(w.test_direct, owner, nodes, 2)
    &&& held(w.test_indirect, owner, nodes, 3)
}

/// The lists of an application's manifest for the graph `g` of chosen
/// versions, whose first node is the root: the dependencies in the first
/// place, the test-dependencies in the second.
///
/// A neighbour of the root whose name is in `direct_names` is a direct
/// dependency; what can be reached from it is an indirect dependency. The
/// other neighbours of the root are direct test-dependencies, and what can
/// be reached from them alone is an indirect test-dependency. A node goes to
/// the first list that comes to it.
#[verifier::loop_isolation(false)]
pub fn reconstruct(direct_names: &[Name], g: &Solution) -> (r: (AppDependencies, AppDependencies))
    requires
        graph_nodes(*g).len() > 0,
    ensures
        ({
            let w = reconstruct_spec(
                graph_nodes(*g),
                graph_successors(*g),
                name_views(direct_names@),
            );
            &&& pins_ascend(pin_views(r.0.direct@))
            &&& pins_ascend(pin_views(r.0.indirect@))
            &&& pins_ascend(pin_views(r.1.direct@))
            &&& pins_ascend(pin_views(r.1.indirect@))
            &&& pin_map(pin_views(r.0.direct@)) == w.direct
            &&& pin_map(pin_views(r.0.indirect@)) == w.indirect
            &&& pin_map(pin_views(r.1.direct@)) == w.test_direct
            &&& pin_map(pin_views(r.1.indirect@)) == w.test_indirect
            &&& distinct_packages(graph_nodes(*g)) ==> buckets_apart(w)
        }),
{
    let ghost nodes = graph_nodes(*g);
    let ghost successors = graph_successors(*g);
    let ghost names = name_views(direct_names@);
    let n = graph_node_count(g);
    let mut direct: Vec<Pin> = Vec::new();
    let mut indirect: Vec<Pin> = Vec::new();
    let mut test_direct: Vec<Pin> = Vec::new();
    let mut test_indirect: Vec<Pin> = Vec::new();
    let mut test_idxs: Vec<usize> = Vec::new();
    let mut visited: Vec<bool> = Vec::new();
    let mut k: usize = 0;
    while k < n
        invariant
            k <= n,
            visited@.len() == k,
            forall|i: int| 0 <= i < k ==> !(#[trigger] visited@[i]),
        decreases n - k,
    {
        visited.push(false);
        k += 1;
    }
    let neighbours = graph_neighbors(g, 0);
    let ghost nbrs = positions(neighbours@);
    let ghost mut w = start();
    let ghost mut owner: Map<int, int> = Map::empty();
    proof {
        lemma_no_pins::<Version>();
        assert(pin_views(direct@) =~= Seq::<(NameView, Version)>::empty());
        assert(pin_views(indirect@) =~= Seq::<(NameView, Version)>::empty());
        assert(pin_views(test_direct@) =~= Seq::<(NameView, Version)>::empty());
        assert(pin_views(test_indirect@) =~= Seq::<(NameView, Version)>::empty());
        assert(nbrs.take(0) =~= Seq::<int>::empty());
        assert(positions(test_idxs@) =~= Seq::<int>::empty());
        assert(nbrs == successors[0]);
    }
    let m = neighbours.len();
    let mut a: usize = 0;
    while a < m
        invariant
            a <= m,
            m == neighbours@.len(),
            visited@.len() == n,
            w == first_pass(nodes, successors, names, nbrs.take(a as int)),
            stands_for(
                visited@,
                test_idxs@,
                direct@,
                indirect@,
                test_direct@,
                test_indirect@,
                w,
            ),
            owned(w, owner, nodes),
            test_direct@.len() == 0,
            test_indirect@.len() == 0,
            forall|i: int|
                owner.dom().contains(i) ==> (#[trigger] owner[i] == 0 <==> declared(
                    names,
                    nodes[i].id@,
                )),
            forall|i: int| owner.dom().contains(i) ==> 0 <= #[trigger] owner[i] <= 2,
            forall|t: int|
                0 <= t < test_idxs@.len() ==> (#[trigger] test_idxs@[t]) < n && owner.dom().contains(
                    test_idxs@[t] as int,
                ) && owner[test_idxs@[t] as int] == 2 && nodes[test_idxs@[t] as int].id@ is Pkg,
        decreases m - a,
    {
        let idx = neighbours[a];
        let ghost prev = w;
        let ghost prev_owner = owner;
        proof {
            assert(nbrs.take(a + 1).drop_last() =~= nbrs.take(a as int));
            assert(nbrs.take(a + 1).last() == idx as int);
            assert(nbrs[a as int] == idx as int);
        }
        let seen_before = visited[idx];
        visited.set(idx, true);
        proof {
            w = Walk { seen: prev.seen.insert(idx as int), ..prev };
        }
        let item = graph_node(g, idx);
        match &item.id {
            PackageId::Pkg(name) => {
                if holds_name(direct_names, name) {
                    set_pin(&mut direct, name.clone(), item.version);
                    proof {
                        w = Walk { direct: w.direct.insert(name@, item.version), ..w };
                        owner = prev_owner.insert(idx as int, 0);
                        assert(extends(prev_owner, owner));
                        lemma_held_extends(prev.direct, prev_owner, owner, nodes, 0);
                        lemma_held_extends(prev.indirect, prev_owner, owner, nodes, 1);
                        lemma_held_extends(prev.test_direct, prev_owner, owner, nodes, 2);
                        lemma_held_extends(prev.test_indirect, prev_owner, owner, nodes, 3);
                        lemma_held_insert(
                            prev.direct,
                            owner,
                            nodes,
                            0,
                            idx as int,
                            name@,
                            item.version,
                        );
                    }
                    let order = graph_depth_first(g, idx);
                    let ghost ord = positions(order@);
                    let ghost base = w;
                    let ghost marks = visited@;
                    let ghost listed = indirect@;
                    visit_indirect_along(direct_names, g, &order, &mut visited, &mut indirect);
                    proof {
                        let reduced = seen_with(marks, listed);
                        lemma_visit_indirect_frame(base, reduced, nodes, names, ord);
                        let before_owner = owner;
                        owner = lemma_visit_owned(base, before_owner, nodes, names, ord, false);
                        w = visit_indirect(base, nodes, names, ord);
                        assert forall|t: int| 0 <= t < test_idxs@.len() implies (
                        #[trigger] test_idxs@[t]) < n && owner.dom().contains(test_idxs@[t] as int)
                            && owner[test_idxs@[t] as int] == 2 && nodes[test_idxs@[t] as int].id@
                            is Pkg by {
                            let x = test_idxs@[t] as int;
                            assert(prev_owner.dom().contains(x) && prev_owner[x] == 2);
                            assert(x != idx as int);
                            assert(before_owner.dom().contains(x) && before_owner[x] == 2);
                            assert(owner.dom().contains(x));
                        }
                        assert forall|i: int| owner.dom().contains(i) implies (#[trigger] owner[i]
                            == 0 <==> declared(names, nodes[i].id@)) && 0 <= owner[i] <= 2 by {
                            if before_owner.dom().contains(i) {
                                assert(owner.dom().contains(i));
                                assert(owner[i] == before_owner[i]);
                                if i != idx as int {
                                    assert(prev_owner.dom().contains(i));
                                }
                            }
                        }
                    }
                } else if !seen_before {
                    test_idxs.push(idx);
                    proof {
                        w = Walk { tests: w.tests.push(idx as int), ..w };
                        assert(positions(test_idxs@) =~= w.tests);
                        owner = prev_owner.insert(idx as int, 2);
                        assert(!prev_owner.dom().contains(idx as int));
                        assert(extends(prev_owner, owner));
                        lemma_held_extends(prev.direct, prev_owner, owner, nodes, 0);
                        lemma_held_extends(prev.indirect, prev_owner, owner, nodes, 1);
                        lemma_held_extends(prev.test_direct, prev_owner, owner, nodes, 2);
                        lemma_held_extends(prev.test_indirect, prev_owner, owner, nodes, 3);
                    }
                }
            },
            _ => {},
        }
        a += 1;
    }
    proof {
        assert(nbrs.take(m as int) =~= nbrs);
    }
    let ghost first = w;
    let ghost tests = first.tests;
    proof {
        assert(tests.take(0) =~= Seq::<int>::empty());
    }
    let count = test_idxs.len();
    let mut t: usize = 0;
    while t < count
        invariant
            t <= count,
            count == test_idxs@.len(),
            visited@.len() == n,
            positions(test_idxs@) == tests,
            w == second_pass(first, nodes, successors, tests.take(t as int)),
            w.tests == tests,
            stands_for(
                visited@,
                test_idxs@,
                direct@,
                indirect@,
                test_direct@,
                test_indirect@,
                w,
            ),
            owned(w, owner, nodes),
            forall|u: int|
                0 <= u < test_idxs@.len() ==> (#[trigger] test_idxs@[u]) < n && owner.dom().contains(
                    test_idxs@[u] as int,
                ) && owner[test_idxs@[u] as int] == 2 && nodes[test_idxs@[u] as int].id@ is Pkg,
        decreases count - t,
    {
        let idx = test_idxs[t];
        let ghost prev = w;
        proof {
            assert(tests.take(t + 1).drop_last() =~= tests.take(t as int));
            assert(tests.take(t + 1).last() == idx as int);
            assert(tests[t as int] == idx as int);
        }
        let item = graph_node(g, idx);
        match &item.id {
            PackageId::Pkg(name) => {
                set_pin(&mut test_direct, name.clone(), item.version);
                proof {
                    w = Walk { test_direct: w.test_direct.insert(name@, item.version), ..w };
                    lemma_held_insert(
                        prev.test_direct,
                        owner,
                        nodes,
                        2,
                        idx as int,
                        name@,
                        item.version,
                    );
                }
                let order = graph_breadth_first(g, idx);
                let ghost ord = positions(order@);
                let ghost base = w;
                let ghost marks = visited@;
                let ghost listed = test_indirect@;
                visit_test_indirect_along(g, &order, &mut visited, &mut test_indirect);
                proof {
                    let reduced = seen_with_tests(marks, listed);
                    lemma_visit_test_indirect_frame(base, reduced, nodes, ord);
                    let before_owner = owner;
                    owner = lemma_visit_owned(base, before_owner, nodes, names, ord, true);
                    w = visit_test_indirect(base, nodes, ord);
                    assert forall|u: int| 0 <= u < test_idxs@.len() implies (
                    #[trigger] test_idxs@[u]) < n && owner.dom().contains(test_idxs@[u] as int)
                        && owner[test_idxs@[u] as int] == 2 && nodes[test_idxs@[u] as int].id@
                        is Pkg by {
                        let x = test_idxs@[u] as int;
                        assert(before_owner.dom().contains(x) && before_owner[x] == 2);
                        assert(owner.dom().contains(x));
                    }
                }
            },
            _ => {},
        }
        t += 1;
    }
    proof {
        assert(tests.take(count as int) =~= tests);
        if distinct_packages(nodes) {
            lemma_apart(w.direct, w.indirect, owner, nodes, 0, 1);
            lemma_apart(w.direct, w.test_direct, owner, nodes, 0, 2);
            lemma_apart(w.direct, w.test_indirect, owner, nodes, 0, 3);
            lemma_apart(w.indirect, w.test_direct, owner, nodes, 1, 2);
            lemma_apart(w.indirect, w.test_indirect, owner, nodes, 1, 3);
            lemma_apart(w.test_direct, w.test_indirect, owner, nodes, 2, 3);
        }
    }
    (
        AppDependencies { direct, indirect },
        AppDependencies { direct: test_direct, indirect: test_indirect },
    )
}

} // verus!
