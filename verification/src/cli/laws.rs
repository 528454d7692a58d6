//! What holds of the commands whatever graph the resolver hands them.

use crate::cli::install::{package_pass, Lists};
use crate::package::manifest::Range;
use crate::package::name::NameView;
use crate::package::retriever::{PackageId, PackageIdView};
use crate::project::pins::pin_map;
use crate::solver::summary::Summary;
use vstd::prelude::*;

verus! {

/// One of the first `upto` neighbours of the root is the package `name`.
pub open spec fn is_neighbour(
    nodes: Seq<Summary<PackageId>>,
    neighbours: Seq<int>,
    upto: int,
    name: NameView,
) -> bool {
    exists|k: int|
        0 <= k < upto && k < neighbours.len() && (#[trigger] nodes[neighbours[k]]).id@
            == PackageIdView::Pkg(name)
}

/// Every package to install is listed already where it is to go.
pub open spec fn all_listed(
    declared: Seq<(NameView, Range)>,
    declared_tests: Seq<(NameView, Range)>,
    extras: Seq<NameView>,
    for_test: bool,
) -> bool {
    forall|name: NameView| #[trigger]
        extras.contains(name) ==> if for_test {
            pin_map(declared_tests).dom().contains(name)
        } else {
            pin_map(declared).dom().contains(name)
        }
}

/// Where every package to install is listed already, the pass over the
/// neighbours of the root does not fail, and it gives every neighbour that
/// the manifest lists the range that the manifest gives it.
pub proof fn lemma_pass_keeps_ranges(
    nodes: Seq<Summary<PackageId>>,
    declared: Seq<(NameView, Range)>,
    declared_tests: Seq<(NameView, Range)>,
    extras: Seq<NameView>,
    for_test: bool,
    neighbours: Seq<int>,
)
    requires
        all_listed(declared, declared_tests, extras, for_test),
        forall|name: NameView|
            !(pin_map(declared).dom().contains(name) && pin_map(declared_tests).dom().contains(
                name,
            )),
    ensures
        package_pass(nodes, declared, declared_tests, extras, for_test, neighbours) is Some,
        ({
            let l = package_pass(nodes, declared, declared_tests, extras, for_test, neighbours)->0;
            &&& forall|name: NameView|
                l.dependencies.dom().contains(name) <==> pin_map(declared).dom().contains(name)
                    && is_neighbour(nodes, neighbours, neighbours.len() as int, name)
            &&& forall|name: NameView|
                l.dependencies.dom().contains(name) ==> l.dependencies[name] == pin_map(
                    declared,
                )[name]
            &&& forall|name: NameView|
                l.test_dependencies.dom().contains(name) <==> pin_map(declared_tests).dom().contains(
                    name,
                ) && is_neighbour(nodes, neighbours, neighbours.len() as int, name)
            &&& forall|name: NameView|
                l.test_dependencies.dom().contains(name) ==> l.test_dependencies[name] == pin_map(
                    declared_tests,
                )[name]
        }),
    decreases neighbours.len(),
{
    if neighbours.len() > 0 {
        let shorter = neighbours.drop_last();
        lemma_pass_keeps_ranges(nodes, declared, declared_tests, extras, for_test, shorter);
        let before = package_pass(nodes, declared, declared_tests, extras, for_test, shorter)->0;
        let l = package_pass(nodes, declared, declared_tests, extras, for_test, neighbours)->0;
        let last = neighbours.len() - 1;
        let idx = neighbours[last];
        assert forall|name: NameView|
            is_neighbour(nodes, neighbours, neighbours.len() as int, name) <==> is_neighbour(
                nodes,
                shorter,
                shorter.len() as int,
                name,
            ) || nodes[idx].id@ == PackageIdView::Pkg(name) by {
            if is_neighbour(nodes, neighbours, neighbours.len() as int, name) {
                let k = choose|k: int|
                    0 <= k < neighbours.len() && (#[trigger] nodes[neighbours[k]]).id@
                        == PackageIdView::Pkg(name);
                if k < last {
                    assert(shorter[k] == neighbours[k]);
                    assert(nodes[shorter[k]].id@ == PackageIdView::Pkg(name));
                }
            }
            if is_neighbour(nodes, shorter, shorter.len() as int, name) {
                let k = choose|k: int|
                    0 <= k < shorter.len() && (#[trigger] nodes[shorter[k]]).id@
                        == PackageIdView::Pkg(name);
                assert(shorter[k] == neighbours[k]);
                assert(nodes[neighbours[k]].id@ == PackageIdView::Pkg(name));
            }
            if nodes[idx].id@ == PackageIdView::Pkg(name) {
                assert(nodes[neighbours[last]].id@ == PackageIdView::Pkg(name));
            }
        }
        if nodes[idx].id@ is Pkg {
            let dep = nodes[idx].id@->Pkg_0;
            assert(nodes[idx].id@ == PackageIdView::Pkg(dep));
            if extras.contains(dep) {
                assert(if for_test {
                    pin_map(declared_tests).dom().contains(dep)
                } else {
                    pin_map(declared).dom().contains(dep)
                });
            }
        }
    }
}

/// Installing again what a package lists already changes nothing: where
/// every package to install is listed where it is to go, and every package
/// that the manifest lists stands below the root, the lists that come out
/// are those of the manifest, which is when `install_package` answers that
/// nothing changes.
pub proof fn law_installing_what_is_listed_changes_nothing(
    nodes: Seq<Summary<PackageId>>,
    declared: Seq<(NameView, Range)>,
    declared_tests: Seq<(NameView, Range)>,
    extras: Seq<NameView>,
    for_test: bool,
    neighbours: Seq<int>,
)
    requires
        all_listed(declared, declared_tests, extras, for_test),
        forall|name: NameView|
            !(pin_map(declared).dom().contains(name) && pin_map(declared_tests).dom().contains(
                name,
            )),
        forall|name: NameView|
            pin_map(declared).dom().contains(name) || pin_map(declared_tests).dom().contains(name)
                ==> is_neighbour(nodes, neighbours, neighbours.len() as int, name),
    ensures
        package_pass(nodes, declared, declared_tests, extras, for_test, neighbours) == Some(
            Lists { dependencies: pin_map(declared), test_dependencies: pin_map(declared_tests) },
        ),
{
    lemma_pass_keeps_ranges(nodes, declared, declared_tests, extras, for_test, neighbours);
    let l = package_pass(nodes, declared, declared_tests, extras, for_test, neighbours)->0;
    assert(l.dependencies =~= pin_map(declared));
    assert(l.test_dependencies =~= pin_map(declared_tests));
}

} // verus!
