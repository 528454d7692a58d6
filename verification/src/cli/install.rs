//! Installing packages: what to ask for, and what to write back.

use crate::cli::extras::{add_extra_deps, all_extras, extras_names, extras_needs};
use crate::cli::plan::{
    as_ids, entries_without, keys, keys_of, names_then, seed, seeded, without,
};
use crate::package::manifest::{find_dependency, Dependency, Package};
use crate::package::name::{Name, NameView};
use crate::package::retriever::{
    held_or_empty, root_needs, root_version, PackageId, PackageIdView, Retriever,
};
use crate::project::application::{pin_views, pins_ascend, ranged, Application};
use crate::project::pins::{lemma_no_pins, lemma_pin_map, lemma_pins_equal, pin_map, set_pin};
use crate::project::reconstruct::{
    distinct_packages, holds_name, name_views, reconstruct, reconstruct_spec, Walk,
};
use crate::semver::range::Strictness;
use crate::semver::version::Version;
use crate::solver::graph::{
    graph_neighbors, graph_node, graph_nodes, graph_successors, positions, Solution,
};
use crate::solver::summary::Summary;
use vstd::prelude::*;

verus! {

/// The lists of `after` are those of the walk `w`, and the rest of the
/// manifest is as in `before`.
pub open spec fn rebuilt(before: Application, after: Application, w: Walk) -> bool {
    &&& after.source_directories == before.source_directories
    &&& after.elm_version == before.elm_version
    &&& pins_ascend(pin_views(after.dependencies.direct@))
    &&& pins_ascend(pin_views(after.dependencies.indirect@))
    &&& pins_ascend(pin_views(after.test_dependencies.direct@))
    &&& pins_ascend(pin_views(after.test_dependencies.indirect@))
    &&& pin_map(pin_views(after.dependencies.direct@)) == w.direct
    &&& pin_map(pin_views(after.dependencies.indirect@)) == w.indirect
    &&& pin_map(pin_views(after.test_dependencies.direct@)) == w.test_direct
    &&& pin_map(pin_views(after.test_dependencies.indirect@)) == w.test_indirect
}

/// Tells the source of packages what installing into an application asks
/// for: the packages given on the command line, and the direct dependencies
/// and test-dependencies at their exact versions, but for those packages.
/// The versions of the indirect dependencies are to be preferred. Answers
/// the names of the packages given on the command line.
pub fn seed_application(info: &Application, extras: &Vec<String>, retriever: &mut Retriever) -> (names:
    Vec<Name>)
    requires
        all_extras(extras@),
    ensures
        name_views(names@) == extras_names(extras@),
        seeded(
            old(retriever),
            final(retriever),
            extras_needs(extras@) + root_needs(
                without(
                    ranged(pin_views(info.dependencies.direct@), Strictness::Exact),
                    extras_names(extras@),
                ),
            ) + root_needs(
                without(
                    ranged(pin_views(info.test_dependencies.direct@), Strictness::Exact),
                    extras_names(extras@),
                ),
            ),
            as_ids(without(pin_views(info.dependencies.indirect@), extras_names(extras@))) + as_ids(
                without(pin_views(info.test_dependencies.indirect@), extras_names(extras@)),
            ),
        ),
{
    let strictness = Strictness::Exact;
    seed(
        retriever,
        extras,
        &info.dependencies.indirect,
        &info.test_dependencies.indirect,
        &info.dependencies(&strictness),
        &info.test_dependencies(&strictness),
    )
}

/// The manifest of the application once the packages `extras` are
/// installed, for the graph `g` of chosen versions. The direct dependencies
/// are those that the manifest had, and the packages installed unless they
/// are installed for tests only.
pub fn install_application(info: Application, extras: &Vec<Name>, for_test: bool, g: &Solution) -> (r:
    Application)
    requires
        graph_nodes(*g).len() > 0,
    ensures
        rebuilt(
            info,
            r,
            reconstruct_spec(
                graph_nodes(*g),
                graph_successors(*g),
                keys(without(pin_views(info.dependencies.direct@), name_views(extras@))) + (
                if for_test {
                    Seq::<NameView>::empty()
                } else {
                    name_views(extras@)
                }),
            ),
        ),
        distinct_packages(graph_nodes(*g)) ==> {
            &&& crate::project::reconstruct::apart(
                pin_map(pin_views(r.dependencies.direct@)),
                pin_map(pin_views(r.dependencies.indirect@)),
            )
            &&& crate::project::reconstruct::apart(
                pin_map(pin_views(r.dependencies.direct@)),
                pin_map(pin_views(r.test_dependencies.direct@)),
            )
            &&& crate::project::reconstruct::apart(
                pin_map(pin_views(r.dependencies.indirect@)),
                pin_map(pin_views(r.test_dependencies.indirect@)),
            )
        },
{
    let extra_direct: Vec<Name> = if for_test {
        Vec::new()
    } else {
        keys_of_names(extras)
    };
    let kept = keys_of(&entries_without(&info.dependencies.direct, extras.as_slice()));
    let orig_direct = names_then(kept, &extra_direct);
    proof {
        if for_test {
            assert(name_views(extra_direct@) =~= Seq::<NameView>::empty());
        }
    }
    let deps = reconstruct(orig_direct.as_slice(), g);
    info.with(deps.0, deps.1)
}

/// Copies of the names, in order.
pub fn keys_of_names(names: &Vec<Name>) -> (r: Vec<Name>)
    ensures
        name_views(r@) == name_views(names@),
{
    names_then(Vec::new(), names)
}

/// What came of installing into a package.
#[derive(Debug)]
pub enum PackageOutcome {
    /// All that was asked for is there already.
    NoChanges,
    /// The manifest with the new dependencies.
    Changed(Package),
    /// A version that was chosen has no next major version, so that no range
    /// can be written for it.
    VersionOutOfRange,
}

/// The two lists of a package's manifest as maps.
pub struct Lists {
    pub dependencies: Map<NameView, crate::package::manifest::Range>,
    pub test_dependencies: Map<NameView, crate::package::manifest::Range>,
}

/// Goes through the neighbours of the root. A package that was installed
/// and that the manifest does not list yet where it is to go gets the range
/// from its chosen version up to the next major version, as a dependency
/// or, if it was installed for tests, as a test-dependency. Any other
/// package keeps the range that the manifest gives it. Nothing if a chosen
/// version has no next major version.
pub open spec fn package_pass(
    nodes: Seq<Summary<PackageId>>,
    declared: Seq<(NameView, crate::package::manifest::Range)>,
    declared_tests: Seq<(NameView, crate::package::manifest::Range)>,
    extras: Seq<NameView>,
    for_test: bool,
    neighbours: Seq<int>,
) -> Option<Lists>
    decreases neighbours.len(),
{
    if neighbours.len() == 0 {
        Some(Lists { dependencies: Map::empty(), test_dependencies: Map::empty() })
    } else {
        let before = package_pass(
            nodes,
            declared,
            declared_tests,
            extras,
            for_test,
            neighbours.drop_last(),
        );
        let idx = neighbours.last();
        if before is None {
            None
        } else if !(nodes[idx].id@ is Pkg) {
            before
        } else {
            let l = before->0;
            let dep = nodes[idx].id@->Pkg_0;
            let version = nodes[idx].version;
            if extras.contains(dep) && !for_test && pin_map(declared).dom().contains(dep) {
                Some(Lists { dependencies: l.dependencies.insert(dep, pin_map(declared)[dep]), ..l })
            } else if extras.contains(dep) && for_test && pin_map(declared_tests).dom().contains(
                dep,
            ) {
                Some(
                    Lists {
                        test_dependencies: l.test_dependencies.insert(
                            dep,
                            pin_map(declared_tests)[dep],
                        ),
                        ..l
                    },
                )
            } else if extras.contains(dep) {
                if version.major == u64::MAX {
                    None
                } else {
                    let range = crate::package::manifest::Range {
                        lower: version,
                        upper: Version { major: (version.major + 1) as u64, minor: 0, patch: 0 },
                    };
                    if for_test {
                        Some(Lists { test_dependencies: l.test_dependencies.insert(dep, range), ..l })
                    } else {
                        Some(Lists { dependencies: l.dependencies.insert(dep, range), ..l })
                    }
                }
            } else if pin_map(declared).dom().contains(dep) {
                Some(Lists { dependencies: l.dependencies.insert(dep, pin_map(declared)[dep]), ..l })
            } else if pin_map(declared_tests).dom().contains(dep) {
                Some(
                    Lists {
                        test_dependencies: l.test_dependencies.insert(
                            dep,
                            pin_map(declared_tests)[dep],
                        ),
                        ..l
                    },
                )
            } else {
                before
            }
        }
    }
}

/// Whether two lists of dependencies are the same.
pub fn same_dependencies(a: &Vec<Dependency>, b: &Vec<Dependency>) -> (r: bool)
    ensures
        r == (pin_views(a@) == pin_views(b@)),
{
    let n = a.len();
    if n != b.len() {
        proof {
            assert(pin_views(a@).len() != pin_views(b@).len());
        }
        return false;
    }
    let mut i: usize = 0;
    while i < n
        invariant
            i <= n,
            n == a.len(),
            n == b.len(),
            forall|k: int| 0 <= k < i ==> pin_views(a@)[k] == pin_views(b@)[k],
        decreases n - i,
    {
        if !(a[i].0.same(&b[i].0) && a[i].1 == b[i].1) {
            proof {
                assert(pin_views(a@)[i as int] != pin_views(b@)[i as int]);
            }
            return false;
        }
        i += 1;
    }
    proof {
        assert(pin_views(a@) =~= pin_views(b@));
    }
    true
}

/// Tells the source of packages what installing into a package asks for:
/// the dependencies `deps` of the package with their ranges, and the
/// packages given on the command line. Answers the names of those.
pub fn seed_package(
    deps: &Vec<(Name, crate::semver::range::Range)>,
    extras: &Vec<String>,
    retriever: &mut Retriever,
) -> (names: Vec<Name>)
    requires
        all_extras(extras@),
    ensures
        name_views(names@) == extras_names(extras@),
        seeded(
            old(retriever),
            final(retriever),
            root_needs(pin_views(deps@)) + extras_needs(extras@),
            Seq::<(PackageIdView, Version)>::empty(),
        ),
{
    let ghost start = *retriever;
    retriever.add_deps(deps);
    let ghost mid = *retriever;
    let names = add_extra_deps(extras, retriever);
    proof {
        if extras@.len() == 0 {
            assert(extras_needs(extras@) =~= Seq::<crate::package::retriever::IncompatView>::empty());
            assert(retriever.cached(PackageIdView::Root, root_version()) == mid.cached(
                PackageIdView::Root,
                root_version(),
            ));
        }
        assert(retriever.cached(PackageIdView::Root, root_version())->0 =~= held_or_empty(
            start.cached(PackageIdView::Root, root_version()),
        ) + (root_needs(pin_views(deps@)) + extras_needs(extras@)));
        assert forall|id: PackageIdView| #[trigger]
            retriever.versions_of(id) == start.versions_of(id) by {
            assert(mid.versions_of(id) == start.versions_of(id));
        }
        assert forall|id: PackageIdView| #[trigger]
            retriever.preferred(id) == crate::package::retriever::prefer(
                Seq::<(PackageIdView, Version)>::empty(),
                id,
                start.preferred(id),
            ) by {
            assert(mid.preferred(id) == start.preferred(id));
        }
        assert forall|i: PackageIdView, v: Version|
            !(i == PackageIdView::Root && v == root_version()) implies retriever.cached(i, v)
            == start.cached(i, v) by {
            assert(mid.cached(i, v) == start.cached(i, v));
        }
    }
    names
}

/// The manifest of the package once the packages `extras` are installed,
/// for the graph `g` of chosen versions.
#[verifier::loop_isolation(false)]
pub fn install_package(info: &Package, extras: &Vec<Name>, for_test: bool, g: &Solution) -> (r:
    PackageOutcome)
    requires
        graph_nodes(*g).len() > 0,
        info.wf(),
    ensures
        (r is NoChanges) == (package_pass(
            graph_nodes(*g),
            pin_views(info.dependencies@),
            pin_views(info.test_dependencies@),
            name_views(extras@),
            for_test,
            graph_successors(*g)[0],
        ) == Some(
            Lists {
                dependencies: pin_map(pin_views(info.dependencies@)),
                test_dependencies: pin_map(pin_views(info.test_dependencies@)),
            },
        )),
        match package_pass(
            graph_nodes(*g),
            pin_views(info.dependencies@),
            pin_views(info.test_dependencies@),
            name_views(extras@),
            for_test,
            graph_successors(*g)[0],
        ) {
            None => r is VersionOutOfRange,
            Some(lists) => match r {
                PackageOutcome::VersionOutOfRange => false,
                PackageOutcome::NoChanges => {
                    &&& pin_map(pin_views(info.dependencies@)) == lists.dependencies
                    &&& pin_map(pin_views(info.test_dependencies@)) == lists.test_dependencies
                },
                PackageOutcome::Changed(p) => {
                    &&& pins_ascend(pin_views(p.dependencies@))
                    &&& pins_ascend(pin_views(p.test_dependencies@))
                    &&& pin_map(pin_views(p.dependencies@)) == lists.dependencies
                    &&& pin_map(pin_views(p.test_dependencies@)) == lists.test_dependencies
                    &&& !(pin_views(p.dependencies@) == pin_views(info.dependencies@) && pin_views(
                        p.test_dependencies@,
                    ) == pin_views(info.test_dependencies@))
                    &&& p.name == info.name
                    &&& p.summary == info.summary
                    &&& p.license == info.license
                    &&& p.version == info.version
                    &&& p.elm_version == info.elm_version
                    &&& p.exposed_modules@ == info.exposed_modules@
                },
            },
        },
{
    let ghost nodes = graph_nodes(*g);
    let ghost declared = pin_views(info.dependencies@);
    let ghost declared_tests = pin_views(info.test_dependencies@);
    let mut deps: Vec<Dependency> = Vec::new();
    let mut test_deps: Vec<Dependency> = Vec::new();
    let neighbours = graph_neighbors(g, 0);
    let ghost nbrs = positions(neighbours@);
    proof {
        lemma_no_pins::<crate::package::manifest::Range>();
        assert(pin_views(deps@) =~= Seq::<(NameView, crate::package::manifest::Range)>::empty());
        assert(pin_views(test_deps@) =~= Seq::<(NameView, crate::package::manifest::Range)>::empty());
        assert(nbrs.take(0) =~= Seq::<int>::empty());
    }
    let n = neighbours.len();
    let mut i: usize = 0;
    while i < n
        invariant
            i <= n,
            n == neighbours@.len(),
            pins_ascend(pin_views(deps@)),
            pins_ascend(pin_views(test_deps@)),
            package_pass(
                nodes,
                declared,
                declared_tests,
                name_views(extras@),
                for_test,
                nbrs.take(i as int),
            ) == Some(
                Lists {
                    dependencies: pin_map(pin_views(deps@)),
                    test_dependencies: pin_map(pin_views(test_deps@)),
                },
            ),
        decreases n - i,
    {
        let idx = neighbours[i];
        proof {
            assert(nbrs.take(i + 1).drop_last() =~= nbrs.take(i as int));
            assert(nbrs.take(i + 1).last() == idx as int);
        }
        let item = graph_node(g, idx);
        match &item.id {
            PackageId::Pkg(dep) => {
                let extra = holds_name(extras.as_slice(), dep);
                let listed = find_dependency(&info.dependencies, dep);
                let listed_test = find_dependency(&info.test_dependencies, dep);
                proof {
                    if listed is Some {
                        lemma_pin_map(declared, listed->0 as int);
                    } else if crate::project::pins::pinned(declared, dep@) {
                        let k = choose|k: int|
                            0 <= k < declared.len() && (#[trigger] declared[k]).0 == dep@;
                        assert(info.dependencies@[k].0@ == dep@);
                    }
                    if listed_test is Some {
                        lemma_pin_map(declared_tests, listed_test->0 as int);
                    } else if crate::project::pins::pinned(declared_tests, dep@) {
                        let k = choose|k: int|
                            0 <= k < declared_tests.len() && (#[trigger] declared_tests[k]).0 == dep@;
                        assert(info.test_dependencies@[k].0@ == dep@);
                    }
                }
                let keep = if extra {
                    if for_test {
                        false
                    } else {
                        listed.is_some()
                    }
                } else {
                    listed.is_some()
                };
                let keep_test = if extra {
                    for_test && listed_test.is_some()
                } else {
                    listed.is_none() && listed_test.is_some()
                };
                if keep {
                    match listed {
                        Some(at) => {
                            set_pin(&mut deps, dep.clone(), info.dependencies[at].1);
                        },
                        None => {},
                    }
                } else if keep_test {
                    match listed_test {
                        Some(at) => {
                            set_pin(&mut test_deps, dep.clone(), info.test_dependencies[at].1);
                        },
                        None => {},
                    }
                } else if extra {
                    if item.version.major() == u64::MAX {
                        proof {
                            lemma_pass_fails(
                                nodes,
                                declared,
                                declared_tests,
                                name_views(extras@),
                                for_test,
                                nbrs,
                                i + 1,
                            );
                        }
                        return PackageOutcome::VersionOutOfRange;
                    }
                    let range = crate::package::manifest::Range::from_version(item.version);
                    if for_test {
                        set_pin(&mut test_deps, dep.clone(), range);
                    } else {
                        set_pin(&mut deps, dep.clone(), range);
                    }
                }
            },
            _ => {},
        }
        i += 1;
    }
    proof {
        assert(nbrs.take(n as int) =~= nbrs);
    }
    proof {
        let listed = pin_views(info.dependencies@);
        let listed_tests = pin_views(info.test_dependencies@);
        assert(pins_ascend(listed)) by {
            assert forall|i: int, j: int| 0 <= i < j < listed.len() implies (#[trigger] listed[i]).0.less(
                (#[trigger] listed[j]).0,
            ) by {
                assert(info.dependencies@[i].0@.less(info.dependencies@[j].0@));
            }
        }
        assert(pins_ascend(listed_tests)) by {
            assert forall|i: int, j: int|
                0 <= i < j < listed_tests.len() implies (#[trigger] listed_tests[i]).0.less(
                (#[trigger] listed_tests[j]).0,
            ) by {
                assert(info.test_dependencies@[i].0@.less(info.test_dependencies@[j].0@));
            }
        }
        if pin_map(listed) == pin_map(pin_views(deps@)) {
            lemma_pins_equal(listed, pin_views(deps@));
        }
        if pin_map(listed_tests) == pin_map(pin_views(test_deps@)) {
            lemma_pins_equal(listed_tests, pin_views(test_deps@));
        }
    }
    if same_dependencies(&info.dependencies, &deps) && same_dependencies(
        &info.test_dependencies,
        &test_deps,
    ) {
        PackageOutcome::NoChanges
    } else {
        PackageOutcome::Changed(info.with_deps(deps, test_deps))
    }
}

/// Once the pass has failed it has failed for good.
proof fn lemma_pass_fails(
    nodes: Seq<Summary<PackageId>>,
    declared: Seq<(NameView, crate::package::manifest::Range)>,
    declared_tests: Seq<(NameView, crate::package::manifest::Range)>,
    extras: Seq<NameView>,
    for_test: bool,
    neighbours: Seq<int>,
    k: int,
)
    requires
        0 <= k <= neighbours.len(),
        package_pass(nodes, declared, declared_tests, extras, for_test, neighbours.take(k)) is None,
    ensures
        package_pass(nodes, declared, declared_tests, extras, for_test, neighbours) is None,
    decreases neighbours.len() - k,
{
    if k == neighbours.len() {
        assert(neighbours.take(k) =~= neighbours);
    } else {
        assert(neighbours.take(k + 1).drop_last() =~= neighbours.take(k));
        lemma_pass_fails(nodes, declared, declared_tests, extras, for_test, neighbours, k + 1);
    }
}

} // verus!
