//! Uninstalling packages: what to ask for, and what to write back.

use crate::cli::install::rebuilt;
use crate::cli::plan::{as_ids, entries_without, keys, keys_of, seed_without, seeded, without};
use crate::package::manifest::Package;
use crate::package::name::Name;
use crate::package::retriever::{root_needs, Retriever};
use crate::project::application::{pin_views, ranged, Application};
use crate::project::reconstruct::{name_views, reconstruct, reconstruct_spec};
use crate::semver::range::Strictness;
use crate::solver::graph::{graph_nodes, graph_successors, Solution};
use vstd::prelude::*;

verus! {

/// Tells the source of packages what is left of an application without the
/// packages `extras`: the direct dependencies and test-dependencies at their
/// exact versions, but for those packages. The versions of the indirect
/// dependencies are to be preferred, again but for those packages.
pub fn seed_application(info: &Application, extras: &Vec<Name>, retriever: &mut Retriever)
    ensures
        seeded(
            old(retriever),
            final(retriever),
            root_needs(
                without(
                    ranged(pin_views(info.dependencies.direct@), Strictness::Exact),
                    name_views(extras@),
                ),
            ) + root_needs(
                without(
                    ranged(pin_views(info.test_dependencies.direct@), Strictness::Exact),
                    name_views(extras@),
                ),
            ),
            as_ids(without(pin_views(info.dependencies.indirect@), name_views(extras@))) + as_ids(
                without(pin_views(info.test_dependencies.indirect@), name_views(extras@)),
            ),
        ),
{
    let strictness = Strictness::Exact;
    seed_without(
        retriever,
        extras.as_slice(),
        &info.dependencies.indirect,
        &info.test_dependencies.indirect,
        &info.dependencies(&strictness),
        &info.test_dependencies(&strictness),
    );
}

/// The manifest of the application once the packages `extras` are
/// uninstalled, for the graph `g` of chosen versions. The direct
/// dependencies are those that the manifest had, but for those packages.
pub fn uninstall_application(info: Application, extras: &Vec<Name>, g: &Solution) -> (r: Application)
    requires
        graph_nodes(*g).len() > 0,
    ensures
        rebuilt(
            info,
            r,
            reconstruct_spec(
                graph_nodes(*g),
                graph_successors(*g),
                keys(without(pin_views(info.dependencies.direct@), name_views(extras@))),
            ),
        ),
{
    let orig_direct = keys_of(&entries_without(&info.dependencies.direct, extras.as_slice()));
    let deps = reconstruct(orig_direct.as_slice(), g);
    info.with(deps.0, deps.1)
}

/// The manifest of the package without the packages `extras` among its
/// dependencies and test-dependencies.
pub fn uninstall_package(info: &Package, extras: &Vec<Name>) -> (r: Package)
    ensures
        pin_views(r.dependencies@) == without(pin_views(info.dependencies@), name_views(extras@)),
        pin_views(r.test_dependencies@) == without(
            pin_views(info.test_dependencies@),
            name_views(extras@),
        ),
        r.name == info.name,
        r.summary == info.summary,
        r.license == info.license,
        r.version == info.version,
        r.elm_version == info.elm_version,
        r.exposed_modules@ == info.exposed_modules@,
{
    let new_deps = entries_without(&info.dependencies, extras.as_slice());
    let new_test_deps = entries_without(&info.test_dependencies, extras.as_slice());
    info.with_deps(new_deps, new_test_deps)
}

} // verus!
