//! Solving without writing anything back: what to ask for.

use crate::cli::extras::{add_extra_deps, all_extras, extras_names, extras_needs};
use crate::cli::plan::{as_ids, entries_without, seed, seeded, without};
use crate::package::name::{Name, NameView};
use crate::package::retriever::{
    held_or_empty, root_needs, root_version, Mode, PackageIdView, Retriever,
};
use crate::project::application::{pin_views, ranged, Application, Pin};
use crate::project::reconstruct::name_views;
use crate::semver::range::{Range, Strictness};
use crate::semver::version::Version;
use vstd::prelude::*;

verus! {

/// The entries if `wanted`, else none.
pub open spec fn only_if<V>(wanted: bool, entries: Seq<(NameView, V)>) -> Seq<(NameView, V)> {
    if wanted {
        entries
    } else {
        Seq::empty()
    }
}

/// Tells the source of packages what solving for an application asks for:
/// the packages given on the command line, and the direct dependencies at
/// their exact versions, but for those packages; with `test`, the same of
/// the test-dependencies. The versions of the indirect dependencies are to
/// be preferred. Answers the names of the packages given on the command
/// line.
pub fn seed_application(
    info: &Application,
    extras: &Vec<String>,
    test: bool,
    retriever: &mut Retriever,
) -> (names: Vec<Name>)
    requires
        all_extras(extras@),
    ensures
        name_views(names@) == extras_names(extras@),
        seeded(
            old(retriever),
            final(retriever),
            extras_needs(extras@) + root_needs(
                without(
                    ranged(pin_views(info.dependencies.direct@), Strictness::Exact),
                    extras_names(extras@),
                ),
            ) + root_needs(
                without(
                    only_if(test, ranged(pin_views(info.test_dependencies.direct@), Strictness::Exact)),
                    extras_names(extras@),
                ),
            ),
            as_ids(without(pin_views(info.dependencies.indirect@), extras_names(extras@))) + as_ids(
                without(
                    only_if(test, pin_views(info.test_dependencies.indirect@)),
                    extras_names(extras@),
                ),
            ),
        ),
{
    let strictness = Strictness::Exact;
    let deps = info.dependencies(&strictness);
    if test {
        seed(
            retriever,
            extras,
            &info.dependencies.indirect,
            &info.test_dependencies.indirect,
            &deps,
            &info.test_dependencies(&strictness),
        )
    } else {
        let no_pins: Vec<Pin> = Vec::new();
        let no_deps: Vec<(Name, Range)> = Vec::new();
        proof {
            assert(pin_views(no_pins@) =~= Seq::<(NameView, Version)>::empty());
            assert(pin_views(no_deps@) =~= Seq::<(NameView, Range)>::empty());
        }
        seed(retriever, extras, &info.dependencies.indirect, &no_pins, &deps, &no_deps)
    }
}

/// Tells the source of packages what solving for a package asks for: the
/// dependencies `deps` of the package with their ranges, but for the
/// packages given on the command line; and those packages. With `minimize`
/// the lowest versions are looked for. Answers the names of the packages
/// given on the command line.
pub fn seed_package(
    deps: &Vec<(Name, Range)>,
    extras: &Vec<String>,
    minimize: bool,
    retriever: &mut Retriever,
) -> (names: Vec<Name>)
    requires
        all_extras(extras@),
    ensures
        name_views(names@) == extras_names(extras@),
        final(retriever).mode() == (if minimize {
            Mode::Minimize
        } else {
            old(retriever).mode()
        }),
        final(retriever).offline() == old(retriever).offline(),
        forall|id: PackageIdView| #[trigger]
            final(retriever).versions_of(id) == old(retriever).versions_of(id),
        forall|id: PackageIdView| #[trigger]
            final(retriever).preferred(id) == old(retriever).preferred(id),
        final(retriever).same_cache_but(old(retriever), PackageIdView::Root, root_version()),
        final(retriever).cached(PackageIdView::Root, root_version()) == Some(
            held_or_empty(old(retriever).cached(PackageIdView::Root, root_version()))
                + extras_needs(extras@) + root_needs(
                without(pin_views(deps@), extras_names(extras@)),
            ),
        ),
{
    let ghost start = *retriever;
    if minimize {
        retriever.minimize();
    }
    let ghost mid = *retriever;
    let names = add_extra_deps(extras, retriever);
    let ghost after_extras = *retriever;
    let kept = entries_without(deps, names.as_slice());
    retriever.add_deps(&kept);
    proof {
        let views = pin_views(deps@);
        assert(mid.cached(PackageIdView::Root, root_version()) == start.cached(
            PackageIdView::Root,
            root_version(),
        ));
        if extras@.len() == 0 {
            assert(extras_needs(extras@) =~= Seq::<crate::package::retriever::IncompatView>::empty());
            assert(after_extras.cached(PackageIdView::Root, root_version()) == mid.cached(
                PackageIdView::Root,
                root_version(),
            ));
        }
        assert(retriever.cached(PackageIdView::Root, root_version())->0 =~= held_or_empty(
            start.cached(PackageIdView::Root, root_version()),
        ) + extras_needs(extras@) + root_needs(without(views, extras_names(extras@))));
        assert forall|id: PackageIdView| #[trigger]
            retriever.versions_of(id) == start.versions_of(id) by {
            assert(mid.versions_of(id) == start.versions_of(id));
            assert(after_extras.versions_of(id) == mid.versions_of(id));
        }
        assert forall|id: PackageIdView| #[trigger]
            retriever.preferred(id) == start.preferred(id) by {
            assert(mid.preferred(id) == start.preferred(id));
            assert(after_extras.preferred(id) == mid.preferred(id));
        }
        assert forall|i: PackageIdView, v: Version|
            !(i == PackageIdView::Root && v == root_version()) implies retriever.cached(i, v)
            == start.cached(i, v) by {
            assert(mid.cached(i, v) == start.cached(i, v));
            assert(after_extras.cached(i, v) == mid.cached(i, v));
        }
    }
    names
}

} // verus!
