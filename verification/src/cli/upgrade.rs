//! Upgrading an application: what to ask for, and what to write back.

use crate::cli::install::rebuilt;
use crate::cli::plan::{as_ids, keys, keys_of, seed_without, seeded, without};
use crate::package::name::{Name, NameView};
use crate::package::retriever::{root_needs, PackageIdView, Retriever};
use crate::project::application::{majors_below_limit, pin_views, ranged, Application, Pin};
use crate::project::reconstruct::{name_views, reconstruct, reconstruct_spec};
use crate::semver::range::Strictness;
use crate::semver::version::Version;
use crate::solver::graph::{graph_nodes, graph_successors, Solution};
use vstd::prelude::*;

verus! {

/// How far versions may move in an upgrade: to any higher version if major
/// versions may be bumped, else within the major version.
pub open spec fn upgrade_strictness(allow_major: bool) -> Strictness {
    if allow_major {
        Strictness::Unsafe
    } else {
        Strictness::Safe
    }
}

/// Nothing is left of a list when no names are taken out of it.
pub proof fn lemma_without_none<V>(entries: Seq<(NameView, V)>)
    ensures
        without(entries, Seq::<NameView>::empty()) == entries,
    decreases entries.len(),
{
    if entries.len() > 0 {
        lemma_without_none(entries.drop_last());
        assert(!Seq::<NameView>::empty().contains(entries.last().0));
        assert(entries.drop_last().push(entries.last()) =~= entries);
    } else {
        assert(without(entries, Seq::<NameView>::empty()) =~= entries);
    }
}

/// Whether every pinned version has a next major version.
pub fn can_bump(pins: &Vec<Pin>) -> (r: bool)
    ensures
        r == majors_below_limit(pins@),
{
    let n = pins.len();
    let mut i: usize = 0;
    while i < n
        invariant
            i <= n,
            n == pins.len(),
            forall|k: int| 0 <= k < i ==> (#[trigger] pins@[k]).1.major < u64::MAX,
        decreases n - i,
    {
        if pins[i].1.major() == u64::MAX {
            return false;
        }
        i += 1;
    }
    true
}

/// Tells the source of packages what upgrading an application asks for:
/// every direct dependency and test-dependency from its version upwards,
/// within its major version unless major versions may be bumped.
pub fn seed_application(info: &Application, allow_major: bool, retriever: &mut Retriever)
    requires
        !allow_major ==> majors_below_limit(info.dependencies.direct@) && majors_below_limit(
            info.test_dependencies.direct@,
        ),
    ensures
        seeded(
            old(retriever),
            final(retriever),
            root_needs(
                ranged(pin_views(info.dependencies.direct@), upgrade_strictness(allow_major)),
            ) + root_needs(
                ranged(pin_views(info.test_dependencies.direct@), upgrade_strictness(allow_major)),
            ),
            Seq::<(PackageIdView, Version)>::empty(),
        ),
{
    let strictness = if allow_major {
        Strictness::Unsafe
    } else {
        Strictness::Safe
    };
    let none: Vec<Name> = Vec::new();
    let no_pins: Vec<Pin> = Vec::new();
    let deps = info.dependencies(&strictness);
    let test_deps = info.test_dependencies(&strictness);
    proof {
        assert(name_views(none@) =~= Seq::<NameView>::empty());
        lemma_without_none(pin_views(deps@));
        lemma_without_none(pin_views(test_deps@));
        lemma_without_none(pin_views(no_pins@));
        assert(pin_views(no_pins@) =~= Seq::<(NameView, Version)>::empty());
        assert(as_ids(pin_views(no_pins@)) + as_ids(pin_views(no_pins@)) =~= Seq::<
            (PackageIdView, Version),
        >::empty());
    }
    seed_without(retriever, none.as_slice(), &no_pins, &no_pins, &deps, &test_deps);
}

/// What came of looking for upgrades.
#[derive(Debug)]
pub enum UpgradeOutcome {
    /// Every dependency is at the version that was chosen.
    UpToDate(Application),
    /// The manifest with the upgraded dependencies.
    Upgraded(Application),
}

impl UpgradeOutcome {
    /// The manifest that came out.
    pub open spec fn manifest(self) -> Application {
        match self {
            UpgradeOutcome::UpToDate(a) => a,
            UpgradeOutcome::Upgraded(a) => a,
        }
    }
}

/// The manifest of the application with the versions of the graph `g` of
/// chosen versions, or the news that these are the versions that it has.
pub fn upgrade_application(info: Application, g: &Solution) -> (r: UpgradeOutcome)
    requires
        graph_nodes(*g).len() > 0,
    ensures
        rebuilt(
            info,
            r.manifest(),
            reconstruct_spec(
                graph_nodes(*g),
                graph_successors(*g),
                keys(pin_views(info.dependencies.direct@)),
            ),
        ),
        r is UpToDate <==> {
            &&& pin_views(r.manifest().dependencies.direct@) == pin_views(info.dependencies.direct@)
            &&& pin_views(r.manifest().dependencies.indirect@) == pin_views(
                info.dependencies.indirect@,
            )
            &&& pin_views(r.manifest().test_dependencies.direct@) == pin_views(
                info.test_dependencies.direct@,
            )
            &&& pin_views(r.manifest().test_dependencies.indirect@) == pin_views(
                info.test_dependencies.indirect@,
            )
        },
{
    let direct_deps = keys_of(&info.dependencies.direct);
    let deps = reconstruct(direct_deps.as_slice(), g);
    let same = deps.0.same(&info.dependencies) && deps.1.same(&info.test_dependencies);
    let updated = info.with(deps.0, deps.1);
    if same {
        UpgradeOutcome::UpToDate(updated)
    } else {
        UpgradeOutcome::Upgraded(updated)
    }
}

} // verus!
