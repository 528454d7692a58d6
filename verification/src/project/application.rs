//! Application manifests: pinned versions of direct and indirect dependencies.

use crate::package::manifest::Package;
use crate::package::name::{Name, NameView};
use crate::semver::interval::Interval;
use crate::semver::range::{Range, Strictness};
use crate::semver::version::Version;
use vstd::prelude::*;
use vstd::string::*;

verus! {

/// A package pinned to a version.
pub type Pin = (Name, Version);

/// What an entry for a package says: the name as text parts, and the value.
pub open spec fn pin_view<V>(p: (Name, V)) -> (NameView, V) {
    (p.0@, p.1)
}

/// What the entries say, in order.
pub open spec fn pin_views<V>(pins: Seq<(Name, V)>) -> Seq<(NameView, V)> {
    pins.map_values(|p: (Name, V)| pin_view(p))
}

/// The names of the entries ascend strictly, as the keys of an ordered map
/// do.
pub open spec fn pins_ascend<V>(pins: Seq<(NameView, V)>) -> bool {
    forall|i: int, j: int|
        0 <= i < j < pins.len() ==> (#[trigger] pins[i]).0.less((#[trigger] pins[j]).0)
}

/// The dependencies of an application: those that it names itself, and those
/// that come with them.
#[derive(Debug)]
pub struct AppDependencies {
    pub direct: Vec<Pin>,
    pub indirect: Vec<Pin>,
}

/// A copy of a list of pins.
pub fn clone_pins(pins: &Vec<Pin>) -> (r: Vec<Pin>)
    ensures
        pin_views(r@) == pin_views(pins@),
{
    let mut r: Vec<Pin> = Vec::new();
    let n = pins.len();
    let mut i: usize = 0;
    while i < n
        invariant
            i <= n,
            n == pins.len(),
            pin_views(r@) == pin_views(pins@.take(i as int)),
        decreases n - i,
    {
        let ghost before = r@;
        r.push((pins[i].0.clone(), pins[i].1));
        proof {
            assert(pins@.take(i + 1) =~= pins@.take(i as int).push(pins@[i as int]));
            assert(pin_views(r@) =~= pin_views(before).push(pin_view(pins@[i as int])));
            assert(pin_views(pins@.take(i + 1)) =~= pin_views(pins@.take(i as int)).push(
                pin_view(pins@[i as int]),
            ));
        }
        i += 1;
    }
    proof {
        assert(pins@.take(n as int) =~= pins@);
    }
    r
}

impl AppDependencies {
    /// No dependencies at all.
    pub fn new() -> (d: Self)
        ensures
            d.direct@.len() == 0,
            d.indirect@.len() == 0,
    {
        Self { direct: Vec::new(), indirect: Vec::new() }
    }

    /// Whether two sets of dependencies pin the same packages to the same
    /// versions.
    pub fn same(&self, other: &AppDependencies) -> (r: bool)
        ensures
            r == (pin_views(self.direct@) == pin_views(other.direct@) && pin_views(self.indirect@)
                == pin_views(other.indirect@)),
    {
        same_pins(&self.direct, &other.direct) && same_pins(&self.indirect, &other.indirect)
    }
}

/// Whether two lists hold the same pins in the same order.
pub fn same_pins(a: &Vec<Pin>, b: &Vec<Pin>) -> (r: bool)
    ensures
        r == (pin_views(a@) == pin_views(b@)),
{
    let n = a.len();
    if n != b.len() {
        proof {
            assert(pin_views(a@).len() != pin_views(b@).len());
        }
        return false;
    }
    let mut i: usize = 0;
    while i < n
        invariant
            i <= n,
            n == a.len(),
            n == b.len(),
            forall|k: int| 0 <= k < i ==> pin_view(#[trigger] a@[k]) == pin_view(b@[k]),
        decreases n - i,
    {
        if !(a[i].0.same(&b[i].0) && a[i].1 == b[i].1) {
            proof {
                assert(pin_views(a@)[i as int] != pin_views(b@)[i as int]);
            }
            return false;
        }
        i += 1;
    }
    proof {
        assert(pin_views(a@) =~= pin_views(b@));
    }
    true
}

impl Clone for AppDependencies {
    fn clone(&self) -> (r: AppDependencies)
        ensures
            pin_views(r.direct@) == pin_views(self.direct@),
            pin_views(r.indirect@) == pin_views(self.indirect@),
    {
        AppDependencies { direct: clone_pins(&self.direct), indirect: clone_pins(&self.indirect) }
    }
}

impl Default for AppDependencies {
    fn default() -> (d: Self)
        ensures
            d.direct@.len() == 0,
            d.indirect@.len() == 0,
    {
        Self::new()
    }
}

/// The manifest of an application.
#[derive(Debug)]
pub struct Application {
    pub source_directories: Vec<String>,
    pub elm_version: Version,
    pub dependencies: AppDependencies,
    pub test_dependencies: AppDependencies,
}

/// A manifest: that of an application or that of a package.
#[derive(Debug)]
pub enum Project {
    Application(Application),
    Package(Package),
}

/// The upper end of the range that a pinned version stands for.
pub open spec fn upper_end(v: Version, strictness: Strictness) -> Interval {
    match strictness {
        Strictness::Exact => Interval::Closed(v),
        Strictness::Safe => Interval::Open(
            Version { major: (v.major + 1) as u64, minor: 0, patch: 0 },
        ),
        Strictness::Unsafe => Interval::Unbounded,
    }
}

/// Every pinned version has a next major version.
pub open spec fn majors_below_limit(pins: Seq<Pin>) -> bool {
    forall|i: int| 0 <= i < pins.len() ==> (#[trigger] pins[i]).1.major < u64::MAX
}

/// The ranges that pinned versions stand for under `strictness`, in order.
pub open spec fn ranged(pins: Seq<(NameView, Version)>, strictness: Strictness) -> Seq<
    (NameView, Range),
> {
    pins.map_values(
        |p: (NameView, Version)|
            (p.0, Range::of_ends(Interval::Closed(p.1), upper_end(p.1, strictness))),
    )
}

/// The ranges that pins stand for under `strictness`, in order.
pub fn pinned_ranges(pins: &Vec<Pin>, strictness: &Strictness) -> (r: Vec<(Name, Range)>)
    requires
        strictness is Safe ==> majors_below_limit(pins@),
    ensures
        pin_views(r@) == ranged(pin_views(pins@), *strictness),
{
    let mut r: Vec<(Name, Range)> = Vec::new();
    let n = pins.len();
    let ghost wanted = ranged(pin_views(pins@), *strictness);
    let mut i: usize = 0;
    while i < n
        invariant
            i <= n,
            n == pins.len(),
            strictness is Safe ==> majors_below_limit(pins@),
            wanted == ranged(pin_views(pins@), *strictness),
            pin_views(r@) == wanted.take(i as int),
        decreases n - i,
    {
        assert(strictness is Safe ==> pins@[i as int].1.major < u64::MAX);
        let range = Range::from(&pins[i].1, strictness);
        let ghost before = r@;
        r.push((pins[i].0.clone(), range));
        proof {
            assert(pin_views(r@) =~= pin_views(before).push(wanted[i as int]));
            assert(wanted.take(i + 1) =~= wanted.take(i as int).push(wanted[i as int]));
        }
        i += 1;
    }
    proof {
        assert(wanted.take(n as int) =~= wanted);
    }
    r
}

impl Application {
    /// The manifest of a new application: sources under `src`, Elm 0.19.0,
    /// and the core library 1.0.2 as its only dependency.
    pub fn new() -> (a: Self)
        ensures
            a.source_directories@.len() == 1,
            a.source_directories@[0]@ == "src"@,
            a.elm_version == (Version { major: 0, minor: 19, patch: 0 }),
            a.dependencies.direct@.len() == 1,
            a.dependencies.direct@[0].0@ == (NameView { author: "elm"@, project: "core"@ }),
            a.dependencies.direct@[0].1 == (Version { major: 1, minor: 0, patch: 2 }),
            a.dependencies.indirect@.len() == 0,
            a.test_dependencies.direct@.len() == 0,
            a.test_dependencies.indirect@.len() == 0,
    {
        let mut direct: Vec<Pin> = Vec::new();
        direct.push((Name::elm_core(), Version::new(1, 0, 2)));
        let mut source_directories: Vec<String> = Vec::new();
        source_directories.push("src".to_owned());
        Self {
            source_directories,
            elm_version: Version::new(0, 19, 0),
            dependencies: AppDependencies { direct, indirect: Vec::new() },
            test_dependencies: AppDependencies::new(),
        }
    }

    /// The ranges that the direct dependencies stand for under `strictness`.
    pub fn dependencies(&self, strictness: &Strictness) -> (r: Vec<(Name, Range)>)
        requires
            strictness is Safe ==> majors_below_limit(self.dependencies.direct@),
        ensures
            pin_views(r@) == ranged(pin_views(self.dependencies.direct@), *strictness),
    {
        pinned_ranges(&self.dependencies.direct, strictness)
    }

    /// The ranges that the direct test-dependencies stand for under
    /// `strictness`.
    pub fn test_dependencies(&self, strictness: &Strictness) -> (r: Vec<(Name, Range)>)
        requires
            strictness is Safe ==> majors_below_limit(self.test_dependencies.direct@),
        ensures
            pin_views(r@) == ranged(pin_views(self.test_dependencies.direct@), *strictness),
    {
        pinned_ranges(&self.test_dependencies.direct, strictness)
    }

    /// The version of the language that the application is written for.
    pub fn elm_version(&self) -> (v: Version)
        ensures
            v == self.elm_version,
    {
        self.elm_version
    }

    /// The same manifest with other dependencies.
    pub fn with(self, dependencies: AppDependencies, test_dependencies: AppDependencies) -> (a: Self)
        ensures
            a.source_directories == self.source_directories,
            a.elm_version == self.elm_version,
            a.dependencies == dependencies,
            a.test_dependencies == test_dependencies,
    {
        Self {
            source_directories: self.source_directories,
            elm_version: self.elm_version,
            dependencies,
            test_dependencies,
        }
    }
}

impl Default for Application {
    fn default() -> (a: Self)
        ensures
            a.source_directories@.len() == 1,
            a.source_directories@[0]@ == "src"@,
            a.elm_version == (Version { major: 0, minor: 19, patch: 0 }),
            a.dependencies.direct@.len() == 1,
            a.dependencies.direct@[0].0@ == (NameView { author: "elm"@, project: "core"@ }),
            a.dependencies.direct@[0].1 == (Version { major: 1, minor: 0, patch: 2 }),
            a.dependencies.indirect@.len() == 0,
            a.test_dependencies.direct@.len() == 0,
            a.test_dependencies.indirect@.len() == 0,
    {
        Self::new()
    }
}

} // verus!
