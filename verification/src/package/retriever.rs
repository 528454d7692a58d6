//! Where the resolver gets its packages from.

use crate::package::manifest::{all_proper, Package};
use crate::package::name::{Name, NameView};
use crate::semver::canon::{complement_of, covers, lemma_complement_of};
use crate::semver::constraint::{constraint_text, Constraint};
use crate::semver::interval::{point_of, Interval};
use crate::semver::range::Range;
use crate::semver::version::Version;
use crate::solver::incompat::{Incompatibility, IncompatibilityCause, TermView};
use crate::solver::retriever::{RetrieveError, RetrieveFailure};
use crate::solver::summary;
use crate::solver::summary::Summary;
use vstd::prelude::*;
use vstd::string::*;

verus! {

/// Which of the admissible versions of a package to prefer.
#[derive(Copy, Clone, Debug, PartialEq, Eq, Structural)]
pub enum Mode {
    /// The lowest.
    Minimize,
    /// The highest.
    Maximize,
}

/// A package as the resolver sees it.
#[derive(PartialEq, Eq, PartialOrd, Ord, Hash, Debug)]
pub enum PackageId {
    /// The project whose dependencies are resolved.
    Root,
    /// The language itself, whose version a manifest constrains too.
    Elm,
    /// A published package.
    Pkg(Name),
}

/// What a [`PackageId`] holds.
pub enum PackageIdView {
    Root,
    Elm,
    Pkg(NameView),
}

impl PackageIdView {
    /// The written form: `root`, `Elm`, or the package's name.
    pub open spec fn text(self) -> Seq<char> {
        match self {
            PackageIdView::Root => "root"@,
            PackageIdView::Elm => "Elm"@,
            PackageIdView::Pkg(name) => name.text(),
        }
    }

    /// The root comes first, then the language, then the packages by name.
    pub open spec fn less(self, other: PackageIdView) -> bool {
        match (self, other) {
            (PackageIdView::Root, PackageIdView::Root) => false,
            (PackageIdView::Root, _) => true,
            (PackageIdView::Elm, PackageIdView::Pkg(_)) => true,
            (PackageIdView::Pkg(a), PackageIdView::Pkg(b)) => a.less(b),
            _ => false,
        }
    }
}

impl View for PackageId {
    type V = PackageIdView;

    open spec fn view(&self) -> PackageIdView {
        match self {
            PackageId::Root => PackageIdView::Root,
            PackageId::Elm => PackageIdView::Elm,
            PackageId::Pkg(name) => PackageIdView::Pkg(name@),
        }
    }
}

impl Clone for PackageId {
    fn clone(&self) -> (r: PackageId)
        ensures
            r == *self,
            r@ == self@,
    {
        match self {
            PackageId::Root => PackageId::Root,
            PackageId::Elm => PackageId::Elm,
            PackageId::Pkg(name) => PackageId::Pkg(name.clone()),
        }
    }
}

impl PackageId {
    /// Whether two identifiers name the same package.
    pub fn same(&self, other: &PackageId) -> (r: bool)
        ensures
            r == (self@ == other@),
    {
        match (self, other) {
            (PackageId::Root, PackageId::Root) => true,
            (PackageId::Elm, PackageId::Elm) => true,
            (PackageId::Pkg(a), PackageId::Pkg(b)) => a.same(b),
            _ => false,
        }
    }

    /// Whether `self` comes before `other`.
    pub fn precedes(&self, other: &PackageId) -> (r: bool)
        ensures
            r == self@.less(other@),
    {
        match (self, other) {
            (PackageId::Root, PackageId::Root) => false,
            (PackageId::Root, _) => true,
            (PackageId::Elm, PackageId::Pkg(_)) => true,
            (PackageId::Pkg(a), PackageId::Pkg(b)) => a.precedes(b),
            _ => false,
        }
    }

    /// Whether this is the published package `name`.
    pub fn is(&self, name: &Name) -> (r: bool)
        ensures
            r == (self@ == PackageIdView::Pkg(name@)),
    {
        match self {
            PackageId::Pkg(n) => n.same(name),
            _ => false,
        }
    }

    /// Writes the identifier: `root`, `Elm`, or the package's name.
    pub fn to_string(&self) -> (s: String)
        ensures
            s@ == self@.text(),
    {
        match self {
            PackageId::Root => "root".to_owned(),
            PackageId::Elm => "Elm".to_owned(),
            PackageId::Pkg(name) => name.to_string(),
        }
    }
}

impl summary::PackageId for PackageId {
    open spec fn root(&self) -> bool {
        self@ == PackageIdView::Root
    }

    fn is_root(&self) -> (r: bool) {
        match self {
            PackageId::Root => true,
            _ => false,
        }
    }
}

impl From<Name> for PackageId {
    fn from(n: Name) -> (r: PackageId) {
        PackageId::Pkg(n)
    }
}

impl vstd::std_specs::convert::FromSpecImpl<Name> for PackageId {
    open spec fn obeys_from_spec() -> bool {
        true
    }

    open spec fn from_spec(n: Name) -> PackageId {
        PackageId::Pkg(n)
    }
}

/// What an incompatibility says: its terms and its cause.
pub type IncompatView = (Seq<TermView>, IncompatibilityCause);

/// What the incompatibilities say, in order.
pub open spec fn incompat_views(v: Seq<Incompatibility>) -> Seq<IncompatView> {
    v.map_values(|i: Incompatibility| (i.terms(), i.cause))
}

/// The constraint that holds the single version `v`.
pub open spec fn exactly(v: Version) -> Seq<Range> {
    seq![Range::of_ends(Interval::Closed(v), Interval::Closed(v))]
}

/// What it says that the version `version` of `parent` needs `child` within
/// `allowed`: that version cannot go together with a version of `child`
/// outside `allowed`.
pub open spec fn dependency_on(
    parent: PackageIdView,
    version: Version,
    child: PackageIdView,
    allowed: Seq<Range>,
) -> IncompatView {
    if parent == child {
        (seq![(parent, complement_of(allowed))], IncompatibilityCause::Dependency)
    } else {
        (
            seq![(parent, exactly(version)), (child, complement_of(allowed))],
            IncompatibilityCause::Dependency,
        )
    }
}

/// The value that the first entry for `id` holds.
pub open spec fn lookup<V>(s: Seq<(PackageId, V)>, id: PackageIdView) -> Option<V>
    decreases s.len(),
{
    if s.len() == 0 {
        None
    } else if s[0].0@ == id {
        Some(s[0].1)
    } else {
        lookup(s.drop_first(), id)
    }
}

/// The incompatibilities that the first entry for the given version of a
/// package holds.
pub open spec fn lookup_summary(
    s: Seq<(Summary<PackageId>, Vec<Incompatibility>)>,
    id: PackageIdView,
    version: Version,
) -> Option<Seq<IncompatView>>
    decreases s.len(),
{
    if s.len() == 0 {
        None
    } else if s[0].0.id@ == id && s[0].0.version == version {
        Some(incompat_views(s[0].1@))
    } else {
        lookup_summary(s.drop_first(), id, version)
    }
}

/// Where the first entry for `id` is.
pub(crate) fn find<V>(s: &Vec<(PackageId, V)>, id: &PackageId) -> (r: Option<usize>)
    ensures
        r is Some <==> lookup(s@, id@) is Some,
        r is Some ==> r->0 < s.len() && s@[r->0 as int].0@ == id@ && lookup(s@, id@) == Some(
            s@[r->0 as int].1,
        ),
        r is Some ==> forall|k: int| 0 <= k < r->0 ==> (#[trigger] s@[k]).0@ != id@,
        r is None ==> forall|k: int| 0 <= k < s.len() ==> (#[trigger] s@[k]).0@ != id@,
{
    let n = s.len();
    let mut i: usize = 0;
    proof {
        assert(s@.skip(0) =~= s@);
    }
    while i < n
        invariant
            i <= n,
            n == s.len(),
            lookup(s@, id@) == lookup(s@.skip(i as int), id@),
            forall|k: int| 0 <= k < i ==> (#[trigger] s@[k]).0@ != id@,
        decreases n - i,
    {
        proof {
            assert(s@.skip(i as int).drop_first() =~= s@.skip(i + 1));
            assert(s@.skip(i as int)[0] == s@[i as int]);
        }
        if s[i].0.same(id) {
            return Some(i);
        }
        i += 1;
    }
    proof {
        assert(s@.skip(n as int) =~= Seq::<(PackageId, V)>::empty());
    }
    None
}

/// Where the first entry for the given version of a package is.
fn find_summary(s: &Vec<(Summary<PackageId>, Vec<Incompatibility>)>, pkg: &Summary<PackageId>) -> (r:
    Option<usize>)
    ensures
        r is Some <==> lookup_summary(s@, pkg.id@, pkg.version) is Some,
        r is Some ==> r->0 < s.len() && lookup_summary(s@, pkg.id@, pkg.version) == Some(
            incompat_views(s@[r->0 as int].1@),
        ),
        r is Some ==> forall|k: int|
            0 <= k < r->0 ==> !((#[trigger] s@[k]).0.id@ == pkg.id@ && s@[k].0.version == pkg.version),
        r is None ==> forall|k: int|
            0 <= k < s.len() ==> !((#[trigger] s@[k]).0.id@ == pkg.id@ && s@[k].0.version
                == pkg.version),
{
    let n = s.len();
    let mut i: usize = 0;
    proof {
        assert(s@.skip(0) =~= s@);
    }
    while i < n
        invariant
            i <= n,
            n == s.len(),
            lookup_summary(s@, pkg.id@, pkg.version) == lookup_summary(
                s@.skip(i as int),
                pkg.id@,
                pkg.version,
            ),
            forall|k: int|
                0 <= k < i ==> !((#[trigger] s@[k]).0.id@ == pkg.id@ && s@[k].0.version
                    == pkg.version),
        decreases n - i,
    {
        proof {
            assert(s@.skip(i as int).drop_first() =~= s@.skip(i + 1));
            assert(s@.skip(i as int)[0] == s@[i as int]);
        }
        if s[i].0.id.same(&pkg.id) && s[i].0.version == pkg.version {
            return Some(i);
        }
        i += 1;
    }
    proof {
        assert(s@.skip(n as int) =~= Seq::<(Summary<PackageId>, Vec<Incompatibility>)>::empty());
    }
    None
}

/// A lookup finds what the first entry for the key holds.
pub proof fn lemma_lookup<V>(s: Seq<(PackageId, V)>, id: PackageIdView, at: int)
    requires
        0 <= at <= s.len(),
        forall|k: int| 0 <= k < at ==> (#[trigger] s[k]).0@ != id,
    ensures
        at < s.len() && s[at].0@ == id ==> lookup(s, id) == Some(s[at].1),
        at == s.len() ==> lookup(s, id) is None,
        lookup(s, id) == lookup(s.skip(at), id),
    decreases at,
{
    if at == 0 {
        assert(s.skip(0) =~= s);
    } else {
        assert(s[0].0@ != id);
        let rest = s.drop_first();
        assert forall|k: int| 0 <= k < at - 1 implies (#[trigger] rest[k]).0@ != id by {
            assert(rest[k] == s[k + 1]);
        }
        lemma_lookup(rest, id, at - 1);
        assert(rest.skip(at - 1) =~= s.skip(at));
        if at < s.len() {
            assert(rest[at - 1] == s[at]);
        }
    }
}

/// A lookup finds what the first entry for the key holds.
proof fn lemma_lookup_summary(
    s: Seq<(Summary<PackageId>, Vec<Incompatibility>)>,
    id: PackageIdView,
    version: Version,
    at: int,
)
    requires
        0 <= at <= s.len(),
        forall|k: int|
            0 <= k < at ==> !((#[trigger] s[k]).0.id@ == id && s[k].0.version == version),
    ensures
        at < s.len() && s[at].0.id@ == id && s[at].0.version == version ==> lookup_summary(
            s,
            id,
            version,
        ) == Some(incompat_views(s[at].1@)),
        at == s.len() ==> lookup_summary(s, id, version) is None,
        lookup_summary(s, id, version) == lookup_summary(s.skip(at), id, version),
    decreases at,
{
    if at == 0 {
        assert(s.skip(0) =~= s);
    } else {
        let rest = s.drop_first();
        assert(!(s[0].0.id@ == id && s[0].0.version == version));
        assert forall|k: int| 0 <= k < at - 1 implies !((#[trigger] rest[k]).0.id@ == id
            && rest[k].0.version == version) by {
            assert(rest[k] == s[k + 1]);
        }
        lemma_lookup_summary(rest, id, version, at - 1);
        assert(rest.skip(at - 1) =~= s.skip(at));
        if at < s.len() {
            assert(rest[at - 1] == s[at]);
        }
    }
}

/// Copies of the incompatibilities, in order.
pub fn clone_incompats(v: &Vec<Incompatibility>) -> (r: Vec<Incompatibility>)
    ensures
        incompat_views(r@) == incompat_views(v@),
{
    let mut r: Vec<Incompatibility> = Vec::new();
    let n = v.len();
    let mut i: usize = 0;
    while i < n
        invariant
            i <= n,
            n == v.len(),
            incompat_views(r@) == incompat_views(v@.take(i as int)),
        decreases n - i,
    {
        let ghost before = r@;
        r.push(v[i].clone());
        proof {
            assert(v@.take(i + 1) =~= v@.take(i as int).push(v@[i as int]));
            assert(incompat_views(r@) =~= incompat_views(before).push(
                (v@[i as int].terms(), v@[i as int].cause),
            ));
            assert(incompat_views(v@.take(i + 1)) =~= incompat_views(v@.take(i as int)).push(
                (v@[i as int].terms(), v@[i as int].cause),
            ));
        }
        i += 1;
    }
    proof {
        assert(v@.take(n as int) =~= v@);
    }
    r
}

/// The listed packages as the resolver names them, with their versions.
pub open spec fn known_ids(known: Seq<(Name, Vec<Version>)>) -> Seq<(PackageId, Vec<Version>)> {
    known.map_values(|e: (Name, Vec<Version>)| (PackageId::Pkg(e.0), e.1))
}

/// The versions of the language that the tool knows.
pub open spec fn elm_versions() -> Seq<Version> {
    seq![
        Version { major: 0, minor: 14, patch: 0 },
        Version { major: 0, minor: 15, patch: 0 },
        Version { major: 0, minor: 16, patch: 0 },
        Version { major: 0, minor: 17, patch: 0 },
        Version { major: 0, minor: 18, patch: 0 },
        Version { major: 0, minor: 19, patch: 0 },
        Version { major: 0, minor: 19, patch: 1 },
    ]
}

/// The version of the root.
pub open spec fn root_version() -> Version {
    Version { major: 1, minor: 0, patch: 0 }
}

/// `v` is the version to try first: it is one of `versions`, lies in the
/// constraint, and no other such version is higher (or lower, if the mode is
/// to minimize).
pub open spec fn is_best(versions: Seq<Version>, con: Seq<Range>, mode: Mode, v: Version) -> bool {
    &&& versions.contains(v)
    &&& covers(con, point_of(v))
    &&& forall|i: int|
        0 <= i < versions.len() && covers(con, point_of(#[trigger] versions[i])) ==> match mode {
            Mode::Maximize => versions[i].ord() <= v.ord(),
            Mode::Minimize => v.ord() <= versions[i].ord(),
        }
}

/// Some version of `versions` lies in the constraint.
pub open spec fn any_admissible(versions: Seq<Version>, con: Seq<Range>) -> bool {
    exists|i: int| 0 <= i < versions.len() && covers(con, point_of(#[trigger] versions[i]))
}

/// The sentence that says that a preferred version does not fit.
pub open spec fn rejected_text(v: Version, id: PackageIdView, con: Seq<Range>) -> Seq<char> {
    "I want to use version "@ + v.text() + " for "@ + id.text()
        + " but it's not allowed by constraint "@ + constraint_text(con)
}

/// What the source of packages answers when asked for the version to try
/// first, given what it holds.
pub open spec fn best_spec(
    preferred: Option<Version>,
    versions: Option<Vec<Version>>,
    mode: Mode,
    id: PackageIdView,
    con: Seq<Range>,
    r: Result<Version, RetrieveFailure>,
) -> bool {
    match preferred {
        Some(v) => if covers(con, point_of(v)) {
            r == Ok::<Version, RetrieveFailure>(v)
        } else {
            r == Err::<Version, RetrieveFailure>(
                RetrieveFailure::Rejected(rejected_text(v, id, con)),
            )
        },
        None => match versions {
            Some(vs) => if any_admissible(vs@, con) {
                r is Ok && is_best(vs@, con, mode, r->Ok_0)
            } else {
                r == Err::<Version, RetrieveFailure>(RetrieveFailure::NoVersion(id.text()))
            },
            None => r == Err::<Version, RetrieveFailure>(RetrieveFailure::UnknownPackage(id.text())),
        },
    }
}

/// The view of a result that holds a version.
pub open spec fn retrieved(r: Result<Version, RetrieveError>) -> Result<Version, RetrieveFailure> {
    match r {
        Ok(v) => Ok(v),
        Err(e) => Err(e@),
    }
}

/// The source of packages, as far as it is held in memory: the versions of
/// every known package, what versions are to be preferred, and the
/// incompatibilities of the versions looked at so far.
#[derive(Debug)]
pub struct Retriever {
    deps_cache: Vec<(Summary<PackageId>, Vec<Incompatibility>)>,
    versions: Vec<(PackageId, Vec<Version>)>,
    preferred_versions: Vec<(PackageId, Version)>,
    mode: Mode,
    offline: bool,
}

impl Retriever {
    /// The versions that are known of the package, if it is known.
    pub closed spec fn versions_of(&self, id: PackageIdView) -> Option<Vec<Version>> {
        lookup(self.versions@, id)
    }

    /// The version that is to be preferred for the package, if any.
    pub closed spec fn preferred(&self, id: PackageIdView) -> Option<Version> {
        lookup(self.preferred_versions@, id)
    }

    /// The incompatibilities held for the given version of a package.
    pub closed spec fn cached(&self, id: PackageIdView, version: Version) -> Option<
        Seq<IncompatView>,
    > {
        lookup_summary(self.deps_cache@, id, version)
    }

    /// Whether the highest or the lowest admissible version is tried first.
    pub closed spec fn mode(&self) -> Mode {
        self.mode
    }

    /// Whether the network may not be used.
    pub closed spec fn offline(&self) -> bool {
        self.offline
    }

    /// The root: version 1.0.0 of the project itself.
    pub fn root() -> (r: Summary<PackageId>)
        ensures
            r.id == PackageId::Root,
            r.version == root_version(),
    {
        Summary::new(PackageId::Root, Version::new(1, 0, 0))
    }

    /// A source that knows the given versions of the given packages, the
    /// root at version 1.0.0 and the versions of the language. The root
    /// needs the language within `elm_version`. Of a package that is listed
    /// more than once the last listing counts.
    pub fn new(elm_version: &Constraint, offline: bool, known: Vec<(Name, Vec<Version>)>) -> (r: Self)
        ensures
            r.offline() == offline,
            r.mode() == Mode::Maximize,
            r.cached(PackageIdView::Root, root_version()) == Some(
                seq![
                    dependency_on(
                        PackageIdView::Root,
                        root_version(),
                        PackageIdView::Elm,
                        elm_version@,
                    ),
                ],
            ),
            r.versions_of(PackageIdView::Root) is Some,
            r.versions_of(PackageIdView::Root)->0@ == seq![root_version()],
            r.versions_of(PackageIdView::Elm) is Some,
            r.versions_of(PackageIdView::Elm)->0@ == elm_versions(),
            forall|name: NameView| #[trigger]
                r.versions_of(PackageIdView::Pkg(name)) == lookup(
                    known_ids(known@).reverse(),
                    PackageIdView::Pkg(name),
                ),
            forall|id: PackageIdView| r.preferred(id) is None,
    {
        let mut root_deps: Vec<Incompatibility> = Vec::new();
        let outside = elm_version.complement();
        proof {
            lemma_complement_of(elm_version@, outside@);
        }
        root_deps.push(Incompatibility::from_dep(Self::root(), (PackageId::Elm, outside)));
        let mut deps_cache: Vec<(Summary<PackageId>, Vec<Incompatibility>)> = Vec::new();
        deps_cache.push((Self::root(), root_deps));
        let mut versions: Vec<(PackageId, Vec<Version>)> = Vec::new();
        let mut one: Vec<Version> = Vec::new();
        one.push(Version::new(1, 0, 0));
        versions.push((PackageId::Root, one));
        let mut elm: Vec<Version> = Vec::new();
        elm.push(Version::new(0, 14, 0));
        elm.push(Version::new(0, 15, 0));
        elm.push(Version::new(0, 16, 0));
        elm.push(Version::new(0, 17, 0));
        elm.push(Version::new(0, 18, 0));
        elm.push(Version::new(0, 19, 0));
        elm.push(Version::new(0, 19, 1));
        versions.push((PackageId::Elm, elm));
        proof {
            assert(elm@ =~= elm_versions());
            assert(one@ =~= seq![root_version()]);
            lemma_lookup(versions@, PackageIdView::Root, 0);
            lemma_lookup(versions@, PackageIdView::Elm, 1);
            lemma_lookup_summary(deps_cache@, PackageIdView::Root, root_version(), 0);
            assert(incompat_views(deps_cache@[0].1@) =~= seq![
                dependency_on(PackageIdView::Root, root_version(), PackageIdView::Elm, elm_version@),
            ]);
        }
        let ghost base = versions@;
        let ghost listed = known_ids(known@).reverse();
        let ghost total = known@.len();
        let mut known = known;
        proof {
            assert(versions@ =~= base + listed.take(0));
        }
        while known.len() > 0
            invariant
                known@.len() <= total,
                total == listed.len(),
                base.len() == 2,
                versions@ == base + listed.take(total - known@.len()),
                forall|k: int|
                    0 <= k < known@.len() ==> #[trigger] listed[total - 1 - k] == (
                        PackageId::Pkg(known@[k].0),
                        known@[k].1,
                    ),
            decreases known.len(),
        {
            let ghost before = versions@;
            let ghost left = known@.len();
            match known.pop() {
                Some(entry) => {
                    versions.push((PackageId::Pkg(entry.0), entry.1));
                    proof {
                        assert(listed[total - 1 - (left - 1)] == (PackageId::Pkg(entry.0), entry.1));
                        assert(listed.take(total - left + 1) =~= listed.take(total - left).push(
                            listed[total - left],
                        ));
                        assert(versions@ =~= base + listed.take(total - known@.len()));
                    }
                },
                None => {},
            }
        }
        proof {
            assert(listed.take(total as int) =~= listed);
            assert(versions@[0] == base[0]);
            assert(versions@[1] == base[1]);
            assert(versions@[0].0@ != PackageIdView::Elm);
            lemma_lookup(versions@, PackageIdView::Root, 0);
            lemma_lookup(versions@, PackageIdView::Elm, 1);
            assert forall|name: NameView| #[trigger]
                lookup(versions@, PackageIdView::Pkg(name)) == lookup(
                    listed,
                    PackageIdView::Pkg(name),
                ) by {
                assert(versions@[0].0@ != PackageIdView::Pkg(name));
                assert(versions@[1].0@ != PackageIdView::Pkg(name));
                lemma_lookup(versions@, PackageIdView::Pkg(name), 2);
                assert(versions@.skip(2) =~= listed);
            }
        }
        let r = Self {
            deps_cache,
            versions,
            preferred_versions: Vec::new(),
            mode: Mode::Maximize,
            offline,
        };
        proof {
            assert forall|id: PackageIdView| r.preferred(id) is None by {
                lemma_lookup(r.preferred_versions@, id, 0);
            }
        }
        r
    }

    /// From now on the lowest admissible version is tried first.
    pub fn minimize(&mut self)
        ensures
            final(self).mode() == Mode::Minimize,
            final(self).offline() == old(self).offline(),
            forall|id: PackageIdView| final(self).versions_of(id) == old(self).versions_of(id),
            forall|id: PackageIdView| final(self).preferred(id) == old(self).preferred(id),
            forall|id: PackageIdView, v: Version| final(self).cached(id, v) == old(self).cached(id, v),
    {
        self.mode = Mode::Minimize;
    }

    /// How many versions of the package are known.
    pub fn count_versions(&self, pkg: &PackageId) -> (n: usize)
        ensures
            n == match self.versions_of(pkg@) {
                Some(vs) => vs@.len(),
                None => 0,
            },
    {
        match find(&self.versions, pkg) {
            Some(i) => self.versions[i].1.len(),
            None => 0,
        }
    }

    /// The version of the package to try first among those in `con`: the
    /// preferred version if there is one, which must then lie in `con`; else
    /// the highest known version in `con`, or the lowest if the mode is to
    /// minimize.
    pub fn best(&self, pkg: &PackageId, con: &Constraint) -> (r: Result<Version, RetrieveError>)
        ensures
            best_spec(
                self.preferred(pkg@),
                self.versions_of(pkg@),
                self.mode(),
                pkg@,
                con@,
                retrieved(r),
            ),
    {
        match find(&self.preferred_versions, pkg) {
            Some(i) => {
                let version = self.preferred_versions[i].1;
                if con.satisfies(&version) {
                    Ok(version)
                } else {
                    let mut s = "I want to use version ".to_owned();
                    s.append(version.to_string().as_str());
                    s.append(" for ");
                    s.append(pkg.to_string().as_str());
                    s.append(" but it's not allowed by constraint ");
                    s.append(con.to_string().as_str());
                    Err(RetrieveError::Rejected(s))
                }
            },
            None => match find(&self.versions, pkg) {
                Some(i) => {
                    let versions = &self.versions[i].1;
                    match pick(versions, con, self.mode) {
                        Some(v) => Ok(v),
                        None => Err(RetrieveError::NoVersion(pkg.to_string())),
                    }
                },
                None => Err(RetrieveError::UnknownPackage(pkg.to_string())),
            },
        }
    }

    /// The incompatibilities held for the given version of a package. The
    /// language has none. What is not held cannot be had from here: the
    /// error names the release, so that its manifest can be looked for.
    pub fn incompats(&self, pkg: &Summary<PackageId>) -> (r: Result<
        Vec<Incompatibility>,
        RetrieveError,
    >)
        ensures
            pkg.id@ == PackageIdView::Elm ==> r is Ok && r->Ok_0@.len() == 0,
            pkg.id@ != PackageIdView::Elm ==> match self.cached(pkg.id@, pkg.version) {
                Some(held) => r is Ok && incompat_views(r->Ok_0@) == held,
                None => r is Err && r->Err_0@ == RetrieveFailure::NotCached(
                    pkg.id@.text() + "@"@ + pkg.version.text(),
                ),
            },
    {
        match pkg.id {
            PackageId::Elm => {
                return Ok(Vec::new());
            },
            _ => {},
        }
        match find_summary(&self.deps_cache, pkg) {
            Some(i) => Ok(clone_incompats(&self.deps_cache[i].1)),
            None => {
                let mut s = pkg.id.to_string();
                s.append("@");
                s.append(pkg.version.to_string().as_str());
                Err(RetrieveError::NotCached(s))
            },
        }
    }

    /// Whether the network may not be used.
    pub fn is_offline(&self) -> (r: bool)
        ensures
            r == self.offline(),
    {
        self.offline
    }

    /// Whether incompatibilities are held for the given version of a package.
    pub fn is_cached(&self, pkg: &Summary<PackageId>) -> (r: bool)
        ensures
            r == self.cached(pkg.id@, pkg.version) is Some,
    {
        find_summary(&self.deps_cache, pkg).is_some()
    }
}

/// What the manifest `info` of the version `version` of `id` says it is
/// incompatible with: one entry for every dependency, in order, and one for
/// the language.
pub open spec fn package_incompats(id: PackageIdView, version: Version, info: Package) -> Seq<
    IncompatView,
> {
    info.dependencies@.map_values(
        |d: (Name, crate::package::manifest::Range)|
            dependency_on(id, version, PackageIdView::Pkg(d.0@), seq![d.1.as_range()]),
    ).push(dependency_on(id, version, PackageIdView::Elm, seq![info.elm_version.as_range()]))
}

/// What it says that the root needs each of `deps` within its range.
pub open spec fn root_needs(deps: Seq<(NameView, Range)>) -> Seq<IncompatView> {
    deps.map_values(
        |d: (NameView, Range)|
            dependency_on(PackageIdView::Root, root_version(), PackageIdView::Pkg(d.0), seq![d.1]),
    )
}

/// What the entries say: the package and the version to prefer.
pub open spec fn id_views(versions: Seq<(PackageId, Version)>) -> Seq<(PackageIdView, Version)> {
    versions.map_values(|e: (PackageId, Version)| (e.0@, e.1))
}

/// The version that the last entry for `id` names.
pub open spec fn last_listed(versions: Seq<(PackageIdView, Version)>, id: PackageIdView) -> Option<
    Version,
>
    decreases versions.len(),
{
    if versions.len() == 0 {
        None
    } else if versions.last().0 == id {
        Some(versions.last().1)
    } else {
        last_listed(versions.drop_last(), id)
    }
}

/// The version to prefer for `id` once the preferences of `versions` are
/// taken up: the last that `versions` lists for it, and else what was
/// preferred before.
pub open spec fn prefer(
    versions: Seq<(PackageIdView, Version)>,
    id: PackageIdView,
    before: Option<Version>,
) -> Option<Version> {
    match last_listed(versions, id) {
        Some(v) => Some(v),
        None => before,
    }
}

/// Looking up the first entry of a list read backwards finds the last entry
/// of the list.
proof fn lemma_last_listed(versions: Seq<(PackageId, Version)>, id: PackageIdView)
    ensures
        lookup(versions.reverse(), id) == last_listed(id_views(versions), id),
    decreases versions.len(),
{
    if versions.len() > 0 {
        let back = versions.reverse();
        assert(back[0] == versions.last());
        assert(back.drop_first() =~= versions.drop_last().reverse());
        assert(id_views(versions).drop_last() =~= id_views(versions.drop_last()));
        assert(id_views(versions).last() == (versions.last().0@, versions.last().1));
        lemma_last_listed(versions.drop_last(), id);
    } else {
        assert(versions.reverse() =~= Seq::<(PackageId, Version)>::empty());
    }
}

/// What is held for the root, or nothing if nothing is held.
pub open spec fn held_or_empty(held: Option<Seq<IncompatView>>) -> Seq<IncompatView> {
    match held {
        Some(h) => h,
        None => Seq::empty(),
    }
}

/// The constraint of all versions.
pub open spec fn any_version() -> Seq<Range> {
    seq![Range::of_ends(Interval::Unbounded, Interval::Unbounded)]
}

/// Nothing lies outside the constraint of all versions.
pub proof fn lemma_complement_of_any()
    ensures
        complement_of(any_version()) == Seq::<Range>::empty(),
{
    let all = any_version();
    let none = Seq::<Range>::empty();
    all[0].lemma_of_ends();
    assert(crate::semver::canon::canonical(none));
    assert forall|p: int| #[trigger]
        covers(none, p) <==> (crate::semver::canon::on_line(p) && !covers(all, p)) by {
        if crate::semver::canon::on_line(p) {
            assert(all[0].has(p));
        }
    }
    lemma_complement_of(all, none);
}

impl Retriever {
    /// Everything but the incompatibilities held is as in `other`.
    pub open spec fn same_index(&self, other: &Retriever) -> bool {
        &&& self.mode() == other.mode()
        &&& self.offline() == other.offline()
        &&& forall|id: PackageIdView| self.versions_of(id) == other.versions_of(id)
        &&& forall|id: PackageIdView| self.preferred(id) == other.preferred(id)
    }

    /// The incompatibilities held are as in `other`, but for the given
    /// version of `id`.
    pub open spec fn same_cache_but(&self, other: &Retriever, id: PackageIdView, version: Version) -> bool {
        forall|i: PackageIdView, v: Version|
            !(i == id && v == version) ==> self.cached(i, v) == other.cached(i, v)
    }

    fn put(&mut self, pkg: Summary<PackageId>, incompats: Vec<Incompatibility>)
        ensures
            final(self).same_index(old(self)),
            final(self).same_cache_but(old(self), pkg.id@, pkg.version),
            final(self).cached(pkg.id@, pkg.version) == Some(incompat_views(incompats@)),
    {
        let ghost before = self.deps_cache@;
        self.deps_cache.insert(0, (pkg, incompats));
        proof {
            assert(self.deps_cache@.drop_first() =~= before);
        }
    }

    /// Adds to what the root needs: every package of `deps` within its range.
    pub fn add_deps(&mut self, deps: &Vec<(Name, Range)>)
        ensures
            final(self).same_index(old(self)),
            final(self).same_cache_but(old(self), PackageIdView::Root, root_version()),
            final(self).cached(PackageIdView::Root, root_version()) == Some(
                held_or_empty(old(self).cached(PackageIdView::Root, root_version())) + root_needs(
                    crate::project::application::pin_views(deps@),
                ),
            ),
    {
        let root = Self::root();
        let mut entry = match find_summary(&self.deps_cache, &root) {
            Some(i) => clone_incompats(&self.deps_cache[i].1),
            None => Vec::new(),
        };
        let ghost held = held_or_empty(self.cached(PackageIdView::Root, root_version()));
        let ghost views = crate::project::application::pin_views(deps@);
        proof {
            assert(incompat_views(entry@) =~= held);
            assert(views.take(0) =~= Seq::<(NameView, Range)>::empty());
            assert(incompat_views(entry@) =~= held + root_needs(views.take(0)));
        }
        let n = deps.len();
        let mut i: usize = 0;
        while i < n
            invariant
                i <= n,
                n == deps.len(),
                views == crate::project::application::pin_views(deps@),
                incompat_views(entry@) == held + root_needs(views.take(i as int)),
            decreases n - i,
        {
            let range = deps[i].1;
            let constraint = Constraint::from_range(range).complement();
            let ghost before = entry@;
            proof {
                lemma_complement_of(seq![range], constraint@);
            }
            entry.push(
                Incompatibility::from_dep(
                    Self::root(),
                    (PackageId::Pkg(deps[i].0.clone()), constraint),
                ),
            );
            proof {
                let added = dependency_on(
                    PackageIdView::Root,
                    root_version(),
                    PackageIdView::Pkg(deps@[i as int].0@),
                    seq![deps@[i as int].1],
                );
                assert(views.take(i + 1) =~= views.take(i as int).push(views[i as int]));
                assert(incompat_views(entry@) =~= incompat_views(before).push(added));
                assert(root_needs(views.take(i + 1)) =~= root_needs(views.take(i as int)).push(added));
                assert(incompat_views(entry@) =~= held + root_needs(views.take(i + 1)));
            }
            i += 1;
        }
        proof {
            assert(views.take(n as int) =~= views);
        }
        self.put(root, entry);
    }

    /// Adds to what the root needs: the package `name`, within `version` if
    /// that is given, else at any version.
    pub fn add_dep(&mut self, name: Name, version: Option<Constraint>)
        ensures
            final(self).same_index(old(self)),
            final(self).same_cache_but(old(self), PackageIdView::Root, root_version()),
            final(self).cached(PackageIdView::Root, root_version()) == Some(
                held_or_empty(old(self).cached(PackageIdView::Root, root_version())).push(
                    dependency_on(
                        PackageIdView::Root,
                        root_version(),
                        PackageIdView::Pkg(name@),
                        match version {
                            Some(c) => c@,
                            None => any_version(),
                        },
                    ),
                ),
            ),
    {
        let root = Self::root();
        let mut entry = match find_summary(&self.deps_cache, &root) {
            Some(i) => clone_incompats(&self.deps_cache[i].1),
            None => Vec::new(),
        };
        let ghost held = held_or_empty(self.cached(PackageIdView::Root, root_version()));
        let ghost before = entry@;
        let constraint = match &version {
            Some(x) => {
                let c = x.complement();
                proof {
                    lemma_complement_of(x@, c@);
                }
                c
            },
            None => {
                proof {
                    lemma_complement_of_any();
                }
                Constraint::empty()
            },
        };
        entry.push(Incompatibility::from_dep(Self::root(), (PackageId::Pkg(name), constraint)));
        proof {
            assert(incompat_views(before) =~= held);
            assert(incompat_views(entry@) =~= incompat_views(before).push(
                (entry@[before.len() as int].terms(), entry@[before.len() as int].cause),
            ));
        }
        self.put(root, entry);
    }

    /// Sets the versions to prefer; of a package that is given more than
    /// once, and of one that had a preferred version already, the last
    /// counts.
    pub fn add_preferred_versions(&mut self, versions: Vec<(PackageId, Version)>)
        ensures
            final(self).mode() == old(self).mode(),
            final(self).offline() == old(self).offline(),
            forall|id: PackageIdView| final(self).versions_of(id) == old(self).versions_of(id),
            forall|id: PackageIdView, v: Version| final(self).cached(id, v) == old(self).cached(id, v),
            forall|id: PackageIdView| #[trigger]
                final(self).preferred(id) == prefer(id_views(versions@), id, old(self).preferred(id)),
    {
        let n = versions.len();
        let ghost before = self.preferred_versions@;
        let mut i: usize = 0;
        proof {
            assert(versions@.take(0).reverse() + before =~= before);
        }
        while i < n
            invariant
                i <= n,
                n == versions.len(),
                self.mode() == old(self).mode(),
                self.offline() == old(self).offline(),
                self.versions == old(self).versions,
                self.deps_cache == old(self).deps_cache,
                self.preferred_versions@ == versions@.take(i as int).reverse() + before,
            decreases n - i,
        {
            self.preferred_versions.insert(0, (versions[i].0.clone(), versions[i].1));
            proof {
                assert(self.preferred_versions@ =~= versions@.take(i + 1).reverse() + before);
            }
            i += 1;
        }
        proof {
            assert(versions@.take(n as int) =~= versions@);
            assert forall|id: PackageIdView| #[trigger]
                lookup(self.preferred_versions@, id) == prefer(
                    id_views(versions@),
                    id,
                    lookup(before, id),
                ) by {
                lemma_lookup_concat(versions@.reverse(), before, id);
                lemma_last_listed(versions@, id);
            }
        }
    }

    /// Takes up the manifest `info` of the version `pkg` of a package: it
    /// holds from now on what that version is incompatible with, and gives
    /// that back.
    pub fn deps_from_package(&mut self, pkg: &Summary<PackageId>, info: &Package) -> (r: Vec<
        Incompatibility,
    >)
        requires
            all_proper(info.dependencies@),
            info.elm_version.proper(),
        ensures
            incompat_views(r@) == package_incompats(pkg.id@, pkg.version, *info),
            final(self).same_index(old(self)),
            final(self).same_cache_but(old(self), pkg.id@, pkg.version),
            final(self).cached(pkg.id@, pkg.version) == Some(
                package_incompats(pkg.id@, pkg.version, *info),
            ),
    {
        let mut deps: Vec<Incompatibility> = Vec::new();
        let n = info.dependencies.len();
        let ghost declared = info.dependencies@;
        let ghost wanted = declared.map_values(
            |d: (Name, crate::package::manifest::Range)|
                dependency_on(
                    pkg.id@,
                    pkg.version,
                    PackageIdView::Pkg(d.0@),
                    seq![d.1.as_range()],
                ),
        );
        let mut i: usize = 0;
        while i < n
            invariant
                i <= n,
                n == info.dependencies.len(),
                declared == info.dependencies@,
                all_proper(declared),
                wanted == declared.map_values(
                    |d: (Name, crate::package::manifest::Range)|
                        dependency_on(
                            pkg.id@,
                            pkg.version,
                            PackageIdView::Pkg(d.0@),
                            seq![d.1.as_range()],
                        ),
                ),
                incompat_views(deps@) == wanted.take(i as int),
            decreases n - i,
        {
            assert(declared[i as int].1.proper());
            let allowed = info.dependencies[i].1.to_constraint();
            let constraint = allowed.complement();
            let ghost before = deps@;
            proof {
                lemma_complement_of(allowed@, constraint@);
            }
            deps.push(
                Incompatibility::from_dep(
                    Summary::new(pkg.id.clone(), pkg.version),
                    (PackageId::Pkg(info.dependencies[i].0.clone()), constraint),
                ),
            );
            proof {
                assert(incompat_views(deps@) =~= incompat_views(before).push(wanted[i as int]));
                assert(wanted.take(i + 1) =~= wanted.take(i as int).push(wanted[i as int]));
            }
            i += 1;
        }
        let allowed = info.elm_version().to_constraint();
        let constraint = allowed.complement();
        let ghost before = deps@;
        proof {
            lemma_complement_of(allowed@, constraint@);
            assert(wanted.take(n as int) =~= wanted);
        }
        deps.push(
            Incompatibility::from_dep(
                Summary::new(pkg.id.clone(), pkg.version),
                (PackageId::Elm, constraint),
            ),
        );
        proof {
            assert(incompat_views(deps@) =~= incompat_views(before).push(
                dependency_on(
                    pkg.id@,
                    pkg.version,
                    PackageIdView::Elm,
                    seq![info.elm_version.as_range()],
                ),
            ));
        }
        let held = clone_incompats(&deps);
        self.put(Summary::new(pkg.id.clone(), pkg.version), held);
        deps
    }
}

/// A lookup in two lists one after the other finds what the first list
/// holds, and else what the second holds.
pub proof fn lemma_lookup_concat<V>(a: Seq<(PackageId, V)>, b: Seq<(PackageId, V)>, id: PackageIdView)
    ensures
        lookup(a + b, id) == (match lookup(a, id) {
            Some(v) => Some(v),
            None => lookup(b, id),
        }),
    decreases a.len(),
{
    if a.len() == 0 {
        assert(a + b =~= b);
    } else {
        assert((a + b)[0] == a[0]);
        assert((a + b).drop_first() =~= a.drop_first() + b);
        lemma_lookup_concat(a.drop_first(), b, id);
    }
}

impl crate::solver::retriever::Retriever for Retriever {
    /// The root: version 1.0.0 of the project itself.
    open spec fn root_of(&self) -> Summary<PackageId> {
        Summary { id: PackageId::Root, version: root_version() }
    }

    /// What is held for the given version of a package; for the language,
    /// that it has no incompatibilities.
    open spec fn held(&self, id: PackageIdView, version: Version) -> Option<Seq<IncompatView>> {
        if id == PackageIdView::Elm {
            Some(Seq::empty())
        } else {
            self.cached(id, version)
        }
    }

    /// The root: version 1.0.0 of the project itself.
    fn root(&self) -> (r: Summary<PackageId>)
        ensures
            r.id == PackageId::Root,
            r.version == root_version(),
    {
        Retriever::root()
    }

    /// The incompatibilities held for the given version of a package; the
    /// source stays as it is.
    fn incompats(&mut self, pkg: &Summary<PackageId>) -> (r: Result<
        Vec<Incompatibility>,
        RetrieveError,
    >)
        ensures
            *final(self) == *old(self),
            pkg.id@ == PackageIdView::Elm ==> r is Ok && r->Ok_0@.len() == 0,
            pkg.id@ != PackageIdView::Elm ==> match old(self).cached(pkg.id@, pkg.version) {
                Some(held) => r is Ok && incompat_views(r->Ok_0@) == held,
                None => r is Err && r->Err_0@ == RetrieveFailure::NotCached(
                    pkg.id@.text() + "@"@ + pkg.version.text(),
                ),
            },
    {
        let r = Retriever::incompats(self, pkg);
        proof {
            if r is Ok && pkg.id@ == PackageIdView::Elm {
                assert(incompat_views(r->Ok_0@) =~= Seq::<IncompatView>::empty());
            }
        }
        r
    }

    /// How many versions of the package are known.
    fn count_versions(&self, pkg: &PackageId) -> (n: usize)
        ensures
            n == match self.versions_of(pkg@) {
                Some(vs) => vs@.len(),
                None => 0,
            },
    {
        Retriever::count_versions(self, pkg)
    }

    /// The version of the package to try first among those in `con`; the
    /// source stays as it is.
    fn best(&mut self, pkg: &PackageId, con: &Constraint) -> (r: Result<Version, RetrieveError>)
        ensures
            *final(self) == *old(self),
            best_spec(
                old(self).preferred(pkg@),
                old(self).versions_of(pkg@),
                old(self).mode(),
                pkg@,
                con@,
                retrieved(r),
            ),
    {
        Retriever::best(self, pkg, con)
    }
}

/// The version of `versions` to try first among those in `con`.
fn pick(versions: &Vec<Version>, con: &Constraint, mode: Mode) -> (r: Option<Version>)
    ensures
        r is Some <==> any_admissible(versions@, con@),
        r is Some ==> is_best(versions@, con@, mode, r->0),
{
    let n = versions.len();
    let mut found: Option<Version> = None;
    let mut i: usize = 0;
    while i < n
        invariant
            i <= n,
            n == versions.len(),
            found is Some <==> any_admissible(versions@.take(i as int), con@),
            found is Some ==> is_best(versions@.take(i as int), con@, mode, found->0),
        decreases n - i,
    {
        let v = versions[i];
        let ghost before = versions@.take(i as int);
        let ghost after = versions@.take(i + 1);
        let ghost old_found = found;
        proof {
            assert(after =~= before.push(v));
        }
        if con.satisfies(&v) {
            found =
            match found {
                None => Some(v),
                Some(w) => {
                    let better = match mode {
                        Mode::Maximize => w < v,
                        Mode::Minimize => v < w,
                    };
                    if better {
                        Some(v)
                    } else {
                        Some(w)
                    }
                },
            };
        }
        proof {
            let p = point_of(v);
            if any_admissible(after, con@) {
                let k = choose|k: int| 0 <= k < after.len() && covers(con@, point_of(#[trigger] after[k]));
                if k < before.len() {
                    assert(before[k] == after[k]);
                    assert(any_admissible(before, con@));
                }
            }
            if any_admissible(before, con@) {
                let k = choose|k: int|
                    0 <= k < before.len() && covers(con@, point_of(#[trigger] before[k]));
                assert(after[k] == before[k]);
            }
            if covers(con@, p) {
                assert(after[before.len() as int] == v);
            }
            if found is Some {
                let f = found->0;
                if f == v {
                    assert(after[before.len() as int] == v);
                } else {
                    assert(before.contains(f));
                    let k = choose|k: int| 0 <= k < before.len() && before[k] == f;
                    assert(after[k] == f);
                }
                assert forall|k: int|
                    0 <= k < after.len() && covers(con@, point_of(#[trigger] after[k])) implies match mode {
                    Mode::Maximize => after[k].ord() <= f.ord(),
                    Mode::Minimize => f.ord() <= after[k].ord(),
                } by {
                    if k < before.len() {
                        assert(before[k] == after[k]);
                        assert(any_admissible(before, con@));
                    }
                }
            }
        }
        i += 1;
    }
    proof {
        assert(versions@.take(n as int) =~= versions@);
    }
    found
}

} // verus!
