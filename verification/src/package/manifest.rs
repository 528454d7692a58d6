//! Package manifests: what a published package declares of itself.

use crate::package::name::{lemma_name_order, Name, NameView};
use crate::semver::constraint::Constraint;
use crate::semver::interval::Interval;
use crate::semver::version::{parse_version_spec, parsed, ParseError, ParseFailure, Version};
use crate::text::{chars_equal, chars_of, split, split_chars, string_of_chars};
use std::str::FromStr;
use vstd::prelude::*;
use vstd::string::*;

verus! {

/// A range of versions as manifests write it: `lower <= v < upper`.
#[derive(Debug, Copy, Clone, PartialEq, Eq, Structural)]
pub struct Range {
    pub lower: Version,
    pub upper: Version,
}

/// What parsing a manifest range from `cs` gives. The text must be five
/// words with single spaces between them, the middle three being `<=`, `v`
/// and `<`; the first and the last must be versions.
pub open spec fn parse_range_spec(cs: Seq<char>) -> Result<Range, ParseFailure> {
    let parts = split(cs, ' ');
    if parts.len() == 5 && parts[1] == "<="@ && parts[2] == "v"@ && parts[3] == "<"@ {
        match parse_version_spec(parts[0]) {
            Err(e) => Err(e),
            Ok(lower) => match parse_version_spec(parts[4]) {
                Err(e) => Err(e),
                Ok(upper) => Ok(Range { lower, upper }),
            },
        }
    } else {
        Err(ParseFailure::InvalidRange(cs))
    }
}

impl Range {
    /// The range from `lower` up to, but not including, `upper`.
    pub fn new(lower: Version, upper: Version) -> (r: Range)
        ensures
            r == (Range { lower, upper }),
    {
        Range { lower, upper }
    }

    /// The lower version lies below the upper version, so that some version
    /// is in the range.
    pub open spec fn proper(self) -> bool {
        self.lower.ord() < self.upper.ord()
    }

    /// The written form `L <= v < U`.
    pub open spec fn text(self) -> Seq<char> {
        self.lower.text() + " <= v < "@ + self.upper.text()
    }

    /// The range of the algebra that holds the same versions.
    pub open spec fn as_range(self) -> crate::semver::range::Range {
        crate::semver::range::Range::of_ends(
            Interval::Closed(self.lower),
            Interval::Open(self.upper),
        )
    }

    /// Whether the lower version lies below the upper version.
    pub fn is_proper(&self) -> (r: bool)
        ensures
            r == self.proper(),
    {
        self.lower < self.upper
    }

    /// The constraint that holds the versions of the range.
    pub fn to_constraint(&self) -> (c: Constraint)
        requires
            self.proper(),
        ensures
            c.wf(),
            c@ == seq![self.as_range()],
    {
        Constraint::from_range(self.to_constraint_range())
    }

    /// The range of the algebra that holds the same versions.
    pub fn to_constraint_range(&self) -> (r: crate::semver::range::Range)
        requires
            self.proper(),
        ensures
            r == self.as_range(),
            r.wf(),
    {
        crate::semver::range::Range::new(
            Interval::Closed(self.lower),
            Interval::Open(self.upper),
        ).unwrap()
    }

    /// The range from `v` up to the next major version.
    pub fn from_version(v: Version) -> (r: Range)
        requires
            v.major < u64::MAX,
        ensures
            r.lower == v,
            r.upper == (Version { major: (v.major + 1) as u64, minor: 0, patch: 0 }),
            r.proper(),
    {
        let r = Range { lower: v, upper: Version::new(v.major() + 1, 0, 0) };
        proof {
            r.lower.lemma_ord(r.upper);
        }
        r
    }

    /// Writes the range as `L <= v < U`.
    pub fn to_string(&self) -> (s: String)
        ensures
            s@ == self.text(),
    {
        let mut s = self.lower.to_string();
        s.append(" <= v < ");
        s.append(self.upper.to_string().as_str());
        s
    }

    /// Reads a range written as `L <= v < U`.
    pub fn parse(s: &str) -> (r: Result<Range, ParseError>)
        ensures
            parsed(r) == parse_range_spec(s@),
    {
        let cs = chars_of(s);
        let pieces = split_chars(&cs, ' ');
        if pieces.len() == 5 && chars_equal(&pieces[1], &chars_of("<=")) && chars_equal(
            &pieces[2],
            &chars_of("v"),
        ) && chars_equal(&pieces[3], &chars_of("<")) {
            proof {
                let parts = split(cs@, ' ');
                assert(parts[0] == pieces[0]@);
                assert(parts[1] == pieces[1]@);
                assert(parts[2] == pieces[2]@);
                assert(parts[3] == pieces[3]@);
                assert(parts[4] == pieces[4]@);
            }
            match Version::parse_chars(&pieces[0]) {
                Err(e) => Err(e),
                Ok(lower) => match Version::parse_chars(&pieces[4]) {
                    Err(e) => Err(e),
                    Ok(upper) => Ok(Range { lower, upper }),
                },
            }
        } else {
            proof {
                let parts = split(cs@, ' ');
                if pieces.len() == 5 {
                    assert(parts[1] == pieces[1]@);
                    assert(parts[2] == pieces[2]@);
                    assert(parts[3] == pieces[3]@);
                }
            }
            Err(ParseError::InvalidRange(string_of_chars(&cs)))
        }
    }
}

impl FromStr for Range {
    type Err = ParseError;

    /// Reads a range written as `L <= v < U`.
    fn from_str(s: &str) -> (r: Result<Range, ParseError>)
        ensures
            parsed(r) == parse_range_spec(s@),
    {
        Range::parse(s)
    }
}

/// The modules that a package exposes: a plain list, or lists under headings.
#[derive(Debug)]
pub enum Exposed {
    Plain(Vec<String>),
    Structured(Vec<(String, Vec<String>)>),
}

/// A dependency as a manifest declares it: the package's name and a range.
pub type Dependency = (Name, Range);

/// A dependency with its range in the algebra.
pub type ResolvedDependency = (Name, crate::semver::range::Range);

/// The names of the dependencies ascend strictly, as the keys of an ordered
/// map do.
pub open spec fn ascending(deps: Seq<Dependency>) -> bool {
    forall|i: int, j: int|
        0 <= i < j < deps.len() ==> (#[trigger] deps[i]).0@.less((#[trigger] deps[j]).0@)
}

/// Every range has its lower version below its upper version.
pub open spec fn all_proper(deps: Seq<Dependency>) -> bool {
    forall|i: int| 0 <= i < deps.len() ==> (#[trigger] deps[i]).1.proper()
}

/// What a dependency says: the name as text, and the range in the algebra.
pub open spec fn declared(d: Dependency) -> (NameView, crate::semver::range::Range) {
    (d.0@, d.1.as_range())
}

/// What a resolved dependency says.
pub open spec fn resolved(d: ResolvedDependency) -> (NameView, crate::semver::range::Range) {
    (d.0@, d.1)
}

/// What the dependencies say, in order.
pub open spec fn declared_all(deps: Seq<Dependency>) -> Seq<(NameView, crate::semver::range::Range)> {
    deps.map_values(|d: Dependency| declared(d))
}

/// What the resolved dependencies say, in order.
pub open spec fn resolved_all(deps: Seq<ResolvedDependency>) -> Seq<
    (NameView, crate::semver::range::Range),
> {
    deps.map_values(|d: ResolvedDependency| resolved(d))
}

/// The position of the dependency named `name`, if there is one.
pub open spec fn names(deps: Seq<Dependency>, name: NameView) -> bool {
    exists|i: int| 0 <= i < deps.len() && (#[trigger] deps[i]).0@ == name
}

/// The first position in `tests` whose name `deps` declares too, or the
/// length of `tests` if there is none.
pub open spec fn first_duplicate(deps: Seq<Dependency>, tests: Seq<Dependency>) -> int
    decreases tests.len(),
{
    if tests.len() == 0 {
        0
    } else if names(deps, tests[0].0@) {
        0
    } else {
        1 + first_duplicate(deps, tests.drop_first())
    }
}

/// A package that the manifest lists both as a dependency and as a
/// test-dependency.
#[derive(Debug)]
pub struct DuplicateDependency {
    pub name: Name,
    pub declared: Range,
    pub repeated: Range,
}

impl DuplicateDependency {
    /// The sentence that reports the duplicate.
    pub open spec fn text(self) -> Seq<char> {
        "Dependency "@ + self.name@.text() + "@"@ + self.declared.text()
            + " duplicated in test-dependencies as "@ + self.repeated.text()
    }

    /// Writes the sentence that reports the duplicate.
    pub fn to_string(&self) -> (s: String)
        ensures
            s@ == self.text(),
    {
        let mut s = "Dependency ".to_owned();
        s.append(self.name.to_string().as_str());
        s.append("@");
        s.append(self.declared.to_string().as_str());
        s.append(" duplicated in test-dependencies as ");
        s.append(self.repeated.to_string().as_str());
        s
    }
}

/// The manifest of a package.
#[derive(Debug)]
pub struct Package {
    pub name: String,
    pub summary: String,
    pub license: String,
    pub version: Version,
    pub exposed_modules: Exposed,
    pub elm_version: Range,
    pub dependencies: Vec<Dependency>,
    pub test_dependencies: Vec<Dependency>,
}

fn clone_strings(v: &Vec<String>) -> (r: Vec<String>)
    ensures
        r@ == v@,
{
    let mut r: Vec<String> = Vec::new();
    let n = v.len();
    let mut i: usize = 0;
    while i < n
        invariant
            i <= n,
            n == v.len(),
            r@ == v@.take(i as int),
        decreases n - i,
    {
        r.push(v[i].clone());
        proof {
            assert(r@ =~= v@.take(i + 1));
        }
        i += 1;
    }
    proof {
        assert(v@.take(n as int) =~= v@);
    }
    r
}

/// What an [`Exposed`] holds.
pub enum ExposedView {
    Plain(Seq<String>),
    Structured(Seq<(String, Seq<String>)>),
}

/// The groups of a structured list, each with its heading and its modules.
pub open spec fn group_views(groups: Seq<(String, Vec<String>)>) -> Seq<(String, Seq<String>)> {
    groups.map_values(|g: (String, Vec<String>)| (g.0, g.1@))
}

impl View for Exposed {
    type V = ExposedView;

    open spec fn view(&self) -> ExposedView {
        match self {
            Exposed::Plain(modules) => ExposedView::Plain(modules@),
            Exposed::Structured(groups) => ExposedView::Structured(group_views(groups@)),
        }
    }
}

impl Clone for Exposed {
    fn clone(&self) -> (r: Exposed)
        ensures
            r@ == self@,
    {
        match self {
            Exposed::Plain(modules) => Exposed::Plain(clone_strings(modules)),
            Exposed::Structured(groups) => {
                let mut copy: Vec<(String, Vec<String>)> = Vec::new();
                let n = groups.len();
                let mut i: usize = 0;
                while i < n
                    invariant
                        i <= n,
                        n == groups.len(),
                        group_views(copy@) == group_views(groups@.take(i as int)),
                    decreases n - i,
                {
                    let ghost before = copy@;
                    copy.push((groups[i].0.clone(), clone_strings(&groups[i].1)));
                    proof {
                        assert(groups@.take(i + 1) =~= groups@.take(i as int).push(
                            groups@[i as int],
                        ));
                        assert(group_views(copy@) =~= group_views(before).push(
                            (groups@[i as int].0, groups@[i as int].1@),
                        ));
                        assert(group_views(groups@.take(i + 1)) =~= group_views(
                            groups@.take(i as int),
                        ).push((groups@[i as int].0, groups@[i as int].1@)));
                    }
                    i += 1;
                }
                proof {
                    assert(groups@.take(n as int) =~= groups@);
                }
                Exposed::Structured(copy)
            },
        }
    }
}

/// The position of the dependency named `name`.
pub fn find_dependency(deps: &Vec<Dependency>, name: &Name) -> (r: Option<usize>)
    ensures
        r is Some <==> names(deps@, name@),
        r is Some ==> r->0 < deps.len() && deps[r->0 as int].0@ == name@,
{
    let n = deps.len();
    let mut i: usize = 0;
    while i < n
        invariant
            i <= n,
            n == deps.len(),
            forall|k: int| 0 <= k < i ==> (#[trigger] deps[k]).0@ != name@,
        decreases n - i,
    {
        if deps[i].0.same(name) {
            return Some(i);
        }
        i += 1;
    }
    None
}

impl Package {
    /// The manifest of a new package: version 1.0.0, nothing exposed, for
    /// Elm 0.19, with the core library as its only dependency.
    pub fn new(name: Name, summary: String, license: String) -> (p: Package)
        ensures
            p.name@ == name@.text(),
            p.summary == summary,
            p.license == license,
            p.version == (Version { major: 1, minor: 0, patch: 0 }),
            p.exposed_modules is Plain,
            p.exposed_modules->Plain_0@.len() == 0,
            p.elm_version == (Range {
                lower: Version { major: 0, minor: 19, patch: 0 },
                upper: Version { major: 0, minor: 20, patch: 0 },
            }),
            p.dependencies@.len() == 1,
            p.dependencies@[0].0@ == (NameView { author: "elm"@, project: "core"@ }),
            p.dependencies@[0].1 == (Range {
                lower: Version { major: 1, minor: 0, patch: 0 },
                upper: Version { major: 2, minor: 0, patch: 0 },
            }),
            p.test_dependencies@.len() == 0,
            p.wf(),
    {
        let mut dependencies: Vec<Dependency> = Vec::new();
        dependencies.push(
            (Name::elm_core(), Range::new(Version::new(1, 0, 0), Version::new(2, 0, 0))),
        );
        let p = Package {
            name: name.to_string(),
            summary,
            license,
            exposed_modules: Exposed::Plain(Vec::new()),
            version: Version::new(1, 0, 0),
            dependencies,
            test_dependencies: Vec::new(),
            elm_version: Range::new(Version::new(0, 19, 0), Version::new(0, 20, 0)),
        };
        proof {
            p.dependencies@[0].1.lower.lemma_ord(p.dependencies@[0].1.upper);
            p.elm_version.lower.lemma_ord(p.elm_version.upper);
        }
        p
    }

    /// The manifest is sound: names ascend in both lists of dependencies,
    /// and every range holds a version.
    pub open spec fn wf(&self) -> bool {
        &&& ascending(self.dependencies@)
        &&& ascending(self.test_dependencies@)
        &&& all_proper(self.dependencies@)
        &&& all_proper(self.test_dependencies@)
        &&& self.elm_version.proper()
    }

    /// The range of language versions that the package works with.
    pub fn elm_version(&self) -> (r: Range)
        ensures
            r == self.elm_version,
    {
        self.elm_version
    }

    /// The same manifest with other dependencies.
    pub fn with_deps(&self, dependencies: Vec<Dependency>, test_dependencies: Vec<Dependency>) -> (p:
        Package)
        ensures
            p.name == self.name,
            p.summary == self.summary,
            p.license == self.license,
            p.exposed_modules@ == self.exposed_modules@,
            p.version == self.version,
            p.elm_version == self.elm_version,
            p.dependencies == dependencies,
            p.test_dependencies == test_dependencies,
    {
        Package {
            name: self.name.clone(),
            summary: self.summary.clone(),
            license: self.license.clone(),
            exposed_modules: self.exposed_modules.clone(),
            version: self.version,
            dependencies,
            test_dependencies,
            elm_version: self.elm_version,
        }
    }

    /// The dependencies with their ranges in the algebra, in order.
    pub fn dependencies(&self) -> (r: Vec<ResolvedDependency>)
        requires
            all_proper(self.dependencies@),
        ensures
            resolved_all(r@) == declared_all(self.dependencies@),
    {
        resolve_dependencies(&self.dependencies)
    }

    /// The dependencies and the test-dependencies together, ascending by
    /// name, with their ranges in the algebra; or the first test-dependency
    /// that is a dependency too.
    pub fn all_dependencies(&self) -> (r: Result<Vec<ResolvedDependency>, DuplicateDependency>)
        requires
            self.wf(),
        ensures
            r is Err <==> first_duplicate(self.dependencies@, self.test_dependencies@)
                < self.test_dependencies@.len(),
            r is Err ==> ({
                let at = first_duplicate(self.dependencies@, self.test_dependencies@);
                let dup = self.test_dependencies@[at];
                &&& r->Err_0.name@ == dup.0@
                &&& r->Err_0.repeated == dup.1
                &&& exists|i: int|
                    0 <= i < self.dependencies@.len() && (#[trigger] self.dependencies@[i]).0@
                        == dup.0@ && self.dependencies@[i].1 == r->Err_0.declared
            }),
            r is Ok ==> is_merge(
                resolved_all(r->Ok_0@),
                declared_all(self.dependencies@),
                declared_all(self.test_dependencies@),
            ),
    {
        let deps = &self.dependencies;
        let tests = &self.test_dependencies;
        let m = tests.len();
        let mut j: usize = 0;
        proof {
            assert(tests@.skip(0) =~= tests@);
        }
        while j < m
            invariant
                j <= m,
                m == tests.len(),
                deps == &self.dependencies,
                tests == &self.test_dependencies,
                first_duplicate(deps@, tests@) == j + first_duplicate(deps@, tests@.skip(j as int)),
                forall|k: int| 0 <= k < j ==> !names(deps@, (#[trigger] tests@[k]).0@),
            decreases m - j,
        {
            proof {
                assert(tests@.skip(j as int).drop_first() =~= tests@.skip(j + 1));
                assert(tests@.skip(j as int)[0] == tests@[j as int]);
            }
            match find_dependency(deps, &tests[j].0) {
                Some(i) => {
                    return Err(
                        DuplicateDependency {
                            name: tests[j].0.clone(),
                            declared: deps[i].1,
                            repeated: tests[j].1,
                        },
                    );
                },
                None => {},
            }
            j += 1;
        }
        proof {
            assert(tests@.skip(m as int) =~= Seq::<Dependency>::empty());
        }
        Ok(merge_dependencies(deps, tests))
    }
}

/// The entries ascend strictly by name.
pub open spec fn entries_ascend(s: Seq<(NameView, crate::semver::range::Range)>) -> bool {
    forall|i: int, j: int| 0 <= i < j < s.len() ==> (#[trigger] s[i]).0.less((#[trigger] s[j]).0)
}

/// `r` holds the entries of `a` and of `b` and no others, ascending by name.
pub open spec fn is_merge(
    r: Seq<(NameView, crate::semver::range::Range)>,
    a: Seq<(NameView, crate::semver::range::Range)>,
    b: Seq<(NameView, crate::semver::range::Range)>,
) -> bool {
    &&& entries_ascend(r)
    &&& r.len() == a.len() + b.len()
    &&& forall|k: int| 0 <= k < r.len() ==> a.contains(#[trigger] r[k]) || b.contains(r[k])
    &&& forall|i: int| 0 <= i < a.len() ==> r.contains(#[trigger] a[i])
    &&& forall|j: int| 0 <= j < b.len() ==> r.contains(#[trigger] b[j])
}

fn resolve_dependencies(deps: &Vec<Dependency>) -> (r: Vec<ResolvedDependency>)
    requires
        all_proper(deps@),
    ensures
        resolved_all(r@) == declared_all(deps@),
{
    let mut r: Vec<ResolvedDependency> = Vec::new();
    let n = deps.len();
    let mut i: usize = 0;
    while i < n
        invariant
            i <= n,
            n == deps.len(),
            all_proper(deps@),
            resolved_all(r@) == declared_all(deps@.take(i as int)),
        decreases n - i,
    {
        let ghost before = r@;
        assert(deps[i as int].1.proper());
        r.push((deps[i].0.clone(), deps[i].1.to_constraint_range()));
        proof {
            assert(deps@.take(i + 1) =~= deps@.take(i as int).push(deps@[i as int]));
            assert(resolved_all(r@) =~= resolved_all(before).push(declared(deps@[i as int])));
            assert(declared_all(deps@.take(i + 1)) =~= declared_all(deps@.take(i as int)).push(
                declared(deps@[i as int]),
            ));
        }
        i += 1;
    }
    proof {
        assert(deps@.take(n as int) =~= deps@);
    }
    r
}

/// Merges two ascending lists without a common name into one.
fn merge_dependencies(deps: &Vec<Dependency>, tests: &Vec<Dependency>) -> (r: Vec<ResolvedDependency>)
    requires
        ascending(deps@),
        ascending(tests@),
        all_proper(deps@),
        all_proper(tests@),
        forall|k: int| 0 <= k < tests@.len() ==> !names(deps@, (#[trigger] tests@[k]).0@),
    ensures
        is_merge(resolved_all(r@), declared_all(deps@), declared_all(tests@)),
{
    let ghost a = declared_all(deps@);
    let ghost b = declared_all(tests@);
    let n = deps.len();
    let m = tests.len();
    let mut r: Vec<ResolvedDependency> = Vec::new();
    let mut i: usize = 0;
    let mut j: usize = 0;
    while i < n || j < m
        invariant
            i <= n,
            j <= m,
            n == deps.len(),
            m == tests.len(),
            a == declared_all(deps@),
            b == declared_all(tests@),
            ascending(deps@),
            ascending(tests@),
            all_proper(deps@),
            all_proper(tests@),
            forall|k: int| 0 <= k < tests@.len() ==> !names(deps@, (#[trigger] tests@[k]).0@),
            r@.len() == i + j,
            entries_ascend(resolved_all(r@)),
            forall|k: int, x: int|
                0 <= k < r@.len() && i <= x < n ==> (#[trigger] resolved_all(r@)[k]).0.less(
                    (#[trigger] a[x]).0,
                ),
            forall|k: int, y: int|
                0 <= k < r@.len() && j <= y < m ==> (#[trigger] resolved_all(r@)[k]).0.less(
                    (#[trigger] b[y]).0,
                ),
            forall|k: int|
                0 <= k < r@.len() ==> a.contains(#[trigger] resolved_all(r@)[k]) || b.contains(
                    resolved_all(r@)[k],
                ),
            forall|x: int| 0 <= x < i ==> resolved_all(r@).contains(#[trigger] a[x]),
            forall|y: int| 0 <= y < j ==> resolved_all(r@).contains(#[trigger] b[y]),
        decreases (n - i) + (m - j),
    {
        let ghost before = resolved_all(r@);
        let ghost held = r@;
        let take_left = if i < n && j < m {
            deps[i].0.precedes(&tests[j].0)
        } else {
            i < n
        };
        let ghost entry = if take_left {
            a[i as int]
        } else {
            b[j as int]
        };
        proof {
            if i < n && j < m {
                assert(!names(deps@, tests@[j as int].0@));
                assert(deps@[i as int].0@ != tests@[j as int].0@);
                lemma_name_order(deps@[i as int].0@, tests@[j as int].0@, deps@[i as int].0@);
            }
        }
        if take_left {
            assert(deps[i as int].1.proper());
            r.push((deps[i].0.clone(), deps[i].1.to_constraint_range()));
            i += 1;
        } else {
            assert(tests[j as int].1.proper());
            r.push((tests[j].0.clone(), tests[j].1.to_constraint_range()));
            j += 1;
        }
        proof {
            let after = resolved_all(r@);
            assert(after =~= before.push(entry));
            assert(after[before.len() as int] == entry);
            assert forall|k: int| 0 <= k < before.len() implies after[k] == before[k] by {}
            assert forall|x: int| 0 <= x < i implies after.contains(#[trigger] a[x]) by {
                if take_left && x == i - 1 {
                    assert(after[before.len() as int] == a[x]);
                } else {
                    assert(before.contains(a[x]));
                    let k = choose|k: int| 0 <= k < before.len() && before[k] == a[x];
                    assert(after[k] == a[x]);
                }
            }
            assert forall|y: int| 0 <= y < j implies after.contains(#[trigger] b[y]) by {
                if !take_left && y == j - 1 {
                    assert(after[before.len() as int] == b[y]);
                } else {
                    assert(before.contains(b[y]));
                    let k = choose|k: int| 0 <= k < before.len() && before[k] == b[y];
                    assert(after[k] == b[y]);
                }
            }
            assert forall|k: int| 0 <= k < after.len() implies a.contains(#[trigger] after[k])
                || b.contains(after[k]) by {
                if k < before.len() {
                    assert(a.contains(before[k]) || b.contains(before[k]));
                } else if take_left {
                    assert(a[i - 1] == entry);
                } else {
                    assert(b[j - 1] == entry);
                }
            }
            assert forall|k: int, x: int| 0 <= k < after.len() && i <= x < n implies (
            #[trigger] after[k]).0.less((#[trigger] a[x]).0) by {
                if k < before.len() {
                    assert(before[k].0.less(a[x].0));
                } else if take_left {
                    assert(deps@[i - 1].0@.less(deps@[x].0@));
                } else {
                    // the entry came from the right list while a left entry was waiting
                    assert(deps@[i as int].0@.less(deps@[x].0@) || x == i);
                    lemma_name_order(tests@[j - 1].0@, deps@[i as int].0@, deps@[x].0@);
                }
            }
            assert forall|k: int, y: int| 0 <= k < after.len() && j <= y < m implies (
            #[trigger] after[k]).0.less((#[trigger] b[y]).0) by {
                if k < before.len() {
                    assert(before[k].0.less(b[y].0));
                } else if !take_left {
                    assert(tests@[j - 1].0@.less(tests@[y].0@));
                } else {
                    assert(tests@[j as int].0@.less(tests@[y].0@) || y == j);
                    lemma_name_order(deps@[i - 1].0@, tests@[j as int].0@, tests@[y].0@);
                }
            }
            assert forall|k: int, l: int| 0 <= k < l < after.len() implies (#[trigger] after[k]).0.less(
                (#[trigger] after[l]).0,
            ) by {
                if l < before.len() {
                    assert(before[k].0.less(before[l].0));
                } else if take_left {
                    assert(before[k].0.less(a[i - 1].0));
                } else {
                    assert(before[k].0.less(b[j - 1].0));
                }
            }
        }
    }
    r
}

} // verus!
