use elm_json::package::retriever::PackageId;
use elm_json::package::Name;
use elm_json::semver::{Constraint, Interval, Range, Version};
use elm_json::solver::{
    Assignment, AssignmentType, Incompatibility, IncompatibilityCause, Summary,
};
use indexmap::IndexMap;

fn n(text: &str) -> Name {
    text.parse().unwrap()
}

fn v(major: u64, minor: u64, patch: u64) -> Version {
    Version::new(major, minor, patch)
}

fn pkg(text: &str) -> PackageId {
    PackageId::Pkg(n(text))
}

fn half_open(lower: Version, upper: Version) -> Constraint {
    Constraint::from(Range::new(Interval::Closed(lower), Interval::Open(upper)).unwrap())
}

fn incompat(terms: Vec<(PackageId, Constraint)>, cause: IncompatibilityCause) -> Incompatibility {
    let mut map = IndexMap::new();
    for (k, c) in terms {
        map.insert(k, c);
    }
    Incompatibility::new(map, cause)
}

#[test]
fn dependency_has_two_terms() {
    let allowed = half_open(v(1, 0, 0), v(2, 0, 0));
    let i = Incompatibility::from_dep(
        Summary::new(pkg("foo/bar"), v(1, 2, 3)),
        (pkg("foo/baz"), allowed.complement()),
    );
    assert_eq!(i.cause(), IncompatibilityCause::Dependency);
    assert_eq!(i.deps().len(), 2);
    assert_eq!(i.len(), 2);
    assert!(!i.is_derived());
    assert_eq!(i.derived(), None);
    assert!(i.is_shaped());
    assert_eq!(i.show(), "foo/bar 1.2.3 depends on foo/baz 1.0.0 <= v < 2.0.0");
    let (first, exact) = i.term(0);
    assert!(first.same(&pkg("foo/bar")));
    assert!(exact.satisfies(&v(1, 2, 3)));
    assert!(!exact.satisfies(&v(1, 2, 4)));
}

#[test]
fn dependency_of_the_root_reads_as_this_project() {
    let allowed = half_open(v(1, 0, 0), v(2, 0, 0));
    let i = Incompatibility::from_dep(
        Summary::new(PackageId::Root, v(1, 0, 0)),
        (pkg("foo/baz"), allowed.complement()),
    );
    assert_eq!(i.show(), "this project depends on foo/baz 1.0.0 <= v < 2.0.0");
}

#[test]
fn every_cause_has_its_sentence() {
    let c = half_open(v(1, 0, 0), v(2, 0, 0));
    let unavailable = incompat(vec![(pkg("foo/bar"), c.clone())], IncompatibilityCause::Unavailable);
    assert_eq!(unavailable.show(), "foo/bar 1.0.0 <= v < 2.0.0 is unavailable");
    let unknown = incompat(vec![(pkg("foo/bar"), c.clone())], IncompatibilityCause::UnknownPackage);
    assert_eq!(unknown.show(), "foo/bar does not appear to exist");
    let root = incompat(vec![(PackageId::Root, c.clone())], IncompatibilityCause::Root);
    assert_eq!(root.show(), "the root package was chosen");
    let one = incompat(vec![(pkg("foo/bar"), c.clone())], IncompatibilityCause::Derived(0, 1));
    assert_eq!(one.show(), "no valid set of package versions could be found");
    assert_eq!(one.derived(), Some((0, 1)));
    assert!(one.is_derived());
    let two = incompat(
        vec![(pkg("foo/bar"), c.clone()), (PackageId::Elm, Constraint::from(v(0, 19, 1)))],
        IncompatibilityCause::Derived(0, 1),
    );
    assert_eq!(two.show(), "foo/bar 1.0.0 <= v < 2.0.0 is incompatible with Elm 0.19.1");
    let three = incompat(
        vec![
            (pkg("foo/bar"), c.clone()),
            (pkg("foo/baz"), Constraint::any()),
            (PackageId::Root, Constraint::any()),
        ],
        IncompatibilityCause::Derived(2, 3),
    );
    assert_eq!(
        three.show(),
        "one of foo/bar 1.0.0 <= v < 2.0.0; foo/baz at any version; this project must be false"
    );
}

#[test]
fn shape_follows_the_cause() {
    let c = Constraint::any();
    assert!(!incompat(vec![(pkg("foo/bar"), c.clone())], IncompatibilityCause::Dependency).is_shaped());
    assert!(!incompat(vec![], IncompatibilityCause::Unavailable).is_shaped());
    assert!(incompat(vec![], IncompatibilityCause::Root).is_shaped());
}

#[test]
fn show_combine_joins_two_sentences() {
    let c = half_open(v(1, 0, 0), v(2, 0, 0));
    let a = incompat(vec![(pkg("foo/bar"), c.clone())], IncompatibilityCause::Unavailable);
    let b = incompat(vec![(pkg("foo/baz"), c.clone())], IncompatibilityCause::UnknownPackage);
    assert_eq!(
        a.show_combine(&b, Some(1), Some(12)),
        "foo/bar 1.0.0 <= v < 2.0.0 is unavailable (1) and foo/baz does not appear to exist (12)"
    );
    assert_eq!(
        a.show_combine(&b, None, None),
        "foo/bar 1.0.0 <= v < 2.0.0 is unavailable and foo/baz does not appear to exist"
    );
    assert_eq!(
        a.show_combine(&a.clone(), Some(3), Some(4)),
        "foo/bar 1.0.0 <= v < 2.0.0 is unavailable (3)"
    );
    assert!(a.same(&a.clone()));
    assert!(!a.same(&b));
    assert_eq!(a.show_combine_same(&b, Some(1)), None);
}

#[test]
fn assignments_answer_for_their_kind() {
    let decision = Assignment::new(3, 2, pkg("foo/bar"), AssignmentType::Decision { version: v(1, 0, 0) });
    assert_eq!(decision.step(), 3);
    assert_eq!(decision.level(), 2);
    assert!(decision.pkg().same(&pkg("foo/bar")));
    assert_eq!(decision.cause(), None);
    assert!(!decision.is_positive());
    assert!(decision.constraint() == Constraint::from(v(1, 0, 0)));
    assert!(matches!(decision.ty(), AssignmentType::Decision { .. }));
    let c = half_open(v(1, 0, 0), v(2, 0, 0));
    let derivation = Assignment::new(
        4,
        2,
        pkg("foo/baz"),
        AssignmentType::Derivation { constraint: c.clone(), cause: 7, positive: true },
    );
    assert_eq!(derivation.cause(), Some(7));
    assert!(derivation.is_positive());
    assert!(derivation.constraint() == c);
}

#[test]
fn summaries_know_the_root() {
    let s = Summary::new(PackageId::Root, v(1, 0, 0));
    assert!(s.is_root());
    assert_eq!(s.version(), v(1, 0, 0));
    assert!(s.id().same(&PackageId::Root));
    let t = Summary::new(pkg("foo/bar"), v(2, 0, 0));
    assert!(!t.is_root());
    assert!(!Summary::new(PackageId::Elm, v(0, 19, 1)).is_root());
    assert_eq!(t.clone().id().to_string(), "foo/bar");
    assert_eq!(PackageId::Root.to_string(), "root");
    assert_eq!(PackageId::Elm.to_string(), "Elm");
    assert!(PackageId::Root.precedes(&PackageId::Elm));
    assert!(PackageId::Elm.precedes(&pkg("a/a")));
    assert!(pkg("a/a").precedes(&pkg("a/b")));
    assert!(!pkg("a/b").precedes(&pkg("a/a")));
    assert!(pkg("a/a").is(&n("a/a")));
    assert!(!PackageId::Elm.is(&n("a/a")));
    assert_eq!(pkg("a/a") < pkg("a/b"), pkg("a/a").precedes(&pkg("a/b")));
}
