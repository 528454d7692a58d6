use elm_json::package::manifest::{Exposed, Package, Range};
use elm_json::package::Name;
use elm_json::semver::{Interval, Version};

fn n(text: &str) -> Name {
    text.parse().unwrap()
}

fn v(major: u64, minor: u64, patch: u64) -> Version {
    Version::new(major, minor, patch)
}

fn package(deps: Vec<(&str, Range)>, tests: Vec<(&str, Range)>) -> Package {
    let mut p = Package::new(n("author/project"), "A summary".to_string(), "MIT".to_string());
    p.dependencies = deps.into_iter().map(|(k, r)| (n(k), r)).collect();
    p.test_dependencies = tests.into_iter().map(|(k, r)| (n(k), r)).collect();
    p
}

#[test]
fn range_parse_and_display_round_trip() {
    let r: Range = "1.0.0 <= v < 2.0.0".parse().unwrap();
    assert_eq!(r, Range::new(v(1, 0, 0), v(2, 0, 0)));
    assert_eq!(r.to_string(), "1.0.0 <= v < 2.0.0");
    let odd = Range::new(v(0, 19, 1), v(0, 20, 0));
    assert_eq!(Range::parse(&odd.to_string()).unwrap(), odd);
}

#[test]
fn range_parse_rejects_any_deviation() {
    assert!(Range::parse("").is_err());
    assert!(Range::parse("1.0.0").is_err());
    assert!(Range::parse("1.0.0 <= v < 2.0.0 ").is_err());
    assert!(Range::parse(" 1.0.0 <= v < 2.0.0").is_err());
    assert!(Range::parse("1.0.0  <= v < 2.0.0").is_err());
    assert!(Range::parse("1.0.0 < v < 2.0.0").is_err());
    assert!(Range::parse("1.0.0 <= v <= 2.0.0").is_err());
    assert!(Range::parse("1.0.0 <= x < 2.0.0").is_err());
    assert!(Range::parse("1.0 <= v < 2.0.0").is_err());
    assert!(Range::parse("1.0.0 <= v < two").is_err());
    assert_eq!(
        Range::parse("1.0.0 < v < 2.0.0").unwrap_err().to_string(),
        "Invalid range: 1.0.0 < v < 2.0.0"
    );
    assert_eq!(
        Range::parse("1.0 <= v < 2.0.0").unwrap_err().to_string(),
        "Invalid version: 1.0"
    );
}

#[test]
fn range_turns_into_a_half_open_constraint() {
    let r = Range::new(v(1, 0, 0), v(2, 0, 0));
    assert!(r.is_proper());
    assert!(!Range::new(v(2, 0, 0), v(2, 0, 0)).is_proper());
    let range = r.to_constraint_range();
    assert_eq!(range.take(), (Interval::Closed(v(1, 0, 0)), Interval::Open(v(2, 0, 0))));
    let c = r.to_constraint();
    assert!(c.satisfies(&v(1, 9, 9)));
    assert!(!c.satisfies(&v(2, 0, 0)));
    assert_eq!(Range::from_version(v(3, 4, 5)), Range::new(v(3, 4, 5), v(4, 0, 0)));
}

#[test]
fn new_package_has_the_usual_start() {
    let p = Package::new(n("author/project"), "A summary".to_string(), "MIT".to_string());
    assert_eq!(p.name, "author/project");
    assert_eq!(p.summary, "A summary");
    assert_eq!(p.license, "MIT");
    assert_eq!(p.version, v(1, 0, 0));
    assert_eq!(p.elm_version(), Range::new(v(0, 19, 0), v(0, 20, 0)));
    assert_eq!(p.dependencies.len(), 1);
    assert_eq!(p.dependencies[0].0.to_string(), "elm/core");
    assert_eq!(p.dependencies[0].1, Range::new(v(1, 0, 0), v(2, 0, 0)));
    assert!(p.test_dependencies.is_empty());
    assert!(matches!(&p.exposed_modules, Exposed::Plain(m) if m.is_empty()));
}

#[test]
fn with_deps_replaces_only_the_dependencies() {
    let mut p = package(vec![], vec![]);
    p.exposed_modules = Exposed::Structured(vec![("Group".to_string(), vec!["A".to_string()])]);
    let q = p.with_deps(
        vec![(n("elm/json"), Range::new(v(1, 0, 0), v(2, 0, 0)))],
        vec![(n("elm/test"), Range::new(v(1, 0, 0), v(2, 0, 0)))],
    );
    assert_eq!(q.name, p.name);
    assert_eq!(q.version, p.version);
    assert_eq!(q.dependencies.len(), 1);
    assert_eq!(q.test_dependencies[0].0.to_string(), "elm/test");
    assert!(matches!(&q.exposed_modules, Exposed::Structured(g) if g[0].1 == vec!["A".to_string()]));
}

#[test]
fn dependencies_keep_their_order() {
    let p = package(
        vec![
            ("elm/core", Range::new(v(1, 0, 0), v(2, 0, 0))),
            ("elm/json", Range::new(v(1, 1, 0), v(2, 0, 0))),
        ],
        vec![],
    );
    let deps = p.dependencies();
    assert_eq!(deps.len(), 2);
    assert_eq!(deps[0].0.to_string(), "elm/core");
    assert_eq!(deps[1].1.take(), (Interval::Closed(v(1, 1, 0)), Interval::Open(v(2, 0, 0))));
}

#[test]
fn all_dependencies_merges_by_name() {
    let p = package(
        vec![
            ("elm/core", Range::new(v(1, 0, 0), v(2, 0, 0))),
            ("elm/json", Range::new(v(1, 0, 0), v(2, 0, 0))),
        ],
        vec![
            ("elm/html", Range::new(v(1, 0, 0), v(2, 0, 0))),
            ("elm-explorations/test", Range::new(v(1, 0, 0), v(2, 0, 0))),
        ],
    );
    let all = p.all_dependencies().unwrap();
    let names: Vec<String> = all.iter().map(|(k, _)| k.to_string()).collect();
    assert_eq!(names, vec!["elm/core", "elm/html", "elm/json", "elm-explorations/test"]);
}

#[test]
fn all_dependencies_reports_the_first_duplicate() {
    let p = package(
        vec![
            ("elm/core", Range::new(v(1, 0, 0), v(2, 0, 0))),
            ("elm/json", Range::new(v(1, 0, 0), v(2, 0, 0))),
        ],
        vec![
            ("elm/html", Range::new(v(1, 0, 0), v(2, 0, 0))),
            ("elm/json", Range::new(v(1, 1, 0), v(2, 0, 0))),
        ],
    );
    let dup = p.all_dependencies().unwrap_err();
    assert_eq!(dup.name.to_string(), "elm/json");
    assert_eq!(dup.declared, Range::new(v(1, 0, 0), v(2, 0, 0)));
    assert_eq!(dup.repeated, Range::new(v(1, 1, 0), v(2, 0, 0)));
    assert_eq!(
        dup.to_string(),
        "Dependency elm/json@1.0.0 <= v < 2.0.0 duplicated in test-dependencies as 1.1.0 <= v < 2.0.0"
    );
}
