use elm_json::package::manifest::{Package, Range as ManifestRange};
use elm_json::package::registry::{
    add_release, add_releases, cached_json_path, count_versions, manifest_url, next_source,
    out_of_sources, parse_entry, releases_url, stored_path, Source,
};
use elm_json::package::retriever::{Mode, PackageId, Retriever};
use elm_json::package::Name;
use elm_json::semver::{Constraint, Interval, Range, Strictness, Version};
use elm_json::solver::{IncompatibilityCause, RetrieveError, Summary};

fn n(text: &str) -> Name {
    text.parse().unwrap()
}

fn v(major: u64, minor: u64, patch: u64) -> Version {
    Version::new(major, minor, patch)
}

fn pkg(text: &str) -> PackageId {
    PackageId::Pkg(n(text))
}

fn half_open(lower: Version, upper: Version) -> Constraint {
    Constraint::from(Range::new(Interval::Closed(lower), Interval::Open(upper)).unwrap())
}

fn retriever() -> Retriever {
    let elm = Constraint::from(Range::from(&v(0, 19, 1), &Strictness::Exact));
    Retriever::new(
        &elm,
        false,
        vec![(n("elm/core"), vec![v(1, 0, 0), v(1, 0, 5), v(1, 0, 2), v(2, 0, 0)])],
    )
}

#[test]
fn a_new_retriever_knows_root_and_language() {
    let r = retriever();
    assert_eq!(r.count_versions(&PackageId::Root), 1);
    assert_eq!(r.count_versions(&PackageId::Elm), 7);
    assert_eq!(r.count_versions(&pkg("elm/core")), 4);
    assert_eq!(r.count_versions(&pkg("elm/json")), 0);
    let root = Retriever::root();
    assert!(root.is_root());
    assert_eq!(root.version(), v(1, 0, 0));
    assert!(r.is_cached(&root));
    let seeded = r.incompats(&root).unwrap();
    assert_eq!(seeded.len(), 1);
    assert_eq!(seeded[0].cause(), IncompatibilityCause::Dependency);
    assert_eq!(seeded[0].show(), "this project depends on Elm 0.19.1");
    assert!(r.incompats(&Summary::new(PackageId::Elm, v(0, 19, 1))).unwrap().is_empty());
}

#[test]
fn best_is_the_highest_or_the_lowest_that_fits() {
    let mut r = retriever();
    let core = pkg("elm/core");
    assert_eq!(r.best(&core, &Constraint::any()).unwrap(), v(2, 0, 0));
    assert_eq!(r.best(&core, &half_open(v(1, 0, 0), v(2, 0, 0))).unwrap(), v(1, 0, 5));
    assert_eq!(r.best(&PackageId::Elm, &Constraint::any()).unwrap(), v(0, 19, 1));
    r.minimize();
    assert_eq!(r.best(&core, &Constraint::any()).unwrap(), v(1, 0, 0));
    assert_eq!(r.best(&core, &half_open(v(1, 0, 1), v(3, 0, 0))).unwrap(), v(1, 0, 2));
    assert_eq!(Mode::Minimize, Mode::Minimize);
}

#[test]
fn best_fails_for_what_is_not_there() {
    let r = retriever();
    match r.best(&pkg("elm/core"), &half_open(v(3, 0, 0), v(4, 0, 0))) {
        Err(RetrieveError::NoVersion(p)) => assert_eq!(p, "elm/core"),
        other => panic!("{:?}", other),
    }
    match r.best(&pkg("elm/json"), &Constraint::any()) {
        Err(e) => assert_eq!(e.to_string(), "Unknown package elm/json"),
        other => panic!("{:?}", other),
    }
    assert_eq!(
        r.best(&pkg("elm/core"), &Constraint::empty()).unwrap_err().to_string(),
        "Failed to find a version for elm/core"
    );
}

#[test]
fn preferred_versions_win_or_fail() {
    let mut r = retriever();
    let core = pkg("elm/core");
    r.add_preferred_versions(vec![(pkg("elm/core"), v(1, 0, 0)), (pkg("elm/core"), v(1, 0, 2))]);
    assert_eq!(r.best(&core, &Constraint::any()).unwrap(), v(1, 0, 2));
    match r.best(&core, &half_open(v(2, 0, 0), v(3, 0, 0))) {
        Err(RetrieveError::Rejected(sentence)) => assert_eq!(
            sentence,
            "I want to use version 1.0.2 for elm/core but it's not allowed by constraint 2.0.0 <= v < 3.0.0"
        ),
        other => panic!("{:?}", other),
    }
    r.add_preferred_versions(vec![(pkg("elm/core"), v(2, 0, 0))]);
    assert_eq!(r.best(&core, &Constraint::any()).unwrap(), v(2, 0, 0));
}

#[test]
fn root_needs_grow_in_order() {
    let mut r = retriever();
    r.add_deps(&vec![(
        n("elm/core"),
        Range::new(Interval::Closed(v(1, 0, 0)), Interval::Open(v(2, 0, 0))).unwrap(),
    )]);
    r.add_dep(n("elm/json"), None);
    r.add_dep(n("elm/html"), Some(Constraint::from(v(1, 0, 0))));
    let held = r.incompats(&Retriever::root()).unwrap();
    let sentences: Vec<String> = held.iter().map(|i| i.show()).collect();
    assert_eq!(
        sentences,
        vec![
            "this project depends on Elm 0.19.1",
            "this project depends on elm/core 1.0.0 <= v < 2.0.0",
            "this project depends on elm/json at any version",
            "this project depends on elm/html 1.0.0",
        ]
    );
}

#[test]
fn manifests_become_incompatibilities() {
    let mut r = retriever();
    let mut info = Package::new(n("elm/json"), String::new(), "BSD-3-Clause".to_string());
    info.dependencies.push((n("elm/html"), ManifestRange::new(v(1, 0, 0), v(2, 0, 0))));
    let summary = Summary::new(pkg("elm/json"), v(1, 1, 3));
    assert!(!r.is_cached(&summary));
    match r.incompats(&summary) {
        Err(RetrieveError::NotCached(what)) => assert_eq!(what, "elm/json@1.1.3"),
        other => panic!("{:?}", other),
    }
    let made = r.deps_from_package(&summary, &info);
    let sentences: Vec<String> = made.iter().map(|i| i.show()).collect();
    assert_eq!(
        sentences,
        vec![
            "elm/json 1.1.3 depends on elm/core 1.0.0 <= v < 2.0.0",
            "elm/json 1.1.3 depends on elm/html 1.0.0 <= v < 2.0.0",
            "elm/json 1.1.3 depends on Elm 0.19.0 <= v < 0.20.0",
        ]
    );
    assert!(r.is_cached(&summary));
    assert_eq!(r.incompats(&summary).unwrap().len(), 3);
    assert!(!r.is_cached(&Summary::new(pkg("elm/json"), v(1, 1, 2))));
}

#[test]
fn offline_retriever_says_so() {
    let elm = Constraint::from(Range::from(&v(0, 19, 1), &Strictness::Exact));
    let r = Retriever::new(&elm, true, vec![]);
    assert!(r.is_offline());
    match r.incompats(&Summary::new(pkg("elm/json"), v(1, 1, 3))) {
        Err(RetrieveError::NotCached(what)) => assert_eq!(what, "elm/json@1.1.3"),
        other => panic!("{:?}", other),
    }
    assert_eq!(next_source(2, r.is_offline()), Some(Source::OwnStore));
    assert_eq!(next_source(3, r.is_offline()), None);
    match out_of_sources(r.is_offline(), "no such file".to_string()) {
        RetrieveError::Offline => {}
        other => panic!("{:?}", other),
    }
    match out_of_sources(false, "no such file".to_string()) {
        RetrieveError::Other(what) => assert_eq!(what, "no such file"),
        other => panic!("{:?}", other),
    }
}

#[test]
fn registry_entries_are_read_or_passed_over() {
    let (name, version) = parse_entry("elm/core@1.0.5").unwrap();
    assert_eq!(name.to_string(), "elm/core");
    assert_eq!(version, v(1, 0, 5));
    assert!(parse_entry("elm/core").is_none());
    assert!(parse_entry("elm/core@1.0").is_none());
    assert!(parse_entry("core@1.0.0").is_none());
    assert!(parse_entry("elm/core@1.0.0@2.0.0").is_none());
    let mut index = vec![(n("elm/core"), vec![v(1, 0, 0)])];
    let taken = add_releases(
        &mut index,
        &vec![
            "elm/core@1.0.1".to_string(),
            "not an entry".to_string(),
            "elm/json@1.0.0".to_string(),
            "elm/core@1.0.2".to_string(),
        ],
    );
    assert_eq!(taken, 3);
    assert_eq!(index.len(), 2);
    assert_eq!(index[0].1, vec![v(1, 0, 0), v(1, 0, 1), v(1, 0, 2)]);
    assert_eq!(index[1].0.to_string(), "elm/json");
    assert_eq!(index[1].1, vec![v(1, 0, 0)]);
    assert_eq!(count_versions(&index), 4);
    add_release(&mut index, n("elm/json"), v(1, 0, 0));
    assert_eq!(index[1].1, vec![v(1, 0, 0)]);
    assert_eq!(count_versions(&index), 4);
    add_release(&mut index, n("elm/json"), v(1, 0, 1));
    assert_eq!(index[1].1, vec![v(1, 0, 0), v(1, 0, 1)]);
    let again = add_releases(&mut index, &vec!["elm/core@1.0.1".to_string()]);
    assert_eq!(again, 1);
    assert_eq!(count_versions(&index), 5);
    assert_eq!(count_versions(&vec![]), 0);
}

#[test]
fn addresses_have_their_fixed_shape() {
    let summary = Summary::new(pkg("elm/json"), v(1, 1, 3));
    assert_eq!(
        releases_url(1234),
        "https://package.elm-lang.org/all-packages/since/1234"
    );
    assert_eq!(
        manifest_url(&summary),
        "https://package.elm-lang.org/packages/elm/json/1.1.3/elm.json"
    );
    assert_eq!(stored_path("0.19.0", "", &summary), "0.19.0/package/elm/json/1.1.3/elm.json");
    assert_eq!(stored_path("0.19.1", "s", &summary), "0.19.1/packages/elm/json/1.1.3/elm.json");
    assert_eq!(cached_json_path(&summary), "elm-json/packages/elm/json/1.1.3/elm.json");
}
