use elm_json::cli::install::PackageOutcome;
use elm_json::cli::upgrade::UpgradeOutcome;
use elm_json::cli::{install, solve, tree, uninstall, upgrade};
use elm_json::package::manifest::{Package, Range as ManifestRange};
use elm_json::package::retriever::{PackageId, Retriever};
use elm_json::package::Name;
use elm_json::project::{AppDependencies, Application};
use elm_json::semver::{Constraint, Range, Strictness, Version};
use elm_json::solver::{ResolveError, Resolver, Summary};

fn n(text: &str) -> Name {
    text.parse().unwrap()
}

fn v(major: u64, minor: u64, patch: u64) -> Version {
    Version::new(major, minor, patch)
}

fn names(pins: &[(Name, Version)]) -> Vec<String> {
    pins.iter().map(|(k, v)| format!("{}@{}", k.to_string(), v.to_string())).collect()
}

fn release(r: &mut Retriever, package: &str, version: Version, deps: Vec<(&str, u64)>) {
    let mut info = Package::new(n(package), String::new(), "BSD-3-Clause".to_string());
    info.version = version;
    let mut dependencies: Vec<(Name, ManifestRange)> = deps
        .into_iter()
        .map(|(k, major)| (n(k), ManifestRange::new(v(major, 0, 0), v(major + 1, 0, 0))))
        .collect();
    dependencies.sort_by(|a, b| a.0.cmp(&b.0));
    info.dependencies = dependencies;
    r.deps_from_package(&Summary::new(PackageId::Pkg(n(package)), version), &info);
}

fn registry(elm: Constraint) -> Retriever {
    let known = vec![
        (n("author/core"), vec![v(1, 0, 0), v(1, 0, 5), v(2, 0, 0)]),
        (n("author/html"), vec![v(1, 0, 0)]),
        (n("author/json"), vec![v(1, 0, 0), v(1, 1, 0)]),
    ];
    let mut r = Retriever::new(&elm, true, known);
    release(&mut r, "author/core", v(1, 0, 0), vec![]);
    release(&mut r, "author/core", v(1, 0, 5), vec![]);
    release(&mut r, "author/core", v(2, 0, 0), vec![]);
    release(&mut r, "author/html", v(1, 0, 0), vec![("author/core", 1), ("author/json", 1)]);
    release(&mut r, "author/json", v(1, 0, 0), vec![("author/core", 1)]);
    release(&mut r, "author/json", v(1, 1, 0), vec![("author/core", 1)]);
    r
}

fn empty_application() -> Application {
    Application {
        source_directories: vec!["src".to_string()],
        elm_version: v(0, 19, 1),
        dependencies: AppDependencies::new(),
        test_dependencies: AppDependencies::new(),
    }
}

fn for_application(app: &Application) -> Retriever {
    registry(Constraint::from(app.elm_version()))
}

fn empty_package() -> Package {
    let mut p = Package::new(n("author/project"), String::new(), "BSD-3-Clause".to_string());
    p.dependencies = vec![(n("author/core"), ManifestRange::new(v(1, 0, 0), v(2, 0, 0)))];
    p.elm_version = ManifestRange::new(v(0, 19, 0), v(0, 20, 0));
    p
}

#[test]
fn install_into_an_empty_application() {
    let app = empty_application();
    let mut retriever = for_application(&app);
    let extras = install::seed_application(&app, &vec!["author/core".to_string()], &mut retriever);
    let resolution = Resolver::new().solve(&mut retriever).unwrap();
    let updated = install::install_application(app, &extras, false, &resolution.graph);
    assert_eq!(names(&updated.dependencies.direct), vec!["author/core@2.0.0"]);
    assert!(updated.dependencies.indirect.is_empty());
    assert!(updated.test_dependencies.direct.is_empty());
    assert!(updated.test_dependencies.indirect.is_empty());
}

#[test]
fn install_brings_indirect_dependencies() {
    let app = empty_application();
    let mut retriever = for_application(&app);
    let extras = install::seed_application(&app, &vec!["author/html@1".to_string()], &mut retriever);
    let resolution = Resolver::new().solve(&mut retriever).unwrap();
    let updated = install::install_application(app, &extras, false, &resolution.graph);
    assert_eq!(names(&updated.dependencies.direct), vec!["author/html@1.0.0"]);
    assert_eq!(
        names(&updated.dependencies.indirect),
        vec!["author/core@1.0.5", "author/json@1.1.0"]
    );
}

#[test]
fn install_for_tests_fills_the_test_lists() {
    let mut app = empty_application();
    app.dependencies.direct = vec![(n("author/core"), v(1, 0, 0))];
    let mut retriever = for_application(&app);
    let extras = install::seed_application(&app, &vec!["author/json".to_string()], &mut retriever);
    let resolution = Resolver::new().solve(&mut retriever).unwrap();
    let updated = install::install_application(app, &extras, true, &resolution.graph);
    assert_eq!(names(&updated.dependencies.direct), vec!["author/core@1.0.0"]);
    assert!(updated.dependencies.indirect.is_empty());
    assert_eq!(names(&updated.test_dependencies.direct), vec!["author/json@1.1.0"]);
    assert!(updated.test_dependencies.indirect.is_empty());
}

#[test]
fn install_then_uninstall_gives_the_manifest_back() {
    let app = empty_application();
    let mut retriever = for_application(&app);
    let extras = install::seed_application(&app, &vec!["author/html".to_string()], &mut retriever);
    let resolution = Resolver::new().solve(&mut retriever).unwrap();
    let installed = install::install_application(app, &extras, false, &resolution.graph);
    assert_eq!(names(&installed.dependencies.direct), vec!["author/html@1.0.0"]);

    let mut retriever = for_application(&installed);
    let gone = vec![n("author/html")];
    uninstall::seed_application(&installed, &gone, &mut retriever);
    let resolution = Resolver::new().solve(&mut retriever).unwrap();
    let restored = uninstall::uninstall_application(installed, &gone, &resolution.graph);
    let start = empty_application();
    assert!(restored.dependencies.same(&start.dependencies));
    assert!(restored.test_dependencies.same(&start.test_dependencies));
    assert_eq!(restored.source_directories, start.source_directories);
    assert_eq!(restored.elm_version, start.elm_version);
}

#[test]
fn install_into_a_package_that_has_the_dependency_changes_nothing() {
    let info = empty_package();
    let mut retriever = registry(info.elm_version().to_constraint());
    let deps = info.all_dependencies().unwrap();
    let extras = install::seed_package(&deps, &vec!["author/core".to_string()], &mut retriever);
    let resolution = Resolver::new().solve(&mut retriever).unwrap();
    assert!(matches!(
        install::install_package(&info, &extras, false, &resolution.graph),
        PackageOutcome::NoChanges
    ));
    match install::install_package(&info, &extras, true, &resolution.graph) {
        PackageOutcome::Changed(p) => {
            assert!(p.dependencies.is_empty());
            assert_eq!(p.test_dependencies.len(), 1);
            assert_eq!(p.test_dependencies[0].1.to_string(), "1.0.5 <= v < 2.0.0");
        }
        other => panic!("{:?}", other),
    }
}

#[test]
fn install_into_a_package_adds_a_range_from_the_chosen_version() {
    let info = empty_package();
    let mut retriever = registry(info.elm_version().to_constraint());
    let deps = info.all_dependencies().unwrap();
    let extras = install::seed_package(&deps, &vec!["author/json".to_string()], &mut retriever);
    let resolution = Resolver::new().solve(&mut retriever).unwrap();
    match install::install_package(&info, &extras, false, &resolution.graph) {
        PackageOutcome::Changed(p) => {
            let listed: Vec<String> = p
                .dependencies
                .iter()
                .map(|(k, r)| format!("{}: {}", k.to_string(), r.to_string()))
                .collect();
            assert_eq!(
                listed,
                vec!["author/core: 1.0.0 <= v < 2.0.0", "author/json: 1.1.0 <= v < 2.0.0"]
            );
            assert!(p.test_dependencies.is_empty());
        }
        other => panic!("{:?}", other),
    }
    match install::install_package(&info, &extras, true, &resolution.graph) {
        PackageOutcome::Changed(p) => {
            assert_eq!(p.dependencies.len(), 1);
            assert_eq!(p.test_dependencies.len(), 1);
            assert_eq!(p.test_dependencies[0].0.to_string(), "author/json");
        }
        other => panic!("{:?}", other),
    }
}

#[test]
fn uninstall_from_a_package_drops_the_names() {
    let mut info = empty_package();
    info.test_dependencies = vec![(n("author/json"), ManifestRange::new(v(1, 0, 0), v(2, 0, 0)))];
    let left = uninstall::uninstall_package(&info, &vec![n("author/json"), n("author/none")]);
    assert_eq!(left.dependencies.len(), 1);
    assert!(left.test_dependencies.is_empty());
    let left = uninstall::uninstall_package(&info, &vec![n("author/core")]);
    assert!(left.dependencies.is_empty());
    assert_eq!(left.test_dependencies.len(), 1);
}

#[test]
fn upgrade_of_what_is_up_to_date_says_so() {
    let mut app = empty_application();
    app.dependencies.direct = vec![(n("author/core"), v(1, 0, 5)), (n("author/json"), v(1, 1, 0))];
    let mut retriever = for_application(&app);
    assert!(upgrade::can_bump(&app.dependencies.direct));
    upgrade::seed_application(&app, false, &mut retriever);
    let resolution = Resolver::new().solve(&mut retriever).unwrap();
    assert!(matches!(
        upgrade::upgrade_application(app, &resolution.graph),
        UpgradeOutcome::UpToDate(_)
    ));
}

#[test]
fn upgrade_moves_within_the_major_version_unless_told_otherwise() {
    let mut app = empty_application();
    app.dependencies.direct = vec![(n("author/core"), v(1, 0, 0))];
    let mut retriever = for_application(&app);
    upgrade::seed_application(&app, false, &mut retriever);
    let resolution = Resolver::new().solve(&mut retriever).unwrap();
    match upgrade::upgrade_application(app, &resolution.graph) {
        UpgradeOutcome::Upgraded(a) => {
            assert_eq!(names(&a.dependencies.direct), vec!["author/core@1.0.5"])
        }
        other => panic!("{:?}", other),
    }
    let mut app = empty_application();
    app.dependencies.direct = vec![(n("author/core"), v(1, 0, 0))];
    let mut retriever = for_application(&app);
    upgrade::seed_application(&app, true, &mut retriever);
    let resolution = Resolver::new().solve(&mut retriever).unwrap();
    match upgrade::upgrade_application(app, &resolution.graph) {
        UpgradeOutcome::Upgraded(a) => {
            assert_eq!(names(&a.dependencies.direct), vec!["author/core@2.0.0"])
        }
        other => panic!("{:?}", other),
    }
}

#[test]
fn solve_prefers_the_versions_of_indirect_dependencies() {
    let mut app = empty_application();
    app.dependencies.direct = vec![(n("author/html"), v(1, 0, 0))];
    app.dependencies.indirect = vec![(n("author/core"), v(1, 0, 0)), (n("author/json"), v(1, 0, 0))];
    let mut retriever = for_application(&app);
    let extras = solve::seed_application(&app, &vec![], false, &mut retriever);
    assert!(extras.is_empty());
    let resolution = Resolver::new().solve(&mut retriever).unwrap();
    let flat = AppDependencies::from_graph(&resolution.graph);
    assert_eq!(names(&flat.direct), vec!["author/html@1.0.0"]);
    assert_eq!(names(&flat.indirect), vec!["author/core@1.0.0", "author/json@1.0.0"]);
}

#[test]
fn solve_for_a_package_can_minimize() {
    let info = empty_package();
    let mut retriever = registry(info.elm_version().to_constraint());
    let extras = solve::seed_package(
        &info.dependencies(),
        &vec!["author/json".to_string()],
        true,
        &mut retriever,
    );
    assert_eq!(extras.len(), 1);
    let resolution = Resolver::new().solve(&mut retriever).unwrap();
    let flat = AppDependencies::from_graph(&resolution.graph);
    assert_eq!(names(&flat.direct), vec!["author/core@1.0.0", "author/json@1.0.0"]);
}

#[test]
fn tree_takes_test_dependencies_only_when_asked() {
    let mut app = empty_application();
    app.dependencies.direct = vec![(n("author/core"), v(1, 0, 0))];
    app.test_dependencies.direct = vec![(n("author/json"), v(1, 0, 0))];
    let mut retriever = for_application(&app);
    tree::seed_application(&app, false, &mut retriever);
    let resolution = Resolver::new().solve(&mut retriever).unwrap();
    assert_eq!(
        names(&AppDependencies::from_graph(&resolution.graph).direct),
        vec!["author/core@1.0.0"]
    );
    let mut retriever = for_application(&app);
    tree::seed_application(&app, true, &mut retriever);
    let resolution = Resolver::new().solve(&mut retriever).unwrap();
    assert_eq!(
        names(&AppDependencies::from_graph(&resolution.graph).direct),
        vec!["author/core@1.0.0", "author/json@1.0.0"]
    );
}

#[test]
fn a_language_version_that_no_package_supports_has_no_resolution() {
    let mut app = empty_application();
    app.elm_version = v(0, 18, 0);
    app.dependencies.direct = vec![(n("author/core"), v(1, 0, 0))];
    let mut retriever = for_application(&app);
    tree::seed_application(&app, false, &mut retriever);
    match Resolver::new().solve(&mut retriever) {
        Err(ResolveError::NoResolution(proof)) => {
            assert!(proof.contains("author/core"), "{}", proof);
            assert!(proof.contains("Elm"), "{}", proof);
        }
        other => panic!("{:?}", other.map(|r| r.requirements.len())),
    }
    let _ = Range::from(&v(1, 0, 0), &Strictness::Exact);
}
