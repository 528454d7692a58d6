use elm_json::cli::tree::{tree_lines, tree_lines_to};
use elm_json::package::retriever::PackageId;
use elm_json::package::Name;
use elm_json::project::{reconstruct, AppDependencies, Application};
use elm_json::semver::{Interval, Strictness, Version};
use elm_json::solver::Summary;
use petgraph::graph::Graph;

fn n(text: &str) -> Name {
    text.parse().unwrap()
}

fn v(major: u64, minor: u64, patch: u64) -> Version {
    Version::new(major, minor, patch)
}

fn node(text: &str, version: Version) -> Summary<PackageId> {
    Summary::new(PackageId::Pkg(n(text)), version)
}

fn names(pins: &[(Name, Version)]) -> Vec<String> {
    pins.iter().map(|(k, v)| format!("{}@{}", k.to_string(), v.to_string())).collect()
}

fn sample() -> Graph<Summary<PackageId>, ()> {
    let mut g = Graph::new();
    let root = g.add_node(Summary::new(PackageId::Root, v(1, 0, 0)));
    let elm = g.add_node(Summary::new(PackageId::Elm, v(0, 19, 1)));
    let a = g.add_node(node("author/app", v(1, 0, 0)));
    let t = g.add_node(node("author/test", v(2, 0, 0)));
    let b = g.add_node(node("author/base", v(3, 0, 0)));
    let c = g.add_node(node("author/check", v(4, 0, 0)));
    g.add_edge(root, elm, ());
    g.add_edge(root, a, ());
    g.add_edge(root, t, ());
    g.add_edge(a, b, ());
    g.add_edge(a, elm, ());
    g.add_edge(t, c, ());
    g.add_edge(t, b, ());
    g
}

#[test]
fn reconstruct_sorts_nodes_into_four_lists() {
    let g = sample();
    let (deps, tests) = reconstruct(&[n("author/app")], &g);
    assert_eq!(names(&deps.direct), vec!["author/app@1.0.0"]);
    assert_eq!(names(&deps.indirect), vec!["author/base@3.0.0"]);
    assert_eq!(names(&tests.direct), vec!["author/test@2.0.0"]);
    assert_eq!(names(&tests.indirect), vec!["author/check@4.0.0"]);
}

#[test]
fn reconstruct_without_direct_names_makes_everything_a_test_dependency() {
    let g = sample();
    let (deps, tests) = reconstruct(&[], &g);
    assert!(deps.direct.is_empty());
    assert!(deps.indirect.is_empty());
    assert_eq!(names(&tests.direct), vec!["author/app@1.0.0", "author/test@2.0.0"]);
    assert_eq!(names(&tests.indirect), vec!["author/base@3.0.0", "author/check@4.0.0"]);
}

#[test]
fn reconstruct_never_lists_a_package_twice() {
    let mut g = Graph::new();
    let root = g.add_node(Summary::new(PackageId::Root, v(1, 0, 0)));
    let t = g.add_node(node("author/test", v(2, 0, 0)));
    let a = g.add_node(node("author/app", v(1, 0, 0)));
    g.add_edge(root, t, ());
    g.add_edge(root, a, ());
    g.add_edge(a, t, ());
    let (deps, tests) = reconstruct(&[n("author/app")], &g);
    let mut all = names(&deps.direct);
    all.extend(names(&deps.indirect));
    all.extend(names(&tests.direct));
    all.extend(names(&tests.indirect));
    all.sort();
    assert_eq!(all, vec!["author/app@1.0.0", "author/test@2.0.0"]);
    assert_eq!(names(&deps.indirect), vec!["author/test@2.0.0"]);
    assert!(tests.direct.is_empty());
}

#[test]
fn reconstruct_of_the_root_alone_is_empty() {
    let mut g = Graph::new();
    g.add_node(Summary::new(PackageId::Root, v(1, 0, 0)));
    let (deps, tests) = reconstruct(&[n("author/app")], &g);
    assert!(deps.same(&AppDependencies::new()));
    assert!(tests.same(&AppDependencies::default()));
}

#[test]
fn from_graph_splits_direct_and_indirect() {
    let g = sample();
    let flat = AppDependencies::from_graph(&g);
    assert_eq!(names(&flat.direct), vec!["author/app@1.0.0", "author/test@2.0.0"]);
    assert_eq!(names(&flat.indirect), vec!["author/base@3.0.0", "author/check@4.0.0"]);
    let copy = flat.clone();
    assert!(copy.same(&flat));
}

#[test]
fn new_application_has_the_usual_start() {
    let app = Application::new();
    assert_eq!(app.source_directories, vec!["src".to_string()]);
    assert_eq!(app.elm_version(), v(0, 19, 0));
    assert_eq!(names(&app.dependencies.direct), vec!["elm/core@1.0.2"]);
    assert!(app.dependencies.indirect.is_empty());
    assert!(app.test_dependencies.direct.is_empty());
    assert!(app.test_dependencies.indirect.is_empty());
    assert_eq!(Application::default().elm_version(), v(0, 19, 0));
}

#[test]
fn application_dependencies_follow_the_strictness() {
    let mut app = Application::new();
    app.test_dependencies.direct.push((n("elm-explorations/test"), v(1, 2, 2)));
    let exact = app.dependencies(&Strictness::Exact);
    assert_eq!(exact.len(), 1);
    assert_eq!(exact[0].0.to_string(), "elm/core");
    assert_eq!(exact[0].1.take(), (Interval::Closed(v(1, 0, 2)), Interval::Closed(v(1, 0, 2))));
    let safe = app.dependencies(&Strictness::Safe);
    assert_eq!(safe[0].1.take(), (Interval::Closed(v(1, 0, 2)), Interval::Open(v(2, 0, 0))));
    let open = app.test_dependencies(&Strictness::Unsafe);
    assert_eq!(open[0].0.to_string(), "elm-explorations/test");
    assert_eq!(open[0].1.take(), (Interval::Closed(v(1, 2, 2)), Interval::Unbounded));
}

#[test]
fn with_replaces_the_dependencies() {
    let app = Application::new();
    let deps = AppDependencies {
        direct: vec![(n("elm/json"), v(1, 1, 3))],
        indirect: vec![(n("elm/core"), v(1, 0, 5))],
    };
    let updated = app.with(deps, AppDependencies::new());
    assert_eq!(names(&updated.dependencies.direct), vec!["elm/json@1.1.3"]);
    assert_eq!(names(&updated.dependencies.indirect), vec!["elm/core@1.0.5"]);
    assert_eq!(updated.source_directories, vec!["src".to_string()]);
}

#[test]
fn tree_lists_packages_level_by_level() {
    let g = sample();
    let lines: Vec<String> = tree_lines(&g).iter().map(|l| l.to_string()).collect();
    assert_eq!(
        lines,
        vec![
            "\u{251c}\u{2500}\u{2500} author/app @ 1.0.0",
            "\u{2502}   \u{2514}\u{2500}\u{2500} author/base @ 3.0.0",
            "\u{2514}\u{2500}\u{2500} author/test @ 2.0.0",
            "    \u{251c}\u{2500}\u{2500} author/base @ 3.0.0",
            "    \u{2514}\u{2500}\u{2500} author/check @ 4.0.0",
        ]
    );
}

#[test]
fn tree_marks_what_was_shown_before() {
    let mut g = Graph::new();
    let root = g.add_node(Summary::new(PackageId::Root, v(1, 0, 0)));
    let b = g.add_node(node("author/b", v(1, 0, 0)));
    let a = g.add_node(node("author/a", v(1, 0, 0)));
    let c = g.add_node(node("author/c", v(1, 0, 0)));
    g.add_edge(root, b, ());
    g.add_edge(root, a, ());
    g.add_edge(a, b, ());
    g.add_edge(b, c, ());
    g.add_edge(b, a, ());
    let lines = tree_lines(&g);
    let texts: Vec<String> = lines.iter().map(|l| l.to_string()).collect();
    assert_eq!(
        texts,
        vec![
            "\u{251c}\u{2500}\u{2500} author/a @ 1.0.0",
            "\u{2502}   \u{2514}\u{2500}\u{2500} author/b @ 1.0.0",
            "\u{2502}       \u{251c}\u{2500}\u{2500} author/a @ 1.0.0 *",
            "\u{2502}       \u{2514}\u{2500}\u{2500} author/c @ 1.0.0",
            "\u{2514}\u{2500}\u{2500} author/b @ 1.0.0 *",
        ]
    );
    assert!(lines[2].repeated);
    assert!(!lines[3].repeated);
    assert!(lines[4].last);
    assert_eq!(lines[3].prefix, "\u{2502}       ");
}

#[test]
fn tree_of_the_root_alone_is_empty() {
    let mut g = Graph::new();
    g.add_node(Summary::new(PackageId::Root, v(1, 0, 0)));
    assert!(tree_lines(&g).is_empty());
}

#[test]
fn tree_can_be_cut_down_to_the_ways_to_one_package() {
    let g = sample();
    let lines: Vec<String> =
        tree_lines_to(&g, &n("author/base")).unwrap().iter().map(|l| l.to_string()).collect();
    assert_eq!(
        lines,
        vec![
            "\u{251c}\u{2500}\u{2500} author/app @ 1.0.0",
            "\u{2502}   \u{2514}\u{2500}\u{2500} author/base @ 3.0.0",
            "\u{2514}\u{2500}\u{2500} author/test @ 2.0.0",
            "    \u{2514}\u{2500}\u{2500} author/base @ 3.0.0",
        ]
    );
    let lines: Vec<String> =
        tree_lines_to(&g, &n("author/check")).unwrap().iter().map(|l| l.to_string()).collect();
    assert_eq!(
        lines,
        vec![
            "\u{2514}\u{2500}\u{2500} author/test @ 2.0.0",
            "    \u{2514}\u{2500}\u{2500} author/check @ 4.0.0",
        ]
    );
    assert!(tree_lines_to(&g, &n("author/missing")).is_none());
}
