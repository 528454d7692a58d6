use elm_json::cli::tree::{kept_nodes, tree_lines, tree_within};
use elm_json::package::registry::{next_source, place, Source};
use elm_json::package::retriever::PackageId;
use elm_json::package::Name;
use elm_json::project::flatten::flatten_order;
use elm_json::project::reconstruct::{visit_indirect_along, visit_test_indirect_along};
use elm_json::project::AppDependencies;
use elm_json::semver::{Constraint, Interval, Range, Version};
use elm_json::solver::graph::node_count;
use elm_json::solver::Summary;
use petgraph::graph::Graph;

fn v(major: u64, minor: u64, patch: u64) -> Version {
    Version::new(major, minor, patch)
}

fn node(text: &str, version: Version) -> Summary<PackageId> {
    Summary::new(PackageId::Pkg(text.parse::<Name>().unwrap()), version)
}

fn names(pins: &[(Name, Version)]) -> Vec<String> {
    pins.iter().map(|(k, v)| format!("{}@{}", k.to_string(), v.to_string())).collect()
}

fn sample() -> Graph<Summary<PackageId>, ()> {
    let mut g = Graph::new();
    let root = g.add_node(Summary::new(PackageId::Root, v(1, 0, 0)));
    let elm = g.add_node(Summary::new(PackageId::Elm, v(0, 19, 1)));
    let a = g.add_node(node("author/app", v(1, 0, 0)));
    let b = g.add_node(node("author/base", v(3, 0, 0)));
    let c = g.add_node(node("author/check", v(4, 0, 0)));
    g.add_edge(root, elm, ());
    g.add_edge(root, a, ());
    g.add_edge(a, b, ());
    g.add_edge(b, c, ());
    g
}

#[test]
fn the_count_of_nodes_is_that_of_the_graph() {
    assert_eq!(node_count(&sample()), 5);
    assert_eq!(node_count(&Graph::new()), 0);
}

#[test]
fn the_order_given_decides_what_is_listed() {
    let g = sample();
    let all = flatten_order(&g, &vec![1, 2], &vec![0, 1, 2, 3, 4]);
    assert_eq!(names(&all.direct), vec!["author/app@1.0.0"]);
    assert_eq!(names(&all.indirect), vec!["author/base@3.0.0", "author/check@4.0.0"]);
    let some = flatten_order(&g, &vec![3], &vec![4, 3]);
    assert_eq!(names(&some.direct), vec!["author/base@3.0.0"]);
    assert_eq!(names(&some.indirect), vec!["author/check@4.0.0"]);
    let none = flatten_order(&g, &vec![1, 2], &Vec::new());
    assert!(none.direct.is_empty() && none.indirect.is_empty());
    let whole = AppDependencies::from_graph(&g);
    assert_eq!(names(&whole.direct), names(&all.direct));
    assert_eq!(names(&whole.indirect), names(&all.indirect));
}

#[test]
fn the_nodes_listed_are_the_nodes_marked() {
    assert_eq!(kept_nodes(4, &vec![2, 0, 2]), vec![true, false, true, false]);
    assert_eq!(kept_nodes(3, &Vec::new()), vec![false, false, false]);
    assert_eq!(kept_nodes(0, &Vec::new()), Vec::<bool>::new());
}

#[test]
fn the_tree_holds_the_marked_nodes_only() {
    let g = sample();
    let whole: Vec<String> = tree_within(&g, &vec![true; 5]).iter().map(|l| l.to_string()).collect();
    let lines: Vec<String> = tree_lines(&g).iter().map(|l| l.to_string()).collect();
    assert_eq!(whole, lines);
    assert_eq!(whole.len(), 3);
    let part = tree_within(&g, &kept_nodes(5, &vec![0, 2, 3]));
    assert_eq!(part.len(), 2);
    assert!(part[0].to_string().contains("author/app"));
    assert!(part[1].to_string().contains("author/base"));
    assert!(tree_within(&g, &vec![false; 5]).is_empty());
}

#[test]
fn the_places_for_a_manifest_are_tried_in_order() {
    assert_eq!(next_source(0, false), Some(Source::OlderStore));
    assert_eq!(next_source(1, false), Some(Source::NewerStore));
    assert_eq!(next_source(2, false), Some(Source::OwnStore));
    assert_eq!(next_source(3, false), Some(Source::Registry));
    assert_eq!(next_source(4, false), None);
    assert_eq!(next_source(2, true), Some(Source::OwnStore));
    assert_eq!(next_source(3, true), None);
    assert_eq!(next_source(255, false), None);
}

#[test]
fn every_place_has_its_path() {
    let pkg = node("author/base", v(3, 0, 1));
    assert_eq!(place(Source::OlderStore, &pkg), "0.19.0/package/author/base/3.0.1/elm.json");
    assert_eq!(place(Source::NewerStore, &pkg), "0.19.1/packages/author/base/3.0.1/elm.json");
    assert_eq!(place(Source::OwnStore, &pkg), "elm-json/packages/author/base/3.0.1/elm.json");
    assert_eq!(
        place(Source::Registry, &pkg),
        "https://package.elm-lang.org/packages/author/base/3.0.1/elm.json"
    );
}

#[test]
fn a_constraint_made_of_a_range_or_a_version_holds_just_that() {
    let range = Range::new(Interval::Closed(v(1, 0, 0)), Interval::Open(v(2, 0, 0))).unwrap();
    let of_range = Constraint::from(range);
    assert!(of_range.satisfies(&v(1, 5, 0)));
    assert!(!of_range.satisfies(&v(2, 0, 0)));
    let of_version = Constraint::from(v(1, 2, 3));
    assert!(of_version.satisfies(&v(1, 2, 3)));
    assert!(!of_version.satisfies(&v(1, 2, 4)));
    assert_eq!(of_version.to_string(), "1.2.3");
}

#[test]
fn a_visit_lists_what_it_comes_to_first() {
    let g = sample();
    let declared = vec!["author/app".parse::<Name>().unwrap()];
    let mut visited = vec![true, false, false, false, false];
    let mut indirect: Vec<(Name, Version)> = Vec::new();
    visit_indirect_along(&declared, &g, &vec![2, 3, 1, 3], &mut visited, &mut indirect);
    assert_eq!(visited, vec![true, true, true, true, false]);
    assert_eq!(names(&indirect), vec!["author/base@3.0.0"]);
    visit_indirect_along(&declared, &g, &vec![4, 3, 0], &mut visited, &mut indirect);
    assert_eq!(visited, vec![true; 5]);
    assert_eq!(names(&indirect), vec!["author/base@3.0.0", "author/check@4.0.0"]);
}

#[test]
fn a_visit_for_tests_lists_every_package_it_comes_to_first() {
    let g = sample();
    let mut visited = vec![true, false, false, true, false];
    let mut listed: Vec<(Name, Version)> = Vec::new();
    visit_test_indirect_along(&g, &vec![4, 3, 2, 1, 2], &mut visited, &mut listed);
    assert_eq!(visited, vec![true; 5]);
    assert_eq!(names(&listed), vec!["author/app@1.0.0", "author/check@4.0.0"]);
    visit_test_indirect_along(&g, &Vec::new(), &mut visited, &mut listed);
    assert_eq!(names(&listed), vec!["author/app@1.0.0", "author/check@4.0.0"]);
}
