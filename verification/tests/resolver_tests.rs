use elm_json::package::manifest::{Exposed, Package, Range as ManifestRange};
use elm_json::package::retriever::{PackageId, Retriever};
use elm_json::package::Name;
use elm_json::semver::{Constraint, Interval, Range, Strictness, Version};
use elm_json::package::registry::{next_source, out_of_sources, parse_entry, Source};
use elm_json::solver::{Resolution, ResolveError, Resolver, RetrieveError, Summary};

fn v(major: u64, minor: u64, patch: u64) -> Version {
    Version::new(major, minor, patch)
}

fn name(text: &str) -> Name {
    text.parse().unwrap()
}

fn manifest(package: &str, version: Version, deps: Vec<(&str, (u64, u64))>) -> Package {
    let mut dependencies: Vec<(Name, ManifestRange)> = deps
        .into_iter()
        .map(|(n, (lower, upper))| (name(n), ManifestRange::new(v(lower, 0, 0), v(upper, 0, 0))))
        .collect();
    dependencies.sort_by(|a, b| a.0.cmp(&b.0));
    Package {
        name: package.to_string(),
        summary: String::new(),
        license: "BSD-3-Clause".to_string(),
        version,
        exposed_modules: Exposed::Plain(Vec::new()),
        elm_version: ManifestRange::new(v(0, 19, 0), v(0, 20, 0)),
        dependencies,
        test_dependencies: Vec::new(),
    }
}

fn registry(releases: Vec<(&str, Version, Vec<(&str, (u64, u64))>)>) -> Retriever {
    let mut known: Vec<(Name, Vec<Version>)> = Vec::new();
    for (package, version, _) in &releases {
        match known.iter_mut().find(|(n, _)| n.same(&name(package))) {
            Some(entry) => entry.1.push(*version),
            None => known.push((name(package), vec![*version])),
        }
    }
    let elm = Constraint::from(Range::from(&v(0, 19, 1), &Strictness::Exact));
    let mut retriever = Retriever::new(&elm, true, known);
    for (package, version, deps) in releases {
        let summary = Summary::new(PackageId::Pkg(name(package)), version);
        retriever.deps_from_package(&summary, &manifest(package, version, deps));
    }
    retriever
}

fn chosen(resolution: &Resolution) -> Vec<(String, String)> {
    let mut all: Vec<(String, String)> = resolution
        .graph
        .node_weights()
        .map(|s| (s.id.to_string(), s.version.to_string()))
        .collect();
    all.sort();
    all
}

fn pair(a: &str, b: &str) -> (String, String) {
    (a.to_string(), b.to_string())
}

fn at_least(package: &str, lower: u64, upper: u64) -> (Name, Range) {
    (
        name(package),
        Range::new(Interval::Closed(v(lower, 0, 0)), Interval::Open(v(upper, 0, 0))).unwrap(),
    )
}

#[test]
fn root_alone_resolves_to_root_and_language() {
    let mut retriever = registry(vec![]);
    let resolution = Resolver::new().solve(&mut retriever).unwrap();
    assert_eq!(chosen(&resolution), vec![pair("Elm", "0.19.1"), pair("root", "1.0.0")]);
    assert_eq!(resolution.graph.edge_count(), 1);
    assert_eq!(resolution.requirements.len(), 1);
}

#[test]
fn picks_the_highest_version_that_fits() {
    let mut retriever = registry(vec![
        ("author/core", v(1, 0, 0), vec![]),
        ("author/core", v(1, 0, 5), vec![]),
        ("author/core", v(2, 0, 0), vec![]),
    ]);
    retriever.add_deps(&vec![at_least("author/core", 1, 2)]);
    let resolution = Resolver::new().solve(&mut retriever).unwrap();
    assert_eq!(
        chosen(&resolution),
        vec![
            pair("Elm", "0.19.1"),
            pair("author/core", "1.0.5"),
            pair("root", "1.0.0")
        ]
    );
}

#[test]
fn minimize_picks_the_lowest_version_that_fits() {
    let mut retriever = registry(vec![
        ("author/core", v(1, 0, 0), vec![]),
        ("author/core", v(1, 0, 5), vec![]),
        ("author/core", v(2, 0, 0), vec![]),
    ]);
    retriever.minimize();
    retriever.add_deps(&vec![at_least("author/core", 1, 3)]);
    let resolution = Resolver::new().solve(&mut retriever).unwrap();
    assert!(chosen(&resolution).contains(&pair("author/core", "1.0.0")));
}

#[test]
fn transitive_dependencies_are_resolved() {
    let mut retriever = registry(vec![
        ("author/app", v(1, 0, 0), vec![("author/lib", (1, 2))]),
        ("author/lib", v(1, 0, 0), vec![("author/base", (2, 3))]),
        ("author/lib", v(1, 2, 0), vec![("author/base", (2, 3))]),
        ("author/lib", v(2, 0, 0), vec![]),
        ("author/base", v(1, 0, 0), vec![]),
        ("author/base", v(2, 1, 0), vec![]),
    ]);
    retriever.add_deps(&vec![at_least("author/app", 1, 2)]);
    let resolution = Resolver::new().solve(&mut retriever).unwrap();
    assert_eq!(
        chosen(&resolution),
        vec![
            pair("Elm", "0.19.1"),
            pair("author/app", "1.0.0"),
            pair("author/base", "2.1.0"),
            pair("author/lib", "1.2.0"),
            pair("root", "1.0.0"),
        ]
    );
    for requirement in &resolution.requirements {
        let child = &resolution.graph[petgraph::graph::NodeIndex::new(requirement.child)];
        assert!(!requirement.forbidden.satisfies(&child.version));
        assert!(resolution.graph.contains_edge(
            petgraph::graph::NodeIndex::new(requirement.parent),
            petgraph::graph::NodeIndex::new(requirement.child)
        ));
    }
}

#[test]
fn backtracks_to_an_older_version_when_the_newest_conflicts() {
    let mut retriever = registry(vec![
        ("author/app", v(1, 0, 0), vec![("author/base", (1, 2))]),
        ("author/app", v(1, 1, 0), vec![("author/base", (3, 4))]),
        ("author/tool", v(1, 0, 0), vec![("author/base", (1, 2))]),
        ("author/base", v(1, 0, 0), vec![]),
        ("author/base", v(3, 0, 0), vec![]),
    ]);
    retriever.add_deps(&vec![at_least("author/app", 1, 2), at_least("author/tool", 1, 2)]);
    let resolution = Resolver::new().solve(&mut retriever).unwrap();
    assert_eq!(
        chosen(&resolution),
        vec![
            pair("Elm", "0.19.1"),
            pair("author/app", "1.0.0"),
            pair("author/base", "1.0.0"),
            pair("author/tool", "1.0.0"),
            pair("root", "1.0.0"),
        ]
    );
}

#[test]
fn disjoint_demands_have_no_resolution() {
    let mut retriever = registry(vec![
        ("author/left", v(1, 0, 0), vec![("author/shared", (1, 2))]),
        ("author/right", v(1, 0, 0), vec![("author/shared", (2, 3))]),
        ("author/shared", v(1, 0, 0), vec![]),
        ("author/shared", v(2, 0, 0), vec![]),
    ]);
    retriever.add_deps(&vec![at_least("author/left", 1, 2), at_least("author/right", 1, 2)]);
    match Resolver::new().solve(&mut retriever) {
        Err(ResolveError::NoResolution(proof)) => {
            assert!(proof.contains("author/left"), "{}", proof);
            assert!(proof.contains("author/right"), "{}", proof);
            assert!(proof.contains("author/shared"), "{}", proof);
            assert!(proof.contains("this project"), "{}", proof);
        }
        other => panic!("expected no resolution, got {:?}", other.map(|r| chosen(&r))),
    }
}

#[test]
fn root_ranges_that_exclude_each_other_have_no_resolution() {
    let mut retriever = registry(vec![
        ("author/core", v(1, 0, 0), vec![]),
        ("author/core", v(2, 0, 0), vec![]),
    ]);
    retriever.add_deps(&vec![at_least("author/core", 1, 2), at_least("author/core", 2, 3)]);
    match Resolver::new().solve(&mut retriever) {
        Err(ResolveError::NoResolution(proof)) => {
            assert!(proof.contains("this project"), "{}", proof);
        }
        other => panic!("expected no resolution, got {:?}", other.map(|r| chosen(&r))),
    }
}

#[test]
fn unknown_package_has_no_resolution() {
    let mut retriever = registry(vec![]);
    retriever.add_deps(&vec![at_least("author/missing", 1, 2)]);
    assert!(matches!(
        Resolver::new().solve(&mut retriever),
        Err(ResolveError::NoResolution(_))
    ));
}

#[test]
fn preferred_version_is_honoured() {
    let mut retriever = registry(vec![
        ("author/core", v(1, 0, 0), vec![]),
        ("author/core", v(1, 0, 5), vec![]),
    ]);
    retriever.add_deps(&vec![at_least("author/core", 1, 2)]);
    retriever.add_preferred_versions(vec![(PackageId::Pkg(name("author/core")), v(1, 0, 0))]);
    let resolution = Resolver::new().solve(&mut retriever).unwrap();
    assert!(chosen(&resolution).contains(&pair("author/core", "1.0.0")));
}

#[test]
fn offline_without_a_cached_manifest_fails() {
    let elm = Constraint::from(Range::from(&v(0, 19, 1), &Strictness::Exact));
    let known = vec![(name("author/core"), vec![v(1, 0, 0)])];
    let mut retriever = Retriever::new(&elm, true, known);
    retriever.add_deps(&vec![at_least("author/core", 1, 2)]);
    let lacking = match Resolver::new().solve(&mut retriever) {
        Err(ResolveError::Retrieve(RetrieveError::NotCached(what))) => what,
        other => panic!("expected a manifest to be lacking, got {:?}", other.map(|r| chosen(&r))),
    };
    let (package, version) = parse_entry(&lacking).unwrap();
    assert_eq!(package.to_string(), "author/core");
    assert_eq!(version, v(1, 0, 0));
    let mut tried = 0;
    while let Some(source) = next_source(tried, retriever.is_offline()) {
        assert_ne!(source, Source::Registry);
        tried += 1;
    }
    assert_eq!(tried, 3);
    let failure = out_of_sources(retriever.is_offline(), "nothing stored".to_string());
    assert_eq!(
        failure.to_string(),
        "I need to fetch dependencies from package.elm-lang.org but I'm working in offline mode!"
    );
}

#[test]
fn a_newer_version_with_a_circular_demand_is_passed_over() {
    let mut retriever = registry(vec![
        ("author/foo", v(1, 0, 0), vec![]),
        ("author/foo", v(2, 0, 0), vec![("author/bar", (1, 2))]),
        ("author/bar", v(1, 0, 0), vec![("author/foo", (1, 2))]),
    ]);
    retriever.add_deps(&vec![at_least("author/foo", 1, 3)]);
    let resolution = Resolver::new().solve(&mut retriever).unwrap();
    assert_eq!(
        chosen(&resolution),
        vec![pair("Elm", "0.19.1"), pair("author/foo", "1.0.0"), pair("root", "1.0.0")]
    );
}

#[test]
fn a_conflict_deep_in_the_tree_moves_an_early_choice() {
    let mut retriever = registry(vec![
        ("author/foo", v(1, 0, 0), vec![]),
        ("author/foo", v(1, 1, 0), vec![("author/left", (1, 2)), ("author/right", (1, 2))]),
        ("author/left", v(1, 0, 0), vec![("author/shared", (1, 3))]),
        ("author/right", v(1, 0, 0), vec![("author/shared", (0, 2))]),
        ("author/shared", v(2, 0, 0), vec![]),
        ("author/shared", v(1, 0, 0), vec![("author/target", (1, 2))]),
        ("author/target", v(2, 0, 0), vec![]),
        ("author/target", v(1, 0, 0), vec![]),
    ]);
    retriever.add_deps(&vec![at_least("author/foo", 1, 2), at_least("author/target", 2, 3)]);
    let resolution = Resolver::new().solve(&mut retriever).unwrap();
    assert_eq!(
        chosen(&resolution),
        vec![
            pair("Elm", "0.19.1"),
            pair("author/foo", "1.0.0"),
            pair("author/target", "2.0.0"),
            pair("root", "1.0.0"),
        ]
    );
}

#[test]
fn a_chain_of_demands_that_cannot_be_met_is_explained() {
    let mut retriever = registry(vec![
        ("author/foo", v(1, 0, 0), vec![("author/bar", (2, 3))]),
        ("author/bar", v(2, 0, 0), vec![("author/baz", (3, 4))]),
        ("author/baz", v(1, 0, 0), vec![]),
        ("author/baz", v(3, 0, 0), vec![]),
    ]);
    retriever.add_deps(&vec![at_least("author/foo", 1, 2), at_least("author/baz", 1, 2)]);
    match Resolver::new().solve(&mut retriever) {
        Err(ResolveError::NoResolution(proof)) => {
            assert!(proof.contains("author/foo 1.0.0 depends on author/bar"), "{}", proof);
            assert!(proof.contains("author/bar 2.0.0 depends on author/baz"), "{}", proof);
            assert!(proof.contains("this project depends on author/baz"), "{}", proof);
            assert!(proof.lines().count() >= 4, "{}", proof);
            assert!(proof.lines().last().unwrap().contains("no valid set of package versions"), "{}", proof);
        }
        other => panic!("expected no resolution, got {:?}", other.map(|r| chosen(&r))),
    }
}

#[test]
fn many_versions_are_searched_through() {
    let mut releases: Vec<(&str, Version, Vec<(&str, (u64, u64))>)> = Vec::new();
    for major in 1..30u64 {
        releases.push(("author/wide", v(major, 0, 0), vec![("author/narrow", (major, major + 1))]));
    }
    releases.push(("author/narrow", v(3, 0, 0), vec![]));
    let mut retriever = registry(releases);
    retriever.add_deps(&vec![at_least("author/wide", 1, 100)]);
    let resolution = Resolver::new().solve(&mut retriever).unwrap();
    assert_eq!(
        chosen(&resolution),
        vec![
            pair("Elm", "0.19.1"),
            pair("author/narrow", "3.0.0"),
            pair("author/wide", "3.0.0"),
            pair("root", "1.0.0"),
        ]
    );
}

struct Dice(u64);

impl Dice {
    fn roll(&mut self, sides: u64) -> u64 {
        self.0 = self.0.wrapping_mul(6364136223846793005).wrapping_add(1442695040888963407);
        (self.0 >> 33) % sides
    }
}

type Needs = Vec<(usize, (u64, u64))>;

fn solvable(root: &Needs, releases: &Vec<Vec<(u64, Needs)>>, chosen: &mut Vec<Option<u64>>) -> bool {
    fn holds(needs: &Needs, chosen: &Vec<Option<u64>>) -> Option<bool> {
        let mut all = true;
        for (dep, (lower, upper)) in needs {
            match chosen[*dep] {
                Some(version) => {
                    if !(lower <= &version && &version < upper) {
                        return Some(false);
                    }
                }
                None => all = false,
            }
        }
        if all {
            Some(true)
        } else {
            None
        }
    }
    let mut pending: Option<usize> = None;
    let mut needs_of: Vec<&Needs> = vec![root];
    for (package, version) in chosen.iter().enumerate() {
        if let Some(v) = version {
            let release = releases[package].iter().find(|(major, _)| major == v).unwrap();
            needs_of.push(&release.1);
        }
    }
    for needs in needs_of {
        match holds(needs, chosen) {
            Some(false) => return false,
            Some(true) => {}
            None => {
                for (dep, _) in needs {
                    if chosen[*dep].is_none() {
                        pending = Some(*dep);
                    }
                }
            }
        }
    }
    match pending {
        None => true,
        Some(package) => {
            for (major, _) in &releases[package] {
                chosen[package] = Some(*major);
                if solvable(root, releases, chosen) {
                    return true;
                }
            }
            chosen[package] = None;
            false
        }
    }
}

#[test]
fn the_search_agrees_with_trying_every_choice() {
    let names = ["author/north", "author/east", "author/south", "author/west"];
    let mut dice = Dice(20260801);
    let mut solved = 0;
    let mut unsolved = 0;
    for _ in 0..150 {
        let mut releases: Vec<Vec<(u64, Needs)>> = Vec::new();
        for package in 0..names.len() {
            let mut versions = Vec::new();
            for major in 1..=3u64 {
                if dice.roll(4) == 0 {
                    continue;
                }
                let mut needs: Needs = Vec::new();
                for dep in 0..names.len() {
                    if dep != package && dice.roll(3) == 0 {
                        let lower = 1 + dice.roll(3);
                        let upper = lower + 1 + dice.roll(2);
                        needs.push((dep, (lower, upper)));
                    }
                }
                versions.push((major, needs));
            }
            releases.push(versions);
        }
        let mut root: Needs = Vec::new();
        for dep in 0..names.len() {
            if dice.roll(2) == 0 {
                let lower = 1 + dice.roll(3);
                let upper = lower + 1 + dice.roll(2);
                root.push((dep, (lower, upper)));
            }
        }
        let mut listed = Vec::new();
        for (package, versions) in releases.iter().enumerate() {
            for (major, needs) in versions {
                let deps = needs.iter().map(|(dep, range)| (names[*dep], *range)).collect();
                listed.push((names[package], v(*major, 0, 0), deps));
            }
        }
        let mut retriever = registry(listed);
        let wanted: Vec<(Name, Range)> =
            root.iter().map(|(dep, (lower, upper))| at_least(names[*dep], *lower, *upper)).collect();
        retriever.add_deps(&wanted);
        let expected = solvable(&root, &releases, &mut vec![None; names.len()]);
        match Resolver::new().solve(&mut retriever) {
            Ok(resolution) => {
                assert!(expected, "found a resolution where there is none: {:?}", chosen(&resolution));
                let picked = chosen(&resolution);
                for (dep, (lower, upper)) in &root {
                    let version = picked.iter().find(|(n, _)| n == names[*dep]).unwrap();
                    let major: u64 = version.1.split('.').next().unwrap().parse().unwrap();
                    assert!(*lower <= major && major < *upper);
                }
                for requirement in &resolution.requirements {
                    let child = &resolution.graph[petgraph::graph::NodeIndex::new(requirement.child)];
                    assert!(!requirement.forbidden.satisfies(&child.version));
                }
                solved += 1;
            }
            Err(ResolveError::NoResolution(_)) => {
                assert!(!expected, "found no resolution where there is one");
                unsolved += 1;
            }
            Err(other) => panic!("{:?}", other),
        }
    }
    assert!(solved > 10, "{} solved", solved);
    assert!(unsolved > 10, "{} unsolved", unsolved);
}

#[test]
fn what_was_reported_for_the_nodes_comes_with_the_graph() {
    let mut retriever = registry(vec![
        ("author/app", v(1, 0, 0), vec![("author/lib", (1, 2))]),
        ("author/lib", v(1, 0, 0), vec![("author/base", (2, 3))]),
        ("author/lib", v(1, 2, 0), vec![("author/base", (2, 3))]),
        ("author/base", v(2, 1, 0), vec![]),
    ]);
    retriever.add_deps(&vec![at_least("author/app", 1, 2)]);
    let resolution = Resolver::new().solve(&mut retriever).unwrap();
    let nodes: Vec<(String, Version)> =
        resolution.graph.node_weights().map(|s| (s.id.to_string(), s.version)).collect();
    assert_eq!(resolution.reported.len(), nodes.len());
    let mut dependencies = 0;
    for (parent, list) in resolution.reported.iter().enumerate() {
        for clause in list {
            if clause.len() != 2 {
                continue;
            }
            let (id, holds) = clause.term(0);
            if id.to_string() != nodes[parent].0 || !holds.satisfies(&nodes[parent].1) {
                continue;
            }
            dependencies += 1;
            let (dependee, forbidden) = clause.term(1);
            let met = resolution.requirements.iter().any(|r| {
                r.parent == parent
                    && nodes[r.child].0 == dependee.to_string()
                    && r.forbidden == *forbidden
                    && !forbidden.satisfies(&nodes[r.child].1)
            });
            assert!(met, "{} is not met", clause.show());
        }
    }
    assert_eq!(dependencies, resolution.requirements.len());
    assert_eq!(resolution.graph.edge_count(), resolution.requirements.len());
    let lib = nodes.iter().position(|n| n.0 == "author/lib").unwrap();
    assert_eq!(nodes[lib].1, v(1, 2, 0));
    assert!(resolution.reported[lib].iter().any(|clause| clause.term(1).0.to_string() == "author/base"));
}

#[test]
fn the_graph_begins_with_the_root_and_no_edge_leads_there() {
    let mut retriever = registry(vec![
        ("author/app", v(1, 0, 0), vec![("author/lib", (1, 2))]),
        ("author/lib", v(1, 0, 0), vec![]),
    ]);
    retriever.add_deps(&vec![at_least("author/app", 1, 2)]);
    let mut state = Resolver::new();
    let resolution = state.solve(&mut retriever).unwrap();
    let root = Retriever::root();
    let first = resolution.graph.node_weights().next().unwrap();
    assert!(first.id.same(&root.id));
    assert_eq!(first.version, root.version);
    for edge in resolution.graph.raw_edges() {
        assert_ne!(edge.target().index(), 0);
    }
    for requirement in &resolution.requirements {
        assert!(requirement.child > 0);
    }
    assert!(state.known() > 0);
    assert!(state.candidates().is_empty());
}

#[test]
fn what_is_reported_is_what_the_source_holds() {
    let mut retriever = registry(vec![
        ("author/app", v(1, 0, 0), vec![("author/lib", (1, 2))]),
        ("author/lib", v(1, 0, 0), vec![]),
    ]);
    retriever.add_deps(&vec![at_least("author/app", 1, 2)]);
    let resolution = Resolver::new().solve(&mut retriever).unwrap();
    let nodes: Vec<Summary<PackageId>> = resolution.graph.node_weights().cloned().collect();
    for (at, node) in nodes.iter().enumerate() {
        let held = retriever.incompats(node).unwrap();
        let reported = &resolution.reported[at];
        assert_eq!(held.len(), reported.len());
        for (a, b) in held.iter().zip(reported.iter()) {
            assert!(a.same(b));
        }
    }
}

#[test]
fn what_is_reported_for_a_version_is_taken_up_and_decided() {
    let mut retriever = registry(vec![
        ("author/app", v(1, 0, 0), vec![("author/lib", (1, 2))]),
        ("author/lib", v(1, 0, 0), vec![]),
    ]);
    let app = Summary::new(PackageId::Pkg(name("author/app")), v(1, 0, 0));
    let reported = retriever.incompats(&app).unwrap();
    let count = reported.len();
    let mut state = Resolver::new();
    state.take_up(app.id.clone(), app.version, reported).unwrap();
    assert_eq!(state.known(), count);
    assert_eq!(state.decided(&app.id), Some(v(1, 0, 0)));
    assert_eq!(state.entry(0).level(), 1);
    state.propagate(app.id.clone()).unwrap();
    assert!(state.candidates().iter().any(|c| c.0.same(&PackageId::Pkg(name("author/lib")))));
}

#[test]
fn a_version_that_would_be_a_conflict_is_not_decided() {
    let mut retriever = registry(vec![
        ("author/app", v(1, 0, 0), vec![("author/lib", (1, 2))]),
        ("author/tool", v(1, 0, 0), vec![("author/lib", (2, 3))]),
    ]);
    let app = Summary::new(PackageId::Pkg(name("author/app")), v(1, 0, 0));
    let tool = Summary::new(PackageId::Pkg(name("author/tool")), v(1, 0, 0));
    let for_app = retriever.incompats(&app).unwrap();
    let for_tool = retriever.incompats(&tool).unwrap();
    let mut state = Resolver::new();
    state.take_up(app.id.clone(), app.version, for_app).unwrap();
    state.propagate(app.id.clone()).unwrap();
    let known = state.known();
    let added = for_tool.len();
    state.take_up(tool.id.clone(), tool.version, for_tool).unwrap();
    assert_eq!(state.known(), known + added);
    assert_eq!(state.decided(&tool.id), None);
}

#[test]
fn what_cannot_be_had_is_taken_up_as_unavailable() {
    let mut state = Resolver::new();
    let lib = PackageId::Pkg(name("author/lib"));
    state.rule_out(lib.clone(), Constraint::any());
    assert_eq!(state.known(), 1);
    assert!(state.mentions(0, &lib));
    assert_eq!(state.incompat(0).len(), 1);
    assert!(matches!(
        state.incompat(0).cause(),
        elm_json::solver::IncompatibilityCause::Unavailable
    ));
    assert_eq!(state.decided(&lib), None);
}

#[test]
fn a_search_without_steps_gives_up_at_once() {
    let mut retriever = registry(vec![("author/core", v(1, 0, 0), vec![])]);
    retriever.add_deps(&vec![at_least("author/core", 1, 2)]);
    let mut state = Resolver::with_budget(0);
    assert!(matches!(state.solve(&mut retriever), Err(ResolveError::GaveUp)));
    assert_eq!(state.known(), 1);
    assert!(state.candidates().is_empty());
    let mut idle = Resolver::with_budget(0);
    assert!(matches!(idle.propagate(PackageId::Root), Err(ResolveError::GaveUp)));
    assert_eq!(idle.known(), 0);
    let mut search = Resolver::with_budget(0);
    assert!(matches!(search.search(&mut retriever, PackageId::Root), Err(ResolveError::GaveUp)));
    assert_eq!(search.known(), 0);
}

#[test]
fn a_search_gives_up_only_when_its_steps_are_used_up() {
    let releases = || {
        let mut retriever = registry(vec![
            ("author/app", v(1, 0, 0), vec![("author/lib", (1, 2))]),
            ("author/lib", v(1, 0, 0), vec![]),
        ]);
        retriever.add_deps(&vec![at_least("author/app", 1, 2)]);
        retriever
    };
    let mut needed = 0;
    loop {
        let mut retriever = releases();
        match Resolver::with_budget(needed).solve(&mut retriever) {
            Err(ResolveError::GaveUp) => needed += 1,
            Ok(resolution) => {
                assert!(chosen(&resolution).contains(&pair("author/lib", "1.0.0")));
                break;
            }
            other => panic!("{:?}", other.map(|r| chosen(&r))),
        }
        assert!(needed < 1000);
    }
    assert!(needed > 0);
    let mut retriever = releases();
    assert!(Resolver::with_budget(needed + 1).solve(&mut retriever).is_ok());
    let mut retriever = releases();
    assert!(matches!(
        Resolver::with_budget(needed - 1).solve(&mut retriever),
        Err(ResolveError::GaveUp)
    ));
}

#[test]
fn propagation_spends_one_step_for_every_pass() {
    let mut state = Resolver::with_budget(1);
    assert!(matches!(state.propagate(PackageId::Root), Err(ResolveError::GaveUp)));
    let mut state = Resolver::with_budget(2);
    assert!(state.propagate(PackageId::Root).is_ok());
    assert!(!state.spend());
}
