use elm_json::package::retriever::PackageId;
use elm_json::package::Name;
use elm_json::semver::{Constraint, Interval, Range, Relation, Version};
use elm_json::solver::resolver::{add_term, add_terms_but, pick_candidate, resolved_terms};
use elm_json::solver::{
    AssignmentType, IncompatMatch, Incompatibility, IncompatibilityCause, ResolveError, Resolver,
    Summary,
};
use indexmap::IndexMap;

fn v(major: u64, minor: u64, patch: u64) -> Version {
    Version::new(major, minor, patch)
}

fn pkg(text: &str) -> PackageId {
    PackageId::Pkg(text.parse::<Name>().unwrap())
}

fn half_open(lower: u64, upper: u64) -> Constraint {
    Constraint::from(
        Range::new(Interval::Closed(v(lower, 0, 0)), Interval::Open(v(upper, 0, 0))).unwrap(),
    )
}

fn dependency(state: &mut Resolver, parent: (&str, Version), child: &str, allowed: Constraint) -> usize {
    let i = Incompatibility::from_dep(
        Summary::new(pkg(parent.0), parent.1),
        (pkg(child), allowed.complement()),
    );
    let Incompatibility { deps, cause } = i;
    state.incompatibility(deps, cause)
}

#[test]
fn a_dependency_of_a_decided_package_is_derived() {
    let mut state = Resolver::new();
    let at = dependency(&mut state, ("a/app", v(1, 0, 0)), "a/lib", half_open(1, 2));
    assert_eq!(at, 0);
    assert_eq!(state.known(), 1);
    assert!(state.mentions(0, &pkg("a/app")));
    assert!(state.mentions(0, &pkg("a/lib")));
    assert!(!state.mentions(0, &pkg("a/other")));
    assert!(!state.is_failure(0));
    assert!(matches!(state.propagate_incompat(0), Ok(IncompatMatch::Contradicted)));
    state.decision(pkg("a/app"), v(1, 0, 0)).unwrap();
    assert_eq!(state.decided(&pkg("a/app")), Some(v(1, 0, 0)));
    assert_eq!(state.decided(&pkg("a/lib")), None);
    match state.propagate_incompat(0) {
        Ok(IncompatMatch::Almost(name)) => assert!(name.same(&pkg("a/lib"))),
        other => panic!("{:?}", other),
    }
    assert_eq!(state.relation(&pkg("a/lib"), &half_open(1, 2)), Relation::Equal);
    assert_eq!(state.relation(&pkg("a/lib"), &half_open(1, 3)), Relation::Subset);
    assert_eq!(state.relation(&pkg("a/none"), &half_open(1, 3)), Relation::Superset);
    let entry = state.entry(1);
    assert_eq!(entry.step(), 1);
    assert_eq!(entry.level(), 1);
    assert_eq!(entry.cause(), Some(0));
    assert!(entry.is_positive());
    assert!(matches!(entry.ty(), AssignmentType::Derivation { .. }));
    let waiting = state.candidates();
    assert_eq!(waiting.len(), 1);
    assert!(waiting[0].0.same(&pkg("a/lib")));
    assert!(waiting[0].1 == half_open(1, 2));
    assert!(matches!(state.propagate_incompat(0), Ok(IncompatMatch::Contradicted)));
}

#[test]
fn an_incompatibility_whose_terms_all_hold_is_a_conflict() {
    let mut state = Resolver::new();
    dependency(&mut state, ("a/app", v(1, 0, 0)), "a/lib", half_open(1, 2));
    state.decision(pkg("a/app"), v(1, 0, 0)).unwrap();
    state.decision(pkg("a/lib"), v(2, 0, 0)).unwrap();
    assert!(matches!(state.propagate_incompat(0), Ok(IncompatMatch::Satisfied)));
    assert!(state.conflicts(state.incompat(0), &pkg("a/none")));
    assert_eq!(state.satisfier(&pkg("a/lib"), &half_open(1, 2).complement()), Some(1));
    assert_eq!(state.satisfier(&pkg("a/lib"), &half_open(1, 2)), None);
    assert_eq!(state.satisfier(&pkg("a/app"), &Constraint::any()), Some(0));
}

#[test]
fn going_back_drops_what_came_after_the_level() {
    let mut state = Resolver::new();
    dependency(&mut state, ("a/app", v(1, 0, 0)), "a/lib", half_open(1, 2));
    state.decision(pkg("a/app"), v(1, 0, 0)).unwrap();
    state.derivation(pkg("a/lib"), half_open(1, 3), 0, true).unwrap();
    state.decision(pkg("a/lib"), v(1, 5, 0)).unwrap();
    state.derivation(pkg("a/base"), half_open(2, 3), 0, false).unwrap();
    assert!(state.implies(&pkg("a/lib"), &half_open(1, 2), true));
    assert!(!state.implies(&pkg("a/base"), &half_open(2, 3), true));
    assert!(state.implies(&pkg("a/base"), &half_open(2, 4), false));
    state.backtrack(1);
    assert_eq!(state.decided(&pkg("a/app")), Some(v(1, 0, 0)));
    assert_eq!(state.decided(&pkg("a/lib")), None);
    assert_eq!(state.relation(&pkg("a/lib"), &half_open(1, 3)), Relation::Equal);
    assert_eq!(state.relation(&pkg("a/base"), &half_open(2, 3)), Relation::Superset);
    assert_eq!(state.candidates().len(), 1);
    state.backtrack(0);
    assert_eq!(state.decided(&pkg("a/app")), None);
    assert!(state.candidates().is_empty());
    assert_eq!(state.known(), 1);
}

#[test]
fn a_resolved_conflict_leads_back_to_an_earlier_level() {
    let mut state = Resolver::new();
    dependency(&mut state, ("a/app", v(1, 0, 0)), "a/lib", half_open(1, 2));
    state.decision(pkg("a/app"), v(1, 0, 0)).unwrap();
    state.decision(pkg("a/lib"), v(2, 0, 0)).unwrap();
    let cause = state.resolve_conflict(0).unwrap();
    assert_eq!(cause, 0);
    assert_eq!(state.decided(&pkg("a/lib")), None);
    assert_eq!(state.decided(&pkg("a/app")), Some(v(1, 0, 0)));
    match state.propagate_incompat(cause) {
        Ok(IncompatMatch::Almost(name)) => assert!(name.same(&pkg("a/lib"))),
        other => panic!("{:?}", other),
    }
}

#[test]
fn terms_for_one_package_are_merged() {
    let mut terms: IndexMap<PackageId, Constraint> = IndexMap::new();
    add_term(&mut terms, &pkg("a/lib"), &half_open(1, 3));
    add_term(&mut terms, &pkg("a/base"), &half_open(1, 2));
    add_term(&mut terms, &pkg("a/lib"), &half_open(2, 4));
    assert_eq!(terms.len(), 2);
    assert!(terms.get_index(0).unwrap().0.same(&pkg("a/lib")));
    assert!(*terms.get_index(0).unwrap().1 == half_open(2, 3));
    assert!(*terms.get_index(1).unwrap().1 == half_open(1, 2));
    let more = Incompatibility::from_dep(
        Summary::new(pkg("a/base"), v(1, 0, 0)),
        (pkg("a/lib"), half_open(2, 5)),
    );
    add_terms_but(&mut terms, &more, &pkg("a/base"));
    assert_eq!(terms.len(), 2);
    assert!(*terms.get_index(0).unwrap().1 == half_open(2, 3));
    add_terms_but(&mut terms, &more, &pkg("a/lib"));
    assert!(*terms.get_index(1).unwrap().1 == Constraint::from(v(1, 0, 0)));
    let i = Incompatibility::new(terms, IncompatibilityCause::Derived(0, 1));
    assert_eq!(i.len(), 2);
}

fn forbid(state: &mut Resolver, terms: Vec<(&str, Constraint)>) -> usize {
    let mut deps = IndexMap::new();
    for (name, con) in terms {
        deps.insert(pkg(name), con);
    }
    state.incompatibility(deps, IncompatibilityCause::Dependency)
}

fn two_levels() -> Resolver {
    let mut state = Resolver::new();
    dependency(&mut state, ("a/app", v(1, 0, 0)), "a/lib", half_open(1, 3));
    dependency(&mut state, ("a/tool", v(1, 0, 0)), "a/lib", half_open(2, 4));
    state.decision(pkg("a/app"), v(1, 0, 0)).unwrap();
    assert!(matches!(state.propagate_incompat(0), Ok(IncompatMatch::Almost(_))));
    state.decision(pkg("a/tool"), v(1, 0, 0)).unwrap();
    assert!(matches!(state.propagate_incompat(1), Ok(IncompatMatch::Almost(_))));
    state
}

#[test]
fn the_analysis_finds_the_term_satisfied_last() {
    let mut state = two_levels();
    assert_eq!(state.entry(1).level(), 1);
    assert_eq!(state.entry(3).level(), 2);
    let conflict = forbid(&mut state, vec![("a/app", Constraint::from(v(1, 0, 0))), ("a/lib", half_open(2, 3))]);
    let found = state.analyse(conflict).unwrap();
    assert_eq!(found.term, 1);
    assert_eq!(found.satisfier, 3);
    assert_eq!(found.previous_level, 1);
    assert_eq!(found.difference, Some(half_open(3, 4)));
}

#[test]
fn the_analysis_leaves_no_rest_where_the_satisfier_fits_the_term() {
    let mut state = two_levels();
    let conflict = forbid(&mut state, vec![("a/lib", half_open(1, 3)), ("a/tool", Constraint::from(v(1, 0, 0)))]);
    let found = state.analyse(conflict).unwrap();
    assert_eq!(found.term, 1);
    assert_eq!(found.satisfier, 2);
    assert_eq!(found.previous_level, 1);
    assert_eq!(found.difference, None);
}

#[test]
fn the_analysis_raises_the_previous_level_to_that_of_the_other_terms() {
    let mut state = two_levels();
    state.decision(pkg("a/more"), v(1, 0, 0)).unwrap();
    let conflict = forbid(
        &mut state,
        vec![
            ("a/lib", half_open(2, 4)),
            ("a/more", Constraint::from(v(1, 0, 0))),
            ("a/app", Constraint::from(v(1, 0, 0))),
        ],
    );
    let found = state.analyse(conflict).unwrap();
    assert_eq!(found.term, 1);
    assert_eq!(found.satisfier, 4);
    assert_eq!(found.previous_level, 2);
    assert_eq!(found.difference, None);
}

#[test]
fn the_analysis_fails_on_a_term_that_nothing_satisfies() {
    let mut state = two_levels();
    let conflict = forbid(&mut state, vec![("a/lib", half_open(5, 6))]);
    assert!(matches!(state.analyse(conflict), Err(ResolveError::Inconsistent(_))));
    let empty = forbid(&mut state, vec![]);
    assert!(matches!(state.analyse(empty), Err(ResolveError::Inconsistent(_))));
}

#[test]
fn what_follows_from_a_conflict_and_a_cause_leaves_the_culprit_out() {
    let mut conflict_terms = IndexMap::new();
    conflict_terms.insert(pkg("a/app"), Constraint::from(v(1, 0, 0)));
    conflict_terms.insert(pkg("a/lib"), half_open(2, 3));
    let conflict = Incompatibility::new(conflict_terms, IncompatibilityCause::Dependency);
    let cause = Incompatibility::from_dep(
        Summary::new(pkg("a/tool"), v(1, 0, 0)),
        (pkg("a/lib"), half_open(2, 4).complement()),
    );
    let plain = resolved_terms(&conflict, &cause, &pkg("a/lib"), &None);
    assert_eq!(plain.len(), 2);
    assert!(plain.get_index(0).unwrap().0.same(&pkg("a/app")));
    assert_eq!(plain.get_index(0).unwrap().1, &Constraint::from(v(1, 0, 0)));
    assert!(plain.get_index(1).unwrap().0.same(&pkg("a/tool")));
    assert_eq!(plain.get_index(1).unwrap().1, &Constraint::from(v(1, 0, 0)));
    let with_rest = resolved_terms(&conflict, &cause, &pkg("a/lib"), &Some(half_open(3, 4)));
    assert_eq!(with_rest.len(), 3);
    assert!(with_rest.get_index(2).unwrap().0.same(&pkg("a/lib")));
    assert_eq!(with_rest.get_index(2).unwrap().1, &half_open(3, 4).complement());
}

#[test]
fn the_candidate_with_the_fewest_versions_goes_first() {
    let list = vec![
        (pkg("b/two"), Constraint::any()),
        (pkg("c/one"), Constraint::any()),
        (pkg("a/one"), Constraint::any()),
        (pkg("a/three"), Constraint::any()),
    ];
    assert_eq!(pick_candidate(&list, &vec![2, 1, 1, 3]), Some(2));
    assert_eq!(pick_candidate(&list, &vec![2, 1, 2, 0]), Some(3));
    assert_eq!(pick_candidate(&list, &vec![4, 4, 4, 4]), Some(2));
    assert_eq!(pick_candidate(&Vec::new(), &Vec::new()), None);
}

#[test]
fn the_errors_of_the_search_read_as_text() {
    assert_eq!(ResolveError::NoResolution("a proof".to_string()).to_string(), "a proof");
    assert!(!ResolveError::GaveUp.to_string().is_empty());
    assert_eq!(ResolveError::GaveUp.to_string(), "The search for versions took too many steps");
}

fn all_quiet(state: &mut Resolver) -> bool {
    (0..state.known()).all(|at| matches!(state.propagate_incompat(at), Ok(IncompatMatch::Contradicted)))
}

#[test]
fn after_propagation_a_pass_over_everything_yields_nothing() {
    let mut state = Resolver::new();
    dependency(&mut state, ("a/app", v(1, 0, 0)), "a/lib", half_open(1, 3));
    dependency(&mut state, ("a/app", v(1, 0, 0)), "a/tool", half_open(1, 2));
    dependency(&mut state, ("a/tool", v(1, 0, 0)), "a/lib", half_open(2, 4));
    state.decision(pkg("a/app"), v(1, 0, 0)).unwrap();
    state.propagate(pkg("a/app")).unwrap();
    assert_eq!(state.relation(&pkg("a/lib"), &half_open(1, 3)), Relation::Equal);
    assert_eq!(state.relation(&pkg("a/tool"), &half_open(1, 2)), Relation::Equal);
    assert!(all_quiet(&mut state));
    state.decision(pkg("a/tool"), v(1, 0, 0)).unwrap();
    state.propagate(pkg("a/tool")).unwrap();
    assert_eq!(state.relation(&pkg("a/lib"), &half_open(2, 3)), Relation::Equal);
    assert!(all_quiet(&mut state));
}

#[test]
fn propagation_takes_up_what_follows_for_other_packages_too() {
    let mut state = Resolver::new();
    dependency(&mut state, ("a/app", v(1, 0, 0)), "a/lib", half_open(1, 3));
    state.decision(pkg("a/app"), v(1, 0, 0)).unwrap();
    state.propagate(pkg("a/none")).unwrap();
    assert_eq!(state.relation(&pkg("a/lib"), &half_open(1, 3)), Relation::Equal);
    assert!(all_quiet(&mut state));
}

#[test]
fn propagation_leaves_a_state_at_rest_as_it_is() {
    let mut state = two_levels();
    state.propagate(pkg("a/app")).unwrap();
    let entries = (0..4).map(|at| state.entry(at).step()).collect::<Vec<u16>>();
    assert_eq!(entries, vec![0, 1, 2, 3]);
    let known = state.known();
    state.propagate(pkg("a/lib")).unwrap();
    state.propagate(pkg("a/none")).unwrap();
    assert_eq!(state.known(), known);
    assert_eq!(state.entry(3).step(), 3);
    assert_eq!(state.relation(&pkg("a/lib"), &half_open(2, 3)), Relation::Equal);
    assert_eq!(state.decided(&pkg("a/lib")), None);
    assert!(state.candidates().iter().any(|c| c.0.same(&pkg("a/lib"))));
    assert_eq!(state.candidates().len(), 1);
}
