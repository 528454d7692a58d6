use elm_json::diff::{Diff, Kind};
use elm_json::package::manifest::Range;
use elm_json::package::Name;
use elm_json::semver::Version;

fn n(text: &str) -> Name {
    text.parse().unwrap()
}

fn v(major: u64, minor: u64, patch: u64) -> Version {
    Version::new(major, minor, patch)
}

#[test]
fn diff_of_equal_lists_is_empty() {
    let left = vec![(n("a/a"), v(1, 0, 0)), (n("b/b"), v(2, 0, 0))];
    let right = vec![(n("a/a"), v(1, 0, 0)), (n("b/b"), v(2, 0, 0))];
    let d = Diff::new(&left, &right);
    assert!(d.is_empty());
    assert!(d.only_left.is_empty());
    assert!(d.only_right.is_empty());
    assert!(d.changed.is_empty());
}

#[test]
fn diff_sorts_entries_into_three_lists() {
    let left = vec![
        (n("a/gone"), v(1, 0, 0)),
        (n("b/kept"), v(1, 0, 0)),
        (n("c/moved"), v(1, 0, 0)),
        (n("e/gone"), v(3, 0, 0)),
    ];
    let right = vec![
        (n("b/kept"), v(1, 0, 0)),
        (n("c/moved"), v(1, 2, 0)),
        (n("d/new"), v(1, 0, 0)),
        (n("f/new"), v(0, 1, 0)),
    ];
    let d = Diff::new(&left, &right);
    assert!(!d.is_empty());
    let only_left: Vec<String> = d.only_left.iter().map(|(k, _)| k.to_string()).collect();
    let only_right: Vec<String> = d.only_right.iter().map(|(k, _)| k.to_string()).collect();
    assert_eq!(only_left, vec!["a/gone", "e/gone"]);
    assert_eq!(only_right, vec!["d/new", "f/new"]);
    assert_eq!(d.changed.len(), 1);
    assert_eq!(d.changed[0].0.to_string(), "c/moved");
    assert_eq!(*d.changed[0].1, v(1, 0, 0));
    assert_eq!(*d.changed[0].2, v(1, 2, 0));
}

#[test]
fn diff_against_an_empty_list() {
    let left: Vec<(Name, Version)> = vec![];
    let right = vec![(n("a/a"), v(1, 0, 0))];
    let d = Diff::new(&left, &right);
    assert_eq!(d.only_left.len(), 0);
    assert_eq!(d.only_right.len(), 1);
    let d = Diff::new(&right, &left);
    assert_eq!(d.only_left.len(), 1);
    assert_eq!(d.only_right.len(), 0);
    let d = Diff::new(&left, &left);
    assert!(d.is_empty());
}

#[test]
fn diff_orders_names_by_author_before_project() {
    let left = vec![(n("a/x"), v(1, 0, 0)), (n("a-b/x"), v(1, 0, 0))];
    let right = vec![(n("a-b/x"), v(1, 0, 0))];
    let d = Diff::new(&left, &right);
    assert_eq!(d.only_left.len(), 1);
    assert_eq!(d.only_left[0].0.to_string(), "a/x");
    assert!(d.only_right.is_empty());
    assert!(d.changed.is_empty());
}

#[test]
fn diff_works_on_text_keys_and_ranges() {
    let left = vec![("elm/core".to_string(), Range::new(v(1, 0, 0), v(2, 0, 0)))];
    let right = vec![
        ("elm/core".to_string(), Range::new(v(1, 0, 2), v(2, 0, 0))),
        ("elm/json".to_string(), Range::new(v(1, 0, 0), v(2, 0, 0))),
    ];
    let d = Diff::new(&left, &right);
    assert_eq!(d.changed.len(), 1);
    assert_eq!(d.only_right.len(), 1);
    assert_eq!(d.only_right[0].0, "elm/json");
}

#[test]
fn kind_titles() {
    assert_eq!(Kind::Regular.to_string(), "");
    assert_eq!(Kind::Test.to_string(), "test ");
    assert_eq!(Kind::Direct.to_string(), "direct ");
    assert_eq!(Kind::DirectTest.to_string(), "direct test ");
    assert_eq!(Kind::Indirect.to_string(), "indirect ");
    assert_eq!(Kind::IndirectTest.to_string(), "indirect test ");
}
