use elm_json::semver::{Constraint, Interval, Range, Relation, Strictness, Version};
use indexmap::IndexSet;

fn v(major: u64, minor: u64, patch: u64) -> Version {
    Version::new(major, minor, patch)
}

fn half_open(lower: Version, upper: Version) -> Range {
    Range::new(Interval::Closed(lower), Interval::Open(upper)).unwrap()
}

fn constraint_of(ranges: Vec<Range>) -> Constraint {
    let mut set = IndexSet::new();
    for r in ranges {
        set.insert(r);
    }
    Constraint::new(set)
}

fn ranges_of(c: &Constraint) -> Vec<Range> {
    c.retrieve().iter().cloned().collect()
}

#[test]
fn version_order_is_lexicographic() {
    assert!(v(1, 0, 0) < v(1, 0, 1));
    assert!(v(1, 9, 9) < v(2, 0, 0));
    assert!(v(0, 19, 1) > v(0, 19, 0));
    assert!(v(3, 2, 1) == v(3, 2, 1));
    assert_eq!(v(1, 2, 3).compare(&v(1, 2, 3)), std::cmp::Ordering::Equal);
    assert_eq!(v(1, 2, 3).compare(&v(1, 3, 0)), std::cmp::Ordering::Less);
    assert_eq!(v(u64::MAX, 0, 0).compare(&v(0, u64::MAX, u64::MAX)), std::cmp::Ordering::Greater);
}

#[test]
fn version_parse_and_display_round_trip() {
    let parsed: Version = "1.2.3".parse().unwrap();
    assert_eq!(parsed, v(1, 2, 3));
    assert_eq!(parsed.to_string(), "1.2.3");
    assert_eq!(v(0, 19, 1).to_string(), "0.19.1");
    assert_eq!(
        v(u64::MAX, 0, 10).to_string(),
        "18446744073709551615.0.10"
    );
    assert_eq!(Version::parse("18446744073709551615.0.10").unwrap(), v(u64::MAX, 0, 10));
}

#[test]
fn version_parse_rejects_malformed_text() {
    assert!(Version::parse("").is_err());
    assert!(Version::parse("1").is_err());
    assert!(Version::parse("1.2").is_err());
    assert!(Version::parse("1.2.3.4").is_err());
    assert!(Version::parse("1.2.x").is_err());
    assert!(Version::parse("1..3").is_err());
    assert!(Version::parse("1.2.-3").is_err());
    assert!(Version::parse("18446744073709551616.0.0").is_err());
    assert_eq!(Version::parse("1.2").unwrap_err().to_string(), "Invalid version: 1.2");
    assert_eq!(Version::parse("1.b.3").unwrap_err().to_string(), "Invalid number: b");
    assert_eq!(Version::parse("1.b.3").unwrap_err().text(), "b");
}

#[test]
fn interval_order_depends_on_the_side() {
    let open = Interval::Open(v(1, 0, 0));
    let closed = Interval::Closed(v(1, 0, 0));
    assert_eq!(closed.cmp(&open, true), std::cmp::Ordering::Less);
    assert_eq!(closed.cmp(&open, false), std::cmp::Ordering::Greater);
    assert_eq!(Interval::Unbounded.cmp(&closed, true), std::cmp::Ordering::Less);
    assert_eq!(Interval::Unbounded.cmp(&closed, false), std::cmp::Ordering::Greater);
    assert_eq!(Interval::Unbounded.cmp(&Interval::Unbounded, false), std::cmp::Ordering::Equal);
    assert_eq!(open.min(&closed, true), &closed);
    assert_eq!(open.max(&closed, true), &open);
    assert_eq!(open.min(&closed, false), &open);
    assert_eq!(open.flip(), closed);
    assert_eq!(Interval::Unbounded.flip(), Interval::Unbounded);
    assert_eq!(open.show(true), ">1.0.0");
    assert_eq!(closed.show(false), "<=1.0.0");
    assert_eq!(Interval::Unbounded.show(true), "");
}

#[test]
fn range_new_rejects_empty_and_inverted_pairs() {
    let a = v(1, 0, 0);
    let b = v(2, 0, 0);
    assert!(Range::new(Interval::Open(a), Interval::Open(a)).is_none());
    assert!(Range::new(Interval::Open(a), Interval::Closed(a)).is_none());
    assert!(Range::new(Interval::Closed(a), Interval::Open(a)).is_none());
    assert!(Range::new(Interval::Closed(b), Interval::Closed(a)).is_none());
    assert!(Range::new(Interval::Closed(b), Interval::Open(a)).is_none());
    assert!(Range::new(Interval::Closed(a), Interval::Closed(a)).is_some());
    assert!(Range::new(Interval::Closed(a), Interval::Open(b)).is_some());
    assert!(Range::new(Interval::Unbounded, Interval::Open(a)).is_some());
    assert!(Range::new(Interval::Open(b), Interval::Unbounded).is_some());
}

#[test]
fn range_satisfies_respects_openness() {
    let r = half_open(v(1, 0, 0), v(2, 0, 0));
    assert!(r.satisfies(&v(1, 0, 0)));
    assert!(r.satisfies(&v(1, 99, 99)));
    assert!(!r.satisfies(&v(2, 0, 0)));
    assert!(!r.satisfies(&v(0, 9, 9)));
    let single = Range::new(Interval::Closed(v(1, 0, 0)), Interval::Closed(v(1, 0, 0))).unwrap();
    assert!(single.satisfies(&v(1, 0, 0)));
    assert!(!single.satisfies(&v(1, 0, 1)));
    assert!(Range::any().satisfies(&v(0, 0, 0)));
}

#[test]
fn range_from_strictness() {
    let base = v(1, 2, 3);
    let exact = Range::from(&base, &Strictness::Exact);
    assert_eq!(exact.take(), (Interval::Closed(base), Interval::Closed(base)));
    let safe = Range::from(&base, &Strictness::Safe);
    assert_eq!(safe.take(), (Interval::Closed(base), Interval::Open(v(2, 0, 0))));
    let open_ended = Range::from(&base, &Strictness::Unsafe);
    assert_eq!(open_ended.take(), (Interval::Closed(base), Interval::Unbounded));
    let converted: Range = base.into();
    assert_eq!(converted, exact);
}

#[test]
fn range_intersection_takes_inner_bounds() {
    let a = half_open(v(1, 0, 0), v(3, 0, 0));
    let b = half_open(v(2, 0, 0), v(4, 0, 0));
    assert_eq!(a.intersection(&b), Some(half_open(v(2, 0, 0), v(3, 0, 0))));
    let c = half_open(v(3, 0, 0), v(4, 0, 0));
    assert_eq!(a.intersection(&c), None);
}

#[test]
fn range_display() {
    assert_eq!(half_open(v(1, 0, 0), v(2, 0, 0)).to_string(), "1.0.0 <= v < 2.0.0");
    assert_eq!(Range::any().to_string(), "at any version");
    assert_eq!(Range::from(&v(1, 0, 0), &Strictness::Exact).to_string(), "1.0.0");
    assert_eq!(Range::from(&v(1, 0, 0), &Strictness::Unsafe).to_string(), ">=1.0.0");
    assert_eq!(
        Range::new(Interval::Open(v(1, 0, 0)), Interval::Closed(v(2, 0, 0))).unwrap().to_string(),
        ">1.0.0 <=2.0.0"
    );
    assert_eq!(
        Range::new(Interval::Unbounded, Interval::Open(v(2, 0, 0))).unwrap().to_string(),
        "<2.0.0"
    );
}

#[test]
fn adjacent_ranges_coalesce() {
    let c = constraint_of(vec![
        half_open(v(1, 0, 0), v(2, 0, 0)),
        half_open(v(2, 0, 0), v(3, 0, 0)),
    ]);
    assert_eq!(ranges_of(&c), vec![half_open(v(1, 0, 0), v(3, 0, 0))]);
    let a = Constraint::from(half_open(v(1, 0, 0), v(2, 0, 0)));
    let b = Constraint::from(half_open(v(2, 0, 0), v(3, 0, 0)));
    assert_eq!(ranges_of(&a.union(&b)), vec![half_open(v(1, 0, 0), v(3, 0, 0))]);
    assert_eq!(ranges_of(&b.union(&a)), vec![half_open(v(1, 0, 0), v(3, 0, 0))]);
}

#[test]
fn doubly_open_neighbours_stay_apart() {
    let below = Range::new(Interval::Unbounded, Interval::Open(v(1, 0, 0))).unwrap();
    let above = Range::new(Interval::Open(v(1, 0, 0)), Interval::Unbounded).unwrap();
    let c = constraint_of(vec![above, below]);
    assert_eq!(ranges_of(&c), vec![below, above]);
    assert!(!c.satisfies(&v(1, 0, 0)));
    assert!(c.satisfies(&v(1, 0, 1)));
}

#[test]
fn nested_and_unsorted_ranges_unify_to_their_union() {
    let c = constraint_of(vec![
        half_open(v(5, 0, 0), v(6, 0, 0)),
        half_open(v(1, 0, 0), v(4, 0, 0)),
        half_open(v(2, 0, 0), v(3, 0, 0)),
    ]);
    assert_eq!(
        ranges_of(&c),
        vec![half_open(v(1, 0, 0), v(4, 0, 0)), half_open(v(5, 0, 0), v(6, 0, 0))]
    );
}

#[test]
fn complement_of_a_range_is_two_rays() {
    let c = Constraint::from(half_open(v(1, 0, 0), v(2, 0, 0)));
    let hole = Constraint::any().difference(&c);
    assert_eq!(
        ranges_of(&hole),
        vec![
            Range::new(Interval::Unbounded, Interval::Open(v(1, 0, 0))).unwrap(),
            Range::new(Interval::Closed(v(2, 0, 0)), Interval::Unbounded).unwrap(),
        ]
    );
    assert!(hole == c.complement());
    assert_eq!(hole.to_string(), "at versions other than 1.0.0 <= v < 2.0.0");
    assert!(hole.satisfies(&v(0, 0, 0)));
    assert!(hole.satisfies(&v(2, 0, 0)));
    assert!(!hole.satisfies(&v(1, 5, 0)));
}

#[test]
fn complement_twice_is_identity() {
    let c = constraint_of(vec![
        half_open(v(1, 0, 0), v(2, 0, 0)),
        Range::from(&v(3, 1, 4), &Strictness::Exact),
        Range::new(Interval::Open(v(7, 0, 0)), Interval::Unbounded).unwrap(),
    ]);
    assert!(c.complement().complement() == c);
    assert!(Constraint::empty().complement() == Constraint::any());
    assert!(Constraint::any().complement() == Constraint::empty());
}

#[test]
fn intersection_and_union_commute() {
    let a = constraint_of(vec![half_open(v(1, 0, 0), v(3, 0, 0)), half_open(v(5, 0, 0), v(8, 0, 0))]);
    let b = constraint_of(vec![half_open(v(2, 0, 0), v(6, 0, 0))]);
    assert!(a.intersection(&b) == b.intersection(&a));
    assert!(a.union(&b) == b.union(&a));
    assert_eq!(
        ranges_of(&a.intersection(&b)),
        vec![half_open(v(2, 0, 0), v(3, 0, 0)), half_open(v(5, 0, 0), v(6, 0, 0))]
    );
    assert_eq!(ranges_of(&a.union(&b)), vec![half_open(v(1, 0, 0), v(8, 0, 0))]);
}

#[test]
fn difference_splits_and_restores() {
    let a = constraint_of(vec![half_open(v(1, 0, 0), v(10, 0, 0))]);
    let b = constraint_of(vec![half_open(v(2, 0, 0), v(3, 0, 0)), half_open(v(5, 0, 0), v(6, 0, 0))]);
    let rest = a.difference(&b);
    assert_eq!(
        ranges_of(&rest),
        vec![
            half_open(v(1, 0, 0), v(2, 0, 0)),
            half_open(v(3, 0, 0), v(5, 0, 0)),
            half_open(v(6, 0, 0), v(10, 0, 0)),
        ]
    );
    assert!(rest.intersection(&b).is_empty());
    assert!(rest.union(&a.intersection(&b)) == a);
    assert!(a.difference(&a).is_empty());
    assert!(a.difference(&Constraint::empty()) == a);
    assert!(b.difference(&a).is_empty());
}

#[test]
fn difference_around_a_single_version() {
    let a = Constraint::from(half_open(v(1, 0, 0), v(2, 0, 0)));
    let point = Constraint::from(v(1, 5, 0));
    let rest = a.difference(&point);
    assert_eq!(
        ranges_of(&rest),
        vec![
            half_open(v(1, 0, 0), v(1, 5, 0)),
            Range::new(Interval::Open(v(1, 5, 0)), Interval::Open(v(2, 0, 0))).unwrap(),
        ]
    );
    assert!(!rest.satisfies(&v(1, 5, 0)));
    assert!(rest.satisfies(&v(1, 5, 1)));
}

#[test]
fn relation_names_every_case() {
    let wide = Constraint::from(half_open(v(1, 0, 0), v(5, 0, 0)));
    let narrow = Constraint::from(half_open(v(2, 0, 0), v(3, 0, 0)));
    let shifted = Constraint::from(half_open(v(4, 0, 0), v(6, 0, 0)));
    let far = Constraint::from(half_open(v(7, 0, 0), v(8, 0, 0)));
    assert_eq!(wide.relation(&wide.clone()), Relation::Equal);
    assert_eq!(wide.relation(&narrow), Relation::Superset);
    assert_eq!(narrow.relation(&wide), Relation::Subset);
    assert_eq!(wide.relation(&shifted), Relation::Overlapping);
    assert_eq!(wide.relation(&far), Relation::Disjoint);
}

#[test]
fn insert_keeps_the_constraint_canonical() {
    let mut c = Constraint::empty();
    assert!(c.is_empty());
    c.insert(half_open(v(3, 0, 0), v(4, 0, 0)));
    c.insert(half_open(v(1, 0, 0), v(2, 0, 0)));
    c.insert(half_open(v(2, 0, 0), v(3, 0, 0)));
    assert_eq!(ranges_of(&c), vec![half_open(v(1, 0, 0), v(4, 0, 0))]);
    c.unify();
    assert_eq!(ranges_of(&c), vec![half_open(v(1, 0, 0), v(4, 0, 0))]);
    assert_eq!(c.clone().take().len(), 1);
}

#[test]
fn constraint_display_lists_ranges() {
    let c = constraint_of(vec![
        half_open(v(1, 0, 0), v(2, 0, 0)),
        half_open(v(3, 0, 0), v(4, 0, 0)),
    ]);
    assert_eq!(c.to_string(), "1.0.0 <= v < 2.0.0, 3.0.0 <= v < 4.0.0");
    assert_eq!(Constraint::any().to_string(), "at any version");
    assert_eq!(Constraint::empty().to_string(), "");
    assert_eq!(Constraint::default().to_string(), "at any version");
}
