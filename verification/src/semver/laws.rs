//! What holds of ranges and constraints in general.

use crate::semver::canon::{
    covers, is_complement, is_difference, is_intersection, is_union, lemma_canonical_order,
    lemma_canonical_unique, lemma_covers_on_line,
};
use crate::semver::constraint::Constraint;
use crate::semver::interval::{point_of, Interval};
use crate::semver::range::Range;
use crate::semver::version::Version;
use vstd::prelude::*;

verus! {

/// The version that follows `v` in the order of versions.
pub open spec fn successor(v: Version) -> Version {
    if v.patch < u64::MAX {
        Version { major: v.major, minor: v.minor, patch: (v.patch + 1) as u64 }
    } else if v.minor < u64::MAX {
        Version { major: v.major, minor: (v.minor + 1) as u64, patch: 0 }
    } else {
        Version { major: (v.major + 1) as u64, minor: 0, patch: 0 }
    }
}

/// The least and the greatest version.
pub open spec fn first_version() -> Version {
    Version { major: 0, minor: 0, patch: 0 }
}

pub open spec fn last_version() -> Version {
    Version { major: u64::MAX, minor: u64::MAX, patch: u64::MAX }
}

/// The ends admit points but no version: two open ends at neighbouring
/// versions, an open lower end at the last version, or an open upper end at
/// the first.
pub open spec fn holds_no_version(lower: Interval, upper: Interval) -> bool {
    match (lower, upper) {
        (Interval::Open(a), Interval::Open(b)) => b.ord() == a.ord() + 1,
        (Interval::Open(a), Interval::Unbounded) => a == last_version(),
        (Interval::Unbounded, Interval::Open(b)) => b == first_version(),
        _ => false,
    }
}

/// A range is never upside down, and some version satisfies it.
///
/// Whenever `Range::new` makes a range of two ends, the lower end does not
/// lie above the upper end; where both are bounded this holds in the order of
/// lower ends too. Unless the ends hold no version between them, some version
/// lies in the range.
pub proof fn law_range_not_empty(lower: Interval, upper: Interval, r: Range)
    requires
        Range::admissible(lower, upper),
        r.lower_bound() == lower,
        r.upper_bound() == upper,
    ensures
        r.lo() <= r.hi(),
        upper != Interval::Unbounded ==> lower.lower_key() <= upper.lower_key(),
        !holds_no_version(lower, upper) ==> exists|v: Version| r.contains(v),
{
    lower.lemma_keys(upper);
    upper.lemma_keys(lower);
    if !holds_no_version(lower, upper) {
        let w = match (lower, upper) {
            (Interval::Closed(a), _) => a,
            (_, Interval::Closed(b)) => b,
            (Interval::Open(a), _) => successor(a),
            (Interval::Unbounded, _) => first_version(),
        };
        first_version().lemma_ord(last_version());
        w.lemma_ord(w);
        match lower {
            Interval::Open(a) => {
                a.lemma_ord(last_version());
                assert(successor(a).ord() == a.ord() + 1) by {
                    a.lemma_ord(a);
                    if a.patch == u64::MAX && a.minor == u64::MAX {
                        assert(a.major < u64::MAX);
                    }
                }
            },
            _ => {},
        }
        match upper {
            Interval::Open(b) => {
                b.lemma_ord(first_version());
            },
            _ => {},
        }
        assert(r.contains(w));
    }
}

/// The ranges of a constraint ascend strictly by their lower ends, and no
/// range can be merged with the next: at least one point lies between them.
pub proof fn law_canonical_form(c: Constraint, i: int)
    requires
        c.wf(),
        0 <= i,
        i + 1 < c@.len(),
    ensures
        c@[i].lo() < c@[i + 1].lo(),
        c@[i].hi() + 1 < c@[i + 1].lo(),
        c@[i].lower_bound() != c@[i + 1].lower_bound(),
{
    lemma_canonical_order(c@, i, i + 1);
}

/// The complement of the complement of a constraint is the constraint.
pub proof fn law_complement_involution(c: Constraint, once: Constraint, twice: Constraint)
    requires
        c.wf(),
        is_complement(c@, once@),
        is_complement(once@, twice@),
    ensures
        twice@ == c@,
{
    assert forall|p: int| covers(twice@, p) <==> covers(c@, p) by {
        assert(covers(once@, p) <==> (crate::semver::canon::on_line(p) && !covers(c@, p)));
        assert(covers(twice@, p) <==> (crate::semver::canon::on_line(p) && !covers(once@, p)));
        if covers(c@, p) {
            lemma_covers_on_line(c@, p);
        }
    }
    lemma_canonical_unique(twice@, c@);
}

/// Intersection does not depend on the order of its operands.
pub proof fn law_intersection_commutes(a: Constraint, b: Constraint, ab: Constraint, ba: Constraint)
    requires
        is_intersection(a@, b@, ab@),
        is_intersection(b@, a@, ba@),
    ensures
        ab@ == ba@,
{
    assert forall|p: int| covers(ab@, p) <==> covers(ba@, p) by {
        assert(covers(ab@, p) <==> (covers(a@, p) && covers(b@, p)));
        assert(covers(ba@, p) <==> (covers(b@, p) && covers(a@, p)));
    }
    lemma_canonical_unique(ab@, ba@);
}

/// Union does not depend on the order of its operands.
pub proof fn law_union_commutes(a: Constraint, b: Constraint, ab: Constraint, ba: Constraint)
    requires
        is_union(a@, b@, ab@),
        is_union(b@, a@, ba@),
    ensures
        ab@ == ba@,
{
    assert forall|p: int| covers(ab@, p) <==> covers(ba@, p) by {
        assert(covers(ab@, p) <==> (covers(a@, p) || covers(b@, p)));
        assert(covers(ba@, p) <==> (covers(b@, p) || covers(a@, p)));
    }
    lemma_canonical_unique(ab@, ba@);
}

/// A version satisfies a constraint exactly if it lies in one of its ranges,
/// that is, between the ends of that range in the order of versions.
pub proof fn law_satisfies_is_membership(c: Constraint, v: Version)
    ensures
        c.contains(v) <==> exists|i: int| 0 <= i < c@.len() && #[trigger] c@[i].contains(v),
{
    if c.contains(v) {
        let i = choose|i: int| 0 <= i < c@.len() && #[trigger] c@[i].has(point_of(v));
        assert(c@[i].contains(v));
    }
    if exists|i: int| 0 <= i < c@.len() && #[trigger] c@[i].contains(v) {
        let i = choose|i: int| 0 <= i < c@.len() && #[trigger] c@[i].contains(v);
        assert(c@[i].has(point_of(v)));
    }
}

/// What is left of `a` without `b` has nothing in common with `b`.
pub proof fn law_difference_is_disjoint(
    a: Constraint,
    b: Constraint,
    rest: Constraint,
    common: Constraint,
)
    requires
        is_difference(a@, b@, rest@),
        is_intersection(rest@, b@, common@),
    ensures
        common@ == Seq::<Range>::empty(),
{
    if common@.len() > 0 {
        let r = common@[0];
        assert(r.wf());
        assert(r.has(r.lo()));
        assert(covers(common@, r.lo()));
        assert(covers(rest@, r.lo()) && covers(b@, r.lo()));
        assert(covers(rest@, r.lo()) <==> (covers(a@, r.lo()) && !covers(b@, r.lo())));
    }
    assert(common@ =~= Seq::<Range>::empty());
}

/// What is left of `a` without `b`, together with what `a` and `b` have in
/// common, is `a`.
pub proof fn law_difference_and_intersection_restore(
    a: Constraint,
    b: Constraint,
    rest: Constraint,
    common: Constraint,
    both: Constraint,
)
    requires
        a.wf(),
        is_difference(a@, b@, rest@),
        is_intersection(a@, b@, common@),
        is_union(rest@, common@, both@),
    ensures
        both@ == a@,
{
    assert forall|p: int| covers(both@, p) <==> covers(a@, p) by {
        assert(covers(both@, p) <==> (covers(rest@, p) || covers(common@, p)));
        assert(covers(rest@, p) <==> (covers(a@, p) && !covers(b@, p)));
        assert(covers(common@, p) <==> (covers(a@, p) && covers(b@, p)));
    }
    lemma_canonical_unique(both@, a@);
}

} // verus!
