//! Constraints: sets of versions written as canonical unions of ranges.

use crate::semver::canon::{
    all_wf, apart, canonical, covers, lemma_canonical_order, lemma_canonical_push,
    is_complement, is_difference, is_intersection, is_union, lemma_canonical_unique,
    lemma_covers_ends, lemma_covers_on_line, lemma_covers_push, lemma_covers_take, on_line,
};
use crate::semver::interval::{point_of, Interval};
use crate::semver::range::Range;
use crate::semver::range_set::{
    set_clone, set_get, set_insert, set_len, set_new, set_ranges, set_sort_by_lower,
    sorted_by_lower,
};
use crate::semver::version::Version;
use crate::text::{join, join_strings, string_views};
use indexmap::IndexSet;
use vstd::prelude::*;
use vstd::string::*;
use vstd::std_specs::cmp::PartialEqSpecImpl;
use vstd::std_specs::convert::FromSpecImpl;

verus! {

/// How the versions of one constraint relate to those of another.
#[derive(Copy, Clone, Debug, Hash, PartialEq, Eq, Structural)]
pub enum Relation {
    Superset,
    Subset,
    Overlapping,
    Disjoint,
    Equal,
}

/// A set of versions: a union of ranges, kept in canonical form.
///
/// The ranges are ascending and no two of them overlap or touch, so two
/// constraints hold the same versions and gaps exactly if they hold the same
/// ranges.
#[derive(Debug)]
pub struct Constraint {
    set: IndexSet<Range>,
}

impl View for Constraint {
    type V = Seq<Range>;

    /// The ranges of the constraint, in ascending order.
    closed spec fn view(&self) -> Seq<Range> {
        set_ranges(self.set)
    }
}

/// The ranges of `s` cover the same points as those of `t`.
pub open spec fn same_cover(s: Seq<Range>, t: Seq<Range>) -> bool {
    forall|p: int| covers(s, p) <==> covers(t, p)
}

/// Sorting keeps what a sequence covers and that its ranges are non-empty.
proof fn lemma_rearranged(a: Seq<Range>, b: Seq<Range>)
    requires
        a.to_multiset() == b.to_multiset(),
    ensures
        same_cover(a, b),
        a.len() == b.len(),
        all_wf(a) <==> all_wf(b),
{
    a.to_multiset_ensures();
    b.to_multiset_ensures();
    assert forall|p: int| covers(a, p) <==> covers(b, p) by {
        if covers(a, p) {
            let i = choose|i: int| 0 <= i < a.len() && #[trigger] a[i].has(p);
            assert(a.contains(a[i]));
            assert(a.to_multiset().count(a[i]) > 0);
            assert(b.to_multiset().count(a[i]) > 0);
            assert(b.contains(a[i]));
            let j = choose|j: int| 0 <= j < b.len() && b[j] == a[i];
            assert(b[j].has(p));
        }
        if covers(b, p) {
            let i = choose|i: int| 0 <= i < b.len() && #[trigger] b[i].has(p);
            assert(b.contains(b[i]));
            assert(b.to_multiset().count(b[i]) > 0);
            assert(a.to_multiset().count(b[i]) > 0);
            assert(a.contains(b[i]));
            let j = choose|j: int| 0 <= j < a.len() && a[j] == b[i];
            assert(a[j].has(p));
        }
    }
    if all_wf(a) {
        assert forall|i: int| 0 <= i < b.len() implies #[trigger] b[i].wf() by {
            assert(b.contains(b[i]));
            assert(b.to_multiset().count(b[i]) > 0);
            assert(a.to_multiset().count(b[i]) > 0);
            assert(a.contains(b[i]));
            let j = choose|j: int| 0 <= j < a.len() && a[j] == b[i];
            assert(a[j].wf());
        }
    }
    if all_wf(b) {
        assert forall|i: int| 0 <= i < a.len() implies #[trigger] a[i].wf() by {
            assert(a.contains(a[i]));
            assert(a.to_multiset().count(a[i]) > 0);
            assert(b.to_multiset().count(a[i]) > 0);
            assert(b.contains(a[i]));
            let j = choose|j: int| 0 <= j < b.len() && b[j] == a[i];
            assert(b[j].wf());
        }
    }
}

/// Brings a set of ranges into canonical form: sorts it by lower end and
/// merges every range into its predecessor that it overlaps or touches.
fn canonical_set(set: IndexSet<Range>) -> (out: IndexSet<Range>)
    ensures
        canonical(set_ranges(out)),
        same_cover(set_ranges(out), set_ranges(set)),
{
    let ghost input = set_ranges(set);
    let mut set = set;
    set_sort_by_lower(&mut set);
    let ghost sorted = set_ranges(set);
    proof {
        lemma_rearranged(sorted, input);
        lemma_covers_ends(sorted);
    }
    let n = set_len(&set);
    let mut out = set_new();
    if n == 0 {
        proof {
            assert(sorted =~= Seq::<Range>::empty());
        }
        return out;
    }
    let mut cur = set_get(&set, 0);
    cur.check();
    proof {
        lemma_covers_take(sorted, 0);
        assert forall|p: int|
            (covers(set_ranges(out), p) || cur.has(p)) <==> covers(sorted.take(1), p) by {
            assert(covers(sorted.take(1), p) <==> (covers(sorted.take(0), p) || sorted[0].has(p)));
            assert(!covers(sorted.take(0), p));
            assert(!covers(Seq::<Range>::empty(), p));
        }
    }
    let mut i: usize = 1;
    while i < n
        invariant
            1 <= i <= n,
            n == sorted.len(),
            sorted == set_ranges(set),
            sorted_by_lower(sorted),
            canonical(set_ranges(out)),
            cur.wf(),
            set_ranges(out).len() > 0 ==> apart(set_ranges(out).last(), cur),
            forall|k: int| i <= k < n ==> cur.lo() <= #[trigger] sorted[k].lo(),
            forall|p: int|
                (covers(set_ranges(out), p) || cur.has(p)) <==> #[trigger] covers(
                    sorted.take(i as int),
                    p,
                ),
        decreases n - i,
    {
        let next = set_get(&set, i);
        next.check();
        let ghost held = set_ranges(out);
        let ghost before = cur;
        proof {
            lemma_covers_take(sorted, i as int);
            assert(cur.lo() <= sorted[i as int].lo());
        }
        if cur.upper().reaches(next.lower()) {
            let upper = *cur.upper().max(next.upper(), false);
            cur = Range::new(*cur.lower(), upper).unwrap();
            proof {
                assert forall|p: int|
                    (covers(set_ranges(out), p) || cur.has(p)) <==> #[trigger] covers(
                        sorted.take(i + 1),
                        p,
                    ) by {
                    assert(covers(sorted.take(i + 1), p) <==> (covers(sorted.take(i as int), p)
                        || next.has(p)));
                    assert((covers(held, p) || before.has(p)) <==> covers(
                        sorted.take(i as int),
                        p,
                    ));
                    assert(cur.has(p) <==> (before.has(p) || next.has(p)));
                }
            }
        } else {
            proof {
                lemma_canonical_push(held, cur);
                lemma_covers_push(held, cur);
            }
            let _ = set_insert(&mut out, cur);
            cur = next;
            proof {
                assert forall|k: int| i + 1 <= k < n implies cur.lo() <= #[trigger] sorted[k].lo() by {
                    assert(sorted[i as int].lo() <= sorted[k].lo());
                }
                assert forall|p: int|
                    (covers(set_ranges(out), p) || cur.has(p)) <==> #[trigger] covers(
                        sorted.take(i + 1),
                        p,
                    ) by {
                    assert(covers(sorted.take(i + 1), p) <==> (covers(sorted.take(i as int), p)
                        || next.has(p)));
                    assert((covers(held, p) || before.has(p)) <==> covers(
                        sorted.take(i as int),
                        p,
                    ));
                    assert(covers(held.push(before), p) <==> (covers(held, p) || before.has(p)));
                }
            }
        }
        i += 1;
    }
    let ghost held = set_ranges(out);
    proof {
        lemma_canonical_push(held, cur);
        lemma_covers_push(held, cur);
    }
    let _ = set_insert(&mut out, cur);
    proof {
        assert(sorted.take(n as int) == sorted);
        assert forall|p: int| covers(set_ranges(out), p) <==> covers(input, p) by {
            assert(covers(held.push(cur), p) <==> (covers(held, p) || cur.has(p)));
            assert((covers(held, p) || cur.has(p)) <==> covers(sorted.take(n as int), p));
            assert(covers(sorted, p) <==> covers(input, p));
        }
    }
    out
}

impl Constraint {
    /// What holds of every constraint that the program holds: its ranges are
    /// in canonical form.
    #[verifier::type_invariant]
    pub closed spec fn inv(&self) -> bool {
        canonical(set_ranges(self.set))
    }

    /// The ranges are in canonical form.
    pub open spec fn wf(&self) -> bool {
        canonical(self@)
    }

    /// The point `p` lies in the constraint.
    pub open spec fn has(&self, p: int) -> bool {
        covers(self@, p)
    }

    /// The version `v` lies in the constraint.
    pub open spec fn contains(&self, v: Version) -> bool {
        covers(self@, point_of(v))
    }

    /// Every constraint that the program holds is in canonical form.
    pub fn check(&self)
        ensures
            self.wf(),
    {
        proof {
            use_type_invariant(self);
        }
    }

    /// The constraint that holds what the given ranges hold together.
    pub fn new(ranges: IndexSet<Range>) -> (c: Constraint)
        ensures
            c.wf(),
            same_cover(c@, set_ranges(ranges)),
    {
        Constraint { set: canonical_set(ranges) }
    }

    /// The constraint that no version satisfies.
    pub fn empty() -> (c: Constraint)
        ensures
            c.wf(),
            c@ == Seq::<Range>::empty(),
    {
        Constraint { set: set_new() }
    }

    /// The constraint that every version satisfies.
    pub fn any() -> (c: Constraint)
        ensures
            c.wf(),
            c@.len() == 1,
            c@[0].lower_bound() == Interval::Unbounded,
            c@[0].upper_bound() == Interval::Unbounded,
    {
        Constraint::from_range(Range::any())
    }

    /// The constraint that holds exactly the range `r`.
    pub fn from_range(r: Range) -> (c: Constraint)
        ensures
            c.wf(),
            c@ == seq![r],
    {
        r.check();
        let mut set = set_new();
        let _ = set_insert(&mut set, r);
        proof {
            lemma_canonical_push(Seq::<Range>::empty(), r);
            assert(set_ranges(set) =~= seq![r]);
        }
        Constraint { set }
    }

    /// The constraint that holds exactly the version `v`.
    pub fn from_version(v: Version) -> (c: Constraint)
        ensures
            c.wf(),
            c@.len() == 1,
            c@[0].lower_bound() == Interval::Closed(v),
            c@[0].upper_bound() == Interval::Closed(v),
    {
        let r = Range::from(&v, &crate::semver::range::Strictness::Exact);
        Constraint::from_range(r)
    }

    /// Adds the versions of `range` to the constraint.
    pub fn insert(&mut self, range: Range)
        ensures
            is_union(old(self)@, seq![range], final(self)@),
    {
        let mut set = set_clone(&self.set);
        let ghost before = set_ranges(set);
        let _ = set_insert(&mut set, range);
        proof {
            lemma_covers_push(before, range);
        }
        let ghost pushed = set_ranges(set);
        self.set = canonical_set(set);
        proof {
            assert forall|p: int| #[trigger]
                covers(self@, p) <==> (covers(before, p) || covers(seq![range], p)) by {
                assert(covers(self@, p) <==> covers(pushed, p));
                assert(covers(before.push(range), p) <==> (covers(before, p) || range.has(p)));
                if range.has(p) {
                    assert(seq![range][0].has(p));
                }
                if covers(pushed, p) && pushed == before {
                    assert(covers(before, p));
                }
                if range.has(p) && pushed == before {
                    let k = choose|k: int| 0 <= k < before.len() && before[k] == range;
                    assert(before[k].has(p));
                }
            }
        }
    }

    /// The ranges of the constraint, in ascending order.
    pub fn retrieve(&self) -> (s: &IndexSet<Range>)
        ensures
            set_ranges(*s) == self@,
    {
        &self.set
    }

    /// Gives up the constraint for its ranges, in ascending order.
    pub fn take(self) -> (s: IndexSet<Range>)
        ensures
            set_ranges(s) == self@,
    {
        self.set
    }

    /// Brings the ranges into canonical form. A constraint is always in that
    /// form, so this leaves it as it is.
    pub fn unify(&mut self)
        ensures
            final(self).wf(),
            final(self)@ == old(self)@,
    {
        proof {
            use_type_invariant(&*self);
        }
        let ghost before = self@;
        let set = set_clone(&self.set);
        self.set = canonical_set(set);
        proof {
            lemma_canonical_unique(self@, before);
        }
    }

    /// Whether no version at all satisfies the constraint.
    pub fn is_empty(&self) -> (r: bool)
        ensures
            r == (self@.len() == 0),
    {
        set_len(&self.set) == 0
    }

    /// Whether the version `v` satisfies the constraint.
    pub fn satisfies(&self, v: &Version) -> (r: bool)
        ensures
            r == self.contains(*v),
    {
        let n = set_len(&self.set);
        let mut i: usize = 0;
        while i < n
            invariant
                i <= n,
                n == self@.len(),
                forall|k: int| 0 <= k < i ==> !(#[trigger] self@[k]).has(point_of(*v)),
            decreases n - i,
        {
            let r = set_get(&self.set, i);
            if r.satisfies(v) {
                return true;
            }
            i += 1;
        }
        false
    }
}

/// No range of `b` holds a point that lies below the range at `j`, above the
/// ranges before `j` that end below `floor`, and at or below `ceiling`.
proof fn lemma_gap(b: Seq<Range>, j: int, floor: int, ceiling: int, p: int)
    requires
        canonical(b),
        0 <= j <= b.len(),
        forall|k: int| 0 <= k < j ==> (#[trigger] b[k]).hi() < floor || b[k].lo() > ceiling,
        floor <= p <= ceiling,
        j < b.len() ==> p < b[j].lo(),
    ensures
        !covers(b, p),
{
    if covers(b, p) {
        let k = choose|k: int| 0 <= k < b.len() && #[trigger] b[k].has(p);
        if k < j {
            assert(b[k].hi() < floor || b[k].lo() > ceiling);
        } else if k > j {
            lemma_canonical_order(b, j, k);
        }
    }
}

impl Constraint {
    /// The versions that satisfy both constraints.
    pub fn intersection(&self, other: &Constraint) -> (r: Constraint)
        ensures
            is_intersection(self@, other@, r@),
    {
        proof {
            use_type_invariant(self);
            use_type_invariant(other);
            lemma_covers_ends(self@);
            lemma_covers_ends(other@);
        }
        let ghost a = self@;
        let ghost b = other@;
        let mut set = set_new();
        let n = set_len(&self.set);
        let m = set_len(&other.set);
        let mut i: usize = 0;
        while i < n
            invariant
                i <= n,
                n == a.len(),
                m == b.len(),
                a == self@,
                b == other@,
                canonical(a),
                canonical(b),
                canonical(set_ranges(set)),
                set_ranges(set).len() > 0 ==> i > 0 && set_ranges(set).last().hi() <= a[i - 1].hi(),
                forall|p: int|
                    #[trigger] covers(set_ranges(set), p) <==> (covers(a.take(i as int), p)
                        && covers(b, p)),
            decreases n - i,
        {
            let r = set_get(&self.set, i);
            let ghost outer = set_ranges(set);
            proof {
                lemma_covers_take(a, i as int);
                assert(r.wf());
                if i > 0 {
                    lemma_canonical_order(a, i - 1, i as int);
                }
            }
            let mut j: usize = 0;
            while j < m
                invariant
                    j <= m,
                    i < n,
                    n == a.len(),
                    m == b.len(),
                    b == other@,
                    canonical(a),
                    canonical(b),
                    r == a[i as int],
                    r.wf(),
                    canonical(set_ranges(set)),
                    set_ranges(set).len() > 0 ==> set_ranges(set).last().hi() + 1 < r.lo() || (j
                        > 0 && set_ranges(set).last().hi() <= b[j - 1].hi() && set_ranges(
                        set,
                    ).last().hi() <= r.hi()),
                    forall|p: int|
                        #[trigger] covers(set_ranges(set), p) <==> (covers(outer, p) || (r.has(p)
                            && covers(b.take(j as int), p))),
                decreases m - j,
            {
                let s = set_get(&other.set, j);
                let ghost held = set_ranges(set);
                proof {
                    lemma_covers_take(b, j as int);
                    assert(s.wf());
                    if j > 0 {
                        lemma_canonical_order(b, j - 1, j as int);
                    }
                }
                match r.intersection(&s) {
                    Some(x) => {
                        proof {
                            lemma_canonical_push(held, x);
                            lemma_covers_push(held, x);
                        }
                        let _ = set_insert(&mut set, x);
                        proof {
                            assert forall|p: int| #[trigger]
                                covers(set_ranges(set), p) <==> (covers(outer, p) || (r.has(p)
                                    && covers(b.take(j + 1), p))) by {
                                assert(covers(held.push(x), p) <==> (covers(held, p) || x.has(p)));
                                assert(covers(held, p) <==> (covers(outer, p) || (r.has(p)
                                    && covers(b.take(j as int), p))));
                                assert(covers(b.take(j + 1), p) <==> (covers(b.take(j as int), p)
                                    || s.has(p)));
                                assert(x.has(p) <==> (r.has(p) && s.has(p)));
                            }
                        }
                    },
                    None => {
                        proof {
                            assert forall|p: int| #[trigger]
                                covers(set_ranges(set), p) <==> (covers(outer, p) || (r.has(p)
                                    && covers(b.take(j + 1), p))) by {
                                assert(covers(held, p) <==> (covers(outer, p) || (r.has(p)
                                    && covers(b.take(j as int), p))));
                                assert(covers(b.take(j + 1), p) <==> (covers(b.take(j as int), p)
                                    || s.has(p)));
                                assert(!(r.has(p) && s.has(p)));
                            }
                        }
                    },
                }
                j += 1;
            }
            proof {
                assert(b.take(m as int) == b);
                assert forall|p: int| #[trigger]
                    covers(set_ranges(set), p) <==> (covers(a.take(i + 1), p) && covers(b, p)) by {
                    assert(covers(set_ranges(set), p) <==> (covers(outer, p) || (r.has(p)
                        && covers(b.take(m as int), p))));
                    assert(covers(outer, p) <==> (covers(a.take(i as int), p) && covers(b, p)));
                    assert(covers(a.take(i + 1), p) <==> (covers(a.take(i as int), p) || r.has(p)));
                }
            }
            i += 1;
        }
        proof {
            assert(a.take(n as int) == a);
        }
        Constraint { set }
    }

    /// The versions that satisfy `self` and do not satisfy `other`.
    ///
    /// Every range of `self` is cut by the ranges of `other` in turn: what
    /// lies below the cutting range is kept as a piece of its own, what lies
    /// above it goes on to be cut by the ranges that follow.
    pub fn difference(&self, other: &Constraint) -> (r: Constraint)
        ensures
            is_difference(self@, other@, r@),
    {
        proof {
            use_type_invariant(self);
            use_type_invariant(other);
            lemma_covers_ends(self@);
            lemma_covers_ends(other@);
        }
        let ghost a = self@;
        let ghost b = other@;
        let mut set = set_new();
        let n = set_len(&self.set);
        let m = set_len(&other.set);
        let mut i: usize = 0;
        while i < n
            invariant
                i <= n,
                n == a.len(),
                m == b.len(),
                a == self@,
                b == other@,
                canonical(a),
                canonical(b),
                canonical(set_ranges(set)),
                set_ranges(set).len() > 0 ==> i > 0 && set_ranges(set).last().hi() <= a[i - 1].hi(),
                forall|p: int|
                    #[trigger] covers(set_ranges(set), p) <==> (covers(a.take(i as int), p)
                        && !covers(b, p)),
            decreases n - i,
        {
            let r = set_get(&self.set, i);
            let ghost outer = set_ranges(set);
            proof {
                lemma_covers_take(a, i as int);
                assert(r.wf());
                if i > 0 {
                    lemma_canonical_order(a, i - 1, i as int);
                }
            }
            let mut cur = r;
            let mut alive = true;
            let mut j: usize = 0;
            while j < m && alive
                invariant
                    j <= m,
                    i < n,
                    n == a.len(),
                    m == b.len(),
                    b == other@,
                    canonical(a),
                    canonical(b),
                    r == a[i as int],
                    r.wf(),
                    canonical(set_ranges(set)),
                    alive ==> cur.wf() && cur.hi() == r.hi() && r.lo() <= cur.lo(),
                    set_ranges(set).len() > 0 ==> set_ranges(set).last().hi() + 1 < (if alive {
                        cur.lo()
                    } else {
                        r.hi() + 1
                    }),
                    alive ==> forall|k: int|
                        0 <= k < j ==> (#[trigger] b[k]).hi() < cur.lo() || b[k].lo() > r.hi(),
                    forall|p: int|
                        #[trigger] covers(set_ranges(set), p) <==> (covers(outer, p) || (r.lo() <= p
                            && p < (if alive {
                            cur.lo()
                        } else {
                            r.hi() + 1
                        }) && !covers(b, p))),
                decreases m - j,
            {
                let s = set_get(&other.set, j);
                let ghost held = set_ranges(set);
                let ghost before = cur;
                proof {
                    assert(s.wf());
                    s.lower_bound().lemma_flipped();
                    s.upper_bound().lemma_flipped();
                    s.lemma_same_points(s);
                    cur.lemma_same_points(cur);
                }
                if s.upper().ends_before(cur.lower()) {
                    // the cutting range lies below what is left
                } else if cur.upper().ends_before(s.lower()) {
                    // the cutting range lies above what is left
                } else {
                    let mut left: Option<Range> = None;
                    if cur.lower().below(s.lower(), true) {
                        let piece = Range::new(*cur.lower(), s.lower().flip()).unwrap();
                        proof {
                            lemma_canonical_push(held, piece);
                            lemma_covers_push(held, piece);
                        }
                        let _ = set_insert(&mut set, piece);
                        left = Some(piece);
                    }
                    if s.upper().below(cur.upper(), false) {
                        cur = Range::new(s.upper().flip(), *cur.upper()).unwrap();
                    } else {
                        alive = false;
                    }
                    proof {
                        let frontier = if alive {
                            cur.lo()
                        } else {
                            r.hi() + 1
                        };
                        assert forall|p: int| #[trigger]
                            covers(set_ranges(set), p) <==> (covers(outer, p) || (r.lo() <= p && p
                                < frontier && !covers(b, p))) by {
                            assert(covers(held, p) <==> (covers(outer, p) || (r.lo() <= p && p
                                < before.lo() && !covers(b, p))));
                            if left is Some {
                                assert(covers(held.push(left->0), p) <==> (covers(held, p)
                                    || left->0.has(p)));
                                if left->0.has(p) {
                                    lemma_gap(b, j as int, before.lo(), r.hi(), p);
                                }
                            }
                            if before.lo() <= p < frontier {
                                if s.has(p) {
                                    assert(b[j as int].has(p));
                                    assert(covers(b, p));
                                } else {
                                    assert(p < s.lo());
                                    assert(left is Some && left->0.has(p));
                                }
                            }
                        }
                    }
                }
                j += 1;
            }
            if alive {
                let ghost held = set_ranges(set);
                proof {
                    lemma_canonical_push(held, cur);
                    lemma_covers_push(held, cur);
                }
                let _ = set_insert(&mut set, cur);
                proof {
                    assert forall|p: int| #[trigger]
                        covers(set_ranges(set), p) <==> (covers(a.take(i + 1), p) && !covers(
                            b,
                            p,
                        )) by {
                        assert(covers(held.push(cur), p) <==> (covers(held, p) || cur.has(p)));
                        assert(covers(held, p) <==> (covers(outer, p) || (r.lo() <= p && p
                            < cur.lo() && !covers(b, p))));
                        assert(covers(outer, p) <==> (covers(a.take(i as int), p) && !covers(
                            b,
                            p,
                        )));
                        assert(covers(a.take(i + 1), p) <==> (covers(a.take(i as int), p)
                            || r.has(p)));
                        if cur.has(p) {
                            lemma_gap(b, m as int, cur.lo(), r.hi(), p);
                        }
                    }
                }
            } else {
                proof {
                    assert forall|p: int| #[trigger]
                        covers(set_ranges(set), p) <==> (covers(a.take(i + 1), p) && !covers(
                            b,
                            p,
                        )) by {
                        assert(covers(set_ranges(set), p) <==> (covers(outer, p) || (r.lo() <= p
                            && p < r.hi() + 1 && !covers(b, p))));
                        assert(covers(outer, p) <==> (covers(a.take(i as int), p) && !covers(
                            b,
                            p,
                        )));
                        assert(covers(a.take(i + 1), p) <==> (covers(a.take(i as int), p)
                            || r.has(p)));
                    }
                }
            }
            i += 1;
        }
        proof {
            assert(a.take(n as int) == a);
        }
        Constraint { set }
    }

    /// The versions that satisfy at least one of the two constraints.
    pub fn union(&self, other: &Constraint) -> (r: Constraint)
        ensures
            is_union(self@, other@, r@),
    {
        proof {
            lemma_covers_ends(other@);
        }
        let ghost a = self@;
        let ghost b = other@;
        let mut set = set_clone(&self.set);
        let m = set_len(&other.set);
        let mut j: usize = 0;
        while j < m
            invariant
                j <= m,
                m == b.len(),
                b == other@,
                forall|p: int|
                    #[trigger] covers(set_ranges(set), p) <==> (covers(a, p) || covers(
                        b.take(j as int),
                        p,
                    )),
            decreases m - j,
        {
            let s = set_get(&other.set, j);
            let ghost held = set_ranges(set);
            proof {
                lemma_covers_take(b, j as int);
                lemma_covers_push(held, s);
            }
            let fresh = set_insert(&mut set, s);
            proof {
                assert forall|p: int| #[trigger]
                    covers(set_ranges(set), p) <==> (covers(a, p) || covers(b.take(j + 1), p)) by {
                    assert(covers(held, p) <==> (covers(a, p) || covers(b.take(j as int), p)));
                    assert(covers(b.take(j + 1), p) <==> (covers(b.take(j as int), p) || s.has(p)));
                    assert(covers(held.push(s), p) <==> (covers(held, p) || s.has(p)));
                    if !fresh && s.has(p) {
                        let k = choose|k: int| 0 <= k < held.len() && held[k] == s;
                        assert(held[k].has(p));
                    }
                }
            }
            j += 1;
        }
        proof {
            assert(b.take(m as int) == b);
        }
        let set = canonical_set(set);
        Constraint { set }
    }

    /// The versions that do not satisfy the constraint.
    pub fn complement(&self) -> (r: Constraint)
        ensures
            is_complement(self@, r@),
    {
        let all = Constraint::any();
        let r = all.difference(self);
        proof {
            assert forall|p: int| #[trigger] covers(r@, p) <==> (on_line(p) && !covers(self@, p)) by {
                assert(covers(r@, p) <==> (covers(all@, p) && !covers(self@, p)));
                if on_line(p) {
                    assert(all@[0].has(p));
                }
                if covers(all@, p) {
                    lemma_covers_on_line(all@, p);
                }
            }
        }
        r
    }

    /// How the versions of `self` relate to those of `other`: the same, all
    /// of them and more, only some of them, none of them, or some of them
    /// and others.
    pub fn relation(&self, other: &Constraint) -> (r: Relation)
        ensures
            r == relation_of(self@, other@),
    {
        proof {
            use_type_invariant(self);
            use_type_invariant(other);
            lemma_covers_ends(self@);
        }
        let i = self.intersection(other);
        proof {
            if subset_cover(other@, self@) {
                assert forall|p: int| covers(i@, p) <==> covers(other@, p) by {
                    assert(covers(i@, p) <==> (covers(self@, p) && covers(other@, p)));
                    assert(covers(other@, p) ==> covers(self@, p));
                }
                lemma_canonical_unique(i@, other@);
            }
            if i@ == other@ {
                assert forall|p: int| covers(other@, p) implies covers(self@, p) by {
                    assert(covers(i@, p) <==> (covers(self@, p) && covers(other@, p)));
                }
            }
            if subset_cover(self@, other@) {
                assert forall|p: int| covers(i@, p) <==> covers(self@, p) by {
                    assert(covers(i@, p) <==> (covers(self@, p) && covers(other@, p)));
                    assert(covers(self@, p) ==> covers(other@, p));
                }
                lemma_canonical_unique(i@, self@);
            }
            if i@ == self@ {
                assert forall|p: int| covers(self@, p) implies covers(other@, p) by {
                    assert(covers(i@, p) <==> (covers(self@, p) && covers(other@, p)));
                }
            }
            if i@.len() > 0 {
                assert(i@[0].wf());
                assert(i@[0].has(i@[0].lo()));
                assert(covers(i@, i@[0].lo()));
                assert(covers(self@, i@[0].lo()) && covers(other@, i@[0].lo()));
            }
            if exists|p: int| covers(self@, p) && covers(other@, p) {
                let p = choose|p: int| covers(self@, p) && covers(other@, p);
                assert(covers(i@, p));
            }
        }
        if self == other {
            Relation::Equal
        } else if i == *other {
            Relation::Superset
        } else if i == *self {
            Relation::Subset
        } else if i.is_empty() {
            Relation::Disjoint
        } else {
            Relation::Overlapping
        }
    }
}

/// Every point that `s` covers, `t` covers too.
pub open spec fn subset_cover(s: Seq<Range>, t: Seq<Range>) -> bool {
    forall|p: int| covers(s, p) ==> covers(t, p)
}

/// One canonical sequence relates to another as equal or as a subset
/// exactly if the other covers all that it covers.
pub proof fn lemma_entails(a: Seq<Range>, b: Seq<Range>)
    requires
        canonical(a),
        canonical(b),
    ensures
        (relation_of(a, b) == Relation::Subset || relation_of(a, b) == Relation::Equal)
            <==> subset_cover(a, b),
{
    if a != b && subset_cover(b, a) && subset_cover(a, b) {
        assert forall|p: int| covers(a, p) <==> covers(b, p) by {
            assert(covers(a, p) ==> covers(b, p));
            assert(covers(b, p) ==> covers(a, p));
        }
        lemma_canonical_unique(a, b);
    }
}

/// How what `a` covers relates to what `b` covers. Equal sets are `Equal`;
/// else a set that holds all of the other is its `Superset`, and one held by
/// the other its `Subset`; else sets without a common point are `Disjoint`,
/// and the rest are `Overlapping`.
pub open spec fn relation_of(a: Seq<Range>, b: Seq<Range>) -> Relation {
    if a == b {
        Relation::Equal
    } else if subset_cover(b, a) {
        Relation::Superset
    } else if subset_cover(a, b) {
        Relation::Subset
    } else if !exists|p: int| covers(a, p) && covers(b, p) {
        Relation::Disjoint
    } else {
        Relation::Overlapping
    }
}

/// The ranges are all versions but those of one range `l <= v < u`.
pub open spec fn is_exclusion(s: Seq<Range>) -> bool {
    &&& s.len() == 2
    &&& s[0].lower_bound() == Interval::Unbounded
    &&& s[0].upper_bound() is Open
    &&& s[1].lower_bound() is Closed
    &&& s[1].upper_bound() == Interval::Unbounded
}

/// The written forms of the ranges of `s`.
pub open spec fn range_texts(s: Seq<Range>) -> Seq<Seq<char>> {
    s.map_values(|r: Range| r.text())
}

/// The written form of a constraint with the ranges `s`: a single excluded
/// range is named as such, anything else is the list of the ranges.
pub open spec fn constraint_text(s: Seq<Range>) -> Seq<char> {
    if is_exclusion(s) {
        "at versions other than "@ + s[0].upper_bound()->Open_0.text() + " <= v < "@
            + s[1].lower_bound()->Closed_0.text()
    } else {
        join(range_texts(s), ", "@)
    }
}

impl Constraint {
    /// Writes the constraint.
    pub fn to_string(&self) -> (s: String)
        ensures
            s@ == constraint_text(self@),
    {
        let n = set_len(&self.set);
        if n == 2 {
            let first = set_get(&self.set, 0);
            let second = set_get(&self.set, 1);
            match (first.lower(), first.upper(), second.lower(), second.upper()) {
                (Interval::Unbounded, Interval::Open(l), Interval::Closed(u), Interval::Unbounded) => {
                    let mut s = "at versions other than ".to_owned();
                    s.append(l.to_string().as_str());
                    s.append(" <= v < ");
                    s.append(u.to_string().as_str());
                    return s;
                },
                _ => {},
            }
        }
        let mut parts: Vec<String> = Vec::new();
        let mut i: usize = 0;
        while i < n
            invariant
                i <= n,
                n == self@.len(),
                string_views(parts@) == range_texts(self@.take(i as int)),
            decreases n - i,
        {
            let r = set_get(&self.set, i);
            let ghost before = parts@;
            parts.push(r.to_string());
            proof {
                assert(string_views(parts@) =~= string_views(before).push(r.text()));
                assert(self@.take(i + 1) =~= self@.take(i as int).push(r));
                assert(range_texts(self@.take(i + 1)) =~= range_texts(self@.take(i as int)).push(
                    r.text(),
                ));
            }
            i += 1;
        }
        proof {
            assert(self@.take(n as int) =~= self@);
        }
        join_strings(&parts, ", ")
    }
}

impl From<Range> for Constraint {
    /// The constraint that holds exactly the range `r`.
    fn from(r: Range) -> (c: Constraint)
        ensures
            c.wf(),
            c@ == seq![r],
    {
        Constraint::from_range(r)
    }
}

impl FromSpecImpl<Range> for Constraint {
    open spec fn obeys_from_spec() -> bool {
        false
    }

    open spec fn from_spec(r: Range) -> Constraint {
        choose|c: Constraint| c@ == seq![r]
    }
}

impl From<Version> for Constraint {
    /// The constraint that holds exactly the version `v`.
    fn from(v: Version) -> (c: Constraint)
        ensures
            c.wf(),
            c@.len() == 1,
            c@[0].lower_bound() == Interval::Closed(v),
            c@[0].upper_bound() == Interval::Closed(v),
    {
        Constraint::from_version(v)
    }
}

impl FromSpecImpl<Version> for Constraint {
    open spec fn obeys_from_spec() -> bool {
        false
    }

    open spec fn from_spec(v: Version) -> Constraint {
        choose|c: Constraint|
            c@.len() == 1 && c@[0].lower_bound() == Interval::Closed(v) && c@[0].upper_bound()
                == Interval::Closed(v)
    }
}

impl Clone for Constraint {
    fn clone(&self) -> (c: Constraint)
        ensures
            c@ == self@,
            c.wf(),
    {
        proof {
            use_type_invariant(self);
        }
        Constraint { set: set_clone(&self.set) }
    }
}

impl PartialEq for Constraint {
    fn eq(&self, other: &Constraint) -> (r: bool) {
        let n = set_len(&self.set);
        if n != set_len(&other.set) {
            return false;
        }
        let mut i: usize = 0;
        while i < n
            invariant
                i <= n,
                n == self@.len(),
                n == other@.len(),
                forall|k: int| 0 <= k < i ==> self@[k] == other@[k],
            decreases n - i,
        {
            if set_get(&self.set, i) != set_get(&other.set, i) {
                return false;
            }
            i += 1;
        }
        proof {
            assert(self@ =~= other@);
        }
        true
    }
}

impl Eq for Constraint {

}

impl PartialEqSpecImpl for Constraint {
    open spec fn obeys_eq_spec() -> bool {
        true
    }

    open spec fn eq_spec(&self, other: &Constraint) -> bool {
        self@ == other@
    }
}

impl Default for Constraint {
    fn default() -> (c: Constraint)
        ensures
            c.wf(),
            c@.len() == 1,
            c@[0].lower_bound() == Interval::Unbounded,
            c@[0].upper_bound() == Interval::Unbounded,
    {
        Constraint::any()
    }
}

} // verus!
