//! Ranges: non-empty convex sets of versions.

use crate::semver::interval::{point_of, top, Interval};
use crate::semver::version::{int_ordering, Version};
use std::cmp::Ordering;
use vstd::prelude::*;
use vstd::std_specs::convert::FromSpecImpl;
use vstd::string::*;

verus! {

/// How far a range made from a single version reaches.
#[derive(Copy, Clone, Debug, PartialEq, Eq, Structural)]
pub enum Strictness {
    /// The version itself and nothing else.
    Exact,
    /// From the version up to, but not including, the next major version.
    Safe,
    /// From the version upwards without limit.
    Unsafe,
}

/// A run of consecutive versions between a lower and an upper end.
///
/// Only [`Range::new`] and the other constructors make ranges, so the lower
/// end never lies above the upper end.
#[derive(Copy, Clone, Debug, PartialEq, Eq, Hash, Structural)]
pub struct Range {
    lower: Interval,
    upper: Interval,
}

impl Range {
    /// What holds of every range that the program holds: it is not empty.
    #[verifier::type_invariant]
    pub closed spec fn inv(self) -> bool {
        self.lower.lower_key() <= self.upper.upper_key()
    }

    /// The lower end.
    pub closed spec fn lower_bound(self) -> Interval {
        self.lower
    }

    /// The upper end.
    pub closed spec fn upper_bound(self) -> Interval {
        self.upper
    }

    /// The range with the given ends.
    pub closed spec fn of_ends(lower: Interval, upper: Interval) -> Range {
        Range { lower, upper }
    }

    /// A range is the range of its ends.
    pub proof fn lemma_of_ends(self)
        ensures
            self == Range::of_ends(self.lower_bound(), self.upper_bound()),
            forall|l: Interval, u: Interval|
                #![trigger Range::of_ends(l, u)]
                Range::of_ends(l, u).lower_bound() == l && Range::of_ends(l, u).upper_bound() == u,
    {
    }

    /// The lowest point of the range.
    pub open spec fn lo(self) -> int {
        self.lower_bound().lower_key()
    }

    /// The highest point of the range.
    pub open spec fn hi(self) -> int {
        self.upper_bound().upper_key()
    }

    /// The range is not empty: its lowest point is not above its highest.
    pub open spec fn wf(self) -> bool {
        self.lo() <= self.hi()
    }

    /// The point `p` lies in the range.
    pub open spec fn has(self, p: int) -> bool {
        self.lo() <= p <= self.hi()
    }

    /// The version `v` lies in the range.
    pub open spec fn contains(self, v: Version) -> bool {
        self.has(point_of(v))
    }

    /// The ends admit at least one point between them.
    pub open spec fn admissible(lower: Interval, upper: Interval) -> bool {
        lower.lower_key() <= upper.upper_key()
    }

    /// The written form of the range.
    pub open spec fn text(self) -> Seq<char> {
        match (self.lower_bound(), self.upper_bound()) {
            (Interval::Unbounded, Interval::Unbounded) => "at any version"@,
            (Interval::Unbounded, b) => b.text(false),
            (a, Interval::Unbounded) => a.text(true),
            (Interval::Closed(a), Interval::Open(b)) => a.text() + " <= v < "@ + b.text(),
            (Interval::Closed(a), Interval::Closed(b)) => if a == b {
                a.text()
            } else {
                Interval::Closed(a).text(true) + " "@ + Interval::Closed(b).text(false)
            },
            (a, b) => a.text(true) + " "@ + b.text(false),
        }
    }

    /// A range is determined by its two ends, and so by its lowest and
    /// highest points.
    pub proof fn lemma_same_points(self, other: Range)
        ensures
            (self.lower_bound() == other.lower_bound() && self.upper_bound() == other.upper_bound())
                <==> self == other,
            (self.lo() == other.lo() && self.hi() == other.hi()) <==> self == other,
            -1 <= self.lo() <= top(),
            -1 <= self.hi() <= top(),
    {
        self.lower.lemma_keys(other.lower);
        self.upper.lemma_keys(other.upper);
    }

    /// Whether a version and a range of versions meet is a matter of order
    /// between the version and the versions at the two ends.
    pub proof fn lemma_contains(self, v: Version)
        ensures
            self.contains(v) <==> (match self.lower_bound() {
                Interval::Unbounded => true,
                Interval::Closed(l) => l.ord() <= v.ord(),
                Interval::Open(l) => l.ord() < v.ord(),
            } && match self.upper_bound() {
                Interval::Unbounded => true,
                Interval::Closed(u) => v.ord() <= u.ord(),
                Interval::Open(u) => v.ord() < u.ord(),
            }),
    {
        v.lemma_ord(v);
    }

    /// The range from `lower` to `upper`, or `None` if no point lies between
    /// them: if the lower end is above the upper end, or if both are at the
    /// same version and one of them is open.
    pub fn new(lower: Interval, upper: Interval) -> (r: Option<Range>)
        ensures
            r is Some <==> Range::admissible(lower, upper),
            r is Some ==> r->0 == Range::of_ends(lower, upper) && r->0.lower_bound() == lower
                && r->0.upper_bound() == upper && r->0.wf(),
    {
        proof {
            lower.lemma_keys(upper);
            upper.lemma_keys(lower);
            match (lower, upper) {
                (Interval::Closed(a), Interval::Closed(b)) => {
                    a.lemma_ord(b);
                },
                (Interval::Closed(a), Interval::Open(b)) => {
                    a.lemma_ord(b);
                },
                (Interval::Open(a), Interval::Closed(b)) => {
                    a.lemma_ord(b);
                },
                (Interval::Open(a), Interval::Open(b)) => {
                    a.lemma_ord(b);
                },
                _ => {},
            }
        }
        match (lower, upper) {
            (Interval::Unbounded, b) => Some(Range { lower: Interval::Unbounded, upper: b }),
            (a, Interval::Unbounded) => Some(Range { lower: a, upper: Interval::Unbounded }),
            (Interval::Open(a), Interval::Closed(b)) => {
                if a == b {
                    None
                } else {
                    match a.compare(&b) {
                        Ordering::Greater => None,
                        _ => Some(Range { lower, upper }),
                    }
                }
            },
            (Interval::Closed(a), Interval::Open(b)) => {
                if a == b {
                    None
                } else {
                    match a.compare(&b) {
                        Ordering::Greater => None,
                        _ => Some(Range { lower, upper }),
                    }
                }
            },
            (Interval::Open(a), Interval::Open(b)) => {
                if a == b {
                    None
                } else {
                    match a.compare(&b) {
                        Ordering::Greater => None,
                        _ => Some(Range { lower, upper }),
                    }
                }
            },
            (Interval::Closed(a), Interval::Closed(b)) => {
                match a.compare(&b) {
                    Ordering::Greater => None,
                    _ => Some(Range { lower, upper }),
                }
            },
        }
    }

    /// The range of all versions.
    pub fn any() -> (r: Range)
        ensures
            r == Range::of_ends(Interval::Unbounded, Interval::Unbounded),
            r.lower_bound() == Interval::Unbounded,
            r.upper_bound() == Interval::Unbounded,
            r.wf(),
    {
        let lower = Interval::Unbounded;
        let upper = Interval::Unbounded;
        Range { lower, upper }
    }

    /// The upper end.
    pub fn upper(&self) -> (r: &Interval)
        ensures
            *r == self.upper_bound(),
    {
        &self.upper
    }

    /// The lower end.
    pub fn lower(&self) -> (r: &Interval)
        ensures
            *r == self.lower_bound(),
    {
        &self.lower
    }

    /// Both ends, lower first.
    pub fn take(self) -> (r: (Interval, Interval))
        ensures
            r == (self.lower_bound(), self.upper_bound()),
    {
        (self.lower, self.upper)
    }

    /// Whether `version` lies in the range.
    pub fn satisfies(&self, version: &Version) -> (r: bool)
        ensures
            r == self.contains(*version),
    {
        proof {
            self.lemma_contains(*version);
        }
        let satisfies_upper = match &self.upper {
            Interval::Open(u) => match version.compare(u) {
                Ordering::Less => true,
                _ => false,
            },
            Interval::Closed(u) => match version.compare(u) {
                Ordering::Greater => false,
                _ => true,
            },
            Interval::Unbounded => true,
        };
        let satisfies_lower = match &self.lower {
            Interval::Open(l) => match version.compare(l) {
                Ordering::Greater => true,
                _ => false,
            },
            Interval::Closed(l) => match version.compare(l) {
                Ordering::Less => false,
                _ => true,
            },
            Interval::Unbounded => true,
        };
        satisfies_lower && satisfies_upper
    }

    /// What two ranges have in common, or `None` if they share no point:
    /// the range from the greater lower end to the lesser upper end.
    pub fn intersection(&self, other: &Range) -> (r: Option<Range>)
        ensures
            r is Some <==> vstd::math::max(self.lo(), other.lo()) <= vstd::math::min(
                self.hi(),
                other.hi(),
            ),
            r is Some ==> r->0.wf() && r->0.lo() == vstd::math::max(self.lo(), other.lo())
                && r->0.hi() == vstd::math::min(self.hi(), other.hi()),
    {
        let lower = self.lower.max(&other.lower, true);
        let upper = self.upper.min(&other.upper, false);
        Range::new(*lower, *upper)
    }

    /// Orders two ranges by their lower ends.
    pub fn cmp_lower(&self, other: &Range) -> (r: Ordering)
        ensures
            r == int_ordering(self.lo(), other.lo()),
    {
        self.lower.cmp(&other.lower, true)
    }

    /// Every range that the program holds is well formed.
    pub fn check(&self)
        ensures
            self.wf(),
    {
        proof {
            use_type_invariant(self);
        }
    }

    /// The range that a single version stands for under `strictness`: the
    /// version alone, the versions from it up to the next major version, or
    /// all versions from it upwards.
    pub fn from(v: &Version, strictness: &Strictness) -> (r: Range)
        requires
            strictness is Safe ==> v.major < u64::MAX,
        ensures
            r.wf(),
            r == Range::of_ends(r.lower_bound(), r.upper_bound()),
            r.lower_bound() == Interval::Closed(*v),
            r.upper_bound() == match strictness {
                Strictness::Exact => Interval::Closed(*v),
                Strictness::Safe => Interval::Open(
                    Version { major: (v.major + 1) as u64, minor: 0, patch: 0 },
                ),
                Strictness::Unsafe => Interval::Unbounded,
            },
    {
        let lower = Interval::Closed(*v);
        let upper = match strictness {
            Strictness::Exact => Interval::Closed(*v),
            Strictness::Safe => Interval::Open(Version::new(v.major + 1, 0, 0)),
            Strictness::Unsafe => Interval::Unbounded,
        };
        proof {
            v.lemma_ord(*v);
            lower.lemma_keys(upper);
        }
        Range { lower, upper }
    }

    /// Writes the range.
    pub fn to_string(&self) -> (s: String)
        ensures
            s@ == self.text(),
    {
        match (&self.lower, &self.upper) {
            (Interval::Unbounded, Interval::Unbounded) => String::from_str("at any version"),
            (Interval::Unbounded, b) => b.show(false),
            (a, Interval::Unbounded) => a.show(true),
            (Interval::Closed(a), Interval::Open(b)) => {
                let mut s = a.to_string();
                s.append(" <= v < ");
                s.append(b.to_string().as_str());
                s
            },
            (Interval::Closed(a), Interval::Closed(b)) => {
                if *a == *b {
                    a.to_string()
                } else {
                    let mut s = self.lower.show(true);
                    s.append(" ");
                    s.append(self.upper.show(false).as_str());
                    s
                }
            },
            (a, b) => {
                let mut s = a.show(true);
                s.append(" ");
                s.append(b.show(false).as_str());
                s
            },
        }
    }
}

impl From<Version> for Range {
    fn from(v: Version) -> (r: Range) {
        let lower = Interval::Closed(v);
        let upper = Interval::Closed(v);
        Range { lower, upper }
    }
}

impl FromSpecImpl<Version> for Range {
    open spec fn obeys_from_spec() -> bool {
        true
    }

    /// The range that holds the version `v` alone.
    open spec fn from_spec(v: Version) -> Range {
        Range::of_ends(Interval::Closed(v), Interval::Closed(v))
    }
}

} // verus!
