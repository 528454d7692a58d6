//! Interval ends: one bound of a range, open, closed or absent.

use crate::semver::version::{int_ordering, Version};
use std::cmp::Ordering;
use vstd::prelude::*;
use vstd::string::*;

verus! {

/// One end of a range of versions.
///
/// The same value can serve as a lower or as an upper end. `Closed(v)`
/// includes `v`, `Open(v)` stops just short of it, `Unbounded` sets no limit.
#[derive(Copy, Clone, Debug, PartialEq, Eq, Hash, Structural)]
pub enum Interval {
    Closed(Version),
    Open(Version),
    Unbounded,
}

/// The largest point of the line on which ranges are laid out.
///
/// The line has a point `2 * v.ord()` for every version `v`, one point
/// between any two neighbouring versions, one below the first version and one
/// above the last. A range is a run of consecutive points.
pub open spec fn top() -> int {
    2 * Version::ord_limit() - 1
}

/// The point at which the version `v` lies.
pub open spec fn point_of(v: Version) -> int {
    2 * v.ord()
}

impl Interval {
    /// The lowest point of a range that has `self` as its lower end.
    pub open spec fn lower_key(self) -> int {
        match self {
            Interval::Unbounded => -1,
            Interval::Closed(v) => 2 * v.ord(),
            Interval::Open(v) => 2 * v.ord() + 1,
        }
    }

    /// The highest point of a range that has `self` as its upper end.
    pub open spec fn upper_key(self) -> int {
        match self {
            Interval::Unbounded => top(),
            Interval::Closed(v) => 2 * v.ord(),
            Interval::Open(v) => 2 * v.ord() - 1,
        }
    }

    /// The point that `self` marks as a lower end (`lower`) or as an upper end.
    pub open spec fn key(self, lower: bool) -> int {
        if lower {
            self.lower_key()
        } else {
            self.upper_key()
        }
    }

    /// The end that excludes exactly what `self` includes at its version.
    pub open spec fn flipped(self) -> Interval {
        match self {
            Interval::Closed(v) => Interval::Open(v),
            Interval::Open(v) => Interval::Closed(v),
            Interval::Unbounded => Interval::Unbounded,
        }
    }

    /// The written form of this end: empty if unbounded, else a comparison
    /// sign and the version.
    pub open spec fn text(self, lower: bool) -> Seq<char> {
        match self {
            Interval::Unbounded => Seq::<char>::empty(),
            Interval::Closed(v) => if lower {
                ">="@ + v.text()
            } else {
                "<="@ + v.text()
            },
            Interval::Open(v) => if lower {
                ">"@ + v.text()
            } else {
                "<"@ + v.text()
            },
        }
    }

    /// Keys lie on the line, and each kind of key determines the end.
    pub proof fn lemma_keys(self, other: Interval)
        ensures
            -1 <= self.lower_key() <= top(),
            -1 <= self.upper_key() <= top(),
            self.lower_key() == other.lower_key() <==> self == other,
            self.upper_key() == other.upper_key() <==> self == other,
    {
        match self {
            Interval::Closed(v) => {
                v.lemma_ord(v);
            },
            Interval::Open(v) => {
                v.lemma_ord(v);
            },
            Interval::Unbounded => {},
        }
        match other {
            Interval::Closed(w) => {
                w.lemma_ord(w);
            },
            Interval::Open(w) => {
                w.lemma_ord(w);
            },
            Interval::Unbounded => {},
        }
        match (self, other) {
            (Interval::Closed(v), Interval::Closed(w)) => {
                v.lemma_ord(w);
            },
            (Interval::Open(v), Interval::Open(w)) => {
                v.lemma_ord(w);
            },
            _ => {},
        }
    }

    /// Flipping turns the upper end of one range into the lower end of what
    /// follows it, and the lower end of a range into the upper end of what
    /// comes before it.
    pub proof fn lemma_flipped(self)
        ensures
            self.flipped().flipped() == self,
            self != Interval::Unbounded ==> self.flipped().lower_key() == self.upper_key() + 1,
            self != Interval::Unbounded ==> self.flipped().upper_key() == self.lower_key() - 1,
    {
    }

    /// Compares two ends, both taken as lower ends (`lower`) or both as upper
    /// ends. At the same version a closed lower end comes before an open one,
    /// and an open upper end before a closed one. `Unbounded` is the least
    /// lower end and the greatest upper end.
    pub fn cmp(&self, other: &Interval, lower: bool) -> (r: Ordering)
        ensures
            r == int_ordering(self.key(lower), other.key(lower)),
    {
        proof {
            self.lemma_keys(*other);
        }
        match (self, other) {
            (Interval::Unbounded, Interval::Unbounded) => Ordering::Equal,
            (Interval::Unbounded, _) => {
                if lower {
                    Ordering::Less
                } else {
                    Ordering::Greater
                }
            },
            (_, Interval::Unbounded) => {
                if lower {
                    Ordering::Greater
                } else {
                    Ordering::Less
                }
            },
            (Interval::Open(a), Interval::Open(b)) => a.compare(b),
            (Interval::Closed(a), Interval::Closed(b)) => a.compare(b),
            (Interval::Open(a), Interval::Closed(b)) => {
                if *a == *b {
                    if lower {
                        Ordering::Greater
                    } else {
                        Ordering::Less
                    }
                } else {
                    a.compare(b)
                }
            },
            (Interval::Closed(a), Interval::Open(b)) => {
                if *a == *b {
                    if lower {
                        Ordering::Less
                    } else {
                        Ordering::Greater
                    }
                } else {
                    a.compare(b)
                }
            },
        }
    }

    /// Whether `self` comes strictly before `other`, both taken as lower
    /// ends (`lower`) or both as upper ends.
    pub fn below(&self, other: &Interval, lower: bool) -> (r: bool)
        ensures
            r == (self.key(lower) < other.key(lower)),
    {
        match self.cmp(other, lower) {
            Ordering::Less => true,
            _ => false,
        }
    }

    /// The lesser of two ends; `self` if they are equal.
    pub fn min<'a>(&'a self, other: &'a Interval, lower: bool) -> (r: &'a Interval)
        ensures
            *r == if self.key(lower) > other.key(lower) {
                *other
            } else {
                *self
            },
    {
        match self.cmp(other, lower) {
            Ordering::Greater => other,
            _ => self,
        }
    }

    /// The greater of two ends; `self` if they are equal.
    pub fn max<'a>(&'a self, other: &'a Interval, lower: bool) -> (r: &'a Interval)
        ensures
            *r == if self.key(lower) < other.key(lower) {
                *other
            } else {
                *self
            },
    {
        match self.cmp(other, lower) {
            Ordering::Less => other,
            _ => self,
        }
    }

    /// Swaps open and closed; `Unbounded` stays.
    pub fn flip(self) -> (r: Interval)
        ensures
            r == self.flipped(),
    {
        match self {
            Interval::Closed(v) => Interval::Open(v),
            Interval::Open(v) => Interval::Closed(v),
            Interval::Unbounded => Interval::Unbounded,
        }
    }

    /// Writes the end with its comparison sign, for a lower or an upper end.
    pub fn show(&self, lower: bool) -> (s: String)
        ensures
            s@ == self.text(lower),
    {
        match self {
            Interval::Unbounded => String::new(),
            Interval::Closed(v) => {
                let mut s = if lower {
                    String::from_str(">=")
                } else {
                    String::from_str("<=")
                };
                s.append(v.to_string().as_str());
                s
            },
            Interval::Open(v) => {
                let mut s = if lower {
                    String::from_str(">")
                } else {
                    String::from_str("<")
                };
                s.append(v.to_string().as_str());
                s
            },
        }
    }

    /// Whether a range that ends at `self` and a range that starts at `lower`
    /// overlap or leave no point between them.
    pub fn reaches(&self, lower: &Interval) -> (r: bool)
        ensures
            r == (lower.lower_key() <= self.upper_key() + 1),
    {
        proof {
            self.lemma_keys(*lower);
            lower.lemma_keys(*self);
        }
        match (self, lower) {
            (Interval::Unbounded, _) => true,
            (_, Interval::Unbounded) => true,
            (Interval::Open(u), Interval::Open(l)) => match l.compare(u) {
                Ordering::Less => true,
                _ => false,
            },
            (Interval::Open(u), Interval::Closed(l)) => match l.compare(u) {
                Ordering::Greater => false,
                _ => true,
            },
            (Interval::Closed(u), Interval::Open(l)) => match l.compare(u) {
                Ordering::Greater => false,
                _ => true,
            },
            (Interval::Closed(u), Interval::Closed(l)) => match l.compare(u) {
                Ordering::Greater => false,
                _ => true,
            },
        }
    }

    /// Whether a range that ends at `self` lies wholly below one that starts
    /// at `lower`.
    pub fn ends_before(&self, lower: &Interval) -> (r: bool)
        ensures
            r == (self.upper_key() < lower.lower_key()),
    {
        proof {
            self.lemma_keys(*lower);
            lower.lemma_keys(*self);
        }
        match (self, lower) {
            (Interval::Unbounded, _) => false,
            (_, Interval::Unbounded) => false,
            (Interval::Closed(u), Interval::Closed(l)) => match u.compare(l) {
                Ordering::Less => true,
                _ => false,
            },
            (Interval::Open(u), Interval::Closed(l)) => match u.compare(l) {
                Ordering::Greater => false,
                _ => true,
            },
            (Interval::Closed(u), Interval::Open(l)) => match u.compare(l) {
                Ordering::Greater => false,
                _ => true,
            },
            (Interval::Open(u), Interval::Open(l)) => match u.compare(l) {
                Ordering::Greater => false,
                _ => true,
            },
        }
    }
}

} // verus!
