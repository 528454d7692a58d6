//! Incompatibilities: sets of terms that cannot all hold at once.

use crate::package::retriever::{PackageId, PackageIdView};
use crate::semver::canon::{complement_of, lemma_complement_of};
use crate::semver::constraint::{constraint_text, Constraint};
use crate::semver::interval::Interval;
use crate::semver::range::Range;
use crate::solver::summary::Summary;
use crate::solver::term_map::{
    has_term, map_clone, map_get, map_insert, map_len, map_new, map_terms,
};
use crate::text::{join, join_strings, push_decimal, string_views};
use indexmap::IndexMap;
use vstd::prelude::*;
use vstd::string::*;

verus! {

/// Where an incompatibility comes from.
#[derive(Copy, Clone, Debug, PartialEq, Eq, Structural)]
pub enum IncompatibilityCause {
    /// A version of a package depends on another package.
    Dependency,
    /// The root was chosen.
    Root,
    /// No version of the package is in the range that is asked for.
    Unavailable,
    /// The registry does not know the package.
    UnknownPackage,
    /// It follows from the two incompatibilities at these positions.
    Derived(usize, usize),
}

/// How an incompatibility stands to what has been assigned so far.
#[derive(Debug)]
pub enum IncompatMatch<PackageId> {
    /// Every term holds: a conflict.
    Satisfied,
    /// Every term but the one for this package holds.
    Almost(PackageId),
    /// Some term cannot hold, or more than one is open.
    Contradicted,
}

/// A term as mathematics sees it: a package and the ranges of a constraint.
pub type TermView = (PackageIdView, Seq<Range>);

/// What the entries of a map say, in order.
pub open spec fn term_views(terms: Seq<(PackageId, Constraint)>) -> Seq<TermView> {
    terms.map_values(|t: (PackageId, Constraint)| (t.0@, t.1@))
}

/// The written form of one term: `this project` for the root, else the
/// package and its constraint.
pub open spec fn term_text(t: TermView) -> Seq<char> {
    if t.0 == PackageIdView::Root {
        "this project"@
    } else {
        t.0.text() + " "@ + constraint_text(t.1)
    }
}

/// The written forms of the terms, in order.
pub open spec fn term_texts(terms: Seq<TermView>) -> Seq<Seq<char>> {
    terms.map_values(|t: TermView| term_text(t))
}

/// The number of terms is what the cause asks for: two for a dependency,
/// one for a package that is unavailable or unknown.
pub open spec fn shaped(terms: Seq<TermView>, cause: IncompatibilityCause) -> bool {
    match cause {
        IncompatibilityCause::Dependency => terms.len() == 2,
        IncompatibilityCause::Unavailable => terms.len() == 1,
        IncompatibilityCause::UnknownPackage => terms.len() == 1,
        _ => true,
    }
}

/// The sentence that states an incompatibility.
pub open spec fn incompat_text(terms: Seq<TermView>, cause: IncompatibilityCause) -> Seq<char>
    recommends
        shaped(terms, cause),
{
    match cause {
        IncompatibilityCause::Dependency => term_text(terms[0]) + " depends on "@ + term_text(
            (terms[1].0, complement_of(terms[1].1)),
        ),
        IncompatibilityCause::Unavailable => term_text(terms[0]) + " is unavailable"@,
        IncompatibilityCause::UnknownPackage => terms[0].0.text() + " does not appear to exist"@,
        IncompatibilityCause::Root => "the root package was chosen"@,
        IncompatibilityCause::Derived(_, _) => if terms.len() == 1 {
            "no valid set of package versions could be found"@
        } else if terms.len() == 2 {
            term_text(terms[0]) + " is incompatible with "@ + term_text(terms[1])
        } else {
            "one of "@ + join(term_texts(terms), "; "@) + " must be false"@
        },
    }
}

/// Two incompatibilities have the same cause and the same terms, in
/// whatever order.
pub open spec fn same_clause(
    terms: Seq<TermView>,
    cause: IncompatibilityCause,
    other_terms: Seq<TermView>,
    other_cause: IncompatibilityCause,
) -> bool {
    cause == other_cause && terms.len() == other_terms.len() && forall|i: int|
        0 <= i < terms.len() ==> other_terms.contains(#[trigger] terms[i])
}

/// The sentence that states two incompatibilities, each with its line
/// number if it has one; a single sentence if they are the same.
pub open spec fn combined_text(
    terms: Seq<TermView>,
    cause: IncompatibilityCause,
    linum: Option<u16>,
    other_terms: Seq<TermView>,
    other_cause: IncompatibilityCause,
    other_linum: Option<u16>,
) -> Seq<char> {
    if same_clause(terms, cause, other_terms, other_cause) {
        incompat_text(terms, cause) + linum_text(linum)
    } else {
        incompat_text(terms, cause) + linum_text(linum) + " and "@ + incompat_text(
            other_terms,
            other_cause,
        ) + linum_text(other_linum)
    }
}

/// A line number in brackets after a space, or nothing.
pub open spec fn linum_text(linum: Option<u16>) -> Seq<char> {
    match linum {
        Some(l) => " ("@ + crate::text::decimal(l as nat) + ")"@,
        None => Seq::<char>::empty(),
    }
}

/// A set of terms, one to a package, that cannot all hold at once.
#[derive(Debug)]
pub struct Incompatibility {
    pub deps: IndexMap<PackageId, Constraint>,
    pub cause: IncompatibilityCause,
}

impl Clone for Incompatibility {
    fn clone(&self) -> (r: Incompatibility)
        ensures
            r.terms() == self.terms(),
            r.cause == self.cause,
    {
        let deps = map_clone(&self.deps);
        proof {
            assert(term_views(map_terms(deps)) =~= term_views(map_terms(self.deps)));
        }
        Incompatibility { deps, cause: self.cause }
    }
}

fn push_linum(buf: &mut String, linum: Option<u16>)
    ensures
        final(buf)@ == old(buf)@ + linum_text(linum),
{
    match linum {
        Some(l) => {
            let ghost before = buf@;
            buf.append(" (");
            push_decimal(buf, l as u64);
            buf.append(")");
            proof {
                assert(buf@ =~= before + linum_text(linum));
            }
        },
        None => {
            proof {
                assert(buf@ =~= buf@ + Seq::<char>::empty());
            }
        },
    }
}

impl Incompatibility {
    /// The terms, in order.
    pub open spec fn terms(&self) -> Seq<TermView> {
        term_views(map_terms(self.deps))
    }

    /// The number of terms is what the cause asks for.
    pub open spec fn wf(&self) -> bool {
        shaped(self.terms(), self.cause)
    }

    /// The sentence that states the incompatibility.
    pub open spec fn text(&self) -> Seq<char> {
        incompat_text(self.terms(), self.cause)
    }

    /// The incompatibility with the given terms and cause.
    pub fn new(deps: IndexMap<PackageId, Constraint>, cause: IncompatibilityCause) -> (r: Self)
        ensures
            r.deps == deps,
            r.cause == cause,
    {
        Self { deps, cause }
    }

    /// The incompatibility that states a dependency: the version `a` of a
    /// package cannot be had together with what `b` holds of another.
    pub fn from_dep(a: Summary<PackageId>, b: (PackageId, Constraint)) -> (r: Self)
        ensures
            r.cause == IncompatibilityCause::Dependency,
            a.id@ != b.0@ ==> r.terms() == seq![
                (a.id@, seq![Range::of_ends(Interval::Closed(a.version), Interval::Closed(a.version))]),
                (b.0@, b.1@),
            ],
            a.id@ == b.0@ ==> r.terms() == seq![(a.id@, b.1@)],
    {
        let mut m = map_new();
        let only = Constraint::from_version(a.version);
        proof {
            only@[0].lemma_of_ends();
            assert(only@ =~= seq![
                Range::of_ends(Interval::Closed(a.version), Interval::Closed(a.version)),
            ]);
        }
        let _ = map_insert(&mut m, a.id, only);
        let ghost first = map_terms(m);
        proof {
            assert(first[0].0@ == a.id@);
        }
        let _ = map_insert(&mut m, b.0, b.1);
        proof {
            if a.id@ != b.0@ {
                assert(!has_term(first, b.0@));
                assert(term_views(map_terms(m)) =~= seq![
                    (
                        a.id@,
                        seq![Range::of_ends(Interval::Closed(a.version), Interval::Closed(a.version))],
                    ),
                    (b.0@, b.1@),
                ]);
            } else {
                assert(has_term(first, b.0@));
                assert(term_views(map_terms(m)) =~= seq![(a.id@, b.1@)]);
            }
        }
        Self::new(m, IncompatibilityCause::Dependency)
    }

    /// The terms.
    pub fn deps(&self) -> (m: &IndexMap<PackageId, Constraint>)
        ensures
            *m == self.deps,
    {
        &self.deps
    }

    /// The number of terms.
    pub fn len(&self) -> (n: usize)
        ensures
            n == self.terms().len(),
    {
        map_len(&self.deps)
    }

    /// The term at position `i`.
    pub fn term(&self, i: usize) -> (t: (&PackageId, &Constraint))
        requires
            i < self.terms().len(),
        ensures
            (t.0@, t.1@) == self.terms()[i as int],
            *t.0 == map_terms(self.deps)[i as int].0,
            *t.1 == map_terms(self.deps)[i as int].1,
    {
        map_get(&self.deps, i)
    }

    /// Whether the number of terms is what the cause asks for.
    pub fn is_shaped(&self) -> (r: bool)
        ensures
            r == self.wf(),
    {
        let n = self.len();
        match self.cause {
            IncompatibilityCause::Dependency => n == 2,
            IncompatibilityCause::Unavailable => n == 1,
            IncompatibilityCause::UnknownPackage => n == 1,
            _ => true,
        }
    }

    /// The positions of the two incompatibilities that this one follows
    /// from, if it is derived.
    pub fn derived(&self) -> (r: Option<(usize, usize)>)
        ensures
            r == match self.cause {
                IncompatibilityCause::Derived(l, r) => Some((l, r)),
                _ => None,
            },
    {
        if let IncompatibilityCause::Derived(l, r) = self.cause {
            Some((l, r))
        } else {
            None
        }
    }

    /// Whether this incompatibility follows from others.
    pub fn is_derived(&self) -> (r: bool)
        ensures
            r == (self.cause is Derived),
    {
        self.derived().is_some()
    }

    /// Where the incompatibility comes from.
    pub fn cause(&self) -> (c: IncompatibilityCause)
        ensures
            c == self.cause,
    {
        self.cause
    }

    /// Writes one term: `this project` for the root, else the package and
    /// its constraint.
    pub fn show_pkg(pkg: &PackageId, constraint: &Constraint) -> (s: String)
        ensures
            s@ == term_text((pkg@, constraint@)),
    {
        match pkg {
            PackageId::Root => "this project".to_owned(),
            _ => {
                let mut s = pkg.to_string();
                s.append(" ");
                s.append(constraint.to_string().as_str());
                s
            },
        }
    }

    /// Writes the sentence that states the incompatibility.
    pub fn show(&self) -> (s: String)
        requires
            self.wf(),
        ensures
            s@ == self.text(),
    {
        let n = self.len();
        match self.cause {
            IncompatibilityCause::Dependency => {
                let depender = self.term(0);
                let dependee = self.term(1);
                let wanted = dependee.1.complement();
                proof {
                    lemma_complement_of(dependee.1@, wanted@);
                }
                let mut s = Self::show_pkg(depender.0, depender.1);
                s.append(" depends on ");
                s.append(Self::show_pkg(dependee.0, &wanted).as_str());
                s
            },
            IncompatibilityCause::Unavailable => {
                let package = self.term(0);
                let mut s = Self::show_pkg(package.0, package.1);
                s.append(" is unavailable");
                s
            },
            IncompatibilityCause::UnknownPackage => {
                let package = self.term(0);
                let mut s = package.0.to_string();
                s.append(" does not appear to exist");
                s
            },
            IncompatibilityCause::Root => "the root package was chosen".to_owned(),
            IncompatibilityCause::Derived(_, _) => {
                if n == 1 {
                    "no valid set of package versions could be found".to_owned()
                } else if n == 2 {
                    let one = self.term(0);
                    let other = self.term(1);
                    let mut s = Self::show_pkg(one.0, one.1);
                    s.append(" is incompatible with ");
                    s.append(Self::show_pkg(other.0, other.1).as_str());
                    s
                } else {
                    let mut parts: Vec<String> = Vec::new();
                    let mut i: usize = 0;
                    let ghost terms = self.terms();
                    while i < n
                        invariant
                            i <= n,
                            n == terms.len(),
                            terms == self.terms(),
                            string_views(parts@) == term_texts(terms.take(i as int)),
                        decreases n - i,
                    {
                        let t = self.term(i);
                        let ghost before = parts@;
                        parts.push(Self::show_pkg(t.0, t.1));
                        proof {
                            assert(terms.take(i + 1) =~= terms.take(i as int).push(terms[i as int]));
                            assert(string_views(parts@) =~= string_views(before).push(
                                term_text(terms[i as int]),
                            ));
                            assert(term_texts(terms.take(i + 1)) =~= term_texts(
                                terms.take(i as int),
                            ).push(term_text(terms[i as int])));
                        }
                        i += 1;
                    }
                    proof {
                        assert(terms.take(n as int) =~= terms);
                    }
                    let mut s = "one of ".to_owned();
                    s.append(join_strings(&parts, "; ").as_str());
                    s.append(" must be false");
                    s
                }
            },
        }
    }

    /// Whether two incompatibilities have the same cause and the same terms,
    /// in whatever order.
    pub fn same(&self, other: &Incompatibility) -> (r: bool)
        ensures
            r == self.same_as(other),
    {
        if self.cause != other.cause {
            return false;
        }
        let n = self.len();
        let m = other.len();
        if n != m {
            return false;
        }
        let mut i: usize = 0;
        while i < n
            invariant
                i <= n,
                n == self.terms().len(),
                m == other.terms().len(),
                forall|k: int| 0 <= k < i ==> other.terms().contains(#[trigger] self.terms()[k]),
            decreases n - i,
        {
            let t = self.term(i);
            let mut found = false;
            let mut j: usize = 0;
            while j < m && !found
                invariant
                    j <= m,
                    m == other.terms().len(),
                    i < n,
                    n == self.terms().len(),
                    (t.0@, t.1@) == self.terms()[i as int],
                    found ==> other.terms().contains(self.terms()[i as int]),
                    !found ==> forall|k: int|
                        0 <= k < j ==> #[trigger] other.terms()[k] != self.terms()[i as int],
                decreases m - j + (if found { 0int } else { 1int }),
            {
                let u = other.term(j);
                if u.0.same(t.0) && *u.1 == *t.1 {
                    found = true;
                    proof {
                        assert(other.terms()[j as int] == self.terms()[i as int]);
                    }
                } else {
                    j += 1;
                }
            }
            if !found {
                proof {
                    let x = self.terms()[i as int];
                    if other.terms().contains(x) {
                        let k = choose|k: int| 0 <= k < other.terms().len() && other.terms()[k] == x;
                        assert(other.terms()[k] != x);
                    }
                }
                return false;
            }
            i += 1;
        }
        true
    }

    /// The sentence that states both incompatibilities, each with its line
    /// number if it has one; a single sentence if they are the same.
    pub fn show_combine(
        &self,
        other: &Self,
        self_linum: Option<u16>,
        other_linum: Option<u16>,
    ) -> (s: String)
        requires
            self.wf(),
            other.wf(),
        ensures
            s@ == combined_text(
                self.terms(),
                self.cause,
                self_linum,
                other.terms(),
                other.cause,
                other_linum,
            ),
    {
        if let Some(b) = self.show_combine_same(other, self_linum) {
            return b;
        }
        let mut buf = self.show();
        push_linum(&mut buf, self_linum);
        buf.append(" and ");
        buf.append(other.show().as_str());
        push_linum(&mut buf, other_linum);
        buf
    }

    /// The two incompatibilities have the same cause and the same terms.
    pub open spec fn same_as(&self, other: &Incompatibility) -> bool {
        same_clause(self.terms(), self.cause, other.terms(), other.cause)
    }

    /// The sentence that states both incompatibilities if they are the same.
    pub fn show_combine_same(&self, other: &Self, self_linum: Option<u16>) -> (r: Option<String>)
        requires
            self.wf(),
        ensures
            r is Some <==> self.same_as(other),
            r is Some ==> r->0@ == self.text() + linum_text(self_linum),
    {
        if self.same(other) {
            let mut buf = self.show();
            push_linum(&mut buf, self_linum);
            Some(buf)
        } else {
            None
        }
    }
}

} // verus!
