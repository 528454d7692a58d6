//! The state of a search: the log of assignments, the incompatibilities,
//! and what follows from the log for every package.
//!
//! All that the resolver knows of a package follows from the log: the
//! versions that are still possible are those that every entry for the
//! package admits, and the package is decided once the log holds a decision
//! for it.

use crate::package::retriever::{
    any_version, exactly, lemma_lookup, lookup, IncompatView, PackageId, PackageIdView,
};
use crate::semver::canon::{
    canonical, complement_of, covers, difference_of, intersection_of, lemma_complement_of,
    lemma_covers_on_line, lemma_difference_of, lemma_intersection_of, on_line,
};
use crate::semver::constraint::{lemma_entails, relation_of, subset_cover, Constraint, Relation};
use crate::semver::range::Range;
use crate::semver::version::Version;
use crate::solver::assignment::{Assignment, AssignmentType};
use crate::solver::incompat::{
    term_views, IncompatMatch, Incompatibility, IncompatibilityCause, TermView,
};
use crate::solver::summary::PackageId as PackageIdLike;
use crate::solver::term_map::map_terms;
use indexmap::IndexMap;
use vstd::prelude::*;

verus! {

/// Why no graph of chosen versions came out.
#[derive(Debug)]
pub enum ResolveError {
    /// No choice of versions satisfies all constraints; carries the proof,
    /// one step to a line.
    NoResolution(String),
    /// The source of packages could not answer.
    Retrieve(crate::solver::retriever::RetrieveError),
    /// What the source of packages answered does not fit together; carries
    /// what was found.
    Inconsistent(String),
    /// The search took more steps than the resolver can count.
    GaveUp,
}

impl ResolveError {
    /// What is written for the error: the proof, the failure of the source
    /// of packages, or what was found.
    pub open spec fn text(self) -> Seq<char> {
        match self {
            ResolveError::NoResolution(proof_text) => proof_text@,
            ResolveError::Retrieve(e) => e@.text(),
            ResolveError::Inconsistent(what) => what@,
            ResolveError::GaveUp => "The search for versions took too many steps"@,
        }
    }

    /// Writes what went wrong.
    pub fn to_string(&self) -> (s: String)
        ensures
            s@ == self.text(),
    {
        match self {
            ResolveError::NoResolution(proof_text) => proof_text.clone(),
            ResolveError::Retrieve(e) => e.to_string(),
            ResolveError::Inconsistent(what) => what.clone(),
            ResolveError::GaveUp => "The search for versions took too many steps".to_owned(),
        }
    }
}

/// What one entry of the log says.
pub struct EntryView {
    pub step: u16,
    pub level: u16,
    pub pkg: PackageIdView,
    /// The version decided on, if the entry is a decision.
    pub decision: Option<Version>,
    /// The versions that the entry leaves possible.
    pub admits: Seq<Range>,
    /// The incompatibility that a derivation follows from.
    pub cause: Option<usize>,
    /// Whether the entry makes its package needed; a decision does.
    pub positive: bool,
}

/// What an entry of the log says.
pub open spec fn entry_view(a: Assignment<PackageId>) -> EntryView {
    EntryView {
        step: a.step,
        level: a.level,
        pkg: a.pkg@,
        decision: match a.ty {
            AssignmentType::Decision { version } => Some(version),
            AssignmentType::Derivation { constraint, cause, positive } => None,
        },
        admits: a.ty.admits(),
        cause: match a.ty {
            AssignmentType::Decision { version } => None,
            AssignmentType::Derivation { constraint, cause, positive } => Some(cause),
        },
        positive: match a.ty {
            AssignmentType::Decision { version } => true,
            AssignmentType::Derivation { constraint, cause, positive } => positive,
        },
    }
}

/// What the entries of the log say, in order.
pub open spec fn entry_views(log: Seq<Assignment<PackageId>>) -> Seq<EntryView> {
    log.map_values(|a: Assignment<PackageId>| entry_view(a))
}

/// What is known of a package so far: the versions that are still possible,
/// and whether the package is needed at all.
#[derive(Debug)]
pub struct Known {
    pub positive: bool,
    pub constraint: Constraint,
}

/// What is known of a package, as mathematics sees it.
pub struct KnownView {
    pub positive: bool,
    pub constraint: Seq<Range>,
}

/// What is known of a package once it is also known to lie in `c`.
pub open spec fn narrowed(before: Option<KnownView>, positive: bool, c: Seq<Range>) -> KnownView {
    match before {
        None => KnownView { positive, constraint: c },
        Some(k) => KnownView {
            positive: k.positive || positive,
            constraint: intersection_of(k.constraint, c),
        },
    }
}

/// What the log says of the package `id`: nothing if no entry is about it,
/// else the versions that all its entries admit, and whether one of them
/// makes it needed.
pub open spec fn known_from(log: Seq<EntryView>, id: PackageIdView) -> Option<KnownView>
    decreases log.len(),
{
    if log.len() == 0 {
        None
    } else {
        let before = known_from(log.drop_last(), id);
        if log.last().pkg == id {
            Some(narrowed(before, log.last().positive, log.last().admits))
        } else {
            before
        }
    }
}

/// The version that the log decides on for the package `id`: that of the
/// first decision for it.
pub open spec fn decided_from(log: Seq<EntryView>, id: PackageIdView) -> Option<Version>
    decreases log.len(),
{
    if log.len() == 0 {
        None
    } else {
        let before = decided_from(log.drop_last(), id);
        if before is Some {
            before
        } else if log.last().pkg == id {
            log.last().decision
        } else {
            None
        }
    }
}

/// The versions that are possible for a package of which this is known; all
/// versions if nothing is known.
pub open spec fn possible(known: Option<KnownView>) -> Seq<Range> {
    match known {
        Some(k) => k.constraint,
        None => any_version(),
    }
}

/// The term holds whatever version is taken: all versions that are still
/// possible lie in it.
pub open spec fn holds(known: Option<KnownView>, term: Seq<Range>) -> bool {
    relation_of(possible(known), term) == Relation::Subset || relation_of(possible(known), term)
        == Relation::Equal
}

/// The term cannot hold: no version that is still possible lies in it.
pub open spec fn excluded(known: Option<KnownView>, term: Seq<Range>) -> bool {
    relation_of(possible(known), term) == Relation::Disjoint
}

/// Whether the opposite of a term, once derived, makes its package needed:
/// the only term of an incompatibility does, unless the incompatibility says
/// that the package is unavailable; and so does the term of a dependency
/// that names what is depended on.
pub open spec fn makes_needed(terms: nat, cause: IncompatibilityCause, at: int) -> bool {
    (terms == 1 && cause != IncompatibilityCause::Unavailable) || (cause
        == IncompatibilityCause::Dependency && at != 0)
}

/// It is known already that the package lies in `c`, and that it is needed
/// if `positive` says so.
pub open spec fn settled(known: Option<KnownView>, c: Seq<Range>, positive: bool) -> bool {
    known is Some && (known->0.positive || !positive) && subset_cover(known->0.constraint, c)
}

/// How an incompatibility stands to what is known.
pub enum Standing {
    /// Every term holds.
    Satisfied,
    /// Every term but the one at this place holds, and that one is open.
    Almost(int),
    /// Some term cannot hold, or more than one term is open.
    Contradicted,
}

/// The one term of an incompatibility that does not hold yet.
struct OpenTerm {
    pkg: PackageId,
    con: Constraint,
    positive: bool,
}

/// The state of a search.
pub struct Resolver {
    step: u16,
    level: u16,
    assignments: Vec<Assignment<PackageId>>,
    decisions: Vec<(PackageId, Version)>,
    derivations: Vec<(PackageId, Known)>,
    incompats: Vec<Incompatibility>,
    budget: u64,
}

/// A lookup in a list with one more entry at its end finds what the list
/// holds, and else the new entry.
pub proof fn lemma_lookup_push<V>(s: Seq<(PackageId, V)>, k: PackageId, v: V, id: PackageIdView)
    ensures
        lookup(s.push((k, v)), id) == (match lookup(s, id) {
            Some(x) => Some(x),
            None => if k@ == id {
                Some(v)
            } else {
                None
            },
        }),
    decreases s.len(),
{
    let t = s.push((k, v));
    if s.len() == 0 {
        assert(t.drop_first() =~= Seq::<(PackageId, V)>::empty());
    } else {
        assert(t[0] == s[0]);
        assert(t.drop_first() =~= s.drop_first().push((k, v)));
        lemma_lookup_push(s.drop_first(), k, v, id);
    }
}

/// A lookup in a list whose first entry for a key has got a new value finds
/// that value for the key, and for every other key what it found before.
pub proof fn lemma_lookup_update<V>(
    s: Seq<(PackageId, V)>,
    at: int,
    k: PackageId,
    v: V,
    id: PackageIdView,
)
    requires
        0 <= at < s.len(),
        s[at].0@ == k@,
        forall|j: int| 0 <= j < at ==> (#[trigger] s[j]).0@ != k@,
    ensures
        lookup(s.update(at, (k, v)), id) == (if id == k@ {
            Some(v)
        } else {
            lookup(s, id)
        }),
    decreases at,
{
    let t = s.update(at, (k, v));
    if at == 0 {
        assert(t.drop_first() =~= s.drop_first());
    } else {
        assert(t[0] == s[0]);
        assert(s[0].0@ != k@);
        assert(t.drop_first() =~= s.drop_first().update(at - 1, (k, v)));
        assert forall|j: int| 0 <= j < at - 1 implies (#[trigger] s.drop_first()[j]).0@ != k@ by {
            assert(s.drop_first()[j] == s[j + 1]);
        }
        lemma_lookup_update(s.drop_first(), at - 1, k, v, id);
    }
}

/// The constraint of all versions covers the whole line.
pub proof fn lemma_any_version()
    ensures
        canonical(any_version()),
        forall|p: int| #[trigger] covers(any_version(), p) <==> on_line(p),
{
    let all = any_version();
    all[0].lemma_of_ends();
    assert forall|p: int| #[trigger] covers(all, p) <==> on_line(p) by {
        if on_line(p) {
            assert(all[0].has(p));
        }
        if covers(all, p) {
            lemma_covers_on_line(all, p);
        }
    }
}

/// The places of the log from which on all entries have a level above
/// `level`: the length of what is left when the log goes back to `level`.
pub open spec fn kept(log: Seq<EntryView>, level: u16) -> int
    decreases log.len(),
{
    if log.len() == 0 {
        0
    } else if log.last().level > level {
        kept(log.drop_last(), level)
    } else {
        log.len() as int
    }
}

/// Every entry for `id` up to the place `upto` admits the point `p`.
pub open spec fn all_admit(log: Seq<EntryView>, id: PackageIdView, upto: int, p: int) -> bool {
    forall|j: int| 0 <= j <= upto && j < log.len() && (#[trigger] log[j]).pkg == id ==> covers(
        log[j].admits,
        p,
    )
}

/// The entry at `at` is for `id`, and what the entries for `id` up to it
/// admit together lies within `con`.
pub open spec fn satisfied_at(log: Seq<EntryView>, id: PackageIdView, con: Seq<Range>, at: int) -> bool {
    &&& 0 <= at < log.len()
    &&& log[at].pkg == id
    &&& forall|p: int| on_line(p) && #[trigger] all_admit(log, id, at, p) ==> covers(con, p)
}

/// The first entry of the log from which on what is assigned to `id` lies
/// within `con`, if there is one.
pub open spec fn first_satisfier(log: Seq<EntryView>, id: PackageIdView, con: Seq<Range>) -> Option<
    int,
> {
    if exists|i: int| satisfied_at(log, id, con, i) {
        Some(
            choose|i: int|
                satisfied_at(log, id, con, i) && forall|j: int|
                    0 <= j < i ==> !satisfied_at(log, id, con, j),
        )
    } else {
        None
    }
}

/// The first place at which the log satisfies a term is the first
/// satisfier of the term.
pub proof fn lemma_first_satisfier(log: Seq<EntryView>, id: PackageIdView, con: Seq<Range>, at: int)
    requires
        satisfied_at(log, id, con, at),
        forall|j: int| 0 <= j < at ==> !satisfied_at(log, id, con, j),
    ensures
        first_satisfier(log, id, con) == Some(at),
{
    let found = choose|i: int|
        satisfied_at(log, id, con, i) && forall|j: int|
            0 <= j < i ==> !satisfied_at(log, id, con, j);
    assert(satisfied_at(log, id, con, found) && forall|j: int|
        0 <= j < found ==> !satisfied_at(log, id, con, j));
    if found < at {
        assert(!satisfied_at(log, id, con, found));
    } else if at < found {
        assert(!satisfied_at(log, id, con, at));
    }
}

/// What the terms of a conflict come to: the term that was satisfied last,
/// the entry of the log that satisfied it, what that entry admits beyond the
/// term, and the level up to which all else was satisfied.
pub struct Analysis {
    pub term: usize,
    pub satisfier: usize,
    pub difference: Option<Constraint>,
    pub previous_level: u16,
}

/// What an analysis says. Before any term is looked at, `term` and
/// `satisfier` are -1.
pub struct AnalysisView {
    pub term: int,
    pub satisfier: int,
    pub difference: Option<Seq<Range>>,
    pub previous_level: u16,
}

impl View for Analysis {
    type V = AnalysisView;

    open spec fn view(&self) -> AnalysisView {
        AnalysisView {
            term: self.term as int,
            satisfier: self.satisfier as int,
            difference: match self.difference {
                Some(d) => Some(d@),
                None => None,
            },
            previous_level: self.previous_level,
        }
    }
}

/// The higher of two levels.
pub open spec fn higher_level(a: u16, b: u16) -> u16 {
    if a < b {
        b
    } else {
        a
    }
}

/// The analysis before any term is looked at.
pub open spec fn nothing_analysed() -> AnalysisView {
    AnalysisView { term: -1, satisfier: -1, difference: None, previous_level: 1 }
}

/// The analysis `a` after the term `t`, which stands at `at`, is looked at
/// too; nothing if the log does not satisfy the term.
///
/// A term whose satisfier came later than that of all terms before it is the
/// latest so far; the level of the satisfier that it outdoes counts towards
/// the previous level, as does the level of every satisfier that is not the
/// latest. If the satisfier of the latest term admits more than the term,
/// what satisfies the rest counts towards the previous level too.
#[verifier::opaque]
pub open spec fn analysed_term(log: Seq<EntryView>, a: AnalysisView, t: TermView, at: int) -> Option<
    AnalysisView,
> {
    match first_satisfier(log, t.0, t.1) {
        Some(sat) => {
            let newest = a.satisfier < 0 || log[a.satisfier].step < log[sat].step;
            let level = if a.satisfier < 0 {
                a.previous_level
            } else if newest {
                higher_level(a.previous_level, log[a.satisfier].level)
            } else {
                higher_level(a.previous_level, log[sat].level)
            };
            if !newest {
                Some(AnalysisView { previous_level: level, ..a })
            } else {
                let diff = difference_of(log[sat].admits, t.1);
                if diff.len() == 0 {
                    Some(
                        AnalysisView {
                            term: at,
                            satisfier: sat,
                            difference: None,
                            previous_level: level,
                        },
                    )
                } else {
                    match first_satisfier(log, t.0, complement_of(diff)) {
                        Some(rest) => Some(
                            AnalysisView {
                                term: at,
                                satisfier: sat,
                                difference: Some(diff),
                                previous_level: higher_level(level, log[rest].level),
                            },
                        ),
                        None => None,
                    }
                }
            }
        },
        None => None,
    }
}

/// The analysis of the first `k` terms of a conflict, looked at in turn;
/// nothing if the log does not satisfy one of them.
pub open spec fn analysed(log: Seq<EntryView>, terms: Seq<TermView>, k: nat) -> Option<AnalysisView>
    decreases k,
{
    if k == 0 {
        Some(nothing_analysed())
    } else {
        match analysed(log, terms, (k - 1) as nat) {
            Some(a) => analysed_term(log, a, terms[k - 1], k - 1),
            None => None,
        }
    }
}

/// What an analysis in progress says: nothing yet, or what was found.
pub open spec fn progress(a: Option<Analysis>) -> AnalysisView {
    match a {
        Some(a) => a@,
        None => nothing_analysed(),
    }
}

/// The entry `e` is what follows from `clause` for its term at `t` after
/// the entries `before`: the term was open, every other term held, and the
/// entry admits for the package of the term what the term does not hold.
pub open spec fn derives(before: Seq<EntryView>, clause: IncompatView, t: int, e: EntryView) -> bool {
    &&& 0 <= t < clause.0.len()
    &&& e.pkg == clause.0[t].0
    &&& e.admits == complement_of(clause.0[t].1)
    &&& e.positive == makes_needed(clause.0.len(), clause.1, t)
    &&& !holds(known_from(before, clause.0[t].0), clause.0[t].1)
    &&& forall|j: int|
        0 <= j < clause.0.len() && j != t ==> holds(
            known_from(before, (#[trigger] clause.0[j]).0),
            clause.0[j].1,
        )
}

/// The entry of the log at `at` is a derivation that follows from its
/// cause, an incompatibility of `clauses`, and from the entries before it.
pub open spec fn follows_at(log: Seq<EntryView>, clauses: Seq<IncompatView>, at: int) -> bool {
    &&& 0 <= at < log.len()
    &&& log[at].decision is None
    &&& log[at].cause is Some
    &&& log[at].cause->0 < clauses.len()
    &&& exists|t: int| #[trigger] derives(log.take(at), clauses[log[at].cause->0 as int], t, log[at])
}

/// The log `now` is the log `before` up to the place `upto`, and every
/// entry from there on is a derivation that follows from its cause.
pub open spec fn gained(
    before: Seq<EntryView>,
    now: Seq<EntryView>,
    clauses: Seq<IncompatView>,
    upto: int,
) -> bool {
    &&& 0 <= upto <= before.len()
    &&& upto <= now.len()
    &&& now.take(upto) == before.take(upto)
    &&& forall|i: int| upto <= i < now.len() ==> #[trigger] follows_at(now, clauses, i)
}

/// A derivation that follows from its cause still does so in a log that has
/// the same entries up to it, and among more incompatibilities.
pub proof fn lemma_follows_stable(
    log: Seq<EntryView>,
    clauses: Seq<IncompatView>,
    log2: Seq<EntryView>,
    clauses2: Seq<IncompatView>,
    at: int,
)
    requires
        follows_at(log, clauses, at),
        at < log2.len(),
        log2.take(at + 1) == log.take(at + 1),
        clauses.len() <= clauses2.len(),
        forall|i: int| 0 <= i < clauses.len() ==> #[trigger] clauses2[i] == clauses[i],
    ensures
        follows_at(log2, clauses2, at),
{
    assert(log2[at] == log2.take(at + 1)[at]);
    assert(log[at] == log.take(at + 1)[at]);
    assert(log2.take(at) =~= log2.take(at + 1).take(at));
    assert(log.take(at) =~= log.take(at + 1).take(at));
    let t = choose|t: int| #[trigger] derives(log.take(at), clauses[log[at].cause->0 as int], t, log[at]);
    assert(derives(log2.take(at), clauses2[log2[at].cause->0 as int], t, log2[at]));
}

/// What a log has gained it keeps when its end is taken away and when
/// incompatibilities are added.
pub proof fn lemma_gained_stable(
    before: Seq<EntryView>,
    now: Seq<EntryView>,
    clauses: Seq<IncompatView>,
    upto: int,
    now2: Seq<EntryView>,
    clauses2: Seq<IncompatView>,
    keep: int,
)
    requires
        gained(before, now, clauses, upto),
        0 <= keep <= now.len(),
        now2 == now.take(keep),
        clauses.len() <= clauses2.len(),
        forall|i: int| 0 <= i < clauses.len() ==> #[trigger] clauses2[i] == clauses[i],
    ensures
        gained(before, now2, clauses2, if keep < upto {
            keep
        } else {
            upto
        }),
{
    let upto2 = if keep < upto {
        keep
    } else {
        upto
    };
    assert(now2.take(upto2) =~= now.take(upto).take(upto2));
    assert(before.take(upto2) =~= before.take(upto).take(upto2));
    assert forall|i: int| upto2 <= i < now2.len() implies #[trigger] follows_at(
        now2,
        clauses2,
        i,
    ) by {
        assert(follows_at(now, clauses, i));
        assert(now2.take(i + 1) =~= now.take(i + 1));
        lemma_follows_stable(now, clauses, now2, clauses2, i);
    }
}

/// What a log has gained it keeps when a derivation that follows from its
/// cause is written at its end.
pub proof fn lemma_gained_push(
    before: Seq<EntryView>,
    now: Seq<EntryView>,
    clauses: Seq<IncompatView>,
    upto: int,
    now2: Seq<EntryView>,
)
    requires
        gained(before, now, clauses, upto),
        now2.len() == now.len() + 1,
        now2.take(now.len() as int) == now,
        follows_at(now2, clauses, now.len() as int),
    ensures
        gained(before, now2, clauses, upto),
{
    assert(now2.take(upto) =~= now2.take(now.len() as int).take(upto));
    assert forall|i: int| upto <= i < now2.len() implies #[trigger] follows_at(now2, clauses, i) by {
        if i < now.len() {
            assert(now2.take(i + 1) =~= now2.take(now.len() as int).take(i + 1));
            lemma_follows_stable(now, clauses, now2, clauses, i);
        }
    }
}

/// The log does not satisfy the incompatibility, which is no proof that
/// there is no solution: one of its terms has no satisfier, or it has no
/// term at all.
pub open spec fn stuck(log: Seq<EntryView>, clause: IncompatView) -> bool {
    match analysed(log, clause.0, clause.0.len()) {
        None => true,
        Some(a) => a.satisfier < 0,
    }
}

/// What a search stands on: the log, the incompatibilities, the number of
/// decisions in force, and the steps that it may still take.
pub struct Search {
    pub log: Seq<EntryView>,
    pub clauses: Seq<IncompatView>,
    pub level: u16,
    pub budget: nat,
}

/// After the entries of `log` the term at `i` holds whatever version is
/// taken.
pub open spec fn holds_in(log: Seq<EntryView>, terms: Seq<TermView>, i: int) -> bool {
    holds(known_from(log, terms[i].0), terms[i].1)
}

/// After the entries of `log` the term at `i` cannot hold.
pub open spec fn excluded_in(log: Seq<EntryView>, terms: Seq<TermView>, i: int) -> bool {
    excluded(known_from(log, terms[i].0), terms[i].1)
}

/// How the incompatibility with the given terms stands to what the log
/// says.
pub open spec fn standing_in(log: Seq<EntryView>, terms: Seq<TermView>) -> Standing {
    if exists|i: int| 0 <= i < terms.len() && excluded_in(log, terms, i) {
        Standing::Contradicted
    } else if forall|i: int| 0 <= i < terms.len() ==> holds_in(log, terms, i) {
        Standing::Satisfied
    } else {
        let at = choose|i: int| 0 <= i < terms.len() && !holds_in(log, terms, i);
        if forall|j: int| 0 <= j < terms.len() && j != at ==> holds_in(log, terms, j) {
            Standing::Almost(at)
        } else {
            Standing::Contradicted
        }
    }
}

/// What holding an incompatibility against the log comes to.
pub enum UnitEnd {
    /// Nothing follows.
    Nothing,
    /// All terms hold: a conflict.
    Conflict,
    /// Something new was derived for this package.
    Derived(PackageIdView),
    /// Something follows, and the log cannot take another entry.
    Full,
}

/// The log after an incompatibility was held against it, and what that
/// came to.
pub struct UnitStep {
    pub log: Seq<EntryView>,
    pub end: UnitEnd,
}

/// Holds the incompatibility `clause`, which stands at `icix`, against the
/// log. If all its terms hold, that is a conflict. If all its terms but one
/// hold and that one is open, the opposite of that term is derived at the
/// level `level`, unless it is known already or the log is full. In every
/// other case nothing follows.
pub open spec fn unit_step(log: Seq<EntryView>, clause: IncompatView, icix: usize, level: u16) -> UnitStep {
    match standing_in(log, clause.0) {
        Standing::Contradicted => UnitStep { log, end: UnitEnd::Nothing },
        Standing::Satisfied => UnitStep { log, end: UnitEnd::Conflict },
        Standing::Almost(at) => {
            let derived = complement_of(clause.0[at].1);
            let positive = makes_needed(clause.0.len(), clause.1, at);
            if settled(known_from(log, clause.0[at].0), derived, positive) {
                UnitStep { log, end: UnitEnd::Nothing }
            } else if log.len() >= u16::MAX {
                UnitStep { log, end: UnitEnd::Full }
            } else {
                UnitStep {
                    log: log.push(
                        EntryView {
                            step: log.len() as u16,
                            level,
                            pkg: clause.0[at].0,
                            decision: None,
                            admits: derived,
                            cause: Some(icix),
                            positive,
                        },
                    ),
                    end: UnitEnd::Derived(clause.0[at].0),
                }
            }
        },
    }
}

/// With two terms open an incompatibility is contradicted.
pub proof fn lemma_two_open_in(log: Seq<EntryView>, terms: Seq<TermView>, a: int, b: int)
    requires
        0 <= a < b < terms.len(),
        !holds_in(log, terms, a),
        !holds_in(log, terms, b),
    ensures
        standing_in(log, terms) is Contradicted,
{
    if !(exists|i: int| 0 <= i < terms.len() && excluded_in(log, terms, i)) {
        let at = choose|i: int| 0 <= i < terms.len() && !holds_in(log, terms, i);
        if at == a {
            assert(!holds_in(log, terms, b));
        } else {
            assert(!holds_in(log, terms, a));
        }
    }
}

/// With one term open, none excluded and all others holding, an
/// incompatibility is almost satisfied at that term.
pub proof fn lemma_one_open_in(log: Seq<EntryView>, terms: Seq<TermView>, a: int)
    requires
        0 <= a < terms.len(),
        !holds_in(log, terms, a),
        forall|k: int| 0 <= k < terms.len() ==> !excluded_in(log, terms, k),
        forall|k: int| 0 <= k < terms.len() && k != a ==> holds_in(log, terms, k),
    ensures
        standing_in(log, terms) == Standing::Almost(a),
{
    let at = choose|i: int| 0 <= i < terms.len() && !holds_in(log, terms, i);
    assert(at == a) by {
        if at != a {
            assert(holds_in(log, terms, at));
        }
    }
}

impl Resolver {
    /// What the search stands on.
    pub open spec fn state(&self) -> Search {
        Search {
            log: self.log(),
            clauses: self.clauses(),
            level: self.level(),
            budget: self.budget() as nat,
        }
    }

    /// An incompatibility stands to what is known as it stands to the log.
    pub proof fn lemma_standing_in(&self, terms: Seq<TermView>)
        requires
            self.wf(),
        ensures
            self.standing(terms) == standing_in(self.log(), terms),
            forall|i: int|
                0 <= i < terms.len() ==> self.knowledge((#[trigger] terms[i]).0) == known_from(
                    self.log(),
                    terms[i].0,
                ),
    {
        let log = self.log();
        assert forall|i: int| 0 <= i < terms.len() implies self.term_holds(terms, i) == holds_in(
            log,
            terms,
            i,
        ) && self.term_excluded(terms, i) == excluded_in(log, terms, i) && self.knowledge(
            (#[trigger] terms[i]).0,
        ) == known_from(log, terms[i].0) by {
            assert(self.knowledge(terms[i].0) == known_from(log, terms[i].0));
        }
        if exists|i: int| 0 <= i < terms.len() && self.term_excluded(terms, i) {
            let i = choose|i: int| 0 <= i < terms.len() && self.term_excluded(terms, i);
            assert(excluded_in(log, terms, i));
        } else if forall|i: int| 0 <= i < terms.len() ==> self.term_holds(terms, i) {
            assert(self.standing(terms) is Satisfied);
            assert(standing_in(log, terms) is Satisfied);
        } else {
            let a = choose|i: int| 0 <= i < terms.len() && !self.term_holds(terms, i);
            assert(!holds_in(log, terms, a));
            if forall|j: int| 0 <= j < terms.len() && j != a ==> self.term_holds(terms, j) {
                self.lemma_one_open(terms, a);
                lemma_one_open_in(log, terms, a);
            } else {
                let j = choose|j: int| 0 <= j < terms.len() && j != a && !self.term_holds(terms, j);
                assert(!holds_in(log, terms, j));
                if a < j {
                    self.lemma_two_open(terms, a, j);
                    lemma_two_open_in(log, terms, a, j);
                } else {
                    self.lemma_two_open(terms, j, a);
                    lemma_two_open_in(log, terms, j, a);
                }
            }
        }
    }

    /// The log: what was decided and derived, in order.
    pub closed spec fn log(&self) -> Seq<EntryView> {
        entry_views(self.assignments@)
    }

    /// The incompatibilities, in the order in which they came up.
    pub closed spec fn clauses(&self) -> Seq<IncompatView> {
        self.incompats@.map_values(|i: Incompatibility| (i.terms(), i.cause))
    }

    /// What is known of the package `id`.
    pub closed spec fn knowledge(&self, id: PackageIdView) -> Option<KnownView> {
        match lookup(self.derivations@, id) {
            Some(k) => Some(KnownView { positive: k.positive, constraint: k.constraint@ }),
            None => None,
        }
    }

    /// The version decided on for the package `id`.
    pub closed spec fn decision_of(&self, id: PackageIdView) -> Option<Version> {
        lookup(self.decisions@, id)
    }

    /// The number that the next entry of the log gets.
    pub closed spec fn step(&self) -> u16 {
        self.step
    }

    /// The number of decisions in force.
    pub closed spec fn level(&self) -> u16 {
        self.level
    }

    /// How many more steps the search may take.
    pub closed spec fn budget(&self) -> u64 {
        self.budget
    }

    /// The state is sound: the steps count the entries of the log; what is
    /// known of every package, and what is decided, is what the log says; a
    /// derivation follows from an
    /// incompatibility that is there, and a derived incompatibility from two
    /// that came before it.
    pub closed spec fn wf(&self) -> bool {
        &&& self.step == self.assignments@.len()
        &&& forall|id: PackageIdView| self.knowledge(id) == known_from(self.log(), id)
        &&& forall|id: PackageIdView| self.decision_of(id) == decided_from(self.log(), id)
        &&& forall|i: int|
            0 <= i < self.assignments@.len() ==> ((#[trigger] self.assignments@[i]).ty is Derivation
                ==> self.assignments@[i].ty->cause < self.incompats@.len())
        &&& forall|i: int|
            0 <= i < self.incompats@.len() ==> ((#[trigger] self.incompats@[i]).cause is Derived ==> {
                &&& self.incompats@[i].cause->Derived_0 < i
                &&& self.incompats@[i].cause->Derived_1 < i
            })
    }

    /// All but the budget is as in `other`.
    pub open spec fn same_search(&self, other: &Resolver) -> bool {
        &&& self.log() == other.log()
        &&& self.clauses() == other.clauses()
        &&& self.step() == other.step()
        &&& self.level() == other.level()
        &&& forall|id: PackageIdView| self.knowledge(id) == other.knowledge(id)
        &&& forall|id: PackageIdView| self.decision_of(id) == other.decision_of(id)
    }

    /// The incompatibilities of `earlier` are still there, at their places.
    pub open spec fn extends(&self, earlier: &Resolver) -> bool {
        &&& earlier.clauses().len() <= self.clauses().len()
        &&& forall|i: int|
            0 <= i < earlier.clauses().len() ==> #[trigger] self.clauses()[i] == earlier.clauses()[i]
    }

    /// What is still there after two rounds of taking up incompatibilities
    /// was there before the first.
    pub proof fn lemma_extends(&self, between: &Resolver, earlier: &Resolver)
        requires
            self.extends(between),
            between.extends(earlier),
        ensures
            self.extends(earlier),
    {
        assert forall|i: int| 0 <= i < earlier.clauses().len() implies #[trigger] self.clauses()[i]
            == earlier.clauses()[i] by {
            assert(between.clauses()[i] == earlier.clauses()[i]);
        }
    }

    /// How the incompatibility with the given terms stands to what is known.
    pub open spec fn standing(&self, terms: Seq<TermView>) -> Standing {
        if exists|i: int| 0 <= i < terms.len() && self.term_excluded(terms, i) {
            Standing::Contradicted
        } else if forall|i: int| 0 <= i < terms.len() ==> self.term_holds(terms, i) {
            Standing::Satisfied
        } else {
            let at = choose|i: int| 0 <= i < terms.len() && !self.term_holds(terms, i);
            if forall|j: int| 0 <= j < terms.len() && j != at ==> self.term_holds(terms, j) {
                Standing::Almost(at)
            } else {
                Standing::Contradicted
            }
        }
    }

    /// Nothing follows from the incompatibility: it is no conflict, and if
    /// all its terms but one hold, the opposite of that one is known
    /// already.
    pub open spec fn quiet(&self, clause: IncompatView) -> bool {
        match self.standing(clause.0) {
            Standing::Contradicted => true,
            Standing::Satisfied => false,
            Standing::Almost(at) => settled(
                self.knowledge(clause.0[at].0),
                complement_of(clause.0[at].1),
                makes_needed(clause.0.len(), clause.1, at),
            ),
        }
    }

    /// Nothing new follows from the incompatibility, or it is a conflict.
    pub open spec fn idle(&self, clause: IncompatView) -> bool {
        self.quiet(clause) || self.standing(clause.0) is Satisfied
    }

    /// What is known of every package, and what is decided, is what the
    /// log says.
    pub proof fn lemma_log_says(&self)
        requires
            self.wf(),
        ensures
            forall|id: PackageIdView| #[trigger] self.knowledge(id) == known_from(self.log(), id),
            forall|id: PackageIdView| #[trigger]
                self.decision_of(id) == decided_from(self.log(), id),
    {
    }

    /// The steps count the entries of the log.
    pub proof fn lemma_step(&self)
        requires
            self.wf(),
        ensures
            self.step() == self.log().len(),
    {
    }

    /// Where an incompatibility is almost satisfied, the term in question
    /// does not hold and every other term does.
    pub proof fn lemma_almost(&self, terms: Seq<TermView>, at: int)
        requires
            self.standing(terms) == Standing::Almost(at),
        ensures
            0 <= at < terms.len(),
            !self.term_holds(terms, at),
            forall|j: int| 0 <= j < terms.len() && j != at ==> self.term_holds(terms, j),
    {
    }

    /// A pass over all incompatibilities yields nothing: none of them is a
    /// conflict, and none gives a derivation that is not known already.
    pub open spec fn at_rest(&self) -> bool {
        forall|i: int| 0 <= i < self.clauses().len() ==> self.quiet(#[trigger] self.clauses()[i])
    }

    /// Two states that know the same of every package see every
    /// incompatibility stand alike, and nothing follows from it in the one
    /// if nothing follows from it in the other.
    pub proof fn lemma_same_knowledge(&self, other: &Resolver, clause: IncompatView)
        requires
            forall|id: PackageIdView| self.knowledge(id) == other.knowledge(id),
        ensures
            self.standing(clause.0) == other.standing(clause.0),
            self.quiet(clause) == other.quiet(clause),
    {
        let terms = clause.0;
        assert forall|i: int| 0 <= i < terms.len() implies self.term_holds(terms, i)
            == other.term_holds(terms, i) && self.term_excluded(terms, i) == other.term_excluded(
            terms,
            i,
        ) by {
            assert(self.knowledge(terms[i].0) == other.knowledge(terms[i].0));
        }
        if exists|i: int| 0 <= i < terms.len() && self.term_excluded(terms, i) {
            let i = choose|i: int| 0 <= i < terms.len() && self.term_excluded(terms, i);
            assert(other.term_excluded(terms, i));
        } else if forall|i: int| 0 <= i < terms.len() ==> self.term_holds(terms, i) {
            assert(self.standing(terms) is Satisfied);
            assert(other.standing(terms) is Satisfied);
        } else {
            let a = choose|i: int| 0 <= i < terms.len() && !self.term_holds(terms, i);
            assert(!other.term_holds(terms, a));
            let b = choose|i: int| 0 <= i < terms.len() && !other.term_holds(terms, i);
            assert(!self.term_holds(terms, b));
            if forall|j: int| 0 <= j < terms.len() && j != a ==> self.term_holds(terms, j) {
                assert(b == a);
                self.lemma_one_open(terms, a);
                other.lemma_one_open(terms, a);
            } else {
                let j = choose|j: int| 0 <= j < terms.len() && j != a && !self.term_holds(terms, j);
                assert(!other.term_holds(terms, j));
                if a < j {
                    self.lemma_two_open(terms, a, j);
                    other.lemma_two_open(terms, a, j);
                } else {
                    self.lemma_two_open(terms, j, a);
                    other.lemma_two_open(terms, j, a);
                }
            }
        }
    }

    /// The term at `i` holds whatever version is taken.
    pub open spec fn term_holds(&self, terms: Seq<TermView>, i: int) -> bool {
        holds(self.knowledge(terms[i].0), terms[i].1)
    }

    /// The term at `i` cannot hold.
    pub open spec fn term_excluded(&self, terms: Seq<TermView>, i: int) -> bool {
        excluded(self.knowledge(terms[i].0), terms[i].1)
    }

    /// A search that has not begun.
    pub fn new() -> (r: Self)
        ensures
            r.wf(),
            r.log() == Seq::<EntryView>::empty(),
            r.clauses() == Seq::<IncompatView>::empty(),
            r.step() == 0,
            r.level() == 0,
            r.budget() == u64::MAX,
    {
        let r = Resolver {
            step: 0,
            level: 0,
            assignments: Vec::new(),
            decisions: Vec::new(),
            derivations: Vec::new(),
            incompats: Vec::new(),
            budget: u64::MAX,
        };
        proof {
            assert(r.log() =~= Seq::<EntryView>::empty());
            assert(r.clauses() =~= Seq::<IncompatView>::empty());
        }
        r
    }

    /// A search that has not begun and that may take `budget` steps.
    pub fn with_budget(budget: u64) -> (r: Self)
        ensures
            r.wf(),
            r.log() == Seq::<EntryView>::empty(),
            r.clauses() == Seq::<IncompatView>::empty(),
            r.step() == 0,
            r.level() == 0,
            r.budget() == budget,
    {
        let r = Resolver {
            step: 0,
            level: 0,
            assignments: Vec::new(),
            decisions: Vec::new(),
            derivations: Vec::new(),
            incompats: Vec::new(),
            budget,
        };
        proof {
            assert(r.log() =~= Seq::<EntryView>::empty());
            assert(r.clauses() =~= Seq::<IncompatView>::empty());
        }
        r
    }

    /// Takes one step off the budget. Answers whether there was one to take.
    pub fn spend(&mut self) -> (ok: bool)
        ensures
            ok == (old(self).budget() > 0),
            ok ==> final(self).budget() == old(self).budget() - 1,
            !ok ==> final(self).budget() == old(self).budget(),
            final(self).same_search(old(self)),
            final(self).wf() == old(self).wf(),
    {
        if self.budget > 0 {
            self.budget = self.budget - 1;
            true
        } else {
            false
        }
    }

    /// How many incompatibilities there are.
    pub fn known(&self) -> (n: usize)
        ensures
            n == self.clauses().len(),
    {
        self.incompats.len()
    }

    /// The incompatibility at `at`.
    pub fn incompat(&self, at: usize) -> (r: &Incompatibility)
        requires
            at < self.clauses().len(),
        ensures
            (r.terms(), r.cause) == self.clauses()[at as int],
            self.wf() && r.cause is Derived ==> r.cause->Derived_0 < at && r.cause->Derived_1 < at,
    {
        &self.incompats[at]
    }

    /// The entry of the log at `at`.
    pub fn entry(&self, at: usize) -> (r: &Assignment<PackageId>)
        requires
            at < self.log().len(),
        ensures
            entry_view(*r) == self.log()[at as int],
            self.wf() && r.ty is Derivation ==> r.ty->cause < self.clauses().len(),
    {
        &self.assignments[at]
    }

    /// Takes up an incompatibility and answers its place.
    pub fn incompatibility(
        &mut self,
        deps: IndexMap<PackageId, Constraint>,
        cause: IncompatibilityCause,
    ) -> (at: usize)
        requires
            old(self).wf(),
            cause is Derived ==> cause->Derived_0 < old(self).clauses().len() && cause->Derived_1
                < old(self).clauses().len(),
        ensures
            final(self).wf(),
            at == old(self).clauses().len(),
            final(self).clauses() == old(self).clauses().push((term_views(map_terms(deps)), cause)),
            final(self).extends(old(self)),
            final(self).log() == old(self).log(),
            final(self).step() == old(self).step(),
            final(self).level() == old(self).level(),
            final(self).budget() == old(self).budget(),
            forall|id: PackageIdView| final(self).knowledge(id) == old(self).knowledge(id),
            forall|id: PackageIdView| final(self).decision_of(id) == old(self).decision_of(id),
    {
        let at = self.incompats.len();
        self.incompats.push(Incompatibility::new(deps, cause));
        proof {
            assert(self.clauses() =~= old(self).clauses().push(
                (term_views(map_terms(deps)), cause),
            ));
            assert(self.log() == old(self).log());
            assert forall|id: PackageIdView| self.knowledge(id) == known_from(self.log(), id) by {
                assert(old(self).knowledge(id) == known_from(old(self).log(), id));
            }
            assert forall|id: PackageIdView| self.decision_of(id) == decided_from(self.log(), id) by {
                assert(old(self).decision_of(id) == decided_from(old(self).log(), id));
            }
            assert forall|i: int|
                0 <= i < self.incompats@.len() && (
                #[trigger] self.incompats@[i]).cause is Derived implies {
                &&& self.incompats@[i].cause->Derived_0 < i
                &&& self.incompats@[i].cause->Derived_1 < i
            } by {
                if i < at {
                    assert(self.incompats@[i] == old(self).incompats@[i]);
                }
            }
        }
        at
    }

    /// How what is known of `pkg` relates to `con`.
    pub fn relation(&self, pkg: &PackageId, con: &Constraint) -> (r: Relation)
        ensures
            r == relation_of(possible(self.knowledge(pkg@)), con@),
    {
        match crate::package::retriever::find(&self.derivations, pkg) {
            Some(i) => self.derivations[i].1.constraint.relation(con),
            None => {
                let all = Constraint::any();
                proof {
                    all@[0].lemma_of_ends();
                    assert(all@ =~= any_version());
                }
                all.relation(con)
            },
        }
    }

    /// Whether it is known already that `pkg` lies in `c`, and that it is
    /// needed if `positive` says so: then deriving it adds nothing.
    pub fn implies(&self, pkg: &PackageId, c: &Constraint, positive: bool) -> (r: bool)
        ensures
            r == settled(self.knowledge(pkg@), c@, positive),
    {
        match crate::package::retriever::find(&self.derivations, pkg) {
            Some(i) => {
                let known = &self.derivations[i].1;
                known.constraint.check();
                c.check();
                proof {
                    lemma_entails(known.constraint@, c@);
                }
                let within = match known.constraint.relation(c) {
                    Relation::Subset => true,
                    Relation::Equal => true,
                    _ => false,
                };
                (known.positive || !positive) && within
            },
            None => false,
        }
    }

    /// Narrows what is known of `pkg` by `c`.
    fn narrow(&mut self, pkg: &PackageId, c: &Constraint, positive: bool)
        ensures
            final(self).knowledge(pkg@) == Some(narrowed(old(self).knowledge(pkg@), positive, c@)),
            forall|id: PackageIdView| id != pkg@ ==> final(self).knowledge(id) == old(self).knowledge(id),
            final(self).assignments == old(self).assignments,
            final(self).decisions == old(self).decisions,
            final(self).incompats == old(self).incompats,
            final(self).budget == old(self).budget,
            final(self).step == old(self).step,
            final(self).level == old(self).level,
    {
        let ghost before = self.derivations@;
        match crate::package::retriever::find(&self.derivations, pkg) {
            Some(i) => {
                let entry = self.derivations.remove(i);
                let both = entry.1.constraint.intersection(c);
                proof {
                    lemma_intersection_of(entry.1.constraint@, c@, both@);
                }
                let known = Known { positive: entry.1.positive || positive, constraint: both };
                self.derivations.insert(i, (entry.0, known));
                proof {
                    assert(self.derivations@ =~= before.update(i as int, (entry.0, known)));
                    assert forall|id: PackageIdView|
                        lookup(self.derivations@, id) == (if id == pkg@ {
                            Some(known)
                        } else {
                            lookup(before, id)
                        }) by {
                        lemma_lookup_update(before, i as int, entry.0, known, id);
                    }
                }
            },
            None => {
                let known = Known { positive, constraint: c.clone() };
                let key = pkg.clone();
                self.derivations.push((key, known));
                proof {
                    assert forall|id: PackageIdView|
                        lookup(self.derivations@, id) == (match lookup(before, id) {
                            Some(x) => Some(x),
                            None => if key@ == id {
                                Some(known)
                            } else {
                                None
                            },
                        }) by {
                        lemma_lookup_push(before, key, known, id);
                    }
                }
            },
        }
    }

    /// Records that `pkg` lies in `c` because of the incompatibility at
    /// `cause`. Fails only when the steps cannot be counted any further.
    pub fn derivation(&mut self, pkg: PackageId, c: Constraint, cause: usize, positive: bool) -> (r:
        Result<(), ResolveError>)
        requires
            old(self).wf(),
            cause < old(self).clauses().len(),
        ensures
            final(self).wf(),
            final(self).budget() == old(self).budget(),
            final(self).clauses() == old(self).clauses(),
            final(self).level() == old(self).level(),
            r is Err <==> old(self).step() == u16::MAX,
            r is Err ==> r->Err_0 is GaveUp && final(self).same_search(old(self)),
            r is Ok ==> final(self).step() == old(self).step() + 1,
            r is Ok ==> final(self).log() == old(self).log().push(
                EntryView {
                    step: old(self).step(),
                    level: old(self).level(),
                    pkg: pkg@,
                    decision: None,
                    admits: c@,
                    cause: Some(cause),
                    positive,
                },
            ),
    {
        if self.step == u16::MAX {
            return Err(ResolveError::GaveUp);
        }
        let ghost before = self.log();
        let ghost cv = c@;
        let ghost pv = pkg@;
        self.narrow(&pkg, &c, positive);
        let entry = Assignment::new(
            self.step,
            self.level,
            pkg,
            AssignmentType::Derivation { cause, constraint: c, positive },
        );
        let ghost view = entry_view(entry);
        self.assignments.push(entry);
        self.step = self.step + 1;
        proof {
            assert(view.pkg == pv && view.admits == cv && view.positive == positive);
            assert(self.log() =~= before.push(view));
            assert(self.log().drop_last() =~= before);
            assert(self.log().last() == view);
            assert forall|id: PackageIdView| self.knowledge(id) == known_from(self.log(), id) by {
                assert(old(self).knowledge(id) == known_from(before, id));
                assert(old(self).knowledge(pv) == known_from(before, pv));
            }
            assert forall|id: PackageIdView| self.decision_of(id) == decided_from(self.log(), id) by {
                assert(old(self).decision_of(id) == decided_from(before, id));
            }
        }
        Ok(())
    }

    /// Records that `pkg` is taken at `version`. Fails only when the steps
    /// or the decisions cannot be counted any further.
    pub fn decision(&mut self, pkg: PackageId, version: Version) -> (r: Result<(), ResolveError>)
        requires
            old(self).wf(),
        ensures
            final(self).wf(),
            final(self).budget() == old(self).budget(),
            final(self).clauses() == old(self).clauses(),
            r is Err <==> old(self).step() == u16::MAX || old(self).level() == u16::MAX,
            r is Err ==> r->Err_0 is GaveUp && final(self).same_search(old(self)),
            r is Ok ==> final(self).step() == old(self).step() + 1,
            r is Ok ==> final(self).level() == old(self).level() + 1,
            r is Ok ==> final(self).log() == old(self).log().push(
                EntryView {
                    step: old(self).step(),
                    level: (old(self).level() + 1) as u16,
                    pkg: pkg@,
                    decision: Some(version),
                    admits: exactly(version),
                    cause: None,
                    positive: true,
                },
            ),
    {
        if self.step == u16::MAX || self.level == u16::MAX {
            return Err(ResolveError::GaveUp);
        }
        let ghost before = self.log();
        let ghost decided = self.decisions@;
        self.level = self.level + 1;
        let exact = Constraint::from_version(version);
        proof {
            exact@[0].lemma_of_ends();
            assert(exact@ =~= exactly(version));
        }
        let ghost mid = *self;
        self.narrow(&pkg, &exact, true);
        let ghost after = *self;
        let key = pkg.clone();
        self.decisions.push((key, version));
        let entry = Assignment::new(
            self.step,
            self.level,
            pkg,
            AssignmentType::Decision { version },
        );
        let ghost view = entry_view(entry);
        self.assignments.push(entry);
        self.step = self.step + 1;
        proof {
            assert(view.pkg == key@ && view.admits == exactly(version) && view.positive);
            assert(self.log() =~= before.push(view));
            assert(self.log().drop_last() =~= before);
            assert(self.log().last() == view);
            assert forall|id: PackageIdView| self.knowledge(id) == known_from(self.log(), id) by {
                assert(old(self).knowledge(id) == known_from(before, id));
                assert(mid.knowledge(id) == old(self).knowledge(id));
                assert(self.knowledge(id) == after.knowledge(id));
                if id == key@ {
                    assert(after.knowledge(id) == Some(narrowed(mid.knowledge(id), true, exact@)));
                } else {
                    assert(after.knowledge(id) == mid.knowledge(id));
                }
            }
            assert forall|id: PackageIdView| self.decision_of(id) == decided_from(self.log(), id) by {
                assert(old(self).decision_of(id) == decided_from(before, id));
                lemma_lookup_push(decided, key, version, id);
            }
        }
        Ok(())
    }

    /// The version that was decided on for `id`.
    pub fn decided(&self, id: &PackageId) -> (r: Option<Version>)
        ensures
            r == self.decision_of(id@),
    {
        match crate::package::retriever::find(&self.decisions, id) {
            Some(i) => Some(self.decisions[i].1),
            None => None,
        }
    }

    /// Whether the incompatibility at `icix` shows that there is no
    /// solution: it has no terms, or its only term is about the root.
    pub fn is_failure(&self, icix: usize) -> (r: bool)
        requires
            icix < self.clauses().len(),
        ensures
            r == (self.clauses()[icix as int].0.len() == 0 || (self.clauses()[icix as int].0.len()
                == 1 && self.clauses()[icix as int].0[0].0 == PackageIdView::Root)),
    {
        let inc = &self.incompats[icix];
        let n = inc.len();
        if n == 0 {
            true
        } else if n == 1 {
            inc.term(0).0.is_root()
        } else {
            false
        }
    }

    /// Whether the incompatibility at `icix` has a term about `pkg`.
    pub fn mentions(&self, icix: usize, pkg: &PackageId) -> (r: bool)
        requires
            icix < self.clauses().len(),
        ensures
            r == exists|i: int|
                0 <= i < self.clauses()[icix as int].0.len() && (
                #[trigger] self.clauses()[icix as int].0[i]).0 == pkg@,
    {
        let inc = &self.incompats[icix];
        let n = inc.len();
        let mut i: usize = 0;
        while i < n
            invariant
                i <= n,
                n == inc.terms().len(),
                inc.terms() == self.clauses()[icix as int].0,
                forall|k: int| 0 <= k < i ==> (#[trigger] inc.terms()[k]).0 != pkg@,
            decreases n - i,
        {
            if inc.term(i).0.same(pkg) {
                return true;
            }
            i += 1;
        }
        false
    }

    /// Whether every term of `inc` that is not about `id` holds already.
    pub fn conflicts(&self, inc: &Incompatibility, id: &PackageId) -> (r: bool)
        ensures
            r == forall|i: int|
                0 <= i < inc.terms().len() ==> (#[trigger] inc.terms()[i]).0 == id@
                    || self.term_holds(inc.terms(), i),
    {
        let n = inc.len();
        let mut i: usize = 0;
        while i < n
            invariant
                i <= n,
                n == inc.terms().len(),
                forall|k: int|
                    0 <= k < i ==> (#[trigger] inc.terms()[k]).0 == id@ || self.term_holds(
                        inc.terms(),
                        k,
                    ),
            decreases n - i,
        {
            let term = inc.term(i);
            let within = match self.relation(term.0, term.1) {
                Relation::Subset => true,
                Relation::Equal => true,
                _ => false,
            };
            if !(term.0.same(id) || within) {
                return false;
            }
            i += 1;
        }
        true
    }

    /// Holds the incompatibility at `icix` against what is known. If all
    /// its terms hold, that is a conflict. If all its terms but one hold and
    /// that one is open, the opposite of that term is derived, unless it is
    /// known already. In every other case nothing follows.
    #[verifier::loop_isolation(false)]
    pub fn propagate_incompat(&mut self, icix: usize) -> (r: Result<
        IncompatMatch<PackageId>,
        ResolveError,
    >)
        requires
            old(self).wf(),
            icix < old(self).clauses().len(),
        ensures
            final(self).wf(),
            final(self).budget() == old(self).budget(),
            final(self).clauses() == old(self).clauses(),
            final(self).level() == old(self).level(),
            (r is Ok && r->Ok_0 is Contradicted) == old(self).quiet(old(self).clauses()[icix as int]),
            r is Ok && r->Ok_0 is Contradicted ==> *final(self) == *old(self),
            (r is Ok && r->Ok_0 is Satisfied) == (old(self).standing(
                old(self).clauses()[icix as int].0,
            ) is Satisfied),
            r is Ok && r->Ok_0 is Almost ==> {
                &&& final(self).log().len() == old(self).log().len() + 1
                &&& final(self).log().take(old(self).log().len() as int) == old(self).log()
                &&& follows_at(final(self).log(), final(self).clauses(), old(self).log().len() as int)
            },
            r is Err ==> r->Err_0 is GaveUp && final(self).step() == u16::MAX,
            r is Err ==> final(self).same_search(old(self)),
            ({
                let u = unit_step(
                    old(self).log(),
                    old(self).clauses()[icix as int],
                    icix,
                    old(self).level(),
                );
                &&& final(self).log() == u.log
                &&& match u.end {
                    UnitEnd::Nothing => r is Ok && r->Ok_0 is Contradicted,
                    UnitEnd::Conflict => r is Ok && r->Ok_0 is Satisfied,
                    UnitEnd::Derived(id) => r is Ok && r->Ok_0 is Almost && r->Ok_0->Almost_0@ == id,
                    UnitEnd::Full => r is Err && r->Err_0 is GaveUp,
                }
            }),
            ({
                let (terms, cause) = old(self).clauses()[icix as int];
                match old(self).standing(terms) {
                    Standing::Contradicted => {
                        &&& r is Ok
                        &&& r->Ok_0 is Contradicted
                        &&& final(self).same_search(old(self))
                    },
                    Standing::Satisfied => {
                        &&& r is Ok
                        &&& r->Ok_0 is Satisfied
                        &&& final(self).same_search(old(self))
                    },
                    Standing::Almost(at) => {
                        let derived = complement_of(terms[at].1);
                        let positive = makes_needed(terms.len(), cause, at);
                        if settled(old(self).knowledge(terms[at].0), derived, positive) {
                            r is Ok && r->Ok_0 is Contradicted && final(self).same_search(old(self))
                        } else if old(self).step() == u16::MAX {
                            r is Err && r->Err_0 is GaveUp && final(self).same_search(old(self))
                        } else {
                            &&& r is Ok
                            &&& r->Ok_0 is Almost
                            &&& r->Ok_0->Almost_0@ == terms[at].0
                            &&& final(self).step() == old(self).step() + 1
                            &&& final(self).log() == old(self).log().push(
                                EntryView {
                                    step: old(self).step(),
                                    level: old(self).level(),
                                    pkg: terms[at].0,
                                    decision: None,
                                    admits: derived,
                                    cause: Some(icix),
                                    positive,
                                },
                            )
                        }
                    },
                }
            }),
    {
        proof {
            self.lemma_standing_in(self.clauses()[icix as int].0);
            self.lemma_step();
        }
        let inc = &self.incompats[icix];
        let n = inc.len();
        let cause = inc.cause();
        let ghost terms = inc.terms();
        let mut unsatisfied: Option<OpenTerm> = None;
        let ghost mut open_at: int = -1;
        let mut i: usize = 0;
        while i < n
            invariant
                i <= n,
                n == terms.len(),
                inc == &self.incompats[icix as int],
                terms == inc.terms(),
                terms == self.clauses()[icix as int].0,
                *self == *old(self),
                forall|k: int| 0 <= k < i ==> !self.term_excluded(terms, k),
                unsatisfied is None ==> open_at == -1 && forall|k: int|
                    0 <= k < i ==> self.term_holds(terms, k),
                unsatisfied is Some ==> {
                    &&& 0 <= open_at < i
                    &&& !self.term_holds(terms, open_at)
                    &&& forall|k: int| 0 <= k < i && k != open_at ==> self.term_holds(terms, k)
                    &&& unsatisfied->0.pkg@ == terms[open_at].0
                    &&& unsatisfied->0.con@ == terms[open_at].1
                    &&& unsatisfied->0.positive == makes_needed(terms.len(), cause, open_at)
                },
            decreases n - i,
        {
            let term = inc.term(i);
            let relation = self.relation(term.0, term.1);
            let single = n == 1 && cause != IncompatibilityCause::Unavailable;
            let dependee = cause == IncompatibilityCause::Dependency && i != 0;
            let positive = single || dependee;
            match relation {
                Relation::Disjoint => {
                    proof {
                        assert(self.term_excluded(terms, i as int));
                    }
                    return Ok(IncompatMatch::Contradicted);
                },
                Relation::Subset => {},
                Relation::Equal => {},
                _ => {
                    if unsatisfied.is_none() {
                        unsatisfied = Some(
                            OpenTerm { pkg: term.0.clone(), con: term.1.clone(), positive },
                        );
                        proof {
                            open_at = i as int;
                        }
                    } else {
                        proof {
                            assert(!self.term_holds(terms, i as int));
                            assert(!self.term_holds(terms, open_at));
                            self.lemma_two_open(terms, open_at, i as int);
                        }
                        return Ok(IncompatMatch::Contradicted);
                    }
                },
            }
            i += 1;
        }
        match unsatisfied {
            Some(open) => {
                let OpenTerm { pkg, con, positive } = open;
                let derived = con.complement();
                proof {
                    lemma_complement_of(con@, derived@);
                    self.lemma_one_open(terms, open_at);
                }
                if self.implies(&pkg, &derived, positive) {
                    return Ok(IncompatMatch::Contradicted);
                }
                match self.derivation(pkg.clone(), derived, icix, positive) {
                    Err(e) => Err(e),
                    Ok(_) => {
                        proof {
                            let before = old(self).log();
                            let now = self.log();
                            let clause = old(self).clauses()[icix as int];
                            assert(now.take(before.len() as int) =~= before);
                            old(self).lemma_almost(terms, open_at);
                            assert forall|j: int| 0 <= j < terms.len() implies old(self).term_holds(
                                terms,
                                j,
                            ) == holds(known_from(before, (#[trigger] terms[j]).0), terms[j].1) by {
                                assert(old(self).knowledge(terms[j].0) == known_from(
                                    before,
                                    terms[j].0,
                                ));
                            }
                            assert(derives(
                                now.take(before.len() as int),
                                clause,
                                open_at,
                                now[before.len() as int],
                            ));
                        }
                        Ok(IncompatMatch::Almost(pkg))
                    },
                }
            },
            None => Ok(IncompatMatch::Satisfied),
        }
    }

    /// With two terms open an incompatibility is contradicted.
    proof fn lemma_two_open(&self, terms: Seq<TermView>, a: int, b: int)
        requires
            0 <= a < b < terms.len(),
            !self.term_holds(terms, a),
            !self.term_holds(terms, b),
        ensures
            self.standing(terms) is Contradicted,
    {
        if !(exists|i: int| 0 <= i < terms.len() && self.term_excluded(terms, i)) {
            let at = choose|i: int| 0 <= i < terms.len() && !self.term_holds(terms, i);
            if at == a {
                assert(!self.term_holds(terms, b));
            } else {
                assert(!self.term_holds(terms, a));
            }
        }
    }

    /// With one term open, none excluded and all others holding, an
    /// incompatibility is almost satisfied at that term.
    proof fn lemma_one_open(&self, terms: Seq<TermView>, a: int)
        requires
            0 <= a < terms.len(),
            !self.term_holds(terms, a),
            forall|k: int| 0 <= k < terms.len() ==> !self.term_excluded(terms, k),
            forall|k: int| 0 <= k < terms.len() && k != a ==> self.term_holds(terms, k),
        ensures
            self.standing(terms) == Standing::Almost(a),
    {
        let at = choose|i: int| 0 <= i < terms.len() && !self.term_holds(terms, i);
        assert(at == a) by {
            if at != a {
                assert(self.term_holds(terms, at));
            }
        }
    }

    /// The first entry of the log from which on what is assigned to `pkg`
    /// lies within `con`.
    pub fn satisfier(&self, pkg: &PackageId, con: &Constraint) -> (r: Option<usize>)
        ensures
            r is Some ==> satisfied_at(self.log(), pkg@, con@, r->0 as int),
            r is Some ==> forall|j: int| 0 <= j < r->0 ==> !satisfied_at(self.log(), pkg@, con@, j),
            r is None ==> forall|j: int| !satisfied_at(self.log(), pkg@, con@, j),
    {
        let n = self.assignments.len();
        let ghost log = self.log();
        let mut assigned = Constraint::any();
        con.check();
        proof {
            lemma_any_version();
            assigned@[0].lemma_of_ends();
            assert(assigned@ =~= any_version());
        }
        let mut i: usize = 0;
        while i < n
            invariant
                i <= n,
                n == log.len(),
                log == self.log(),
                log == entry_views(self.assignments@),
                canonical(assigned@),
                canonical(con@),
                forall|p: int|
                    #[trigger] covers(assigned@, p) <==> (on_line(p) && all_admit(
                        log,
                        pkg@,
                        i - 1,
                        p,
                    )),
                forall|j: int| 0 <= j < i ==> !satisfied_at(log, pkg@, con@, j),
            decreases n - i,
        {
            let a = &self.assignments[i];
            let ghost before = assigned@;
            proof {
                assert(log[i as int] == entry_view(*a));
            }
            if a.pkg().same(pkg) {
                let admits = a.constraint();
                assigned = assigned.intersection(&admits);
                proof {
                    assert forall|p: int|
                        #[trigger] covers(assigned@, p) <==> (on_line(p) && all_admit(
                            log,
                            pkg@,
                            i as int,
                            p,
                        )) by {
                        assert(covers(assigned@, p) <==> (covers(before, p) && covers(admits@, p)));
                        assert(covers(before, p) <==> (on_line(p) && all_admit(
                            log,
                            pkg@,
                            i - 1,
                            p,
                        )));
                        if all_admit(log, pkg@, i as int, p) {
                            assert(covers(log[i as int].admits, p));
                        }
                    }
                    lemma_entails(assigned@, con@);
                }
                let within = match assigned.relation(con) {
                    Relation::Subset => true,
                    Relation::Equal => true,
                    _ => false,
                };
                if within {
                    proof {
                        assert forall|p: int|
                            on_line(p) && #[trigger] all_admit(log, pkg@, i as int, p) implies covers(
                            con@,
                            p,
                        ) by {
                            assert(covers(assigned@, p));
                        }
                    }
                    return Some(i);
                }
                proof {
                    let p = choose|p: int| covers(assigned@, p) && !covers(con@, p);
                    assert(on_line(p) && all_admit(log, pkg@, i as int, p));
                }
            } else {
                proof {
                    assert forall|p: int|
                        #[trigger] covers(assigned@, p) <==> (on_line(p) && all_admit(
                            log,
                            pkg@,
                            i as int,
                            p,
                        )) by {
                        assert(covers(before, p) <==> (on_line(p) && all_admit(
                            log,
                            pkg@,
                            i - 1,
                            p,
                        )));
                    }
                }
            }
            i += 1;
        }
        None
    }

    /// The higher of `level` and the level of the entry at `at`.
    fn raised(&self, level: u16, at: usize) -> (r: u16)
        requires
            at < self.log().len(),
        ensures
            r == higher_level(level, self.log()[at as int].level),
    {
        proof {
            assert(self.log()[at as int] == entry_view(self.assignments@[at as int]));
        }
        if level < self.assignments[at].level() {
            self.assignments[at].level()
        } else {
            level
        }
    }

    /// Looks at one more term of a conflict, the one at `at`.
    fn analyse_term(&self, so_far: Option<Analysis>, id: &PackageId, con: &Constraint, at: usize) -> (r:
        Result<Analysis, ResolveError>)
        requires
            so_far is Some ==> so_far->0.satisfier < self.log().len(),
        ensures
            match analysed_term(self.log(), progress(so_far), (id@, con@), at as int) {
                None => r is Err && r->Err_0 is Inconsistent,
                Some(a) => r is Ok && r->Ok_0@ == a && r->Ok_0.satisfier < self.log().len(),
            },
            r is Ok ==> r->Ok_0.term == at || (so_far is Some && r->Ok_0.term == so_far->0.term),
    {
        reveal(analysed_term);
        let ghost log = self.log();
        let sat = match self.satisfier(id, con) {
            Some(s) => s,
            None => {
                assert(first_satisfier(log, id@, con@) is None);
                return Err(
                    ResolveError::Inconsistent(
                        "A conflict has a term that nothing satisfies".to_owned(),
                    ),
                );
            },
        };
        proof {
            lemma_first_satisfier(log, id@, con@, sat as int);
            assert(log[sat as int] == entry_view(self.assignments@[sat as int]));
        }
        let level: u16 = match so_far {
            None => 1,
            Some(a) => {
                proof {
                    assert(log[a.satisfier as int] == entry_view(
                        self.assignments@[a.satisfier as int],
                    ));
                }
                if self.assignments[a.satisfier].step() < self.assignments[sat].step() {
                    self.raised(a.previous_level, a.satisfier)
                } else {
                    let previous_level = self.raised(a.previous_level, sat);
                    return Ok(Analysis { previous_level, ..a });
                }
            },
        };
        let admits = self.assignments[sat].constraint();
        let diff = admits.difference(con);
        proof {
            lemma_difference_of(admits@, con@, diff@);
        }
        if diff.is_empty() {
            return Ok(Analysis { term: at, satisfier: sat, difference: None, previous_level: level });
        }
        let outside = diff.complement();
        proof {
            lemma_complement_of(diff@, outside@);
        }
        match self.satisfier(id, &outside) {
            Some(rest) => {
                proof {
                    lemma_first_satisfier(log, id@, outside@, rest as int);
                }
                let previous_level = self.raised(level, rest);
                Ok(Analysis { term: at, satisfier: sat, difference: Some(diff), previous_level })
            },
            None => {
                assert(first_satisfier(log, id@, outside@) is None);
                Err(
                    ResolveError::Inconsistent(
                        "A conflict has a term that nothing satisfies".to_owned(),
                    ),
                )
            },
        }
    }

    /// Looks at the terms of the conflict at `icix`: finds the term that was
    /// satisfied last and the level up to which the others were satisfied.
    /// Fails if the log does not satisfy every term, or if there is no term.
    pub fn analyse(&self, icix: usize) -> (r: Result<Analysis, ResolveError>)
        requires
            icix < self.clauses().len(),
        ensures
            ({
                let terms = self.clauses()[icix as int].0;
                match analysed(self.log(), terms, terms.len()) {
                    None => r is Err && r->Err_0 is Inconsistent,
                    Some(a) => if a.satisfier < 0 {
                        r is Err && r->Err_0 is Inconsistent
                    } else {
                        &&& r is Ok
                        &&& r->Ok_0@ == a
                        &&& r->Ok_0.term < terms.len()
                        &&& r->Ok_0.satisfier < self.log().len()
                    },
                }
            }),
    {
        let inc = &self.incompats[icix];
        let n = inc.len();
        let ghost log = self.log();
        let ghost terms = inc.terms();
        let mut found: Option<Analysis> = None;
        let mut t: usize = 0;
        while t < n
            invariant
                t <= n,
                n == terms.len(),
                inc == &self.incompats[icix as int],
                terms == inc.terms(),
                terms == self.clauses()[icix as int].0,
                log == self.log(),
                analysed(log, terms, t as nat) == Some(progress(found)),
                found is Some ==> found->0.satisfier < log.len() && found->0.term < t,
                found is None ==> t == 0,
            decreases n - t,
        {
            let term = inc.term(t);
            match self.analyse_term(found, term.0, term.1, t) {
                Ok(a) => {
                    found = Some(a);
                },
                Err(e) => {
                    proof {
                        assert(analysed(log, terms, (t + 1) as nat) is None);
                        lemma_analysed_fails(log, terms, t + 1);
                    }
                    return Err(e);
                },
            }
            t += 1;
        }
        match found {
            Some(a) => Ok(a),
            None => Err(ResolveError::Inconsistent("A conflict has no terms".to_owned())),
        }
    }

    /// Goes back to the decision level `level`: the entries of the log from
    /// the first with a higher level on are dropped, and what is known of
    /// every package is worked out anew.
    pub fn backtrack(&mut self, level: u16)
        requires
            old(self).wf(),
        ensures
            final(self).wf(),
            final(self).budget() == old(self).budget(),
            final(self).clauses() == old(self).clauses(),
            final(self).level() == level,
            final(self).step() == kept(old(self).log(), level),
            final(self).log() == old(self).log().take(kept(old(self).log(), level)),
            0 <= kept(old(self).log(), level) <= old(self).log().len(),
    {
        self.level = level;
        let ghost start = self.log();
        proof {
            assert(start.take(start.len() as int) =~= start);
        }
        while self.assignments.len() > 0 && self.assignments[self.assignments.len() - 1].level()
            > level
            invariant
                self.budget == old(self).budget,
                self.incompats == old(self).incompats,
                self.level == level,
                self.step == self.assignments@.len(),
                self.assignments@.len() <= old(self).assignments@.len(),
                start.len() == old(self).assignments@.len(),
                self.log() == start.take(self.assignments@.len() as int),
                kept(start, level) == kept(self.log(), level),
                forall|i: int|
                    0 <= i < self.assignments@.len() ==> #[trigger] self.assignments@[i]
                        == old(self).assignments@[i],
            decreases self.assignments@.len(),
        {
            let ghost before = self.log();
            let ghost held = self.assignments@.len();
            proof {
                assert(before.last() == entry_view(self.assignments@[held - 1]));
                assert(before.last().level > level);
            }
            let _ = self.assignments.pop();
            if self.step > 0 {
                self.step = self.step - 1;
            }
            proof {
                assert(self.log() =~= before.drop_last());
                assert(start.take(held as int).drop_last() =~= start.take(held - 1));
                assert(self.log() =~= start.take(self.assignments@.len() as int));
            }
        }
        proof {
            let log = self.log();
            if log.len() > 0 {
                assert(log.last() == entry_view(self.assignments@[self.assignments@.len() - 1]));
            }
        }
        self.decisions = Vec::new();
        self.derivations = Vec::new();
        let n = self.assignments.len();
        let ghost log = self.log();
        let mut i: usize = 0;
        proof {
            assert(log.take(0) =~= Seq::<EntryView>::empty());
        }
        while i < n
            invariant
                i <= n,
                n == self.assignments@.len(),
                log == self.log(),
                log == entry_views(self.assignments@),
                self.budget == old(self).budget,
                self.incompats == old(self).incompats,
                self.level == level,
                self.step == self.assignments@.len(),
                forall|k: int|
                    0 <= k < self.assignments@.len() ==> #[trigger] self.assignments@[k]
                        == old(self).assignments@[k],
                forall|id: PackageIdView| self.knowledge(id) == known_from(log.take(i as int), id),
                forall|id: PackageIdView|
                    self.decision_of(id) == decided_from(log.take(i as int), id),
            decreases n - i,
        {
            let pkg = self.assignments[i].pkg().clone();
            let c = self.assignments[i].constraint();
            let ghost known_before = self.derivations@;
            let ghost decided = self.decisions@;
            let ghost prior = *self;
            proof {
                assert(log.take(i + 1).drop_last() =~= log.take(i as int));
                assert(log.take(i + 1).last() == log[i as int]);
                assert(log[i as int] == entry_view(self.assignments@[i as int]));
            }
            match self.assignments[i].ty() {
                AssignmentType::Decision { version } => {
                    let v = *version;
                    self.narrow(&pkg, &c, true);
                    let key = pkg.clone();
                    self.decisions.push((key, v));
                    proof {
                        assert forall|id: PackageIdView|
                            self.decision_of(id) == decided_from(log.take(i + 1), id) by {
                            assert(prior.decision_of(id) == decided_from(log.take(i as int), id));
                            lemma_lookup_push(decided, key, v, id);
                        }
                    }
                },
                AssignmentType::Derivation { constraint: _constraint, cause: _cause, positive } => {
                    let p = *positive;
                    self.narrow(&pkg, &c, p);
                    proof {
                        assert forall|id: PackageIdView|
                            self.decision_of(id) == decided_from(log.take(i + 1), id) by {
                            assert(prior.decision_of(id) == decided_from(log.take(i as int), id));
                        }
                    }
                },
            }
            proof {
                assert forall|id: PackageIdView|
                    self.knowledge(id) == known_from(log.take(i + 1), id) by {
                    assert(prior.knowledge(id) == known_from(log.take(i as int), id));
                }
            }
            i += 1;
        }
        proof {
            assert(log.take(n as int) =~= log);
        }
    }

    /// The packages to decide on: those that are needed and not decided,
    /// each with the versions that are still possible for it.
    pub fn candidates(&self) -> (r: Vec<(PackageId, Constraint)>)
        ensures
            forall|k: int|
                0 <= k < r@.len() ==> {
                    &&& self.knowledge((#[trigger] r@[k]).0@) == Some(
                        KnownView { positive: true, constraint: r@[k].1@ },
                    )
                    &&& self.decision_of(r@[k].0@) is None
                },
            forall|id: PackageIdView|
                self.knowledge(id) is Some && self.knowledge(id)->0.positive && self.decision_of(
                    id,
                ) is None ==> exists|k: int| 0 <= k < r@.len() && (#[trigger] r@[k]).0@ == id,
    {
        let n = self.derivations.len();
        let mut r: Vec<(PackageId, Constraint)> = Vec::new();
        let mut i: usize = 0;
        while i < n
            invariant
                i <= n,
                n == self.derivations@.len(),
                forall|k: int|
                    0 <= k < r@.len() ==> {
                        &&& self.knowledge((#[trigger] r@[k]).0@) == Some(
                            KnownView { positive: true, constraint: r@[k].1@ },
                        )
                        &&& self.decision_of(r@[k].0@) is None
                    },
                forall|j: int|
                    0 <= j < i && first_entry(self.derivations@, (#[trigger] self.derivations@[j]).0@, j)
                        && self.derivations@[j].1.positive && self.decision_of(
                        self.derivations@[j].0@,
                    ) is None ==> exists|k: int|
                        0 <= k < r@.len() && (#[trigger] r@[k]).0@ == self.derivations@[j].0@,
            decreases n - i,
        {
            let id = &self.derivations[i].0;
            let first = crate::package::retriever::find(&self.derivations, id);
            let ghost held = r@;
            let is_first = match first {
                Some(at) => at == i,
                None => false,
            };
            if is_first && self.derivations[i].1.positive && self.decided(id).is_none() {
                r.push((id.clone(), self.derivations[i].1.constraint.clone()));
                proof {
                    assert(r@[held.len() as int].0@ == id@);
                    assert forall|k: int| 0 <= k < held.len() implies #[trigger] r@[k] == held[k] by {}
                }
            }
            proof {
                assert forall|j: int|
                    0 <= j < i + 1 && first_entry(
                        self.derivations@,
                        (#[trigger] self.derivations@[j]).0@,
                        j,
                    ) && self.derivations@[j].1.positive && self.decision_of(
                        self.derivations@[j].0@,
                    ) is None implies exists|k: int|
                    0 <= k < r@.len() && (#[trigger] r@[k]).0@ == self.derivations@[j].0@ by {
                    if j < i {
                        let k = choose|k: int|
                            0 <= k < held.len() && (#[trigger] held[k]).0@ == self.derivations@[j].0@;
                        assert(r@[k] == held[k]);
                    } else {
                        assert(first is Some && first->0 == i) by {
                            if first is Some && first->0 < i {
                                assert(self.derivations@[first->0 as int].0@ != id@);
                            }
                        }
                        lemma_lookup(self.derivations@, id@, i as int);
                        assert(r@[held.len() as int].0@ == id@);
                    }
                }
            }
            i += 1;
        }
        proof {
            assert forall|id: PackageIdView|
                self.knowledge(id) is Some && self.knowledge(id)->0.positive && self.decision_of(
                    id,
                ) is None implies exists|k: int| 0 <= k < r@.len() && (#[trigger] r@[k]).0@ == id by {
                lemma_first_entry(self.derivations@, id);
                let j = choose|j: int|
                    #[trigger] first_entry(self.derivations@, id, j) && lookup(
                        self.derivations@,
                        id,
                    ) == Some(self.derivations@[j].1);
                assert(self.derivations@[j].0@ == id);
            }
        }
        r
    }
}

/// Once the analysis of the terms has failed it has failed for good.
pub proof fn lemma_analysed_fails(log: Seq<EntryView>, terms: Seq<TermView>, k: int)
    requires
        0 <= k <= terms.len(),
        analysed(log, terms, k as nat) is None,
    ensures
        analysed(log, terms, terms.len()) is None,
    decreases terms.len() - k,
{
    if k < terms.len() {
        assert(analysed(log, terms, (k + 1) as nat) is None);
        lemma_analysed_fails(log, terms, k + 1);
    }
}

/// The entry at `at` is the first for the key `id`.
pub open spec fn first_entry<V>(s: Seq<(PackageId, V)>, id: PackageIdView, at: int) -> bool {
    &&& 0 <= at < s.len()
    &&& s[at].0@ == id
    &&& forall|k: int| 0 <= k < at ==> (#[trigger] s[k]).0@ != id
}

/// What a lookup finds is the value of the first entry for the key.
pub proof fn lemma_first_entry<V>(s: Seq<(PackageId, V)>, id: PackageIdView)
    requires
        lookup(s, id) is Some,
    ensures
        exists|j: int| #[trigger] first_entry(s, id, j) && lookup(s, id) == Some(s[j].1),
    decreases s.len(),
{
    if s[0].0@ == id {
        assert(first_entry(s, id, 0));
    } else {
        let rest = s.drop_first();
        lemma_first_entry(rest, id);
        let j = choose|j: int| #[trigger] first_entry(rest, id, j) && lookup(rest, id) == Some(rest[j].1);
        assert(s[j + 1] == rest[j]);
        assert forall|k: int| 0 <= k < j + 1 implies (#[trigger] s[k]).0@ != id by {
            if k > 0 {
                assert(s[k] == rest[k - 1]);
            }
        }
        assert(first_entry(s, id, j + 1));
    }
}

} // verus!
