//! Assignments: what the resolver has decided or derived so far.

use crate::semver::constraint::Constraint;
use crate::semver::interval::Interval;
use crate::semver::range::Range;
use crate::semver::version::Version;
use vstd::prelude::*;

verus! {

/// What an assignment says of its package.
#[derive(Debug)]
pub enum AssignmentType {
    /// The package is taken at this version.
    Decision { version: Version },
    /// The package's version lies in this constraint, because of the
    /// incompatibility at position `cause`.
    Derivation { constraint: Constraint, cause: usize, positive: bool },
}

/// One entry of the resolver's log.
#[derive(Debug)]
pub struct Assignment<PackageId> {
    pub step: u16,
    pub level: u16,
    pub ty: AssignmentType,
    pub pkg: PackageId,
}

impl AssignmentType {
    /// The ranges that the assignment admits: the single version of a
    /// decision, or the constraint of a derivation.
    pub open spec fn admits(&self) -> Seq<Range> {
        match self {
            AssignmentType::Decision { version } => seq![
                Range::of_ends(Interval::Closed(*version), Interval::Closed(*version)),
            ],
            AssignmentType::Derivation { constraint, cause, positive } => constraint@,
        }
    }
}

impl Clone for AssignmentType {
    fn clone(&self) -> (r: AssignmentType)
        ensures
            r.admits() == self.admits(),
            r is Decision <==> self is Decision,
            self is Decision ==> r == *self,
            self is Derivation ==> r->cause == self->cause && r->positive == self->positive,
    {
        match self {
            AssignmentType::Decision { version } => AssignmentType::Decision { version: *version },
            AssignmentType::Derivation { constraint, cause, positive } => AssignmentType::Derivation {
                constraint: constraint.clone(),
                cause: *cause,
                positive: *positive,
            },
        }
    }
}

impl<PackageId> Assignment<PackageId> {
    /// The entry for `pkg` at the given step and decision level.
    pub fn new(step: u16, level: u16, pkg: PackageId, ty: AssignmentType) -> (a: Self)
        ensures
            a.step == step,
            a.level == level,
            a.pkg == pkg,
            a.ty == ty,
    {
        Assignment { step, level, ty, pkg }
    }

    /// What the entry says.
    pub fn ty(&self) -> (t: &AssignmentType)
        ensures
            *t == self.ty,
    {
        &self.ty
    }

    /// The package that the entry is about.
    pub fn pkg(&self) -> (p: &PackageId)
        ensures
            *p == self.pkg,
    {
        &self.pkg
    }

    /// The place of the entry in the log.
    pub fn step(&self) -> (s: u16)
        ensures
            s == self.step,
    {
        self.step
    }

    /// The number of decisions made up to and including this entry.
    pub fn level(&self) -> (l: u16)
        ensures
            l == self.level,
    {
        self.level
    }

    /// The incompatibility that a derivation follows from; nothing for a
    /// decision.
    pub fn cause(&self) -> (c: Option<usize>)
        ensures
            c == match self.ty {
                AssignmentType::Decision { version } => None,
                AssignmentType::Derivation { constraint, cause, positive } => Some(cause),
            },
    {
        match &self.ty {
            AssignmentType::Decision { version: _version } => None,
            AssignmentType::Derivation { cause, constraint: _constraint, positive: _positive } => Some(
                *cause,
            ),
        }
    }

    /// The constraint that the entry puts on its package.
    pub fn constraint(&self) -> (c: Constraint)
        ensures
            c@ == self.ty.admits(),
            c.wf(),
    {
        match &self.ty {
            AssignmentType::Decision { version } => {
                let c = Constraint::from_version(*version);
                proof {
                    c@[0].lemma_of_ends();
                    assert(c@ =~= self.ty.admits());
                }
                c
            },
            AssignmentType::Derivation { constraint, cause: _cause, positive: _positive } => {
                constraint.clone()
            },
        }
    }

    /// Whether the entry is a derivation that requires its package.
    pub fn is_positive(&self) -> (p: bool)
        ensures
            p == match self.ty {
                AssignmentType::Decision { version } => false,
                AssignmentType::Derivation { constraint, cause, positive } => positive,
            },
    {
        match &self.ty {
            AssignmentType::Decision { version: _version } => false,
            AssignmentType::Derivation { positive, constraint: _constraint, cause: _cause } => *positive,
        }
    }
}

} // verus!
