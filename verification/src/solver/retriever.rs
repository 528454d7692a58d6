//! What the resolver asks of the source of packages.

use crate::package::retriever::{incompat_views, IncompatView, PackageId, PackageIdView};
use crate::semver::constraint::Constraint;
use crate::semver::version::Version;
use crate::solver::incompat::Incompatibility;
use crate::solver::summary::Summary;
use vstd::prelude::*;
use vstd::string::*;

verus! {

/// Why the source of packages could not answer.
#[derive(Debug)]
pub enum RetrieveError {
    /// The answer is not at hand and the network may not be used.
    Offline,
    /// The answer is not at hand; carries the package and version.
    NotCached(String),
    /// A preferred version lies outside the constraint; carries the sentence
    /// that names the version, the package and the constraint.
    Rejected(String),
    /// No version of the package lies in the constraint; carries the package.
    NoVersion(String),
    /// The package is not known at all; carries the package.
    UnknownPackage(String),
    /// Anything else; carries what went wrong.
    Other(String),
}

/// What a [`RetrieveError`] holds.
pub enum RetrieveFailure {
    Offline,
    NotCached(Seq<char>),
    Rejected(Seq<char>),
    NoVersion(Seq<char>),
    UnknownPackage(Seq<char>),
    Other(Seq<char>),
}

impl RetrieveFailure {
    /// The sentence that reports the failure.
    pub open spec fn text(self) -> Seq<char> {
        match self {
            RetrieveFailure::Offline =>
                "I need to fetch dependencies from package.elm-lang.org but I'm working in offline mode!"@,
            RetrieveFailure::NotCached(what) => "I have no dependencies at hand for "@ + what,
            RetrieveFailure::Rejected(sentence) => sentence,
            RetrieveFailure::NoVersion(pkg) => "Failed to find a version for "@ + pkg,
            RetrieveFailure::UnknownPackage(pkg) => "Unknown package "@ + pkg,
            RetrieveFailure::Other(what) => what,
        }
    }
}

impl View for RetrieveError {
    type V = RetrieveFailure;

    open spec fn view(&self) -> RetrieveFailure {
        match self {
            RetrieveError::Offline => RetrieveFailure::Offline,
            RetrieveError::NotCached(s) => RetrieveFailure::NotCached(s@),
            RetrieveError::Rejected(s) => RetrieveFailure::Rejected(s@),
            RetrieveError::NoVersion(s) => RetrieveFailure::NoVersion(s@),
            RetrieveError::UnknownPackage(s) => RetrieveFailure::UnknownPackage(s@),
            RetrieveError::Other(s) => RetrieveFailure::Other(s@),
        }
    }
}

impl RetrieveError {
    /// Writes the sentence that reports the failure.
    pub fn to_string(&self) -> (s: String)
        ensures
            s@ == self@.text(),
    {
        match self {
            RetrieveError::Offline =>
                "I need to fetch dependencies from package.elm-lang.org but I'm working in offline mode!".to_owned(),
            RetrieveError::NotCached(what) => {
                let mut s = "I have no dependencies at hand for ".to_owned();
                s.append(what.as_str());
                s
            },
            RetrieveError::Rejected(sentence) => sentence.clone(),
            RetrieveError::NoVersion(pkg) => {
                let mut s = "Failed to find a version for ".to_owned();
                s.append(pkg.as_str());
                s
            },
            RetrieveError::UnknownPackage(pkg) => {
                let mut s = "Unknown package ".to_owned();
                s.append(pkg.as_str());
                s
            },
            RetrieveError::Other(what) => what.clone(),
        }
    }
}

/// A source of packages: which versions there are, and what each depends on.
///
/// Implementations may read files or ask a registry, so nothing is promised
/// of whether they answer. What is asked of them is that they keep to what
/// they have said: the root stays the same, and the incompatibilities that
/// were answered for a version of a package are held from then on.
pub trait Retriever {
    /// The root, as the source names it.
    spec fn root_of(&self) -> Summary<PackageId>;

    /// What the source holds for the given version of a package: nothing
    /// before it has answered for it.
    spec fn held(&self, id: PackageIdView, version: Version) -> Option<Seq<IncompatView>>;

    /// The root: the project whose dependencies are resolved.
    fn root(&self) -> (r: Summary<PackageId>)
        ensures
            r == self.root_of(),
    ;

    /// What the given version of a package is incompatible with.
    fn incompats(&mut self, pkg: &Summary<PackageId>) -> (r: Result<
        Vec<Incompatibility>,
        RetrieveError,
    >)
        ensures
            final(self).root_of() == old(self).root_of(),
            forall|id: PackageIdView, v: Version| #[trigger]
                old(self).held(id, v) is Some ==> final(self).held(id, v) == old(self).held(id, v),
            r is Ok ==> final(self).held(pkg.id@, pkg.version) == Some(incompat_views(r->Ok_0@)),
    ;

    /// How many versions of the package there are.
    fn count_versions(&self, pkg: &PackageId) -> usize;

    /// The version of the package to try first among those in `con`.
    fn best(&mut self, pkg: &PackageId, con: &Constraint) -> (r: Result<Version, RetrieveError>)
        ensures
            final(self).root_of() == old(self).root_of(),
            forall|id: PackageIdView, v: Version| #[trigger]
                old(self).held(id, v) is Some ==> final(self).held(id, v) == old(self).held(id, v),
    ;
}

} // verus!
