//! Summaries: a package together with one of its versions.

use crate::semver::version::Version;
use vstd::prelude::*;

verus! {

/// What identifies a package to the resolver.
pub trait PackageId: Clone {
    /// This is the root: the project whose dependencies are resolved.
    spec fn root(&self) -> bool;

    /// Whether this is the root.
    fn is_root(&self) -> (r: bool)
        ensures
            r == self.root(),
    ;
}

/// One version of one package: what the resolver decides on.
#[derive(Debug)]
pub struct Summary<P: PackageId> {
    pub id: P,
    pub version: Version,
}

impl<P: PackageId> Clone for Summary<P> {
    fn clone(&self) -> (r: Self)
        ensures
            cloned::<P>(self.id, r.id),
            r.version == self.version,
    {
        Summary { id: self.id.clone(), version: self.version }
    }
}

impl<P: PackageId> Summary<P> {
    /// The version `version` of the package `id`.
    pub fn new(id: P, version: Version) -> (s: Self)
        ensures
            s.id == id,
            s.version == version,
    {
        Self { id, version }
    }

    /// The version.
    pub fn version(&self) -> (v: Version)
        ensures
            v == self.version,
    {
        self.version
    }

    /// A copy of the package's identifier.
    pub fn id(&self) -> (id: P)
        ensures
            cloned::<P>(self.id, id),
    {
        self.id.clone()
    }

    /// Whether this is a version of the root.
    pub fn is_root(&self) -> (r: bool)
        ensures
            r == self.id.root(),
    {
        self.id.is_root()
    }
}

} // verus!
