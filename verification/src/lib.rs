//! Version constraint algebra and dependency resolution for Elm manifests.
//!
//! The library has three layers.
//!
//! * [`semver`] holds versions, ranges and constraints. A constraint is a set
//!   of versions written as a canonical union of ranges, with intersection,
//!   union, difference and complement proved against the sets of points that
//!   the ranges cover.
//! * [`solver`] holds the resolver: incompatibilities, the log of
//!   assignments, unit propagation and conflict resolution, and the graph of
//!   chosen versions that comes out. [`package`] holds the names and
//!   manifests of packages and the source of packages that the resolver asks.
//! * [`project`], [`diff`] and [`cli`] hold what the commands do with a
//!   manifest once the versions are chosen: the lists of dependencies are
//!   rebuilt from the graph, compared with what the manifest had, and
//!   checked against what the user typed.
//!
//! The contracts are stated over mathematical views of the data and proved.
//! What is believed without proof of the collections of other crates is
//! stated where it is used, in `semver::range_set`, `solver::term_map` and
//! `solver::graph`; [`text`] believes one thing of the standard library.
//! What the resolver asks of a source of packages, that it keeps to what it
//! has answered, is stated on the trait `solver::Retriever`; the source in
//! [`package`] is proved to do so.

pub mod cli;
pub mod diff;
pub mod package;
pub mod project;
pub mod semver;
pub mod solver;
pub mod text;
