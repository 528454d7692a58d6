//! Semantic versions and the algebra of version constraints.
//!
//! A [`Version`] is a triple of numbers. An [`Interval`] is one end of a
//! [`Range`], and a [`Constraint`] is a canonical union of disjoint ranges
//! with the usual set operations.

pub mod canon;
pub mod constraint;
pub mod interval;
pub mod laws;
pub mod range;
pub mod range_set;
pub mod version;

pub use constraint::{Constraint, Relation};
pub use interval::Interval;
pub use range::{Range, Strictness};
pub use version::{ParseError, Version};
