//! Package names and package manifests.

pub mod laws;
pub mod manifest;
pub mod name;
pub mod registry;
pub mod retriever;

pub use manifest::{DuplicateDependency, Exposed, Package, Range};
pub use name::{Name, NameError};
