//! Project manifests: applications and packages.

pub mod application;
pub mod flatten;
pub mod laws;
pub mod pins;
pub mod reconstruct;

pub use crate::package::Package;
pub use application::{AppDependencies, Application, Project};
pub use reconstruct::reconstruct;
