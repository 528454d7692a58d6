//! The dependency resolver and what it works on.

pub mod assignment;
pub mod graph;
pub mod incompat;
pub mod laws;
pub mod resolver;
pub mod retriever;
pub mod state;
pub mod summary;
pub mod term_map;

pub use assignment::{Assignment, AssignmentType};
pub use graph::Solution;
pub use incompat::{IncompatMatch, Incompatibility, IncompatibilityCause};
pub use retriever::{RetrieveError, Retriever};
pub use resolver::{Requirement, Resolution};
pub use state::{Analysis, ResolveError, Resolver, Search};
pub use summary::Summary;
