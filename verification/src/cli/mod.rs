//! What the command line needs of the library: the kinds of failure that a
//! user sees, and the checks on what a user types.

pub mod error;
pub mod extras;
pub mod install;
pub mod laws;
pub mod new;
pub mod plan;
pub mod solve;
pub mod tree;
pub mod uninstall;
pub mod upgrade;
pub mod util;

pub use error::Kind;
