//! The kinds of failure that a user sees.

use vstd::prelude::*;
use vstd::string::*;

verus! {

/// What went wrong, as the heading of an error report names it.
#[derive(Copy, Clone, Eq, PartialEq, Debug, Structural)]
pub enum Kind {
    /// The manifest does not exist or cannot be read.
    MissingElmJson,
    /// The manifest is not a valid application or package manifest.
    InvalidElmJson,
    /// The manifest could not be written.
    UnwritableElmJson,
    /// No assignment of versions satisfies the constraints.
    NoResolution,
    /// The command does not apply to this kind of manifest.
    NotSupported,
    /// Anything else.
    Unknown,
}

impl Kind {
    /// The heading for this kind of failure.
    pub open spec fn text(self) -> Seq<char> {
        match self {
            Kind::MissingElmJson => "Missing elm.json"@,
            Kind::InvalidElmJson => "Invalid elm.json"@,
            Kind::UnwritableElmJson => "Failed to write elm.json"@,
            Kind::NoResolution => "No valid package version"@,
            Kind::NotSupported => "Not supported"@,
            Kind::Unknown => "Unknown error"@,
        }
    }

    /// Writes the heading for this kind of failure.
    pub fn to_string(&self) -> (s: String)
        ensures
            s@ == self.text(),
    {
        match self {
            Kind::MissingElmJson => "Missing elm.json".to_owned(),
            Kind::InvalidElmJson => "Invalid elm.json".to_owned(),
            Kind::UnwritableElmJson => "Failed to write elm.json".to_owned(),
            Kind::NoResolution => "No valid package version".to_owned(),
            Kind::NotSupported => "Not supported".to_owned(),
            Kind::Unknown => "Unknown error".to_owned(),
        }
    }
}

} // verus!
