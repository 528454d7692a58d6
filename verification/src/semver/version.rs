//! Versions: three numbers ordered lexicographically, written `M.N.P`.

use crate::text::{
    chars_of, decimal, parse_u64, parse_u64_spec, push_decimal, split, split_chars, string_of_chars,
};
use std::cmp::Ordering;
use std::str::FromStr;
use vstd::prelude::*;
use vstd::std_specs::cmp::PartialOrdSpecImpl;
use vstd::string::*;

verus! {

/// How two integers compare.
pub open spec fn int_ordering(a: int, b: int) -> Ordering {
    if a < b {
        Ordering::Less
    } else if a == b {
        Ordering::Equal
    } else {
        Ordering::Greater
    }
}

/// A version `major.minor.patch`.
#[derive(Copy, Clone, Debug, Hash, PartialEq, Eq, Structural)]
pub struct Version {
    pub major: u64,
    pub minor: u64,
    pub patch: u64,
}

/// Why a piece of text is not a version or a range.
#[derive(Debug)]
pub enum ParseError {
    /// A component is not a number that fits in 64 bits; carries the component.
    InvalidNumber(String),
    /// The text does not have three components; carries the whole text.
    InvalidVersion(String),
    /// The text is not of the form `L <= v < U`; carries the whole text.
    InvalidRange(String),
}

/// The first index at which a piece of `pieces` is not a number, or the
/// number of pieces if all are numbers.
pub open spec fn first_bad_number(pieces: Seq<Seq<char>>) -> int
    decreases pieces.len(),
{
    if pieces.len() == 0 {
        0
    } else if parse_u64_spec(pieces[0]) is None {
        0
    } else {
        1 + first_bad_number(pieces.drop_first())
    }
}

pub proof fn lemma_first_bad_number(pieces: Seq<Seq<char>>)
    ensures
        0 <= first_bad_number(pieces) <= pieces.len(),
        forall|i: int|
            0 <= i < first_bad_number(pieces) ==> parse_u64_spec(#[trigger] pieces[i]) is Some,
        first_bad_number(pieces) < pieces.len() ==> parse_u64_spec(
            pieces[first_bad_number(pieces)],
        ) is None,
    decreases pieces.len(),
{
    if pieces.len() > 0 && parse_u64_spec(pieces[0]) is Some {
        let rest = pieces.drop_first();
        lemma_first_bad_number(rest);
        assert forall|i: int| 0 <= i < first_bad_number(pieces) implies parse_u64_spec(
            #[trigger] pieces[i],
        ) is Some by {
            if i > 0 {
                assert(pieces[i] == rest[i - 1]);
            }
        }
        if first_bad_number(pieces) < pieces.len() {
            assert(pieces[first_bad_number(pieces)] == rest[first_bad_number(rest)]);
        }
    }
}

/// What parsing a version from the characters `cs` gives.
///
/// Every dot-separated component must be a number; the first that is not is
/// reported. After that there must be exactly three components.
pub open spec fn parse_version_spec(cs: Seq<char>) -> Result<Version, ParseFailure> {
    let pieces = split(cs, '.');
    let bad = first_bad_number(pieces);
    if bad < pieces.len() {
        Err(ParseFailure::InvalidNumber(pieces[bad]))
    } else if pieces.len() == 3 {
        Ok(
            Version {
                major: parse_u64_spec(pieces[0])->0,
                minor: parse_u64_spec(pieces[1])->0,
                patch: parse_u64_spec(pieces[2])->0,
            },
        )
    } else {
        Err(ParseFailure::InvalidVersion(cs))
    }
}

/// The mathematical content of a [`ParseError`].
pub enum ParseFailure {
    InvalidNumber(Seq<char>),
    InvalidVersion(Seq<char>),
    InvalidRange(Seq<char>),
}

impl View for ParseError {
    type V = ParseFailure;

    open spec fn view(&self) -> ParseFailure {
        match self {
            ParseError::InvalidNumber(s) => ParseFailure::InvalidNumber(s@),
            ParseError::InvalidVersion(s) => ParseFailure::InvalidVersion(s@),
            ParseError::InvalidRange(s) => ParseFailure::InvalidRange(s@),
        }
    }
}

/// The view of a parse result: the value, or the content of the error.
pub open spec fn parsed<T>(r: Result<T, ParseError>) -> Result<T, ParseFailure> {
    match r {
        Ok(v) => Ok(v),
        Err(e) => Err(e@),
    }
}

impl ParseError {
    /// The text that could not be parsed.
    pub fn text(&self) -> (s: &String)
        ensures
            s@ == match self@ {
                ParseFailure::InvalidNumber(t) => t,
                ParseFailure::InvalidVersion(t) => t,
                ParseFailure::InvalidRange(t) => t,
            },
    {
        match self {
            ParseError::InvalidNumber(s) => s,
            ParseError::InvalidVersion(s) => s,
            ParseError::InvalidRange(s) => s,
        }
    }

    /// A sentence that names the problem and the offending text.
    pub fn to_string(&self) -> (s: String)
        ensures
            s@ == self@.message(),
    {
        match self {
            ParseError::InvalidNumber(t) => {
                let mut s = "Invalid number: ".to_owned();
                s.append(t.as_str());
                s
            },
            ParseError::InvalidVersion(t) => {
                let mut s = "Invalid version: ".to_owned();
                s.append(t.as_str());
                s
            },
            ParseError::InvalidRange(t) => {
                let mut s = "Invalid range: ".to_owned();
                s.append(t.as_str());
                s
            },
        }
    }
}

impl ParseFailure {
    /// The sentence that reports this failure.
    pub open spec fn message(self) -> Seq<char> {
        match self {
            ParseFailure::InvalidNumber(t) => "Invalid number: "@ + t,
            ParseFailure::InvalidVersion(t) => "Invalid version: "@ + t,
            ParseFailure::InvalidRange(t) => "Invalid range: "@ + t,
        }
    }
}

impl Version {
    /// The version `major.minor.patch`.
    pub fn new(major: u64, minor: u64, patch: u64) -> (v: Version)
        ensures
            v == (Version { major, minor, patch }),
    {
        Version { major, minor, patch }
    }

    /// The first component.
    pub fn major(&self) -> (m: u64)
        ensures
            m == self.major,
    {
        self.major
    }

    /// The place of this version in the total order of versions: versions
    /// compare as their places do. Lexicographic order on the three
    /// components, each weighted by the number of values of those after it.
    pub open spec fn ord(self) -> int {
        (self.major * 0x1_0000_0000_0000_0000 + self.minor) * 0x1_0000_0000_0000_0000 + self.patch
    }

    /// The number of places: every `ord` is below it.
    pub open spec fn ord_limit() -> int {
        (0xffff_ffff_ffff_ffffint * 0x1_0000_0000_0000_0000 + 0xffff_ffff_ffff_ffff)
            * 0x1_0000_0000_0000_0000 + 0xffff_ffff_ffff_ffff + 1
    }

    /// `self` comes before `other`: lexicographic order on the components.
    pub open spec fn precedes(self, other: Version) -> bool {
        self.major < other.major || (self.major == other.major && (self.minor < other.minor || (
        self.minor == other.minor && self.patch < other.patch)))
    }

    /// The written form `M.N.P`.
    pub open spec fn text(self) -> Seq<char> {
        decimal(self.major as nat) + seq!['.'] + decimal(self.minor as nat) + seq!['.'] + decimal(
            self.patch as nat,
        )
    }

    /// Places are within bounds, distinct versions have distinct places, and
    /// the order of places is the lexicographic order of the components.
    pub proof fn lemma_ord(self, other: Version)
        ensures
            0 <= self.ord() < Self::ord_limit(),
            self.ord() == other.ord() <==> self == other,
            self.ord() < other.ord() <==> self.precedes(other),
    {
    }

    /// Compares two versions.
    pub fn compare(&self, other: &Version) -> (r: Ordering)
        ensures
            r == int_ordering(self.ord(), other.ord()),
    {
        proof {
            self.lemma_ord(*other);
            other.lemma_ord(*self);
        }
        if self.major < other.major {
            Ordering::Less
        } else if self.major > other.major {
            Ordering::Greater
        } else if self.minor < other.minor {
            Ordering::Less
        } else if self.minor > other.minor {
            Ordering::Greater
        } else if self.patch < other.patch {
            Ordering::Less
        } else if self.patch > other.patch {
            Ordering::Greater
        } else {
            Ordering::Equal
        }
    }

    /// Writes the version as `M.N.P`.
    pub fn to_string(&self) -> (s: String)
        ensures
            s@ == self.text(),
    {
        let mut s = String::new();
        push_decimal(&mut s, self.major);
        s.append(".");
        push_decimal(&mut s, self.minor);
        s.append(".");
        push_decimal(&mut s, self.patch);
        proof {
            reveal_strlit(".");
            assert("."@ =~= seq!['.']);
            assert(s@ =~= self.text());
        }
        s
    }

    /// Reads a version from its characters.
    pub fn parse_chars(cs: &Vec<char>) -> (r: Result<Version, ParseError>)
        ensures
            parsed(r) == parse_version_spec(cs@),
    {
        let pieces = split_chars(cs, '.');
        let ghost views = split(cs@, '.');
        let mut numbers: Vec<u64> = Vec::new();
        let n = pieces.len();
        let mut i: usize = 0;
        proof {
            lemma_first_bad_number(views);
        }
        while i < n
            invariant
                i <= n,
                n == pieces.len(),
                views == crate::text::piece_views(pieces@),
                views == split(cs@, '.'),
                numbers.len() == i,
                i <= first_bad_number(views) <= views.len(),
                forall|k: int|
                    0 <= k < first_bad_number(views) ==> parse_u64_spec(#[trigger] views[k]) is Some,
                first_bad_number(views) < views.len() ==> parse_u64_spec(
                    views[first_bad_number(views)],
                ) is None,
                forall|k: int|
                    0 <= k < i ==> Some(#[trigger] numbers[k]) == parse_u64_spec(views[k]),
            decreases n - i,
        {
            assert(views[i as int] == pieces[i as int]@);
            match parse_u64(&pieces[i]) {
                Some(x) => {
                    numbers.push(x);
                },
                None => {
                    return Err(ParseError::InvalidNumber(string_of_chars(&pieces[i])));
                },
            }
            i += 1;
        }
        if n == 3 {
            Ok(Version { major: numbers[0], minor: numbers[1], patch: numbers[2] })
        } else {
            Err(ParseError::InvalidVersion(string_of_chars(cs)))
        }
    }

    /// Reads a version written as `M.N.P`.
    pub fn parse(s: &str) -> (r: Result<Version, ParseError>)
        ensures
            parsed(r) == parse_version_spec(s@),
    {
        let cs = chars_of(s);
        Version::parse_chars(&cs)
    }
}

impl PartialOrd for Version {
    fn partial_cmp(&self, other: &Version) -> (r: Option<Ordering>) {
        Some(self.compare(other))
    }
}

impl PartialOrdSpecImpl for Version {
    open spec fn obeys_partial_cmp_spec() -> bool {
        true
    }

    open spec fn partial_cmp_spec(&self, other: &Version) -> Option<Ordering> {
        Some(int_ordering(self.ord(), other.ord()))
    }
}

impl FromStr for Version {
    type Err = ParseError;

    /// Reads a version written as `M.N.P`.
    fn from_str(s: &str) -> (r: Result<Version, ParseError>)
        ensures
            parsed(r) == parse_version_spec(s@),
    {
        Version::parse(s)
    }
}

} // verus!
