//! Checks on what a user types, and the heading of a report.

use crate::package::name::{parse_name_spec, Name};
use crate::semver::constraint::Constraint;
use crate::semver::interval::Interval;
use crate::semver::range::{Range, Strictness};
use crate::semver::version::{
    first_bad_number, lemma_first_bad_number, parse_version_spec, ParseFailure, Version,
};
use crate::text::{
    chars_of, parse_u64, parse_u64_spec, piece_views, split, split_chars, string_of_chars,
};
use vstd::prelude::*;
use vstd::string::*;

pub use crate::cli::extras::add_extra_deps;

verus! {

/// What is wrong with a package name, if anything: the sentence for the user.
pub open spec fn package_name_error(cs: Seq<char>) -> Option<Seq<char>> {
    match parse_name_spec(cs) {
        Ok(_) => None,
        Err(e) => Some(e.text()),
    }
}

/// What is wrong with a version, if anything: the sentence for the user.
pub open spec fn version_error(cs: Seq<char>) -> Option<Seq<char>> {
    match parse_version_spec(cs) {
        Ok(_) => None,
        Err(e) => Some(e.message()),
    }
}

/// What is wrong with a version given by its major number alone, if
/// anything. Every dot-separated component must be a number; after that
/// there must be exactly one component.
pub open spec fn lax_version_error(cs: Seq<char>) -> Option<Seq<char>> {
    let pieces = split(cs, '.');
    let bad = first_bad_number(pieces);
    if bad < pieces.len() {
        Some(ParseFailure::InvalidNumber(pieces[bad]).message())
    } else if pieces.len() == 1 {
        None
    } else {
        Some("Invalid lax version: "@ + cs)
    }
}

/// What is wrong with a package given as `name` or `name@version`, if
/// anything. The version may be a full version or a major number alone; if
/// it is neither, the complaint is that about the major number.
pub open spec fn package_error(cs: Seq<char>) -> Option<Seq<char>>
    recommends
        split(cs, '@').len() <= 2,
{
    let parts = split(cs, '@');
    if package_name_error(parts[0]) is Some {
        package_name_error(parts[0])
    } else if parts.len() == 1 {
        None
    } else if version_error(parts[1]) is None {
        None
    } else {
        lax_version_error(parts[1])
    }
}

/// A line of 80 columns that starts with `-- `, the heading and a space, and
/// is filled up with dashes.
pub open spec fn header_text(x: Seq<char>, bytes: nat) -> Seq<char>
    recommends
        bytes <= 76,
{
    "-- "@ + x + " "@ + Seq::new((76 - bytes) as nat, |i: int| '-')
}

/// The constraint that a major number alone stands for: from `major.0.0` up
/// to the next major version. `None` if the text is not a single number, or
/// if there is no next major version.
pub open spec fn lax_version_range(cs: Seq<char>) -> Option<Range> {
    let pieces = split(cs, '.');
    if first_bad_number(pieces) == pieces.len() && pieces.len() == 1 && parse_u64_spec(
        pieces[0],
    )->0 < u64::MAX {
        let major = parse_u64_spec(pieces[0])->0;
        Some(
            Range::of_ends(
                Interval::Closed(Version { major, minor: 0, patch: 0 }),
                Interval::Open(Version { major: (major + 1) as u64, minor: 0, patch: 0 }),
            ),
        )
    } else {
        None
    }
}

/// Reads the dot-separated numbers of `cs`: all of them, or the first piece
/// that is not a number.
fn parse_numbers(cs: &Vec<char>) -> (r: Result<Vec<u64>, String>)
    ensures
        r is Ok <==> first_bad_number(split(cs@, '.')) == split(cs@, '.').len(),
        r is Ok ==> r->Ok_0@.len() == split(cs@, '.').len() && forall|k: int|
            0 <= k < r->Ok_0@.len() ==> Some(#[trigger] r->Ok_0@[k]) == parse_u64_spec(
                split(cs@, '.')[k],
            ),
        r is Err ==> r->Err_0@ == split(cs@, '.')[first_bad_number(split(cs@, '.'))],
{
    let pieces = split_chars(cs, '.');
    let ghost views = split(cs@, '.');
    let mut numbers: Vec<u64> = Vec::new();
    let n = pieces.len();
    let mut i: usize = 0;
    proof {
        lemma_first_bad_number(views);
    }
    while i < n
        invariant
            i <= n,
            n == pieces.len(),
            views == piece_views(pieces@),
            views == split(cs@, '.'),
            numbers.len() == i,
            i <= first_bad_number(views) <= views.len(),
            forall|k: int|
                0 <= k < first_bad_number(views) ==> parse_u64_spec(#[trigger] views[k]) is Some,
            first_bad_number(views) < views.len() ==> parse_u64_spec(
                views[first_bad_number(views)],
            ) is None,
            forall|k: int| 0 <= k < i ==> Some(#[trigger] numbers[k]) == parse_u64_spec(views[k]),
        decreases n - i,
    {
        assert(views[i as int] == pieces[i as int]@);
        match parse_u64(&pieces[i]) {
            Some(x) => {
                numbers.push(x);
            },
            None => {
                return Err(string_of_chars(&pieces[i]));
            },
        }
        i += 1;
    }
    Ok(numbers)
}

/// What is wrong with a major number that is to stand for a constraint, if
/// anything: every dot-separated component must be a number, there must be
/// exactly one, and it must have a next major version.
pub open spec fn lax_constraint_error(cs: Seq<char>) -> Option<Seq<char>> {
    let pieces = split(cs, '.');
    let bad = first_bad_number(pieces);
    if bad < pieces.len() {
        Some(ParseFailure::InvalidNumber(pieces[bad]).message())
    } else if lax_version_range(cs) is None {
        Some("Expected a valid lax version spec"@)
    } else {
        None
    }
}

/// The constraint that a major number alone stands for.
pub fn lax_version_from_string(version: &str) -> (r: Result<Constraint, String>)
    ensures
        r is Ok <==> lax_version_range(version@) is Some,
        r is Ok ==> r->Ok_0.wf() && r->Ok_0@ == seq![lax_version_range(version@)->0],
        r is Err ==> Some(r->Err_0@) == lax_constraint_error(version@),
{
    let cs = chars_of(version);
    proof {
        lemma_first_bad_number(split(cs@, '.'));
    }
    match parse_numbers(&cs) {
        Ok(numbers) => {
            if numbers.len() == 1 && numbers[0] < u64::MAX {
                let range = Range::from(&Version::new(numbers[0], 0, 0), &Strictness::Safe);
                Ok(Constraint::from_range(range))
            } else {
                Err("Expected a valid lax version spec".to_owned())
            }
        },
        Err(piece) => {
            let mut s = "Invalid number: ".to_owned();
            s.append(piece.as_str());
            Err(s)
        },
    }
}

/// Whether `name` is a package name; if not, the sentence that says why.
pub fn valid_package_name(name: String) -> (r: Result<(), String>)
    ensures
        r is Ok <==> package_name_error(name@) is None,
        r is Err ==> Some(r->Err_0@) == package_name_error(name@),
{
    match Name::parse(name.as_str()) {
        Ok(_) => Ok(()),
        Err(e) => Err(e.to_string()),
    }
}

/// Whether `version` is a version `M.N.P`; if not, the sentence that says why.
pub fn valid_version(version: String) -> (r: Result<(), String>)
    ensures
        r is Ok <==> version_error(version@) is None,
        r is Err ==> Some(r->Err_0@) == version_error(version@),
{
    match Version::parse(version.as_str()) {
        Ok(_) => Ok(()),
        Err(e) => Err(e.to_string()),
    }
}

/// Whether `version` is a major number alone; if not, the sentence that says
/// why.
pub fn valid_lax_version(version: String) -> (r: Result<(), String>)
    ensures
        r is Ok <==> lax_version_error(version@) is None,
        r is Err ==> Some(r->Err_0@) == lax_version_error(version@),
{
    let cs = chars_of(version.as_str());
    proof {
        lemma_first_bad_number(split(cs@, '.'));
    }
    match parse_numbers(&cs) {
        Ok(numbers) => {
            if numbers.len() == 1 {
                Ok(())
            } else {
                let mut s = "Invalid lax version: ".to_owned();
                s.append(version.as_str());
                Err(s)
            }
        },
        Err(piece) => {
            let mut s = "Invalid number: ".to_owned();
            s.append(piece.as_str());
            Err(s)
        },
    }
}

/// Whether `pkg` is a package, given as `name` or as `name@version`; if not,
/// the sentence that says why.
pub fn valid_package(pkg: String) -> (r: Result<(), String>)
    requires
        split(pkg@, '@').len() <= 2,
    ensures
        r is Ok <==> package_error(pkg@) is None,
        r is Err ==> Some(r->Err_0@) == package_error(pkg@),
{
    let cs = chars_of(pkg.as_str());
    let pieces = split_chars(&cs, '@');
    proof {
        assert(split(cs@, '@')[0] == pieces[0]@);
    }
    match valid_package_name(string_of_chars(&pieces[0])) {
        Err(e) => Err(e),
        Ok(_) => {
            if pieces.len() == 1 {
                Ok(())
            } else {
                proof {
                    assert(split(cs@, '@')[1] == pieces[1]@);
                }
                match valid_version(string_of_chars(&pieces[1])) {
                    Ok(_) => Ok(()),
                    Err(_) => valid_lax_version(string_of_chars(&pieces[1])),
                }
            }
        },
    }
}

/// The heading of a report: the text between `-- ` and a run of dashes that
/// fills the line to 80 columns.
pub fn format_header(x: &str) -> (s: String)
    requires
        crate::package::name::byte_len(x@) <= 76,
    ensures
        s@ == header_text(x@, crate::package::name::byte_len(x@)),
{
    let mut s = "-- ".to_owned();
    s.append(x);
    s.append(" ");
    let n: usize = 80 - 4 - x.as_bytes().len();
    let ghost head = s@;
    let mut i: usize = 0;
    while i < n
        invariant
            i <= n,
            s@ == head + Seq::new(i as nat, |k: int| '-'),
        decreases n - i,
    {
        s.append("-");
        proof {
            reveal_strlit("-");
            assert("-"@ =~= seq!['-']);
            assert(s@ =~= head + Seq::new((i + 1) as nat, |k: int| '-'));
        }
        i += 1;
    }
    proof {
        assert(Seq::new(0nat, |k: int| '-') =~= Seq::<char>::empty());
    }
    s
}

} // verus!
