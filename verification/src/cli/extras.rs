//! Packages named on the command line, as `name` or `name@version`.

use crate::cli::util::{lax_version_from_string, lax_version_range};
use crate::package::name::{parse_name_spec, Name, NameView};
use crate::package::retriever::{
    any_version, dependency_on, held_or_empty, root_version, IncompatView, PackageIdView, Retriever,
};
use crate::semver::constraint::Constraint;
use crate::semver::range::Range;
use crate::semver::version::{parse_version_spec, Version};
use crate::package::retriever::exactly;
use crate::project::reconstruct::name_views;
use crate::text::{chars_of, split, split_chars, string_of_chars};
use vstd::prelude::*;
use vstd::string::*;

verus! {

/// The constraint that a version given on the command line stands for: a
/// full version stands for itself, a major number alone for all versions
/// with that major number.
pub open spec fn extra_constraint(cs: Seq<char>) -> Option<Seq<Range>> {
    match parse_version_spec(cs) {
        Ok(v) => Some(exactly(v)),
        Err(_) => match lax_version_range(cs) {
            Some(r) => Some(seq![r]),
            None => None,
        },
    }
}

/// What a package given on the command line says: its name, and the
/// versions that are wanted. Nothing if it is not of the form `name` or
/// `name@version`.
pub open spec fn extra_spec(cs: Seq<char>) -> Option<(NameView, Seq<Range>)> {
    let parts = split(cs, '@');
    if parts.len() == 1 {
        match parse_name_spec(parts[0]) {
            Ok(name) => Some((name, any_version())),
            Err(_) => None,
        }
    } else if parts.len() == 2 {
        match (extra_constraint(parts[1]), parse_name_spec(parts[0])) {
            (Some(c), Ok(name)) => Some((name, c)),
            _ => None,
        }
    } else {
        None
    }
}

/// Every text is a package as the command line gives it.
pub open spec fn all_extras(extras: Seq<String>) -> bool {
    forall|i: int| 0 <= i < extras.len() ==> extra_spec((#[trigger] extras[i])@) is Some
}

/// What it says that the root needs the packages given on the command line.
pub open spec fn extras_needs(extras: Seq<String>) -> Seq<IncompatView> {
    extras.map_values(
        |e: String|
            {
                let (name, wanted) = extra_spec(e@)->0;
                dependency_on(PackageIdView::Root, root_version(), PackageIdView::Pkg(name), wanted)
            },
    )
}

/// The names of the packages given on the command line.
pub open spec fn extras_names(extras: Seq<String>) -> Seq<NameView> {
    extras.map_values(
        |e: String|
            {
                let (name, wanted) = extra_spec(e@)->0;
                name
            },
    )
}

/// Reads a package given on the command line: its name, and the versions
/// that are wanted if any are named.
pub fn parse_extra(extra: &str) -> (r: Option<(Name, Option<Constraint>)>)
    ensures
        r is Some <==> extra_spec(extra@) is Some,
        r is Some ==> ({
            let (name, wanted) = r->0;
            let (spec_name, spec_wanted) = extra_spec(extra@)->0;
            &&& name@ == spec_name
            &&& match wanted {
                Some(c) => c@ == spec_wanted && c.wf(),
                None => spec_wanted == any_version(),
            }
        }),
{
    let cs = chars_of(extra);
    let pieces = split_chars(&cs, '@');
    proof {
        assert(split(cs@, '@')[0] == pieces[0]@);
    }
    if pieces.len() == 1 {
        match Name::parse(string_of_chars(&pieces[0]).as_str()) {
            Ok(name) => Some((name, None)),
            Err(_) => None,
        }
    } else if pieces.len() == 2 {
        proof {
            assert(split(cs@, '@')[1] == pieces[1]@);
        }
        let text = string_of_chars(&pieces[1]);
        let wanted = match Version::parse(text.as_str()) {
            Ok(v) => {
                let c = Constraint::from_version(v);
                proof {
                    c@[0].lemma_of_ends();
                    assert(c@ =~= exactly(v));
                }
                Some(c)
            },
            Err(_) => match lax_version_from_string(text.as_str()) {
                Ok(c) => Some(c),
                Err(_) => None,
            },
        };
        match wanted {
            None => None,
            Some(c) => match Name::parse(string_of_chars(&pieces[0]).as_str()) {
                Ok(name) => Some((name, Some(c))),
                Err(_) => None,
            },
        }
    } else {
        None
    }
}

/// Whether the text is a package as the command line gives it.
pub fn valid_extra(extra: &str) -> (r: bool)
    ensures
        r == extra_spec(extra@) is Some,
{
    parse_extra(extra).is_some()
}

/// Adds the packages given on the command line to what the root needs, and
/// answers their names.
pub fn add_extra_deps(extras: &Vec<String>, retriever: &mut Retriever) -> (names: Vec<Name>)
    requires
        all_extras(extras@),
    ensures
        name_views(names@) == extras_names(extras@),
        final(retriever).same_index(old(retriever)),
        extras@.len() == 0 ==> forall|id: PackageIdView, v: Version|
            final(retriever).cached(id, v) == old(retriever).cached(id, v),
        extras@.len() > 0 ==> final(retriever).same_cache_but(
            old(retriever),
            PackageIdView::Root,
            root_version(),
        ) && final(retriever).cached(PackageIdView::Root, root_version()) == Some(
            held_or_empty(old(retriever).cached(PackageIdView::Root, root_version())) + extras_needs(
                extras@,
            ),
        ),
{
    let mut names: Vec<Name> = Vec::new();
    let n = extras.len();
    let ghost held = held_or_empty(retriever.cached(PackageIdView::Root, root_version()));
    let mut i: usize = 0;
    proof {
        assert(extras@.take(0) =~= Seq::<String>::empty());
        assert(name_views(names@) =~= extras_names(extras@.take(0)));
    }
    while i < n
        invariant
            i <= n,
            n == extras.len(),
            all_extras(extras@),
            held == held_or_empty(old(retriever).cached(PackageIdView::Root, root_version())),
            name_views(names@) == extras_names(extras@.take(i as int)),
            retriever.same_index(old(retriever)),
            i == 0 ==> forall|id: PackageIdView, v: Version|
                retriever.cached(id, v) == old(retriever).cached(id, v),
            i > 0 ==> retriever.same_cache_but(old(retriever), PackageIdView::Root, root_version())
                && retriever.cached(PackageIdView::Root, root_version()) == Some(
                held + extras_needs(extras@.take(i as int)),
            ),
        decreases n - i,
    {
        let ghost before = names@;
        let ghost prior = held_or_empty(retriever.cached(PackageIdView::Root, root_version()));
        proof {
            assert(extra_spec(extras@[i as int]@) is Some);
            assert(extras@.take(i + 1) =~= extras@.take(i as int).push(extras@[i as int]));
            if i == 0 {
                assert(retriever.cached(PackageIdView::Root, root_version()) == old(
                    retriever,
                ).cached(PackageIdView::Root, root_version()));
                assert(extras_needs(extras@.take(0)) =~= Seq::<IncompatView>::empty());
                assert(prior =~= held + extras_needs(extras@.take(0)));
            }
        }
        match parse_extra(extras[i].as_str()) {
            Some(extra) => {
                let (name, wanted) = extra;
                names.push(name.clone());
                retriever.add_dep(name, wanted);
                proof {
                    let (spec_name, spec_wanted) = extra_spec(extras@[i as int]@)->0;
                    let added = dependency_on(
                        PackageIdView::Root,
                        root_version(),
                        PackageIdView::Pkg(spec_name),
                        spec_wanted,
                    );
                    assert(name_views(names@) =~= name_views(before).push(spec_name));
                    assert(extras_names(extras@.take(i + 1)) =~= extras_names(
                        extras@.take(i as int),
                    ).push(spec_name));
                    assert(extras_needs(extras@.take(i + 1)) =~= extras_needs(
                        extras@.take(i as int),
                    ).push(added));
                    assert(prior.push(added) =~= held + extras_needs(extras@.take(i + 1)));
                }
            },
            None => {
                assert(false);
            },
        }
        i += 1;
    }
    proof {
        assert(extras@.take(n as int) =~= extras@);
    }
    names
}

} // verus!
