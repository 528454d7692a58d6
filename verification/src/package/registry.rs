//! The registry's answers and addresses: entries `name@version`, and where
//! manifests are found on the network and on disk.

use crate::package::name::{parse_name_spec, Name, NameView};
use crate::package::retriever::PackageId;
use crate::semver::version::{parse_version_spec, Version};
use crate::solver::retriever::{RetrieveError, RetrieveFailure};
use crate::solver::summary::Summary;
use crate::text::{chars_of, decimal, lemma_split_in_two, push_decimal, split, split_chars};
use vstd::prelude::*;
use vstd::string::*;

verus! {

/// What an entry `name@version` of the registry's list of releases says, if
/// it is of that form.
pub open spec fn entry_spec(cs: Seq<char>) -> Option<(NameView, Version)> {
    let parts = split(cs, '@');
    if parts.len() == 2 && parse_name_spec(parts[0]) is Ok && parse_version_spec(parts[1]) is Ok {
        Some((parse_name_spec(parts[0])->Ok_0, parse_version_spec(parts[1])->Ok_0))
    } else {
        None
    }
}

/// What a release that was read says.
pub open spec fn release_view(r: Option<(Name, Version)>) -> Option<(NameView, Version)> {
    match r {
        Some(release) => {
            let (name, version) = release;
            Some((name@, version))
        },
        None => None,
    }
}

/// Reads an entry `name@version`.
pub fn parse_entry(entry: &str) -> (r: Option<(Name, Version)>)
    ensures
        release_view(r) == entry_spec(entry@),
{
    let cs = chars_of(entry);
    let pieces = split_chars(&cs, '@');
    if pieces.len() != 2 {
        return None;
    }
    let cut = pieces[0].len();
    proof {
        lemma_split_in_two(cs@, '@');
        assert(split(cs@, '@')[0] == pieces[0]@);
        assert(split(cs@, '@')[1] == pieces[1]@);
    }
    let name = entry.substring_char(0, cut);
    let version = entry.substring_char(cut + 1, cs.len());
    match Name::parse(name) {
        Err(_) => None,
        Ok(n) => match Version::parse(version) {
            Err(_) => None,
            Ok(v) => Some((n, v)),
        },
    }
}

/// The known releases: packages with their versions.
pub type Index = Vec<(Name, Vec<Version>)>;

/// What a listing says: the package and its versions.
pub type Listing = (NameView, Seq<Version>);

/// What the listings say, in order.
pub open spec fn listings(index: Seq<(Name, Vec<Version>)>) -> Seq<Listing> {
    index.map_values(|e: (Name, Vec<Version>)| (e.0@, e.1@))
}

/// The versions with `version` at the end, unless it is among them already.
pub open spec fn with_version(versions: Seq<Version>, version: Version) -> Seq<Version> {
    if versions.contains(version) {
        versions
    } else {
        versions.push(version)
    }
}

/// The listings with one more release: the version is added to the first
/// listing of the package unless that has it, or the package is listed at
/// the end with that version alone.
pub open spec fn with_release(index: Seq<Listing>, name: NameView, version: Version) -> Seq<Listing>
    decreases index.len(),
{
    if index.len() == 0 {
        seq![(name, seq![version])]
    } else if index[0].0 == name {
        seq![(name, with_version(index[0].1, version))] + index.drop_first()
    } else {
        seq![index[0]] + with_release(index.drop_first(), name, version)
    }
}

/// The listings with the releases that the entries name, in order; entries
/// that are not of the form `name@version` are passed over.
pub open spec fn with_releases(index: Seq<Listing>, entries: Seq<String>) -> Seq<Listing>
    decreases entries.len(),
{
    if entries.len() == 0 {
        index
    } else {
        let before = with_releases(index, entries.drop_last());
        match entry_spec(entries.last()@) {
            Some(release) => {
                let (name, version) = release;
                with_release(before, name, version)
            },
            None => before,
        }
    }
}

/// A release goes to the listing at `at` if none before it is for the
/// package, and to the end if no listing is.
proof fn lemma_with_release(index: Seq<Listing>, name: NameView, version: Version, at: int)
    requires
        0 <= at <= index.len(),
        forall|k: int| 0 <= k < at ==> (#[trigger] index[k]).0 != name,
        at < index.len() ==> index[at].0 == name,
    ensures
        with_release(index, name, version) == if at < index.len() {
            index.update(at, (name, with_version(index[at].1, version)))
        } else {
            index.push((name, seq![version]))
        },
    decreases index.len(),
{
    if index.len() == 0 {
        assert(index.push((name, seq![version])) =~= seq![(name, seq![version])]);
    } else if at == 0 {
        assert(seq![(name, with_version(index[0].1, version))] + index.drop_first()
            =~= index.update(0, (name, with_version(index[0].1, version))));
    } else {
        let rest = index.drop_first();
        assert(index[0].0 != name);
        assert forall|k: int| 0 <= k < at - 1 implies (#[trigger] rest[k]).0 != name by {
            assert(rest[k] == index[k + 1]);
        }
        if at < index.len() {
            assert(rest[at - 1] == index[at]);
        }
        lemma_with_release(rest, name, version, at - 1);
        if at < index.len() {
            assert(seq![index[0]] + rest.update(
                at - 1,
                (name, with_version(rest[at - 1].1, version)),
            ) =~= index.update(at, (name, with_version(index[at].1, version))));
        } else {
            assert(seq![index[0]] + rest.push((name, seq![version])) =~= index.push(
                (name, seq![version]),
            ));
        }
    }
}

/// The number of all versions of all packages.
pub open spec fn total_versions(index: Seq<(Name, Vec<Version>)>) -> nat
    decreases index.len(),
{
    if index.len() == 0 {
        0
    } else {
        total_versions(index.drop_last()) + index.last().1@.len()
    }
}

/// The number of all versions of all packages, which is what the registry
/// is asked to count from.
pub fn count_versions(index: &Index) -> (count: usize)
    requires
        total_versions(index@) <= usize::MAX,
    ensures
        count == total_versions(index@),
{
    let n = index.len();
    let mut count: usize = 0;
    let mut i: usize = 0;
    proof {
        lemma_total_monotone(index@, 0);
    }
    while i < n
        invariant
            i <= n,
            n == index.len(),
            count == total_versions(index@.take(i as int)),
            total_versions(index@) <= usize::MAX,
        decreases n - i,
    {
        proof {
            assert(index@.take(i + 1).drop_last() =~= index@.take(i as int));
            assert(index@.take(i + 1).last() == index@[i as int]);
            lemma_total_monotone(index@, i + 1);
        }
        count = count + index[i].1.len();
        i += 1;
    }
    proof {
        assert(index@.take(n as int) =~= index@);
    }
    count
}

/// A part of the listings has no more versions than all of them.
proof fn lemma_total_monotone(index: Seq<(Name, Vec<Version>)>, k: int)
    requires
        0 <= k <= index.len(),
    ensures
        total_versions(index.take(k)) <= total_versions(index),
    decreases index.len() - k,
{
    if k == index.len() {
        assert(index.take(k) =~= index);
    } else {
        lemma_total_monotone(index, k + 1);
        assert(index.take(k + 1).drop_last() =~= index.take(k));
    }
}

/// Whether `version` is among `versions`.
pub fn lists_version(versions: &Vec<Version>, version: Version) -> (r: bool)
    ensures
        r == versions@.contains(version),
{
    let n = versions.len();
    let mut i: usize = 0;
    while i < n
        invariant
            i <= n,
            n == versions.len(),
            forall|k: int| 0 <= k < i ==> versions@[k] != version,
        decreases n - i,
    {
        if versions[i] == version {
            return true;
        }
        i += 1;
    }
    false
}

/// Records one release: the version is added to the first listing of the
/// package unless it is there already, or to a new listing at the end if the
/// package is not listed. Recording a release twice changes nothing.
pub fn add_release(index: &mut Index, name: Name, version: Version)
    ensures
        listings(final(index)@) == with_release(listings(old(index)@), name@, version),
{
    let n = index.len();
    let ghost before = listings(index@);
    let mut i: usize = 0;
    while i < n
        invariant
            i <= n,
            n == index.len(),
            *index == *old(index),
            before == listings(index@),
            forall|k: int| 0 <= k < i ==> (#[trigger] before[k]).0 != name@,
        decreases n - i,
    {
        if index[i].0.same(&name) {
            proof {
                lemma_with_release(before, name@, version, i as int);
            }
            if !lists_version(&index[i].1, version) {
                let mut entry = index.remove(i);
                entry.1.push(version);
                index.insert(i, entry);
            }
            proof {
                assert(listings(index@) =~= before.update(
                    i as int,
                    (name@, with_version(before[i as int].1, version)),
                ));
            }
            return ;
        }
        i += 1;
    }
    let mut versions: Vec<Version> = Vec::new();
    versions.push(version);
    index.push((name, versions));
    proof {
        lemma_with_release(before, name@, version, n as int);
        assert(listings(index@) =~= before.push((name@, seq![version])));
    }
}

/// Records the releases that the registry lists. Entries that are not of the
/// form `name@version` are passed over. Answers how many were taken.
pub fn add_releases(index: &mut Index, entries: &Vec<String>) -> (taken: usize)
    ensures
        taken == valid_entries(entries@),
        listings(final(index)@) == with_releases(listings(old(index)@), entries@),
{
    let n = entries.len();
    let mut taken: usize = 0;
    let mut i: usize = 0;
    proof {
        assert(entries@.take(0) =~= Seq::<String>::empty());
    }
    while i < n
        invariant
            i <= n,
            n == entries.len(),
            taken <= i,
            taken == valid_entries(entries@.take(i as int)),
            listings(index@) == with_releases(listings(old(index)@), entries@.take(i as int)),
        decreases n - i,
    {
        proof {
            assert(entries@.take(i + 1).drop_last() =~= entries@.take(i as int));
            assert(entries@.take(i + 1).last() == entries@[i as int]);
        }
        match parse_entry(entries[i].as_str()) {
            Some(release) => {
                add_release(index, release.0, release.1);
                taken += 1;
            },
            None => {},
        }
        i += 1;
    }
    proof {
        assert(entries@.take(n as int) =~= entries@);
    }
    taken
}

/// How many of the entries are of the form `name@version`.
pub open spec fn valid_entries(entries: Seq<String>) -> nat
    decreases entries.len(),
{
    if entries.len() == 0 {
        0
    } else {
        valid_entries(entries.drop_last()) + if entry_spec(entries.last()@) is Some {
            1nat
        } else {
            0nat
        }
    }
}

/// The address that lists the releases after the first `from`.
pub fn releases_url(from: usize) -> (s: String)
    ensures
        s@ == "https://package.elm-lang.org/all-packages/since/"@ + decimal(from as nat),
{
    let mut s = "https://package.elm-lang.org/all-packages/since/".to_owned();
    push_decimal(&mut s, from as u64);
    s
}

/// `id/version/elm.json`: where a manifest lies below any root.
pub open spec fn manifest_tail(pkg: Summary<PackageId>) -> Seq<char> {
    pkg.id@.text() + "/"@ + pkg.version.text() + "/elm.json"@
}

fn push_tail(s: &mut String, pkg: &Summary<PackageId>)
    ensures
        final(s)@ == old(s)@ + manifest_tail(*pkg),
{
    let ghost before = s@;
    s.append(pkg.id.to_string().as_str());
    s.append("/");
    s.append(pkg.version.to_string().as_str());
    s.append("/elm.json");
    proof {
        assert(s@ =~= before + manifest_tail(*pkg));
    }
}

/// The address of the manifest of a release.
pub fn manifest_url(pkg: &Summary<PackageId>) -> (s: String)
    ensures
        s@ == "https://package.elm-lang.org/packages/"@ + manifest_tail(*pkg),
{
    let mut s = "https://package.elm-lang.org/packages/".to_owned();
    push_tail(&mut s, pkg);
    s
}

/// Where the compiler keeps the manifest of a release, below its home: the
/// compiler's version, then `package` with the ending that this version of
/// the compiler gives it.
pub fn stored_path(elm_version: &str, extra: &str, pkg: &Summary<PackageId>) -> (s: String)
    ensures
        s@ == elm_version@ + "/package"@ + extra@ + "/"@ + manifest_tail(*pkg),
{
    let mut s = elm_version.to_owned();
    s.append("/package");
    s.append(extra);
    s.append("/");
    let ghost before = s@;
    push_tail(&mut s, pkg);
    proof {
        assert(s@ =~= elm_version@ + "/package"@ + extra@ + "/"@ + manifest_tail(*pkg));
    }
    s
}

/// Where this tool keeps the manifest of a release, below the compiler's
/// home.
pub fn cached_json_path(pkg: &Summary<PackageId>) -> (s: String)
    ensures
        s@ == "elm-json/packages/"@ + manifest_tail(*pkg),
{
    let mut s = "elm-json/packages/".to_owned();
    push_tail(&mut s, pkg);
    s
}

/// A place where the manifest of a release can be had from.
#[derive(Copy, Clone, Debug, PartialEq, Eq, Structural)]
pub enum Source {
    /// The store of the compiler in its version 0.19.0.
    OlderStore,
    /// The store of the compiler in its version 0.19.1.
    NewerStore,
    /// This tool's own store.
    OwnStore,
    /// The registry, over the network.
    Registry,
}

/// The place to try after `tried` places gave nothing: the two stores of
/// the compiler, the older first, then this tool's own store, then the
/// registry, unless the network may not be used. After that nothing is
/// left.
pub open spec fn source_after(tried: u8, offline: bool) -> Option<Source> {
    if tried == 0 {
        Some(Source::OlderStore)
    } else if tried == 1 {
        Some(Source::NewerStore)
    } else if tried == 2 {
        Some(Source::OwnStore)
    } else if tried == 3 && !offline {
        Some(Source::Registry)
    } else {
        None
    }
}

/// The place to try for a manifest after `tried` places gave nothing.
pub fn next_source(tried: u8, offline: bool) -> (r: Option<Source>)
    ensures
        r == source_after(tried, offline),
{
    if tried == 0 {
        Some(Source::OlderStore)
    } else if tried == 1 {
        Some(Source::NewerStore)
    } else if tried == 2 {
        Some(Source::OwnStore)
    } else if tried == 3 && !offline {
        Some(Source::Registry)
    } else {
        None
    }
}

/// The error for a manifest that no place gave: that the network may not
/// be used, if that is so, else what went wrong at the last place.
pub fn out_of_sources(offline: bool, failure: String) -> (e: RetrieveError)
    ensures
        e@ == (if offline {
            RetrieveFailure::Offline
        } else {
            RetrieveFailure::Other(failure@)
        }),
{
    if offline {
        RetrieveError::Offline
    } else {
        RetrieveError::Other(failure)
    }
}

/// Where the manifest of a release lies in the given place: a path below
/// the compiler's home, or for the registry an address.
pub open spec fn place_text(source: Source, pkg: Summary<PackageId>) -> Seq<char> {
    match source {
        Source::OlderStore => "0.19.0"@ + "/package"@ + ""@ + "/"@ + manifest_tail(pkg),
        Source::NewerStore => "0.19.1"@ + "/package"@ + "s"@ + "/"@ + manifest_tail(pkg),
        Source::OwnStore => "elm-json/packages/"@ + manifest_tail(pkg),
        Source::Registry => "https://package.elm-lang.org/packages/"@ + manifest_tail(pkg),
    }
}

/// Where the manifest of a release lies in the given place.
pub fn place(source: Source, pkg: &Summary<PackageId>) -> (s: String)
    ensures
        s@ == place_text(source, *pkg),
{
    match source {
        Source::OlderStore => stored_path("0.19.0", "", pkg),
        Source::NewerStore => stored_path("0.19.1", "s", pkg),
        Source::OwnStore => cached_json_path(pkg),
        Source::Registry => manifest_url(pkg),
    }
}

} // verus!
