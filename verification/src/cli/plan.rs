//! What the commands have in common: how they tell a source of packages
//! what the root needs, and how they sift lists of dependencies.

use crate::cli::extras::{add_extra_deps, all_extras, extras_names, extras_needs};
use crate::package::name::{Name, NameView};
use crate::package::retriever::{
    held_or_empty, id_views, last_listed, prefer, root_needs, root_version, IncompatView, PackageId,
    PackageIdView, Retriever,
};
use crate::project::application::{pin_views, Pin};
use crate::project::reconstruct::{holds_name, name_views};
use crate::semver::range::Range;
use crate::semver::version::Version;
use vstd::prelude::*;

verus! {

/// The entries whose names are not among `names`, in order.
pub open spec fn without<V>(entries: Seq<(NameView, V)>, names: Seq<NameView>) -> Seq<(NameView, V)>
    decreases entries.len(),
{
    if entries.len() == 0 {
        Seq::empty()
    } else {
        let rest = without(entries.drop_last(), names);
        if names.contains(entries.last().0) {
            rest
        } else {
            rest.push(entries.last())
        }
    }
}

/// The names of the entries, in order.
pub open spec fn keys<V>(entries: Seq<(NameView, V)>) -> Seq<NameView> {
    entries.map_values(|e: (NameView, V)| e.0)
}

/// The pins as preferences for published packages.
pub open spec fn as_ids(pins: Seq<(NameView, Version)>) -> Seq<(PackageIdView, Version)> {
    pins.map_values(|p: (NameView, Version)| (PackageIdView::Pkg(p.0), p.1))
}

/// The entries whose names are not among `names`, in order.
pub fn entries_without<V: Copy>(entries: &Vec<(Name, V)>, names: &[Name]) -> (r: Vec<(Name, V)>)
    ensures
        pin_views(r@) == without(pin_views(entries@), name_views(names@)),
{
    let mut r: Vec<(Name, V)> = Vec::new();
    let n = entries.len();
    let ghost views = pin_views(entries@);
    let mut i: usize = 0;
    proof {
        assert(views.take(0) =~= Seq::<(NameView, V)>::empty());
        assert(pin_views(r@) =~= without(views.take(0), name_views(names@)));
    }
    while i < n
        invariant
            i <= n,
            n == entries.len(),
            views == pin_views(entries@),
            pin_views(r@) == without(views.take(i as int), name_views(names@)),
        decreases n - i,
    {
        let ghost before = r@;
        proof {
            assert(views.take(i + 1).drop_last() =~= views.take(i as int));
            assert(views.take(i + 1).last() == views[i as int]);
        }
        if !holds_name(names, &entries[i].0) {
            r.push((entries[i].0.clone(), entries[i].1));
            proof {
                assert(pin_views(r@) =~= pin_views(before).push(views[i as int]));
            }
        }
        i += 1;
    }
    proof {
        assert(views.take(n as int) =~= views);
    }
    r
}

/// The names of the entries, in order.
pub fn keys_of<V>(entries: &Vec<(Name, V)>) -> (r: Vec<Name>)
    ensures
        name_views(r@) == keys(pin_views(entries@)),
{
    let mut r: Vec<Name> = Vec::new();
    let n = entries.len();
    let mut i: usize = 0;
    while i < n
        invariant
            i <= n,
            n == entries.len(),
            name_views(r@) == keys(pin_views(entries@)).take(i as int),
        decreases n - i,
    {
        let ghost before = r@;
        r.push(entries[i].0.clone());
        proof {
            assert(name_views(r@) =~= name_views(before).push(entries@[i as int].0@));
            assert(keys(pin_views(entries@)).take(i + 1) =~= keys(pin_views(entries@)).take(
                i as int,
            ).push(entries@[i as int].0@));
        }
        i += 1;
    }
    proof {
        assert(keys(pin_views(entries@)).take(n as int) =~= keys(pin_views(entries@)));
    }
    r
}

/// The pins as preferences for published packages.
pub fn preferred_of(pins: &Vec<Pin>) -> (r: Vec<(PackageId, Version)>)
    ensures
        id_views(r@) == as_ids(pin_views(pins@)),
{
    let mut r: Vec<(PackageId, Version)> = Vec::new();
    let n = pins.len();
    let ghost wanted = as_ids(pin_views(pins@));
    let mut i: usize = 0;
    while i < n
        invariant
            i <= n,
            n == pins.len(),
            wanted == as_ids(pin_views(pins@)),
            id_views(r@) == wanted.take(i as int),
        decreases n - i,
    {
        let ghost before = r@;
        r.push((PackageId::Pkg(pins[i].0.clone()), pins[i].1));
        proof {
            assert(id_views(r@) =~= id_views(before).push(wanted[i as int]));
            assert(wanted.take(i + 1) =~= wanted.take(i as int).push(wanted[i as int]));
        }
        i += 1;
    }
    proof {
        assert(wanted.take(n as int) =~= wanted);
    }
    r
}

/// The names of `first`, then those of `second`.
pub fn names_then(first: Vec<Name>, second: &Vec<Name>) -> (r: Vec<Name>)
    ensures
        name_views(r@) == name_views(first@) + name_views(second@),
{
    let mut r = first;
    let ghost start = name_views(r@);
    let n = second.len();
    let mut i: usize = 0;
    proof {
        assert(name_views(second@).take(0) =~= Seq::<NameView>::empty());
        assert(name_views(r@) =~= start + name_views(second@).take(0));
    }
    while i < n
        invariant
            i <= n,
            n == second.len(),
            name_views(r@) == start + name_views(second@).take(i as int),
        decreases n - i,
    {
        let ghost before = r@;
        r.push(second[i].clone());
        proof {
            assert(name_views(r@) =~= name_views(before).push(second@[i as int]@));
            assert(name_views(second@).take(i + 1) =~= name_views(second@).take(i as int).push(
                second@[i as int]@,
            ));
        }
        i += 1;
    }
    proof {
        assert(name_views(second@).take(n as int) =~= name_views(second@));
    }
    r
}

/// The last listing in two lists, one after the other, is the last in the
/// second, and else the last in the first.
pub proof fn lemma_last_listed_concat(
    a: Seq<(PackageIdView, Version)>,
    b: Seq<(PackageIdView, Version)>,
    id: PackageIdView,
)
    ensures
        last_listed(a + b, id) == (match last_listed(b, id) {
            Some(v) => Some(v),
            None => last_listed(a, id),
        }),
    decreases b.len(),
{
    if b.len() == 0 {
        assert(a + b =~= a);
    } else {
        assert((a + b).last() == b.last());
        assert((a + b).drop_last() =~= a + b.drop_last());
        lemma_last_listed_concat(a, b.drop_last(), id);
    }
}

/// The source of packages has taken up what the root needs and what is to
/// be preferred, and is otherwise as it was.
pub open spec fn seeded(
    before: &Retriever,
    after: &Retriever,
    needs: Seq<IncompatView>,
    preferences: Seq<(PackageIdView, Version)>,
) -> bool {
    &&& after.mode() == before.mode()
    &&& after.offline() == before.offline()
    &&& forall|id: PackageIdView| #[trigger] after.versions_of(id) == before.versions_of(id)
    &&& forall|id: PackageIdView| #[trigger]
        after.preferred(id) == prefer(preferences, id, before.preferred(id))
    &&& after.same_cache_but(before, PackageIdView::Root, root_version())
    &&& after.cached(PackageIdView::Root, root_version()) == Some(
        held_or_empty(before.cached(PackageIdView::Root, root_version())) + needs,
    )
}

/// Tells the source of packages what the root needs: the packages given on
/// the command line, then `first` and `second` without those; and what is to
/// be preferred: `pins` and `more_pins` without those. Answers the names of
/// the packages given on the command line.
pub fn seed(
    retriever: &mut Retriever,
    extras: &Vec<String>,
    pins: &Vec<Pin>,
    more_pins: &Vec<Pin>,
    first: &Vec<(Name, Range)>,
    second: &Vec<(Name, Range)>,
) -> (names: Vec<Name>)
    requires
        all_extras(extras@),
    ensures
        name_views(names@) == extras_names(extras@),
        seeded(
            old(retriever),
            final(retriever),
            extras_needs(extras@) + root_needs(without(pin_views(first@), extras_names(extras@)))
                + root_needs(without(pin_views(second@), extras_names(extras@))),
            as_ids(without(pin_views(pins@), extras_names(extras@))) + as_ids(
                without(pin_views(more_pins@), extras_names(extras@)),
            ),
        ),
{
    let ghost held = held_or_empty(retriever.cached(PackageIdView::Root, root_version()));
    let ghost start = *retriever;
    let names = add_extra_deps(extras, retriever);
    let ghost after_extras = *retriever;
    proof {
        if extras@.len() == 0 {
            assert(extras_needs(extras@) =~= Seq::<IncompatView>::empty());
            assert(after_extras.cached(PackageIdView::Root, root_version()) == start.cached(
                PackageIdView::Root,
                root_version(),
            ));
        }
    }
    let a = preferred_of(&entries_without(pins, names.as_slice()));
    let b = preferred_of(&entries_without(more_pins, names.as_slice()));
    retriever.add_preferred_versions(a);
    let ghost after_a = *retriever;
    retriever.add_preferred_versions(b);
    let ghost after_b = *retriever;
    let d1 = entries_without(first, names.as_slice());
    let d2 = entries_without(second, names.as_slice());
    retriever.add_deps(&d1);
    let ghost after_d1 = *retriever;
    retriever.add_deps(&d2);
    proof {
        let needs = extras_needs(extras@) + root_needs(pin_views(d1@)) + root_needs(pin_views(d2@));
        let preferences = id_views(a@) + id_views(b@);
        assert forall|id: PackageIdView| #[trigger]
            retriever.versions_of(id) == start.versions_of(id) by {
            assert(after_extras.versions_of(id) == start.versions_of(id));
            assert(after_a.versions_of(id) == after_extras.versions_of(id));
            assert(after_b.versions_of(id) == after_a.versions_of(id));
            assert(after_d1.versions_of(id) == after_b.versions_of(id));
        }
        assert forall|id: PackageIdView| #[trigger]
            retriever.preferred(id) == prefer(preferences, id, start.preferred(id)) by {
            assert(after_extras.preferred(id) == start.preferred(id));
            assert(after_a.preferred(id) == prefer(id_views(a@), id, after_extras.preferred(id)));
            assert(after_b.preferred(id) == prefer(id_views(b@), id, after_a.preferred(id)));
            assert(after_d1.preferred(id) == after_b.preferred(id));
            lemma_last_listed_concat(id_views(a@), id_views(b@), id);
        }
        assert forall|i: PackageIdView, v: Version|
            !(i == PackageIdView::Root && v == root_version()) implies retriever.cached(i, v)
            == start.cached(i, v) by {
            assert(after_extras.cached(i, v) == start.cached(i, v));
            assert(after_a.cached(i, v) == after_extras.cached(i, v));
            assert(after_b.cached(i, v) == after_a.cached(i, v));
            assert(after_d1.cached(i, v) == after_b.cached(i, v));
        }
        assert(after_a.cached(PackageIdView::Root, root_version()) == after_extras.cached(
            PackageIdView::Root,
            root_version(),
        ));
        assert(after_b.cached(PackageIdView::Root, root_version()) == after_a.cached(
            PackageIdView::Root,
            root_version(),
        ));
        assert(held_or_empty(after_extras.cached(PackageIdView::Root, root_version())) =~= held
            + extras_needs(extras@));
        assert(retriever.cached(PackageIdView::Root, root_version())->0 =~= held + needs);
    }
    names
}

/// Tells the source of packages what the root needs: `first` and `second`
/// without the packages named in `names`; and what is to be preferred:
/// `pins` and `more_pins` without those.
pub fn seed_without(
    retriever: &mut Retriever,
    names: &[Name],
    pins: &Vec<Pin>,
    more_pins: &Vec<Pin>,
    first: &Vec<(Name, Range)>,
    second: &Vec<(Name, Range)>,
)
    ensures
        seeded(
            old(retriever),
            final(retriever),
            root_needs(without(pin_views(first@), name_views(names@))) + root_needs(
                without(pin_views(second@), name_views(names@)),
            ),
            as_ids(without(pin_views(pins@), name_views(names@))) + as_ids(
                without(pin_views(more_pins@), name_views(names@)),
            ),
        ),
{
    let ghost held = held_or_empty(retriever.cached(PackageIdView::Root, root_version()));
    let ghost start = *retriever;
    let a = preferred_of(&entries_without(pins, names));
    let b = preferred_of(&entries_without(more_pins, names));
    retriever.add_preferred_versions(a);
    let ghost after_a = *retriever;
    retriever.add_preferred_versions(b);
    let ghost after_b = *retriever;
    let d1 = entries_without(first, names);
    let d2 = entries_without(second, names);
    retriever.add_deps(&d1);
    let ghost after_d1 = *retriever;
    retriever.add_deps(&d2);
    proof {
        let needs = root_needs(pin_views(d1@)) + root_needs(pin_views(d2@));
        let preferences = id_views(a@) + id_views(b@);
        assert forall|id: PackageIdView| #[trigger]
            retriever.versions_of(id) == start.versions_of(id) by {
            assert(after_a.versions_of(id) == start.versions_of(id));
            assert(after_b.versions_of(id) == after_a.versions_of(id));
            assert(after_d1.versions_of(id) == after_b.versions_of(id));
        }
        assert forall|id: PackageIdView| #[trigger]
            retriever.preferred(id) == prefer(preferences, id, start.preferred(id)) by {
            assert(after_a.preferred(id) == prefer(id_views(a@), id, start.preferred(id)));
            assert(after_b.preferred(id) == prefer(id_views(b@), id, after_a.preferred(id)));
            assert(after_d1.preferred(id) == after_b.preferred(id));
            lemma_last_listed_concat(id_views(a@), id_views(b@), id);
        }
        assert forall|i: PackageIdView, v: Version|
            !(i == PackageIdView::Root && v == root_version()) implies retriever.cached(i, v)
            == start.cached(i, v) by {
            assert(after_a.cached(i, v) == start.cached(i, v));
            assert(after_b.cached(i, v) == after_a.cached(i, v));
            assert(after_d1.cached(i, v) == after_b.cached(i, v));
        }
        assert(after_a.cached(PackageIdView::Root, root_version()) == start.cached(
            PackageIdView::Root,
            root_version(),
        ));
        assert(after_b.cached(PackageIdView::Root, root_version()) == after_a.cached(
            PackageIdView::Root,
            root_version(),
        ));
        assert(retriever.cached(PackageIdView::Root, root_version())->0 =~= held + needs);
    }
}

} // verus!
