//! The insertion-ordered map from packages to constraints that an
//! incompatibility is stored in.
//!
//! The map is `indexmap::IndexMap`. Verus does not look inside it: the
//! functions of this module state what the map's methods do, over the
//! sequence of entries that the map holds in its order.

use crate::package::retriever::{PackageId, PackageIdView};
use crate::semver::constraint::Constraint;
use indexmap::IndexMap;
use vstd::prelude::*;

verus! {

#[verifier::external_type_specification]
#[verifier::external_body]
#[verifier::reject_recursive_types(K)]
#[verifier::reject_recursive_types(V)]
#[verifier::reject_recursive_types(S)]
pub struct ExIndexMap<K, V, S>(IndexMap<K, V, S>);

/// The entries that a map holds, in the map's order.
pub uninterp spec fn map_terms(m: IndexMap<PackageId, Constraint>) -> Seq<(PackageId, Constraint)>;

/// Some entry is for the package `id`.
pub open spec fn has_term(terms: Seq<(PackageId, Constraint)>, id: PackageIdView) -> bool {
    exists|i: int| 0 <= i < terms.len() && (#[trigger] terms[i]).0@ == id
}

/// Trusted: `IndexMap::new` makes a map that holds nothing.
#[verifier::external_body]
pub(crate) fn map_new() -> (m: IndexMap<PackageId, Constraint>)
    ensures
        map_terms(m) == Seq::<(PackageId, Constraint)>::empty(),
{
    IndexMap::new()
}

/// Trusted: `IndexMap::insert` appends an entry for a key that the map does
/// not hold yet and answers `None`. For a key that it holds already, the
/// entry keeps its key and its place and takes the new value; the answer is
/// the value that it had.
#[verifier::external_body]
pub(crate) fn map_insert(m: &mut IndexMap<PackageId, Constraint>, id: PackageId, c: Constraint) -> (r:
    Option<Constraint>)
    ensures
        r is None <==> !has_term(map_terms(*old(m)), id@),
        r is None ==> map_terms(*final(m)) == map_terms(*old(m)).push((id, c)),
        r is Some ==> {
            &&& map_terms(*final(m)).len() == map_terms(*old(m)).len()
            &&& forall|i: int|
                0 <= i < map_terms(*old(m)).len() ==> #[trigger] map_terms(*final(m))[i] == (if map_terms(
                    *old(m),
                )[i].0@ == id@ {
                    (map_terms(*old(m))[i].0, c)
                } else {
                    map_terms(*old(m))[i]
                })
            &&& exists|i: int|
                0 <= i < map_terms(*old(m)).len() && (#[trigger] map_terms(*old(m))[i]).0@ == id@
                    && map_terms(*old(m))[i].1 == r->0
        },
{
    m.insert(id, c)
}

/// Trusted: `IndexMap::len` is the number of entries held.
#[verifier::external_body]
pub(crate) fn map_len(m: &IndexMap<PackageId, Constraint>) -> (n: usize)
    ensures
        n == map_terms(*m).len(),
{
    m.len()
}

/// Trusted: `IndexMap::get_index` gives the entry at a position below the
/// length.
#[verifier::external_body]
pub(crate) fn map_get(m: &IndexMap<PackageId, Constraint>, i: usize) -> (r: (
    &PackageId,
    &Constraint,
))
    requires
        i < map_terms(*m).len(),
    ensures
        *r.0 == map_terms(*m)[i as int].0,
        *r.1 == map_terms(*m)[i as int].1,
{
    m.get_index(i).unwrap()
}

/// Trusted: `IndexMap::clone` gives a map with copies of the same entries in
/// the same order.
#[verifier::external_body]
pub(crate) fn map_clone(m: &IndexMap<PackageId, Constraint>) -> (c: IndexMap<PackageId, Constraint>)
    ensures
        map_terms(c).len() == map_terms(*m).len(),
        forall|i: int|
            0 <= i < map_terms(*m).len() ==> (#[trigger] map_terms(c)[i]).0@ == map_terms(*m)[i].0@
                && map_terms(c)[i].1@ == map_terms(*m)[i].1@,
{
    m.clone()
}

} // verus!
