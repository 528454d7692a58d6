//! The insertion-ordered set of ranges that a constraint is stored in.
//!
//! The set is `indexmap::IndexSet`. Verus does not look inside it: the
//! functions of this module state what the set's methods do, over the
//! sequence of ranges that the set holds in its order.

use crate::semver::range::Range;
use indexmap::IndexSet;
use vstd::prelude::*;

verus! {

#[verifier::external_type_specification]
#[verifier::external_body]
#[verifier::reject_recursive_types(T)]
#[verifier::reject_recursive_types(S)]
pub struct ExIndexSet<T, S>(IndexSet<T, S>);

/// The ranges that a set holds, in the set's order.
pub uninterp spec fn set_ranges(s: IndexSet<Range>) -> Seq<Range>;

/// Two ranges are ordered by their lowest points.
pub open spec fn sorted_by_lower(s: Seq<Range>) -> bool {
    forall|i: int, j: int| 0 <= i < j < s.len() ==> s[i].lo() <= s[j].lo()
}

/// Trusted: `IndexSet::new` makes a set that holds nothing.
#[verifier::external_body]
pub(crate) fn set_new() -> (s: IndexSet<Range>)
    ensures
        set_ranges(s) == Seq::<Range>::empty(),
{
    IndexSet::new()
}

/// Trusted: `IndexSet::insert` appends a value that the set does not hold yet
/// and answers `true`; a value that it holds already leaves the set as it was,
/// order included, and the answer is `false`.
#[verifier::external_body]
pub(crate) fn set_insert(s: &mut IndexSet<Range>, r: Range) -> (fresh: bool)
    ensures
        fresh == !set_ranges(*old(s)).contains(r),
        fresh ==> set_ranges(*final(s)) == set_ranges(*old(s)).push(r),
        !fresh ==> set_ranges(*final(s)) == set_ranges(*old(s)),
{
    s.insert(r)
}

/// Trusted: `IndexSet::len` is the number of values held.
#[verifier::external_body]
pub(crate) fn set_len(s: &IndexSet<Range>) -> (n: usize)
    ensures
        n == set_ranges(*s).len(),
{
    s.len()
}

/// Trusted: `IndexSet::get_index` gives the value at a position below the
/// length.
#[verifier::external_body]
pub(crate) fn set_get(s: &IndexSet<Range>, i: usize) -> (r: Range)
    requires
        i < set_ranges(*s).len(),
    ensures
        r == set_ranges(*s)[i as int],
{
    *s.get_index(i).unwrap()
}

/// Trusted: `IndexSet::sort_by` rearranges the values so that none compares
/// greater than a later one, and neither adds nor drops any.
#[verifier::external_body]
pub(crate) fn set_sort_by_lower(s: &mut IndexSet<Range>)
    ensures
        set_ranges(*final(s)).to_multiset() == set_ranges(*old(s)).to_multiset(),
        sorted_by_lower(set_ranges(*final(s))),
{
    s.sort_by(|a, b| a.cmp_lower(b))
}

/// Trusted: `IndexSet::clone` gives a set with the same values in the same
/// order.
#[verifier::external_body]
pub(crate) fn set_clone(s: &IndexSet<Range>) -> (c: IndexSet<Range>)
    ensures
        set_ranges(c) == set_ranges(*s),
{
    s.clone()
}

} // verus!
