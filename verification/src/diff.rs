//! Differences between two ordered lists of dependencies.

use crate::package::manifest::Range;
use crate::package::name::Name;
use crate::semver::version::Version;
use crate::text::{lemma_lex_order, lex_less, str_less};
use vstd::prelude::*;

verus! {

/// Which dependencies a difference is about; it titles the report.
#[derive(Copy, Clone, Debug, PartialEq, Eq, Structural)]
pub enum Kind {
    Regular,
    Test,
    Direct,
    DirectTest,
    Indirect,
    IndirectTest,
}

impl Kind {
    /// The words that name the kind in a report, with a space after them;
    /// nothing for regular dependencies.
    pub open spec fn text(self) -> Seq<char> {
        match self {
            Kind::Regular => Seq::<char>::empty(),
            Kind::Test => "test "@,
            Kind::Direct => "direct "@,
            Kind::DirectTest => "direct test "@,
            Kind::Indirect => "indirect "@,
            Kind::IndirectTest => "indirect test "@,
        }
    }

    /// Writes the words that name the kind.
    pub fn to_string(&self) -> (s: String)
        ensures
            s@ == self.text(),
    {
        match self {
            Kind::Regular => String::new(),
            Kind::Test => "test ".to_owned(),
            Kind::Direct => "direct ".to_owned(),
            Kind::DirectTest => "direct test ".to_owned(),
            Kind::Indirect => "indirect ".to_owned(),
            Kind::IndirectTest => "indirect test ".to_owned(),
        }
    }
}

/// A key by which the entries of a list are ordered.
pub trait Key: Sized {
    /// `self` comes before `other`.
    spec fn key_less(&self, other: &Self) -> bool;

    /// The order is strict, and keys that it does not tell apart behave alike.
    proof fn order_laws(a: &Self, b: &Self, c: &Self)
        ensures
            !a.key_less(a),
            a.key_less(b) && b.key_less(c) ==> a.key_less(c),
            a.key_less(b) ==> a.key_less(c) || c.key_less(b),
    ;

    /// Whether `self` comes before `other`.
    fn precedes(&self, other: &Self) -> (r: bool)
        ensures
            r == self.key_less(other),
    ;
}

/// A value that can be told from another.
pub trait Value: Sized {
    /// Whether the two values are the same.
    fn same(&self, other: &Self) -> (r: bool)
        ensures
            r == (*self == *other),
    ;
}

impl Key for Name {
    open spec fn key_less(&self, other: &Self) -> bool {
        self@.less(other@)
    }

    proof fn order_laws(a: &Self, b: &Self, c: &Self) {
        lemma_lex_order(a@.author, b@.author, c@.author);
        lemma_lex_order(a@.project, b@.project, c@.project);
        lemma_lex_order(a@.author, c@.author, b@.author);
        lemma_lex_order(a@.project, c@.project, b@.project);
        lemma_lex_order(c@.author, b@.author, a@.author);
        lemma_lex_order(c@.project, b@.project, a@.project);
    }

    fn precedes(&self, other: &Self) -> (r: bool) {
        Name::precedes(self, other)
    }
}

impl Key for String {
    open spec fn key_less(&self, other: &Self) -> bool {
        lex_less(self@, other@)
    }

    proof fn order_laws(a: &Self, b: &Self, c: &Self) {
        lemma_lex_order(a@, b@, c@);
        lemma_lex_order(a@, c@, b@);
        lemma_lex_order(c@, b@, a@);
    }

    fn precedes(&self, other: &Self) -> (r: bool) {
        str_less(self.as_str(), other.as_str())
    }
}

impl Value for Version {
    fn same(&self, other: &Self) -> (r: bool) {
        *self == *other
    }
}

impl Value for Range {
    fn same(&self, other: &Self) -> (r: bool) {
        *self == *other
    }
}

/// Neither key comes before the other.
pub open spec fn key_eq<K: Key>(a: &K, b: &K) -> bool {
    !a.key_less(b) && !b.key_less(a)
}

/// The keys of the entries ascend strictly.
pub open spec fn ascending<K: Key, T>(s: Seq<(K, T)>) -> bool {
    forall|i: int, j: int| 0 <= i < j < s.len() ==> (#[trigger] s[i]).0.key_less(&(#[trigger] s[j]).0)
}

/// The position in `s` of an entry with the key `k`, if there is one.
pub open spec fn position<K: Key, T>(s: Seq<(K, T)>, k: &K) -> int {
    choose|i: int| 0 <= i < s.len() && key_eq(&(#[trigger] s[i]).0, k)
}

/// Some entry of `s` has the key `k`.
pub open spec fn has_key<K: Key, T>(s: Seq<(K, T)>, k: &K) -> bool {
    exists|i: int| 0 <= i < s.len() && key_eq(&(#[trigger] s[i]).0, k)
}

/// The entries of `left` whose keys `right` does not have, in order.
pub open spec fn only_in<K: Key, T>(left: Seq<(K, T)>, right: Seq<(K, T)>) -> Seq<(K, T)>
    decreases left.len(),
{
    if left.len() == 0 {
        Seq::empty()
    } else {
        let rest = only_in(left.drop_last(), right);
        if has_key(right, &left.last().0) {
            rest
        } else {
            rest.push(left.last())
        }
    }
}

/// The entries of `left` whose keys `right` has with another value, in
/// order: the key, the value in `left` and the value in `right`.
pub open spec fn changed_in<K: Key, T>(left: Seq<(K, T)>, right: Seq<(K, T)>) -> Seq<(K, T, T)>
    decreases left.len(),
{
    if left.len() == 0 {
        Seq::empty()
    } else {
        let rest = changed_in(left.drop_last(), right);
        let e = left.last();
        if has_key(right, &e.0) && right[position(right, &e.0)].1 != e.1 {
            rest.push((e.0, e.1, right[position(right, &e.0)].1))
        } else {
            rest
        }
    }
}

/// The entries that borrowed pairs point to.
pub open spec fn pairs<'a, K, T>(s: Seq<(&'a K, &'a T)>) -> Seq<(K, T)> {
    s.map_values(|e: (&'a K, &'a T)| (*e.0, *e.1))
}

/// The entries that borrowed triples point to.
pub open spec fn triples<'a, K, T>(s: Seq<(&'a K, &'a T, &'a T)>) -> Seq<(K, T, T)> {
    s.map_values(|e: (&'a K, &'a T, &'a T)| (*e.0, *e.1, *e.2))
}

/// What sets two ordered lists of dependencies apart.
pub struct Diff<'a, K: Key, T: Value> {
    /// What only the left list has.
    pub only_left: Vec<(&'a K, &'a T)>,
    /// What only the right list has.
    pub only_right: Vec<(&'a K, &'a T)>,
    /// What both have, with the left and the right value, where they differ.
    pub changed: Vec<(&'a K, &'a T, &'a T)>,
}

/// One more entry of `left` taken either adds itself to the result or not.
proof fn lemma_only_in_take<K: Key, T>(left: Seq<(K, T)>, right: Seq<(K, T)>, i: int)
    requires
        0 <= i < left.len(),
    ensures
        only_in(left.take(i + 1), right) == if has_key(right, &left[i].0) {
            only_in(left.take(i), right)
        } else {
            only_in(left.take(i), right).push(left[i])
        },
        changed_in(left.take(i + 1), right) == if has_key(right, &left[i].0) && right[position(
            right,
            &left[i].0,
        )].1 != left[i].1 {
            changed_in(left.take(i), right).push(
                (left[i].0, left[i].1, right[position(right, &left[i].0)].1),
            )
        } else {
            changed_in(left.take(i), right)
        },
{
    assert(left.take(i + 1).drop_last() =~= left.take(i));
    assert(left.take(i + 1).last() == left[i]);
}

/// In an ascending list a key has at most one position.
proof fn lemma_position<K: Key, T>(s: Seq<(K, T)>, k: &K, j: int)
    requires
        ascending(s),
        0 <= j < s.len(),
        key_eq(&s[j].0, k),
    ensures
        has_key(s, k),
        position(s, k) == j,
{
    let p = position(s, k);
    if p < j {
        K::order_laws(&s[p].0, &s[j].0, k);
    } else if j < p {
        K::order_laws(&s[j].0, &s[p].0, k);
    }
}

/// A key that lies between the keys before `j` and the keys from `j` on is
/// not in the list.
proof fn lemma_absent<K: Key, T>(s: Seq<(K, T)>, k: &K, j: int)
    requires
        ascending(s),
        0 <= j <= s.len(),
        j > 0 ==> s[j - 1].0.key_less(k),
        j < s.len() ==> k.key_less(&s[j].0),
    ensures
        !has_key(s, k),
{
    if has_key(s, k) {
        let p = position(s, k);
        if p < j {
            if p < j - 1 {
                K::order_laws(&s[p].0, &s[j - 1].0, k);
            }
        } else {
            if j < p {
                K::order_laws(k, &s[j].0, &s[p].0);
            }
        }
    }
}

impl<'a, K: Key, T: Value> Diff<'a, K, T> {
    /// Compares two lists. If both ascend strictly by key, as the entries of
    /// ordered maps do, the result holds what only the left list has, what
    /// only the right list has, and what both have with different values.
    pub fn new(left: &'a Vec<(K, T)>, right: &'a Vec<(K, T)>) -> (d: Self)
        ensures
            ascending(left@) && ascending(right@) ==> {
                &&& pairs(d.only_left@) == only_in(left@, right@)
                &&& pairs(d.only_right@) == only_in(right@, left@)
                &&& triples(d.changed@) == changed_in(left@, right@)
            },
    {
        let mut only_left: Vec<(&'a K, &'a T)> = Vec::new();
        let mut only_right: Vec<(&'a K, &'a T)> = Vec::new();
        let mut changed: Vec<(&'a K, &'a T, &'a T)> = Vec::new();
        let n = left.len();
        let m = right.len();
        let mut i: usize = 0;
        let mut j: usize = 0;
        let ghost sorted = ascending(left@) && ascending(right@);
        proof {
            assert(left@.take(0) =~= Seq::<(K, T)>::empty());
            assert(right@.take(0) =~= Seq::<(K, T)>::empty());
            assert(pairs(only_left@) =~= only_in(left@.take(0), right@));
            assert(pairs(only_right@) =~= only_in(right@.take(0), left@));
            assert(triples(changed@) =~= changed_in(left@.take(0), right@));
        }
        while i < n || j < m
            invariant
                i <= n,
                j <= m,
                n == left.len(),
                m == right.len(),
                sorted == (ascending(left@) && ascending(right@)),
                sorted ==> pairs(only_left@) == only_in(left@.take(i as int), right@),
                sorted ==> pairs(only_right@) == only_in(right@.take(j as int), left@),
                sorted ==> triples(changed@) == changed_in(left@.take(i as int), right@),
                sorted && i > 0 && j < m ==> left@[i - 1].0.key_less(&right@[j as int].0),
                sorted && j > 0 && i < n ==> right@[j - 1].0.key_less(&left@[i as int].0),
            decreases (n - i) + (m - j),
        {
            let ghost left_before = pairs(only_left@);
            let ghost right_before = pairs(only_right@);
            let ghost changed_before = triples(changed@);
            let take_left = if i < n && j < m {
                left[i].0.precedes(&right[j].0)
            } else {
                i < n
            };
            let take_right = if i < n && j < m {
                right[j].0.precedes(&left[i].0)
            } else {
                j < m
            };
            proof {
                if i < n {
                    lemma_only_in_take(left@, right@, i as int);
                }
                if j < m {
                    lemma_only_in_take(right@, left@, j as int);
                }
                if sorted && i < n && j < m {
                    K::order_laws(&left@[i as int].0, &right@[j as int].0, &left@[i as int].0);
                }
            }
            if take_left {
                only_left.push((&left[i].0, &left[i].1));
                proof {
                    if sorted {
                        lemma_absent(right@, &left@[i as int].0, j as int);
                        assert(pairs(only_left@) =~= left_before.push(left@[i as int]));
                        if i + 1 < n && j > 0 {
                            K::order_laws(
                                &right@[j - 1].0,
                                &left@[i as int].0,
                                &left@[i + 1].0,
                            );
                        }
                    }
                }
                i += 1;
            } else if take_right {
                only_right.push((&right[j].0, &right[j].1));
                proof {
                    if sorted {
                        lemma_absent(left@, &right@[j as int].0, i as int);
                        assert(pairs(only_right@) =~= right_before.push(right@[j as int]));
                        if j + 1 < m && i > 0 {
                            K::order_laws(
                                &left@[i - 1].0,
                                &right@[j as int].0,
                                &right@[j + 1].0,
                            );
                        }
                    }
                }
                j += 1;
            } else {
                let differ = !left[i].1.same(&right[j].1);
                if differ {
                    changed.push((&left[i].0, &left[i].1, &right[j].1));
                }
                proof {
                    if sorted {
                        lemma_position(right@, &left@[i as int].0, j as int);
                        lemma_position(left@, &right@[j as int].0, i as int);
                        if differ {
                            assert(triples(changed@) =~= changed_before.push(
                                (left@[i as int].0, left@[i as int].1, right@[j as int].1),
                            ));
                        }
                        if i + 1 < n {
                            K::order_laws(
                                &left@[i as int].0,
                                &left@[i + 1].0,
                                &right@[j as int].0,
                            );
                        }
                        if j + 1 < m {
                            K::order_laws(
                                &right@[j as int].0,
                                &right@[j + 1].0,
                                &left@[i as int].0,
                            );
                        }
                    }
                }
                i += 1;
                j += 1;
            }
        }
        proof {
            assert(left@.take(n as int) =~= left@);
            assert(right@.take(m as int) =~= right@);
        }
        Self { only_left, only_right, changed }
    }

    /// Whether the two lists were the same.
    pub fn is_empty(&self) -> (r: bool)
        ensures
            r == (self.only_left@.len() == 0 && self.only_right@.len() == 0
                && self.changed@.len() == 0),
    {
        self.only_left.len() == 0 && self.only_right.len() == 0 && self.changed.len() == 0
    }
}

} // verus!
