//! What holds of the written forms of versions and ranges in general.

use crate::package::manifest::{parse_range_spec, Range};
use crate::semver::version::{
    first_bad_number, lemma_first_bad_number, parse_version_spec, ParseFailure, Version,
};
use crate::text::{
    decimal, is_digit, lemma_decimal_avoids, lemma_parse_decimal, lemma_split_append, parse_u64_spec,
    split,
};
use vstd::prelude::*;

verus! {

/// The written form of a version holds no character but digits and dots.
pub proof fn lemma_version_text(v: Version, c: char)
    requires
        !is_digit(c),
        c != '.',
    ensures
        !v.text().contains(c),
{
    lemma_decimal_avoids(v.major as nat, c);
    lemma_decimal_avoids(v.minor as nat, c);
    lemma_decimal_avoids(v.patch as nat, c);
    let t = v.text();
    if t.contains(c) {
        let i = choose|i: int| 0 <= i < t.len() && t[i] == c;
        let a = decimal(v.major as nat);
        let b = decimal(v.minor as nat);
        let d = decimal(v.patch as nat);
        if i < a.len() {
            assert(a[i] == c);
        } else if i == a.len() {
        } else if i < a.len() + 1 + b.len() {
            assert(b[i - a.len() - 1] == c);
        } else if i == a.len() + 1 + b.len() {
        } else {
            assert(d[i - a.len() - 1 - b.len() - 1] == c);
        }
    }
}

/// Reading the written form of a version gives the version back.
pub proof fn law_version_round_trip(v: Version)
    ensures
        parse_version_spec(v.text()) == Ok::<Version, ParseFailure>(v),
{
    let a = decimal(v.major as nat);
    let b = decimal(v.minor as nat);
    let d = decimal(v.patch as nat);
    lemma_decimal_avoids(v.major as nat, '.');
    lemma_decimal_avoids(v.minor as nat, '.');
    lemma_decimal_avoids(v.patch as nat, '.');
    lemma_split_append(Seq::<char>::empty(), a, '.');
    lemma_split_append(a, b, '.');
    lemma_split_append(a + seq!['.'] + b, d, '.');
    let pieces = split(v.text(), '.');
    assert(v.text() =~= a + seq!['.'] + b + seq!['.'] + d);
    assert(pieces =~= seq![a, b, d]);
    lemma_parse_decimal(v.major);
    lemma_parse_decimal(v.minor);
    lemma_parse_decimal(v.patch);
    lemma_first_bad_number(pieces);
    assert(parse_u64_spec(pieces[0]) is Some);
    assert(parse_u64_spec(pieces[1]) is Some);
    assert(parse_u64_spec(pieces[2]) is Some);
    assert(first_bad_number(pieces) == 3) by {
        if first_bad_number(pieces) < 3 {
            assert(parse_u64_spec(pieces[first_bad_number(pieces)]) is None);
        }
    }
}

/// Reading the written form `L <= v < U` of a range gives the range back.
pub proof fn law_range_round_trip(r: Range)
    ensures
        parse_range_spec(r.text()) == Ok::<Range, ParseFailure>(r),
{
    let l = r.lower.text();
    let u = r.upper.text();
    lemma_version_text(r.lower, ' ');
    lemma_version_text(r.upper, ' ');
    reveal_strlit(" <= v < ");
    reveal_strlit("<=");
    reveal_strlit("v");
    reveal_strlit("<");
    let le = seq!['<', '='];
    let vv = seq!['v'];
    let lt = seq!['<'];
    assert(" <= v < "@ =~= seq![' '] + le + seq![' '] + vv + seq![' '] + lt + seq![' ']);
    assert("<="@ =~= le);
    assert("v"@ =~= vv);
    assert("<"@ =~= lt);
    assert(!le.contains(' ')) by {
        if le.contains(' ') {
            let i = choose|i: int| 0 <= i < le.len() && le[i] == ' ';
        }
    }
    assert(!vv.contains(' ')) by {
        if vv.contains(' ') {
            let i = choose|i: int| 0 <= i < vv.len() && vv[i] == ' ';
        }
    }
    assert(!lt.contains(' ')) by {
        if lt.contains(' ') {
            let i = choose|i: int| 0 <= i < lt.len() && lt[i] == ' ';
        }
    }
    lemma_split_append(Seq::<char>::empty(), l, ' ');
    lemma_split_append(l, le, ' ');
    lemma_split_append(l + seq![' '] + le, vv, ' ');
    lemma_split_append(l + seq![' '] + le + seq![' '] + vv, lt, ' ');
    lemma_split_append(l + seq![' '] + le + seq![' '] + vv + seq![' '] + lt, u, ' ');
    assert(r.text() =~= l + seq![' '] + le + seq![' '] + vv + seq![' '] + lt + seq![' '] + u);
    let parts = split(r.text(), ' ');
    assert(parts =~= seq![l, le, vv, lt, u]);
    law_version_round_trip(r.lower);
    law_version_round_trip(r.upper);
}

} // verus!
