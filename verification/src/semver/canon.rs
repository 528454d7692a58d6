//! Sequences of ranges as sets of points, and their canonical form.

use crate::semver::interval::top;
use crate::semver::range::Range;
use vstd::prelude::*;

verus! {

/// Some range of `s` holds the point `p`.
pub open spec fn covers(s: Seq<Range>, p: int) -> bool {
    exists|i: int| 0 <= i < s.len() && #[trigger] s[i].has(p)
}

/// Every range of `s` is non-empty.
pub open spec fn all_wf(s: Seq<Range>) -> bool {
    forall|i: int| 0 <= i < s.len() ==> #[trigger] s[i].wf()
}

/// `a` lies below `b` with at least one point between them.
pub open spec fn apart(a: Range, b: Range) -> bool {
    a.hi() + 1 < b.lo()
}

/// The ranges of `s` are non-empty, ascending, and no two of them overlap or
/// touch: the one way to write a set of points as a sequence of ranges.
pub open spec fn canonical(s: Seq<Range>) -> bool {
    &&& all_wf(s)
    &&& forall|i: int, j: int| 0 <= i < j < s.len() ==> apart(#[trigger] s[i], #[trigger] s[j])
}

/// `s` with `r` at its end covers what `s` covers and what `r` holds.
pub proof fn lemma_covers_push(s: Seq<Range>, r: Range)
    ensures
        forall|p: int| covers(s.push(r), p) <==> (covers(s, p) || r.has(p)),
{
    let t = s.push(r);
    assert forall|p: int| covers(t, p) <==> (covers(s, p) || r.has(p)) by {
        if covers(t, p) {
            let i = choose|i: int| 0 <= i < t.len() && #[trigger] t[i].has(p);
            if i < s.len() {
                assert(s[i].has(p));
            }
        }
        if covers(s, p) {
            let i = choose|i: int| 0 <= i < s.len() && #[trigger] s[i].has(p);
            assert(t[i].has(p));
        }
        if r.has(p) {
            assert(t[s.len() as int].has(p));
        }
    }
}

/// One more range of `s` taken covers that range too.
pub proof fn lemma_covers_take(s: Seq<Range>, i: int)
    requires
        0 <= i < s.len(),
    ensures
        forall|p: int| covers(s.take(i + 1), p) <==> (covers(s.take(i), p) || s[i].has(p)),
        s.take(i + 1) == s.take(i).push(s[i]),
{
    assert(s.take(i + 1) =~= s.take(i).push(s[i]));
    lemma_covers_push(s.take(i), s[i]);
}

/// Nothing is covered by no ranges, and all of `s` taken is `s`.
pub proof fn lemma_covers_ends(s: Seq<Range>)
    ensures
        forall|p: int| !covers(s.take(0), p),
        forall|p: int| !covers(Seq::<Range>::empty(), p),
        s.take(s.len() as int) == s,
{
    assert(s.take(s.len() as int) =~= s);
}

/// A non-empty range above all of a canonical sequence, and apart from its
/// last range, extends it to a canonical sequence and is new to it.
pub proof fn lemma_canonical_push(s: Seq<Range>, r: Range)
    requires
        canonical(s),
        r.wf(),
        s.len() > 0 ==> apart(s.last(), r),
    ensures
        canonical(s.push(r)),
        !s.contains(r),
        forall|i: int| 0 <= i < s.len() ==> apart(#[trigger] s[i], r),
{
    let t = s.push(r);
    assert forall|i: int| 0 <= i < s.len() implies apart(#[trigger] s[i], r) by {
        if i < s.len() - 1 {
            assert(apart(s[i], s[s.len() - 1]));
            assert(s[s.len() - 1].wf());
        }
    }
    assert forall|i: int, j: int| 0 <= i < j < t.len() implies apart(
        #[trigger] t[i],
        #[trigger] t[j],
    ) by {
        if j < s.len() {
            assert(apart(s[i], s[j]));
        } else {
            assert(apart(s[i], r));
        }
    }
    assert forall|i: int| 0 <= i < t.len() implies #[trigger] t[i].wf() by {
        if i < s.len() {
            assert(s[i].wf());
        }
    }
    if s.contains(r) {
        let i = choose|i: int| 0 <= i < s.len() && s[i] == r;
        assert(apart(s[i], r));
    }
}

/// In a canonical sequence a point lies in at most one range, and the ranges
/// ascend.
pub proof fn lemma_canonical_order(s: Seq<Range>, i: int, j: int)
    requires
        canonical(s),
        0 <= i < j < s.len(),
    ensures
        s[i].lo() <= s[i].hi(),
        s[i].hi() + 1 < s[j].lo(),
        s[j].lo() <= s[j].hi(),
{
    assert(apart(s[i], s[j]));
    assert(s[i].wf());
    assert(s[j].wf());
}

/// A canonical sequence stays canonical without its first range, and then
/// covers what it covered but for the points of that range.
pub proof fn lemma_canonical_tail(s: Seq<Range>)
    requires
        canonical(s),
        s.len() > 0,
    ensures
        canonical(s.drop_first()),
        forall|p: int| covers(s.drop_first(), p) <==> (covers(s, p) && !s[0].has(p)),
{
    let t = s.drop_first();
    assert forall|i: int| 0 <= i < t.len() implies #[trigger] t[i].wf() by {
        assert(s[i + 1].wf());
    }
    assert forall|i: int, j: int| 0 <= i < j < t.len() implies apart(
        #[trigger] t[i],
        #[trigger] t[j],
    ) by {
        assert(apart(s[i + 1], s[j + 1]));
    }
    assert forall|p: int| covers(t, p) <==> (covers(s, p) && !s[0].has(p)) by {
        if covers(t, p) {
            let i = choose|i: int| 0 <= i < t.len() && #[trigger] t[i].has(p);
            assert(s[i + 1].has(p));
            lemma_canonical_order(s, 0, i + 1);
        }
        if covers(s, p) && !s[0].has(p) {
            let i = choose|i: int| 0 <= i < s.len() && #[trigger] s[i].has(p);
            assert(t[i - 1].has(p));
        }
    }
}

/// The first range of a canonical sequence starts at the lowest covered
/// point and ends just before the lowest point above it that is not covered.
proof fn lemma_first_range(a: Seq<Range>, b: Seq<Range>)
    requires
        canonical(a),
        canonical(b),
        a.len() > 0,
        forall|p: int| covers(a, p) <==> covers(b, p),
    ensures
        b.len() > 0,
        a[0].lo() >= b[0].lo(),
        a[0].hi() <= b[0].hi(),
{
    assert(a[0].wf());
    assert(a[0].has(a[0].lo()));
    assert(covers(a, a[0].lo()));
    let j = choose|j: int| 0 <= j < b.len() && #[trigger] b[j].has(a[0].lo());
    if j > 0 {
        lemma_canonical_order(b, 0, j);
    }
    assert(b[0].wf());
    assert(b[0].lo() <= a[0].lo());
    if a[0].hi() > b[0].hi() {
        // the point just above b[0] lies in a[0], so some range of b holds it
        let q = b[0].hi() + 1;
        if b[0].hi() >= a[0].lo() {
            assert(a[0].has(q));
            assert(covers(a, q));
            let k = choose|k: int| 0 <= k < b.len() && #[trigger] b[k].has(q);
            if k > 0 {
                lemma_canonical_order(b, 0, k);
            }
        } else {
            // b[0] lies wholly below a[0]; its lowest point is covered by a
            assert(b[0].has(b[0].lo()));
            assert(covers(b, b[0].lo()));
            let k = choose|k: int| 0 <= k < a.len() && #[trigger] a[k].has(b[0].lo());
            if k > 0 {
                lemma_canonical_order(a, 0, k);
            }
        }
    }
}

/// Two canonical sequences that cover the same points are the same sequence.
pub proof fn lemma_canonical_unique(a: Seq<Range>, b: Seq<Range>)
    requires
        canonical(a),
        canonical(b),
        forall|p: int| covers(a, p) <==> covers(b, p),
    ensures
        a == b,
    decreases a.len(),
{
    if a.len() == 0 {
        if b.len() > 0 {
            assert(b[0].wf());
            assert(b[0].has(b[0].lo()));
            assert(covers(b, b[0].lo()));
        }
        assert(a =~= b);
    } else {
        lemma_first_range(a, b);
        lemma_first_range(b, a);
        a[0].lemma_same_points(b[0]);
        assert(a[0] == b[0]);
        lemma_canonical_tail(a);
        lemma_canonical_tail(b);
        assert forall|p: int| covers(a.drop_first(), p) <==> covers(b.drop_first(), p) by {
            assert(covers(a, p) <==> covers(b, p));
            assert(a[0].has(p) <==> b[0].has(p));
        }
        lemma_canonical_unique(a.drop_first(), b.drop_first());
        assert(a =~= seq![a[0]] + a.drop_first());
        assert(b =~= seq![b[0]] + b.drop_first());
    }
}

/// The point `p` lies on the line: from the point below the first version to
/// the point above the last.
pub open spec fn on_line(p: int) -> bool {
    -1 <= p <= top()
}

/// `r` is the canonical sequence that covers what both `a` and `b` cover.
pub open spec fn is_intersection(a: Seq<Range>, b: Seq<Range>, r: Seq<Range>) -> bool {
    &&& canonical(r)
    &&& forall|p: int| #[trigger] covers(r, p) <==> (covers(a, p) && covers(b, p))
}

/// `r` is the canonical sequence that covers what `a` or `b` covers.
pub open spec fn is_union(a: Seq<Range>, b: Seq<Range>, r: Seq<Range>) -> bool {
    &&& canonical(r)
    &&& forall|p: int| #[trigger] covers(r, p) <==> (covers(a, p) || covers(b, p))
}

/// `r` is the canonical sequence that covers what `a` covers and `b` does not.
pub open spec fn is_difference(a: Seq<Range>, b: Seq<Range>, r: Seq<Range>) -> bool {
    &&& canonical(r)
    &&& forall|p: int| #[trigger] covers(r, p) <==> (covers(a, p) && !covers(b, p))
}

/// `r` is the canonical sequence that covers the points of the line that `a`
/// does not cover.
pub open spec fn is_complement(a: Seq<Range>, r: Seq<Range>) -> bool {
    &&& canonical(r)
    &&& forall|p: int| #[trigger] covers(r, p) <==> (on_line(p) && !covers(a, p))
}

/// The canonical sequence that covers the points of the line that `a` does
/// not cover.
pub open spec fn complement_of(a: Seq<Range>) -> Seq<Range> {
    choose|r: Seq<Range>| is_complement(a, r)
}

/// A complement of `a` is the complement of `a`.
pub proof fn lemma_complement_of(a: Seq<Range>, r: Seq<Range>)
    requires
        is_complement(a, r),
    ensures
        r == complement_of(a),
{
    let c = complement_of(a);
    assert(is_complement(a, c));
    assert forall|p: int| covers(r, p) <==> covers(c, p) by {
        assert(covers(r, p) <==> (on_line(p) && !covers(a, p)));
        assert(covers(c, p) <==> (on_line(p) && !covers(a, p)));
    }
    lemma_canonical_unique(r, c);
}

/// The canonical sequence that covers what `a` covers and `b` does not.
pub open spec fn difference_of(a: Seq<Range>, b: Seq<Range>) -> Seq<Range> {
    choose|r: Seq<Range>| is_difference(a, b, r)
}

/// A difference of `a` and `b` is the difference of `a` and `b`.
pub proof fn lemma_difference_of(a: Seq<Range>, b: Seq<Range>, r: Seq<Range>)
    requires
        is_difference(a, b, r),
    ensures
        r == difference_of(a, b),
{
    let c = difference_of(a, b);
    assert(is_difference(a, b, c));
    assert forall|p: int| covers(r, p) <==> covers(c, p) by {
        assert(covers(r, p) <==> (covers(a, p) && !covers(b, p)));
        assert(covers(c, p) <==> (covers(a, p) && !covers(b, p)));
    }
    lemma_canonical_unique(r, c);
}

/// The canonical sequence that covers what both `a` and `b` cover.
pub open spec fn intersection_of(a: Seq<Range>, b: Seq<Range>) -> Seq<Range> {
    choose|r: Seq<Range>| is_intersection(a, b, r)
}

/// An intersection of `a` and `b` is the intersection of `a` and `b`.
pub proof fn lemma_intersection_of(a: Seq<Range>, b: Seq<Range>, r: Seq<Range>)
    requires
        is_intersection(a, b, r),
    ensures
        r == intersection_of(a, b),
        is_intersection(a, b, intersection_of(a, b)),
{
    let c = intersection_of(a, b);
    assert(is_intersection(a, b, c));
    assert forall|p: int| covers(r, p) <==> covers(c, p) by {
        assert(covers(r, p) <==> (covers(a, p) && covers(b, p)));
        assert(covers(c, p) <==> (covers(a, p) && covers(b, p)));
    }
    lemma_canonical_unique(r, c);
}

/// What a sequence of non-empty ranges covers lies on the line.
pub proof fn lemma_covers_on_line(s: Seq<Range>, p: int)
    requires
        covers(s, p),
    ensures
        on_line(p),
{
    let i = choose|i: int| 0 <= i < s.len() && #[trigger] s[i].has(p);
    s[i].lemma_same_points(s[i]);
}

} // verus!
