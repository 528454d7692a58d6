//! Lists of pinned packages kept as ordered maps: ascending by name, one
//! entry to a name.

use crate::package::name::{lemma_name_order, Name, NameView};
use crate::project::application::{pin_views, pins_ascend};
use vstd::prelude::*;

verus! {

/// Some pin of `s` is for `name`.
pub open spec fn pinned<V>(s: Seq<(NameView, V)>, name: NameView) -> bool {
    exists|i: int| 0 <= i < s.len() && (#[trigger] s[i]).0 == name
}

/// A place at which `s` has a pin for `name`.
pub open spec fn place<V>(s: Seq<(NameView, V)>, name: NameView) -> int {
    choose|i: int| 0 <= i < s.len() && (#[trigger] s[i]).0 == name
}

/// The map that the pins stand for.
pub open spec fn pin_map<V>(s: Seq<(NameView, V)>) -> Map<NameView, V> {
    Map::new(|name: NameView| pinned(s, name), |name: NameView| s[place(s, name)].1)
}

/// In an ascending list every name has one place, so the map holds exactly
/// the pins of the list.
pub proof fn lemma_pin_map<V>(s: Seq<(NameView, V)>, i: int)
    requires
        pins_ascend(s),
        0 <= i < s.len(),
    ensures
        pin_map(s).dom().contains(s[i].0),
        pin_map(s)[s[i].0] == s[i].1,
{
    let name = s[i].0;
    assert(pinned(s, name));
    let j = place(s, name);
    if i < j {
        assert(s[i].0.less(s[j].0));
        lemma_name_order(s[i].0, s[j].0, s[i].0);
    } else if j < i {
        assert(s[j].0.less(s[i].0));
        lemma_name_order(s[j].0, s[i].0, s[j].0);
    }
}

/// Sets the pin for `name` to `version`, at the place that keeps the list
/// ascending.
pub fn set_pin<V>(pins: &mut Vec<(Name, V)>, name: Name, version: V)
    requires
        pins_ascend(pin_views(old(pins)@)),
    ensures
        pins_ascend(pin_views(final(pins)@)),
        pin_map(pin_views(final(pins)@)) == pin_map(pin_views(old(pins)@)).insert(name@, version),
{
    let ghost before = pin_views(pins@);
    let n = pins.len();
    let mut i: usize = 0;
    while i < n && pins[i].0.precedes(&name)
        invariant
            i <= n,
            n == pins.len(),
            *pins == *old(pins),
            before == pin_views(pins@),
            forall|k: int| 0 <= k < i ==> (#[trigger] before[k]).0.less(name@),
        decreases n - i,
    {
        i += 1;
    }
    let replace = i < n && pins[i].0.same(&name);
    if replace {
        let _ = pins.remove(i);
    }
    pins.insert(i, (name, version));
    proof {
        let after = pin_views(pins@);
        let entry = (name@, version);
        assert(after[i as int] == entry);
        assert forall|k: int| 0 <= k < i implies #[trigger] after[k] == before[k] by {}
        if replace {
            assert(after.len() == before.len());
            assert forall|k: int| i < k < after.len() implies #[trigger] after[k] == before[k] by {}
        } else {
            assert(after.len() == before.len() + 1);
            assert forall|k: int| i < k < after.len() implies #[trigger] after[k] == before[k - 1] by {}
            if i < n {
                lemma_name_order(before[i as int].0, name@, before[i as int].0);
            }
        }
        assert forall|a: int, b: int| 0 <= a < b < after.len() implies (#[trigger] after[a]).0.less(
            (#[trigger] after[b]).0,
        ) by {
            let shift = if replace {
                0int
            } else {
                1int
            };
            if b < i {
                assert(before[a].0.less(before[b].0));
            } else if b == i {
                assert(before[a].0.less(name@));
            } else if a == i {
                // what follows the new entry lay at or after its place
                let old_b = b - shift;
                if replace {
                    assert(before[i as int].0.less(before[old_b].0));
                } else {
                    if old_b > i {
                        assert(before[i as int].0.less(before[old_b].0));
                        lemma_name_order(name@, before[i as int].0, before[old_b].0);
                    }
                }
            } else if a < i {
                assert(before[a].0.less(before[b - shift].0));
            } else {
                assert(before[a - shift].0.less(before[b - shift].0));
            }
        }
        let target = pin_map(before).insert(name@, version);
        assert forall|key: NameView| #[trigger]
            pin_map(after).dom().contains(key) <==> target.dom().contains(key) by {
            if pinned(after, key) {
                let k = choose|k: int| 0 <= k < after.len() && (#[trigger] after[k]).0 == key;
                if k < i {
                    assert(before[k].0 == key);
                } else if k > i {
                    if replace {
                        assert(before[k].0 == key);
                    } else {
                        assert(before[k - 1].0 == key);
                    }
                }
            }
            if key != name@ && pinned(before, key) {
                let k = choose|k: int| 0 <= k < before.len() && (#[trigger] before[k]).0 == key;
                if k < i {
                    assert(after[k].0 == key);
                } else if replace {
                    assert(after[k].0 == key);
                } else {
                    assert(after[k + 1].0 == key);
                }
            }
            if key == name@ {
                assert(after[i as int].0 == key);
            }
        }
        assert forall|key: NameView| pin_map(after).dom().contains(key) implies #[trigger] pin_map(
            after,
        )[key] == target[key] by {
            let k = place(after, key);
            lemma_pin_map(after, k);
            if k < i {
                lemma_pin_map(before, k);
            } else if k > i {
                if replace {
                    lemma_pin_map(before, k);
                } else {
                    lemma_pin_map(before, k - 1);
                    assert(before[k - 1].0.less(name@) || name@.less(before[k - 1].0)) by {
                        if k - 1 > i {
                            assert(before[i as int].0.less(before[k - 1].0));
                            lemma_name_order(name@, before[i as int].0, before[k - 1].0);
                        }
                    }
                    lemma_name_order(before[k - 1].0, name@, before[k - 1].0);
                }
                if replace {
                    assert(before[i as int].0.less(before[k].0));
                    lemma_name_order(before[i as int].0, before[k].0, before[i as int].0);
                }
            } else {
                lemma_pin_map(after, i as int);
            }
            if k < i {
                lemma_name_order(before[k].0, name@, before[k].0);
            }
        }
        assert(pin_map(after) =~= target);
    }
}

/// No pins stand for the empty map.
pub proof fn lemma_no_pins<V>()
    ensures
        pin_map(Seq::<(NameView, V)>::empty()) == Map::<NameView, V>::empty(),
        pins_ascend(Seq::<(NameView, V)>::empty()),
{
    assert(pin_map(Seq::<(NameView, V)>::empty()) =~= Map::<NameView, V>::empty());
}

/// Two ascending lists that stand for the same map are the same list.
pub proof fn lemma_pins_equal<V>(a: Seq<(NameView, V)>, b: Seq<(NameView, V)>)
    requires
        pins_ascend(a),
        pins_ascend(b),
        pin_map(a) == pin_map(b),
    ensures
        a == b,
    decreases a.len(),
{
    if a.len() == 0 {
        if b.len() > 0 {
            lemma_pin_map(b, 0);
            assert(pinned(a, b[0].0));
        }
        assert(a =~= b);
    } else {
        let la = a.len() - 1;
        lemma_pin_map(a, la);
        assert(pinned(b, a[la].0));
        let lb = b.len() - 1;
        lemma_pin_map(b, lb);
        assert(pinned(a, b[lb].0));
        let j = place(b, a[la].0);
        let i = place(a, b[lb].0);
        lemma_name_order(a[la].0, b[lb].0, a[la].0);
        lemma_name_order(b[lb].0, a[la].0, b[lb].0);
        if j < lb {
            assert(b[j].0.less(b[lb].0));
        }
        if i < la {
            assert(a[i].0.less(a[la].0));
        }
        assert(a[la].0 == b[lb].0);
        lemma_pin_map(b, lb);
        assert(a[la].1 == b[lb].1);
        let sa = a.drop_last();
        let sb = b.drop_last();
        assert(pin_map(sa) =~= pin_map(sb)) by {
            assert forall|name: NameView| pinned(sa, name) <==> pinned(sb, name) by {
                if pinned(sa, name) {
                    let k = place(sa, name);
                    assert(a[k].0 == name);
                    assert(a[k].0.less(a[la].0));
                    lemma_name_order(name, a[la].0, name);
                    lemma_pin_map(a, k);
                    assert(pinned(b, name));
                    let m = place(b, name);
                    assert(m < lb);
                    assert(sb[m].0 == name);
                }
                if pinned(sb, name) {
                    let k = place(sb, name);
                    assert(b[k].0 == name);
                    assert(b[k].0.less(b[lb].0));
                    lemma_name_order(name, b[lb].0, name);
                    lemma_pin_map(b, k);
                    assert(pinned(a, name));
                    let m = place(a, name);
                    assert(m < la);
                    assert(sa[m].0 == name);
                }
            }
            assert forall|name: NameView| pinned(sa, name) implies sa[place(sa, name)].1
                == sb[place(sb, name)].1 by {
                let k = place(sa, name);
                let m = place(sb, name);
                assert(pins_ascend(sa));
                assert(pins_ascend(sb));
                lemma_pin_map(a, k);
                lemma_pin_map(b, m);
                assert(a[k] == sa[k]);
                assert(b[m] == sb[m]);
            }
        }
        lemma_pins_equal(sa, sb);
        assert(a =~= sa.push(a[la]));
        assert(b =~= sb.push(b[lb]));
    }
}

} // verus!
