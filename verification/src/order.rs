//! Account sets in the order in which a `BTreeMap` walks them.
use std::collections::BTreeMap;
use vstd::prelude::*;
use vstd::std_specs::cmp::OrdSpec;
use vstd::std_specs::iter::IteratorSpec;

verus! {

/// Each entry is greater than all before it.
pub open spec fn ascending(s: Seq<u64>) -> bool {
    forall|i: int, j: int| 0 <= i < j < s.len() ==> s[i] < s[j]
}

/// The members of `set` from the least to the greatest.
pub open spec fn in_order(set: Set<u64>) -> Seq<u64> {
    choose|s: Seq<u64>| ascending(s) && s.to_set() == set
}

/// A set has one ascending listing.
pub proof fn lemma_ascending_unique(a: Seq<u64>, b: Seq<u64>)
    requires
        ascending(a),
        ascending(b),
        a.to_set() == b.to_set(),
    ensures
        a == b,
    decreases a.len(),
{
    if a.len() == 0 {
        if b.len() > 0 {
            assert(b.to_set().contains(b[0]));
            assert(a.to_set().contains(b[0]));
        }
        assert(a =~= b);
    } else {
        assert(a.to_set().contains(a.last()));
        assert(b.to_set().contains(a.last()));
        assert(b.contains(a.last()));
        assert(b.len() > 0);
        assert(b.to_set().contains(b.last()));
        assert(a.to_set().contains(b.last()));
        assert(a.contains(b.last()));
        assert(a.last() == b.last());
        let x = a.drop_last();
        let y = b.drop_last();
        assert forall|k: u64| x.to_set().contains(k) <==> y.to_set().contains(k) by {
            if x.contains(k) {
                let i = choose|i: int| 0 <= i < x.len() && x[i] == k;
                assert(a[i] == k);
                assert(a.to_set().contains(k));
                assert(b.to_set().contains(k));
                let j = choose|j: int| 0 <= j < b.len() && b[j] == k;
                assert(a[i] < a[a.len() - 1]);
                assert(y[j] == k);
            }
            if y.contains(k) {
                let i = choose|i: int| 0 <= i < y.len() && y[i] == k;
                assert(b[i] == k);
                assert(b.to_set().contains(k));
                assert(a.to_set().contains(k));
                let j = choose|j: int| 0 <= j < a.len() && a[j] == k;
                assert(b[i] < b[b.len() - 1]);
                assert(x[j] == k);
            }
        }
        assert(x.to_set() =~= y.to_set());
        lemma_ascending_unique(x, y);
        assert(a =~= x.push(a.last()));
        assert(b =~= y.push(b.last()));
    }
}

/// A finite set that is not empty has a greatest member.
proof fn lemma_greatest(set: Set<u64>) -> (m: u64)
    requires
        set.finite(),
        set.len() > 0,
    ensures
        set.contains(m),
        forall|k: u64| #[trigger] set.contains(k) ==> k <= m,
    decreases set.len(),
{
    let a = set.choose();
    let rest = set.remove(a);
    if rest.len() == 0 {
        assert forall|k: u64| #[trigger] set.contains(k) implies k <= a by {
            if k != a {
                assert(rest.contains(k));
            }
        }
        a
    } else {
        let m = lemma_greatest(rest);
        let r = if a <= m {
            m
        } else {
            a
        };
        assert forall|k: u64| #[trigger] set.contains(k) implies k <= r by {
            if k != a {
                assert(rest.contains(k));
            }
        }
        r
    }
}

/// A finite set has an ascending listing.
proof fn lemma_listing(set: Set<u64>) -> (s: Seq<u64>)
    requires
        set.finite(),
    ensures
        ascending(s),
        s.to_set() == set,
    decreases set.len(),
{
    if set.len() == 0 {
        let s = Seq::<u64>::empty();
        assert(s.to_set() =~= set);
        s
    } else {
        let m = lemma_greatest(set);
        let rest = lemma_listing(set.remove(m));
        let s = rest.push(m);
        assert forall|i: int, j: int| 0 <= i < j < s.len() implies s[i] < s[j] by {
            assert(rest.contains(rest[i]));
            assert(rest.to_set().contains(rest[i]));
        }
        rest.lemma_push_to_set_commute(m);
        assert(s.to_set() =~= set);
        s
    }
}

/// `in_order` lists a finite set, each member once.
pub proof fn lemma_in_order(set: Set<u64>)
    requires
        set.finite(),
    ensures
        ascending(in_order(set)),
        in_order(set).to_set() == set,
        in_order(set).no_duplicates(),
{
    let s = lemma_listing(set);
    assert(ascending(s) && s.to_set() == set);
}

/// The keys of `map` from the least to the greatest.
pub fn keys_in_order<V>(map: &BTreeMap<u64, V>) -> (keys: Vec<u64>)
    ensures
        ascending(keys@),
        keys@.to_set() == map@.dom(),
        keys@ == in_order(map@.dom()),
{
    let mut keys: Vec<u64> = Vec::new();
    let iter = map.iter();
    let ghost all = iter.remaining();
    let ghost names = all.map_values(|kv: (&u64, &V)| *kv.0);
    assert(vstd::std_specs::btree::increasing_seq(names));
    assert forall|i: int, j: int| 0 <= i < j < names.len() implies names[i] < names[j] by {
        assert(names[i].cmp_spec(&names[j]) is Less);
    }
    for kv in it: map.iter()
        invariant
            keys@.len() == it.index(),
            it.seq() == all,
            forall|i: int| 0 <= i < keys@.len() ==> keys@[i] == *all[i].0,
    {
        keys.push(*kv.0);
    }
    assert(keys@ =~= names);
    assert forall|k: u64| keys@.to_set().contains(k) <==> map@.dom().contains(k) by {
        if map@.contains_key(k) {
            assert(all.contains((&k, &map@[k])));
            let i = choose|i: int| 0 <= i < all.len() && all[i] == (&k, &map@[k]);
            assert(keys@[i] == k);
        }
        if keys@.contains(k) {
            let i = choose|i: int| 0 <= i < keys@.len() && keys@[i] == k;
            assert(map@.contains_key(*all[i].0));
        }
    }
    assert(keys@.to_set() =~= map@.dom());
    proof {
        lemma_ascending_unique(keys@, in_order(map@.dom()));
    }
    keys
}

} // verus!
