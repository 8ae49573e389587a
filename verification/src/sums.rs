//! Sums over listings of accounts.
use crate::order::{in_order, lemma_in_order};
use crate::types::{AccountId, Balance};
use vstd::prelude::*;

verus! {

/// What `f` gives for the listed accounts, added up.
pub open spec fn sum_over(f: spec_fn(AccountId) -> nat, list: Seq<AccountId>) -> nat
    decreases list.len(),
{
    if list.len() == 0 {
        0
    } else {
        sum_over(f, list.drop_last()) + f(list.last())
    }
}

/// What `map` holds for an account; nothing where it has no entry.
pub open spec fn amount_at(map: Map<AccountId, Balance>) -> spec_fn(AccountId) -> nat {
    |account: AccountId|
        if map.contains_key(account) {
            map[account] as nat
        } else {
            0
        }
}

/// All amounts of `map`, added up.
pub open spec fn map_sum(map: Map<AccountId, Balance>) -> nat {
    sum_over(amount_at(map), in_order(map.dom()))
}

/// One entry of a listing can be taken out of the sum.
pub proof fn lemma_sum_remove(f: spec_fn(AccountId) -> nat, list: Seq<AccountId>, i: int)
    requires
        0 <= i < list.len(),
    ensures
        sum_over(f, list) == sum_over(f, list.remove(i)) + f(list[i]),
    decreases list.len(),
{
    if i == list.len() - 1 {
        assert(list.remove(i) =~= list.drop_last());
    } else {
        let rest = list.drop_last();
        lemma_sum_remove(f, rest, i);
        assert(list.remove(i).drop_last() =~= rest.remove(i));
        assert(list.remove(i).last() == list.last());
        assert(rest[i] == list[i]);
    }
}

/// Two functions that agree on the listed accounts have the same sum.
pub proof fn lemma_sum_same(
    f: spec_fn(AccountId) -> nat,
    g: spec_fn(AccountId) -> nat,
    list: Seq<AccountId>,
)
    requires
        forall|i: int| 0 <= i < list.len() ==> f(#[trigger] list[i]) == g(list[i]),
    ensures
        sum_over(f, list) == sum_over(g, list),
    decreases list.len(),
{
    if list.len() > 0 {
        let rest = list.drop_last();
        assert forall|i: int| 0 <= i < rest.len() implies f(#[trigger] rest[i]) == g(rest[i]) by {
            assert(rest[i] == list[i]);
        }
        lemma_sum_same(f, g, rest);
        assert(f(list[list.len() - 1]) == g(list[list.len() - 1]));
    }
}

/// The sums of two functions make up the sum of both together.
pub proof fn lemma_sum_of_both(
    f: spec_fn(AccountId) -> nat,
    g: spec_fn(AccountId) -> nat,
    both: spec_fn(AccountId) -> nat,
    list: Seq<AccountId>,
)
    requires
        forall|a: AccountId| #[trigger] both(a) == f(a) + g(a),
    ensures
        sum_over(both, list) == sum_over(f, list) + sum_over(g, list),
    decreases list.len(),
{
    if list.len() > 0 {
        lemma_sum_of_both(f, g, both, list.drop_last());
    }
}

/// Where `f` is nothing outside of `small`, a listing that has all of `small` gives the same sum.
pub proof fn lemma_sum_larger(
    f: spec_fn(AccountId) -> nat,
    small: Seq<AccountId>,
    large: Seq<AccountId>,
)
    requires
        small.no_duplicates(),
        large.no_duplicates(),
        forall|i: int| 0 <= i < small.len() ==> large.contains(#[trigger] small[i]),
        forall|i: int|
            0 <= i < large.len() ==> small.contains(#[trigger] large[i]) || f(large[i]) == 0,
    ensures
        sum_over(f, small) == sum_over(f, large),
    decreases large.len(),
{
    if large.len() > 0 {
        let x = large.last();
        let rest = large.drop_last();
        assert(large[large.len() - 1] == x);
        assert(rest.no_duplicates());
        if small.contains(x) {
            let i = choose|i: int| 0 <= i < small.len() && small[i] == x;
            let less = small.remove(i);
            assert forall|k: int| 0 <= k < less.len() implies rest.contains(#[trigger] less[k]) by {
                let from = if k < i {
                    k
                } else {
                    k + 1
                };
                assert(less[k] == small[from]);
                let j = choose|j: int| 0 <= j < large.len() && large[j] == small[from];
                assert(small[from] != x);
                assert(rest[j] == small[from]);
            }
            assert(less.no_duplicates()) by {
                assert forall|a: int, b: int| 0 <= a < less.len() && 0 <= b < less.len() && a != b implies less[a]
                    != less[b] by {
                    let fa = if a < i {
                        a
                    } else {
                        a + 1
                    };
                    let fb = if b < i {
                        b
                    } else {
                        b + 1
                    };
                    assert(less[a] == small[fa] && less[b] == small[fb]);
                }
            }
            assert forall|k: int| 0 <= k < rest.len() implies less.contains(#[trigger] rest[k]) || f(
                rest[k],
            ) == 0 by {
                assert(rest[k] == large[k]);
                if small.contains(large[k]) {
                    let j = choose|j: int| 0 <= j < small.len() && small[j] == large[k];
                    assert(j != i);
                    if j < i {
                        assert(less[j] == large[k]);
                    } else {
                        assert(less[j - 1] == large[k]);
                    }
                }
            }
            lemma_sum_larger(f, less, rest);
            lemma_sum_remove(f, small, i);
        } else {
            assert forall|k: int| 0 <= k < small.len() implies rest.contains(#[trigger] small[k]) by {
                let j = choose|j: int| 0 <= j < large.len() && large[j] == small[k];
                assert(small[k] != x);
                assert(rest[j] == small[k]);
            }
            assert forall|k: int| 0 <= k < rest.len() implies small.contains(#[trigger] rest[k]) || f(
                rest[k],
            ) == 0 by {
                assert(rest[k] == large[k]);
            }
            lemma_sum_larger(f, small, rest);
            assert(f(large[large.len() - 1]) == 0);
        }
    } else {
        if small.len() > 0 {
            assert(large.contains(small[0]));
        }
    }
}

/// What `f` gives for an account that is listed; nothing where it is not.
pub open spec fn amount_in(f: spec_fn(AccountId) -> nat, list: Seq<AccountId>, account: AccountId) -> nat {
    if list.contains(account) {
        f(account)
    } else {
        0
    }
}

/// Two listings have the same sum where each account counts the same in both.
pub proof fn lemma_equal_sums(
    f: spec_fn(AccountId) -> nat,
    a: Seq<AccountId>,
    g: spec_fn(AccountId) -> nat,
    b: Seq<AccountId>,
)
    requires
        a.no_duplicates(),
        b.no_duplicates(),
        forall|account: AccountId| #[trigger] amount_in(f, a, account) == amount_in(g, b, account),
    ensures
        sum_over(f, a) == sum_over(g, b),
{
    let both = a.to_set().union(b.to_set());
    let list = in_order(both);
    lemma_in_order(both);
    let x = |account: AccountId| amount_in(f, a, account);
    let y = |account: AccountId| amount_in(g, b, account);
    lemma_sum_same(f, x, a);
    lemma_sum_same(g, y, b);
    assert forall|i: int| 0 <= i < a.len() implies list.contains(#[trigger] a[i]) by {
        assert(both.contains(a[i]));
        assert(list.to_set().contains(a[i]));
    }
    assert forall|i: int| 0 <= i < b.len() implies list.contains(#[trigger] b[i]) by {
        assert(both.contains(b[i]));
        assert(list.to_set().contains(b[i]));
    }
    lemma_sum_larger(x, a, list);
    lemma_sum_larger(y, b, list);
    assert forall|i: int| 0 <= i < list.len() implies x(#[trigger] list[i]) == y(list[i]) by {
        assert(amount_in(f, a, list[i]) == amount_in(g, b, list[i]));
    }
    lemma_sum_same(x, y, list);
}

/// Any listing that has all accounts of a map adds up to its sum.
pub proof fn lemma_map_sum_listing(map: Map<AccountId, Balance>, list: Seq<AccountId>)
    requires
        map.dom().finite(),
        list.no_duplicates(),
        forall|a: AccountId| #[trigger] map.contains_key(a) ==> list.contains(a),
    ensures
        map_sum(map) == sum_over(amount_at(map), list),
{
    lemma_in_order(map.dom());
    let small = in_order(map.dom());
    assert forall|i: int| 0 <= i < small.len() implies list.contains(#[trigger] small[i]) by {
        assert(small.to_set().contains(small[i]));
        assert(map.contains_key(small[i]));
    }
    assert forall|i: int| 0 <= i < list.len() implies small.contains(#[trigger] list[i]) || amount_at(
        map,
    )(list[i]) == 0 by {
        if map.contains_key(list[i]) {
            assert(small.to_set().contains(list[i]));
        }
    }
    lemma_sum_larger(amount_at(map), small, list);
}

/// A new amount for an account counts in place of the one that it had.
pub proof fn lemma_map_sum_insert(map: Map<AccountId, Balance>, account: AccountId, amount: Balance)
    requires
        map.dom().finite(),
    ensures
        map_sum(map.insert(account, amount)) + amount_at(map)(account) == map_sum(map) + amount,
{
    let next = map.insert(account, amount);
    let list = in_order(next.dom());
    lemma_in_order(next.dom());
    assert forall|a: AccountId| #[trigger] map.contains_key(a) implies list.contains(a) by {
        assert(next.dom().contains(a));
        assert(list.to_set().contains(a));
    }
    lemma_map_sum_listing(map, list);
    assert(list.to_set().contains(account));
    let i = choose|i: int| 0 <= i < list.len() && list[i] == account;
    lemma_sum_remove(amount_at(map), list, i);
    lemma_sum_remove(amount_at(next), list, i);
    let rest = list.remove(i);
    assert forall|k: int| 0 <= k < rest.len() implies amount_at(map)(#[trigger] rest[k]) == amount_at(
        next,
    )(rest[k]) by {
        if k < i {
            assert(rest[k] == list[k]);
        } else {
            assert(rest[k] == list[k + 1]);
        }
        assert(rest[k] != account);
    }
    lemma_sum_same(amount_at(map), amount_at(next), rest);
}

} // verus!
