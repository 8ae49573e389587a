//! How the payout of an era is divided among operators and nominators.
use crate::election::{points_view, saturated};
use crate::order::{ascending, in_order, keys_in_order, lemma_in_order};
use crate::share::{law_share_at_most_amount, share, share_of};
use crate::types::{AccountId, Action, Balance, EraStakingPoints, PointsView};
use std::collections::BTreeMap;
use vstd::prelude::*;

verus! {

/// Every listed contract has points.
pub open spec fn all_known(points: Map<AccountId, PointsView>, contracts: Seq<AccountId>) -> bool {
    forall|i: int| 0 <= i < contracts.len() ==> points.contains_key(#[trigger] contracts[i])
}

/// The totals of the listed contracts, added up in turn. A total that would bring the sum over what
/// a balance can hold is passed over.
pub open spec fn staked_in_all(points: Map<AccountId, PointsView>, contracts: Seq<AccountId>) -> Balance
    decreases contracts.len(),
{
    if contracts.len() == 0 {
        0
    } else {
        let sum = staked_in_all(points, contracts.drop_last());
        let next = sum + points[contracts.last()].total;
        if next <= Balance::MAX {
            next as Balance
        } else {
            sum
        }
    }
}

/// What `stash` has on the listed contracts.
pub open spec fn nominated(
    points: Map<AccountId, PointsView>,
    contracts: Seq<AccountId>,
    stash: AccountId,
) -> nat
    decreases contracts.len(),
{
    if contracts.len() == 0 {
        0
    } else {
        let before = nominated(points, contracts.drop_last(), stash);
        let individual = points[contracts.last()].individual;
        if individual.contains_key(stash) {
            before + individual[stash] as nat
        } else {
            before
        }
    }
}

/// `stash` is among the nominators of a listed contract.
pub open spec fn nominates(
    points: Map<AccountId, PointsView>,
    contracts: Seq<AccountId>,
    stash: AccountId,
) -> bool {
    exists|i: int|
        0 <= i < contracts.len() && points[#[trigger] contracts[i]].individual.contains_key(stash)
}

/// The nominators of the listed contracts, each with what it has on them.
pub open spec fn nominated_by_all(
    points: Map<AccountId, PointsView>,
    contracts: Seq<AccountId>,
) -> Map<AccountId, Balance> {
    Map::new(
        |stash: AccountId| nominates(points, contracts, stash),
        |stash: AccountId| nominated(points, contracts, stash) as Balance,
    )
}

/// What each nominator has on the listed contracts is an amount that a balance can hold.
pub open spec fn nominated_fits(points: Map<AccountId, PointsView>, contracts: Seq<AccountId>) -> bool {
    forall|stash: AccountId| #[trigger] nominated(points, contracts, stash) <= Balance::MAX
}

/// The payment to the operator of a contract, if it has one.
pub open spec fn operator_payment(operator: Option<AccountId>, amount: Balance) -> Seq<Action> {
    match operator {
        Some(account) => seq![Action::DepositIntoExisting(account, amount)],
        None => Seq::empty(),
    }
}

/// What `map` holds for `key`.
pub open spec fn lookup<V>(map: Map<AccountId, V>, key: AccountId) -> Option<V> {
    if map.contains_key(key) {
        Some(map[key])
    } else {
        None
    }
}

/// The payments to the operators of the listed contracts: to each its share of `reward` by what is
/// staked on its contract.
pub open spec fn operator_payments(
    points: Map<AccountId, PointsView>,
    contracts: Seq<AccountId>,
    staked: Balance,
    reward: Balance,
    operators: Map<AccountId, AccountId>,
) -> Seq<Action>
    decreases contracts.len(),
{
    if contracts.len() == 0 {
        Seq::empty()
    } else {
        let contract = contracts.last();
        let amount = share(points[contract].total as nat, staked as nat, reward as nat) as Balance;
        operator_payments(points, contracts.drop_last(), staked, reward, operators)
            + operator_payment(lookup(operators, contract), amount)
    }
}

/// What each nominator is owed, in the order of the nominators: its share of `reward` by what it
/// has staked.
pub open spec fn nominator_dues(totals: Map<AccountId, Balance>, staked: Balance, reward: Balance) -> Seq<
    (AccountId, Balance),
> {
    in_order(totals.dom()).map_values(
        |stash: AccountId|
            (stash, share(totals[stash] as nat, staked as nat, reward as nat) as Balance),
    )
}

/// No name is owed twice.
pub open spec fn distinct_names(dues: Seq<(AccountId, Balance)>) -> bool {
    forall|i: int, j: int| 0 <= i < j < dues.len() ==> (#[trigger] dues[i]).0 != (#[trigger] dues[j]).0
}

/// What the nominators are owed names each of them once.
pub proof fn lemma_dues_distinct(totals: Map<AccountId, Balance>, staked: Balance, reward: Balance)
    requires
        totals.dom().finite(),
    ensures
        distinct_names(nominator_dues(totals, staked, reward)),
{
    lemma_in_order(totals.dom());
}

/// Finitely many contracts with finitely many nominators each have finitely many nominators.
pub proof fn lemma_nominators_finite(points: Map<AccountId, PointsView>, contracts: Seq<AccountId>)
    requires
        forall|i: int|
            0 <= i < contracts.len() ==> points[#[trigger] contracts[i]].individual.dom().finite(),
    ensures
        nominated_by_all(points, contracts).dom().finite(),
    decreases contracts.len(),
{
    if contracts.len() == 0 {
        assert(nominated_by_all(points, contracts).dom() =~= Set::empty());
    } else {
        let rest = contracts.drop_last();
        assert forall|i: int| 0 <= i < rest.len() implies points[#[trigger] rest[i]].individual.dom().finite() by {
            assert(rest[i] == contracts[i]);
        }
        lemma_nominators_finite(points, rest);
        let last = points[contracts[contracts.len() - 1]].individual.dom();
        assert forall|stash: AccountId|
            nominated_by_all(points, contracts).dom().contains(stash) <==> nominated_by_all(
                points,
                rest,
            ).dom().union(last).contains(stash) by {
            lemma_nominated_step(points, contracts, stash);
        }
        assert(nominated_by_all(points, contracts).dom() =~= nominated_by_all(points, rest).dom().union(
            last,
        ));
    }
}

/// The totals of the contracts, added up in turn.
pub fn total_staked(
    points: &BTreeMap<AccountId, EraStakingPoints<AccountId, Balance>>,
    contracts: &Vec<AccountId>,
) -> (r: Balance)
    requires
        all_known(points_view(points@), contracts@),
    ensures
        r == staked_in_all(points_view(points@), contracts@),
{
    let ghost views = points_view(points@);
    let mut sum: Balance = 0;
    for i in 0..contracts.len()
        invariant
            views == points_view(points@),
            all_known(views, contracts@),
            sum == staked_in_all(views, contracts@.take(i as int)),
    {
        let contract = contracts[i];
        proof {
            assert(contracts@.take(i + 1).drop_last() =~= contracts@.take(i as int));
            assert(views.contains_key(contracts@[i as int]));
        }
        if let Some(there) = points.get(&contract) {
            if let Some(next) = sum.checked_add(there.total) {
                sum = next;
            }
        }
    }
    assert(contracts@.take(contracts@.len() as int) =~= contracts@);
    sum
}

/// The payment of `reward` to the operator of the contract, if it has one.
pub fn reward_contract(operator: Option<AccountId>, reward: Balance) -> (r: Option<Action>)
    ensures
        operator_payment(operator, reward) == match r {
            Some(action) => seq![action],
            None => Seq::empty(),
        },
{
    match operator {
        Some(account) => Some(Action::DepositIntoExisting(account, reward)),
        None => None,
    }
}

/// The payments to the operators of the contracts.
pub fn reward_operators(
    points: &BTreeMap<AccountId, EraStakingPoints<AccountId, Balance>>,
    contracts: &Vec<AccountId>,
    staked: Balance,
    reward: Balance,
    operators: &BTreeMap<AccountId, AccountId>,
) -> (r: Vec<Action>)
    requires
        all_known(points_view(points@), contracts@),
    ensures
        r@ == operator_payments(points_view(points@), contracts@, staked, reward, operators@),
{
    let ghost views = points_view(points@);
    let mut payments: Vec<Action> = Vec::new();
    for i in 0..contracts.len()
        invariant
            views == points_view(points@),
            all_known(views, contracts@),
            payments@ == operator_payments(
                views,
                contracts@.take(i as int),
                staked,
                reward,
                operators@,
            ),
    {
        let contract = contracts[i];
        proof {
            assert(contracts@.take(i + 1).drop_last() =~= contracts@.take(i as int));
            assert(views.contains_key(contracts@[i as int]));
        }
        if let Some(there) = points.get(&contract) {
            let amount = share_of(there.total, staked, reward);
            let operator: Option<AccountId> = match operators.get(&contract) {
                Some(account) => Some(*account),
                None => None,
            };
            assert(operator == lookup(operators@, contract));
            if let Some(payment) = reward_contract(operator, amount) {
                payments.push(payment);
            }
            proof {
                law_share_at_most_amount(there.total as nat, staked as nat, reward as nat);
            }
        }
    }
    assert(contracts@.take(contracts@.len() as int) =~= contracts@);
    payments
}

/// The nominators that `individual` names gain what it says.
proof fn lemma_nominated_step(
    points: Map<AccountId, PointsView>,
    contracts: Seq<AccountId>,
    stash: AccountId,
)
    requires
        contracts.len() > 0,
    ensures
        nominates(points, contracts, stash) <==> nominates(points, contracts.drop_last(), stash)
            || points[contracts.last()].individual.contains_key(stash),
{
    let rest = contracts.drop_last();
    if nominates(points, rest, stash) {
        let i = choose|i: int|
            0 <= i < rest.len() && points[#[trigger] rest[i]].individual.contains_key(stash);
        assert(points[contracts[i]].individual.contains_key(stash));
    }
    if points[contracts.last()].individual.contains_key(stash) {
        assert(points[contracts[contracts.len() - 1]].individual.contains_key(stash));
    }
    if nominates(points, contracts, stash) && !points[contracts.last()].individual.contains_key(stash) {
        let i = choose|i: int|
            0 <= i < contracts.len() && points[#[trigger] contracts[i]].individual.contains_key(stash);
        assert(points[rest[i]].individual.contains_key(stash));
    }
}

/// Who nominates nothing has nothing on the contracts.
pub proof fn lemma_nominates_nothing(
    points: Map<AccountId, PointsView>,
    contracts: Seq<AccountId>,
    stash: AccountId,
)
    requires
        !nominates(points, contracts, stash),
    ensures
        nominated(points, contracts, stash) == 0,
    decreases contracts.len(),
{
    if contracts.len() > 0 {
        lemma_nominated_step(points, contracts, stash);
        lemma_nominates_nothing(points, contracts.drop_last(), stash);
    }
}

/// The first contracts hold no more of a nominator than all of them.
proof fn lemma_nominated_prefix(
    points: Map<AccountId, PointsView>,
    contracts: Seq<AccountId>,
    n: int,
    stash: AccountId,
)
    requires
        0 <= n <= contracts.len(),
    ensures
        nominated(points, contracts.take(n), stash) <= nominated(points, contracts, stash),
    decreases contracts.len() - n,
{
    if n == contracts.len() {
        assert(contracts.take(n) =~= contracts);
    } else {
        lemma_nominated_prefix(points, contracts, n + 1, stash);
        assert(contracts.take(n + 1).drop_last() =~= contracts.take(n));
    }
}

/// What the nominators of the contracts have on them. `None` where a nominator would have more than
/// a balance can hold.
pub fn nominate_totals(
    points: &BTreeMap<AccountId, EraStakingPoints<AccountId, Balance>>,
    contracts: &Vec<AccountId>,
) -> (r: Option<BTreeMap<AccountId, Balance>>)
    requires
        all_known(points_view(points@), contracts@),
    ensures
        match r {
            Some(totals) => {
                &&& nominated_fits(points_view(points@), contracts@)
                &&& totals@ == nominated_by_all(points_view(points@), contracts@)
            },
            None => !nominated_fits(points_view(points@), contracts@),
        },
{
    let ghost views = points_view(points@);
    let mut totals: BTreeMap<AccountId, Balance> = BTreeMap::new();
    assert(totals@ =~= nominated_by_all(views, contracts@.take(0)));
    for i in 0..contracts.len()
        invariant
            views == points_view(points@),
            all_known(views, contracts@),
            nominated_fits(views, contracts@.take(i as int)),
            totals@ == nominated_by_all(views, contracts@.take(i as int)),
    {
        let contract = contracts[i];
        let ghost seen = contracts@.take(i as int);
        let ghost next = contracts@.take(i + 1);
        let ghost before = totals@;
        proof {
            assert(next.drop_last() =~= seen);
            assert(views.contains_key(contracts@[i as int]));
        }
        if let Some(there) = points.get(&contract) {
            let names = keys_in_order(&there.individual);
            let ghost individual = there.individual@;
            assert(individual == views[contract].individual);
            let ghost mut done: Set<AccountId> = Set::empty();
            proof {
                assert(names@.take(0).to_set() =~= done);
                assert(before.dom().union(done) =~= before.dom());
            }
            for k in 0..names.len()
                invariant
                    0 <= i < contracts@.len(),
                    views == points_view(points@),
                    seen == contracts@.take(i as int),
                    next == contracts@.take(i + 1),
                    next.len() > 0,
                    next.drop_last() == seen,
                    next.last() == contract,
                    individual == there.individual@,
                    individual == views[contract].individual,
                    before == nominated_by_all(views, seen),
                    nominated_fits(views, seen),
                    ascending(names@),
                    names@.to_set() == individual.dom(),
                    done == names@.take(k as int).to_set(),
                    forall|s: AccountId| #[trigger]
                        done.contains(s) ==> nominated(views, next, s) <= Balance::MAX,
                    totals@.dom() == before.dom().union(done),
                    forall|s: AccountId| #[trigger]
                        totals@.contains_key(s) ==> totals@[s] == if done.contains(s) {
                            nominated(views, next, s)
                        } else {
                            nominated(views, seen, s)
                        },
            {
                let name = names[k];
                let ghost new_done = done.insert(name);
                proof {
                    assert(names@.contains(name));
                    assert(names@.to_set().contains(name));
                    assert(individual.contains_key(name));
                    assert(names@.take(k + 1) =~= names@.take(k as int).push(name));
                    assert(!names@.take(k as int).contains(name));
                    assert(!done.contains(name));
                    names@.take(k as int).lemma_push_to_set_commute(name);
                    assert(new_done == names@.take(k + 1).to_set());
                    assert(nominated(views, seen, name) <= Balance::MAX);
                    assert(nominated(views, next, name) == nominated(views, seen, name)
                        + individual[name]);
                    if !before.contains_key(name) {
                        lemma_nominates_nothing(views, seen, name);
                    }
                }
                if let Some(value) = there.individual.get(&name) {
                    let old_total: Balance = match totals.get(&name) {
                        Some(total) => *total,
                        None => 0,
                    };
                    match old_total.checked_add(*value) {
                        Some(total) => {
                            totals.insert(name, total);
                            proof {
                                done = new_done;
                                assert(totals@.dom() =~= before.dom().union(done));
                            }
                        },
                        None => {
                            proof {
                                lemma_nominated_prefix(views, contracts@, i + 1, name);
                                assert(nominated(views, contracts@, name) > Balance::MAX);
                            }
                            return None;
                        },
                    }
                }
            }
            proof {
                assert(names@.take(names@.len() as int) =~= names@);
                assert(done == individual.dom());
                assert forall|s: AccountId| #[trigger] nominated(views, next, s) <= Balance::MAX by {
                    if individual.contains_key(s) {
                        assert(done.contains(s));
                    } else {
                        assert(nominated(views, seen, s) <= Balance::MAX);
                    }
                }
                assert forall|s: AccountId|
                    nominates(views, next, s) <==> nominates(views, seen, s) || individual.contains_key(s) by {
                    lemma_nominated_step(views, next, s);
                }
                assert(totals@ =~= nominated_by_all(views, next));
            }
        }
    }
    assert(contracts@.take(contracts@.len() as int) =~= contracts@);
    Some(totals)
}

/// What each nominator is owed.
pub fn dues_of(totals: &BTreeMap<AccountId, Balance>, staked: Balance, reward: Balance) -> (r: Vec<
    (AccountId, Balance),
>)
    ensures
        r@ == nominator_dues(totals@, staked, reward),
{
    let names = keys_in_order(totals);
    let mut dues: Vec<(AccountId, Balance)> = Vec::new();
    let ghost all = nominator_dues(totals@, staked, reward);
    for i in 0..names.len()
        invariant
            names@ == in_order(totals@.dom()),
            names@.to_set() == totals@.dom(),
            all == nominator_dues(totals@, staked, reward),
            dues@ == all.take(i as int),
    {
        let name = names[i];
        proof {
            assert(names@.contains(name));
            assert(names@.to_set().contains(name));
            assert(totals@.contains_key(name));
        }
        if let Some(total) = totals.get(&name) {
            let amount = share_of(*total, staked, reward);
            proof {
                law_share_at_most_amount(*total as nat, staked as nat, reward as nat);
                assert(all[i as int] == (name, amount));
                assert(all.take(i + 1) =~= all.take(i as int).push((name, amount)));
            }
            dues.push((name, amount));
        }
    }
    assert(all.take(names@.len() as int) =~= all);
    dues
}

/// What an era may pay of the rewards that were set for it, if any were.
pub open spec fn payable(rewards: Option<Balance>) -> Balance {
    if rewards is Some {
        rewards->0
    } else {
        0
    }
}

/// What an era may pay: what was set for it, or nothing.
pub fn max_payout(rewards: Option<Balance>) -> (r: Balance)
    ensures
        r == payable(rewards),
        r == match rewards {
            Some(amount) => amount,
            None => 0,
        },
{
    match rewards {
        Some(amount) => amount,
        None => 0,
    }
}

/// What the deposits minted; those that failed minted nothing.
pub open spec fn deposits_sum(deposits: Seq<Option<Balance>>) -> nat
    decreases deposits.len(),
{
    if deposits.len() == 0 {
        0
    } else {
        deposits_sum(deposits.drop_last()) + match deposits.last() {
            Some(amount) => amount as nat,
            None => 0,
        }
    }
}

/// How the payment of an era ended.
#[derive(Clone, Copy, Debug, PartialEq, Eq)]
pub struct Settlement {
    /// What was minted to operators and nominators.
    pub total_payout: Balance,
    /// What is left of what the era may pay.
    pub rest: Balance,
}

/// How an era ends that may pay `max_payout` and whose deposits minted what is listed.
pub open spec fn settled(max_payout: Balance, deposits: Seq<Option<Balance>>) -> Settlement {
    let total_payout = saturated(deposits_sum(deposits));
    Settlement {
        total_payout,
        rest: if total_payout <= max_payout {
            (max_payout - total_payout) as Balance
        } else {
            0
        },
    }
}

/// Settles an era by what each deposit minted; `None` stands for a deposit that failed.
pub fn settle(max_payout: Balance, deposits: &Vec<Option<Balance>>) -> (r: Settlement)
    ensures
        r == settled(max_payout, deposits@),
        r.total_payout == saturated(deposits_sum(deposits@)),
        r.rest == if r.total_payout <= max_payout {
            max_payout - r.total_payout
        } else {
            0
        },
{
    let mut total: Balance = 0;
    for i in 0..deposits.len()
        invariant
            total == saturated(deposits_sum(deposits@.take(i as int))),
    {
        assert(deposits@.take(i + 1).drop_last() =~= deposits@.take(i as int));
        if let Some(amount) = deposits[i] {
            total = total.saturating_add(amount);
        }
    }
    assert(deposits@.take(deposits@.len() as int) =~= deposits@);
    Settlement { total_payout: total, rest: max_payout.saturating_sub(total) }
}

} // verus!
