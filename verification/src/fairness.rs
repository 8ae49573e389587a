//! Operators and nominators together get no more than was set aside for them, but for rounding.
use crate::calls::same_stash;
use crate::election::{points_sound, saturated, totals_sum};
use crate::order::{in_order, lemma_in_order};
use crate::payout::{
    deposits_sum, distinct_names, lemma_nominates_nothing, lemma_nominators_finite, lookup, nominated,
    nominated_by_all, nominated_fits, nominates, nominator_dues, operator_payment, operator_payments,
    staked_in_all,
};
use crate::share::{
    law_share_at_most_amount, law_shares_make_up_no_more_than_amount, parts_sum, share, shares_sum,
};
use crate::soundness::{law_payouts_keep_state_sound, lemma_points_in_sound};
use crate::state::State;
use crate::sums::{
    amount_at, lemma_map_sum_listing, lemma_sum_of_both, lemma_sum_remove, lemma_sum_same, map_sum,
    sum_over,
};
use crate::types::{AccountId, Action, Balance, EraIndex, PointsView, RewardDestination};
use vstd::prelude::*;

verus! {

/// What the deposits among the actions amount to.
pub open spec fn minted(actions: Seq<Action>) -> nat
    decreases actions.len(),
{
    if actions.len() == 0 {
        0
    } else {
        minted(actions.drop_last()) + match actions.last() {
            Action::DepositIntoExisting(_, amount) => amount as nat,
            _ => 0,
        }
    }
}

/// The deposits are the outcomes of the actions, one for each: a deposit that was made is of the
/// amount that its action asks for.
pub open spec fn outcomes_of(actions: Seq<Action>, deposits: Seq<Option<Balance>>) -> bool {
    &&& deposits.len() == actions.len()
    &&& forall|i: int|
        0 <= i < deposits.len() && (#[trigger] deposits[i]) is Some ==> (actions[i] matches
            Action::DepositIntoExisting(_, amount) && amount == deposits[i]->0)
}

/// Every deposit that the actions ask for was made.
pub open spec fn all_made(actions: Seq<Action>, deposits: Seq<Option<Balance>>) -> bool {
    forall|i: int|
        0 <= i < actions.len() && (#[trigger] actions[i]) is DepositIntoExisting ==> deposits[i] is Some
}

/// What the outcomes of the actions amount to is no more than the actions ask for, and exactly that
/// where every deposit was made.
pub proof fn law_deposits_are_what_was_asked_for(
    actions: Seq<Action>,
    deposits: Seq<Option<Balance>>,
)
    requires
        outcomes_of(actions, deposits),
    ensures
        deposits_sum(deposits) <= minted(actions),
        all_made(actions, deposits) ==> deposits_sum(deposits) == minted(actions),
    decreases actions.len(),
{
    if actions.len() > 0 {
        let last = actions.len() - 1;
        let a = actions.drop_last();
        let d = deposits.drop_last();
        assert forall|i: int| 0 <= i < d.len() && (#[trigger] d[i]) is Some implies (a[i] matches
            Action::DepositIntoExisting(_, amount) && amount == d[i]->0) by {
            assert(d[i] == deposits[i] && a[i] == actions[i]);
        }
        law_deposits_are_what_was_asked_for(a, d);
        assert(deposits[last] == deposits.last() && actions[last] == actions.last());
        if all_made(actions, deposits) {
            assert forall|i: int|
                0 <= i < a.len() && (#[trigger] a[i]) is DepositIntoExisting implies d[i] is Some by {
                assert(a[i] == actions[i] && d[i] == deposits[i]);
            }
            assert(actions[last] is DepositIntoExisting ==> deposits[last] is Some);
        }
    }
}

/// What is minted in two goes is minted in one.
proof fn lemma_minted_concat(a: Seq<Action>, b: Seq<Action>)
    ensures
        minted(a + b) == minted(a) + minted(b),
    decreases b.len(),
{
    if b.len() == 0 {
        assert(a + b =~= a);
    } else {
        assert((a + b).drop_last() =~= a + b.drop_last());
        lemma_minted_concat(a, b.drop_last());
    }
}

/// The totals of the listed contracts.
spec fn totals_of(points: Map<AccountId, PointsView>, contracts: Seq<AccountId>) -> Seq<nat> {
    contracts.map_values(|contract: AccountId| points[contract].total as nat)
}

/// The totals are the parts of their sum.
proof fn lemma_totals_are_parts(points: Map<AccountId, PointsView>, contracts: Seq<AccountId>)
    ensures
        parts_sum(totals_of(points, contracts)) == totals_sum(points, contracts),
    decreases contracts.len(),
{
    if contracts.len() > 0 {
        lemma_totals_are_parts(points, contracts.drop_last());
        assert(totals_of(points, contracts).drop_last() =~= totals_of(points, contracts.drop_last()));
    }
}

/// While the totals of the contracts make up no more than a balance can hold, none is passed over.
pub proof fn law_all_totals_count(points: Map<AccountId, PointsView>, contracts: Seq<AccountId>)
    requires
        totals_sum(points, contracts) <= Balance::MAX,
    ensures
        staked_in_all(points, contracts) == totals_sum(points, contracts),
    decreases contracts.len(),
{
    if contracts.len() > 0 {
        law_all_totals_count(points, contracts.drop_last());
    }
}

/// The payments to operators are shares by the totals of their contracts.
proof fn lemma_operators_get_shares(
    points: Map<AccountId, PointsView>,
    contracts: Seq<AccountId>,
    staked: Balance,
    reward: Balance,
    operators: Map<AccountId, AccountId>,
)
    ensures
        minted(operator_payments(points, contracts, staked, reward, operators)) <= shares_sum(
            totals_of(points, contracts),
            staked as nat,
            reward as nat,
        ),
    decreases contracts.len(),
{
    if contracts.len() > 0 {
        let rest = contracts.drop_last();
        let contract = contracts.last();
        let amount = share(points[contract].total as nat, staked as nat, reward as nat);
        law_share_at_most_amount(points[contract].total as nat, staked as nat, reward as nat);
        lemma_operators_get_shares(points, rest, staked, reward, operators);
        let now = operator_payment(lookup(operators, contract), amount as Balance);
        lemma_minted_concat(operator_payments(points, rest, staked, reward, operators), now);
        reveal_with_fuel(minted, 2);
        assert(totals_of(points, contracts).drop_last() =~= totals_of(points, rest));
        assert(totals_of(points, contracts).last() == points[contract].total as nat);
    }
}

/// The operators of an era get no more than the part of the reward that is theirs, but for half a
/// unit each, by which a share can be rounded up.
pub proof fn law_operators_get_no_more_than_their_part(
    points: Map<AccountId, PointsView>,
    contracts: Seq<AccountId>,
    reward: Balance,
    operators: Map<AccountId, AccountId>,
)
    requires
        totals_sum(points, contracts) <= Balance::MAX,
    ensures
        2 * minted(
            operator_payments(
                points,
                contracts,
                staked_in_all(points, contracts),
                reward,
                operators,
            ),
        ) <= 2 * reward + contracts.len(),
{
    let staked = staked_in_all(points, contracts);
    law_all_totals_count(points, contracts);
    lemma_totals_are_parts(points, contracts);
    lemma_operators_get_shares(points, contracts, staked, reward, operators);
    law_shares_make_up_no_more_than_amount(
        totals_of(points, contracts),
        staked as nat,
        reward as nat,
    );
}

/// What the listed nominators have on the contracts is what the totals of the contracts add up to.
proof fn lemma_nominated_sum(
    points: Map<AccountId, PointsView>,
    contracts: Seq<AccountId>,
    names: Seq<AccountId>,
)
    requires
        names.no_duplicates(),
        forall|i: int| 0 <= i < contracts.len() ==> points[#[trigger] contracts[i]].wf(),
        forall|stash: AccountId| #[trigger] nominates(points, contracts, stash) ==> names.contains(stash),
    ensures
        sum_over(|stash: AccountId| nominated(points, contracts, stash), names) == totals_sum(
            points,
            contracts,
        ),
    decreases contracts.len(),
{
    let all = |stash: AccountId| nominated(points, contracts, stash);
    if contracts.len() == 0 {
        lemma_sum_nothing(all, names);
    } else {
        let rest = contracts.drop_last();
        let last = points[contracts[contracts.len() - 1]];
        assert forall|i: int| 0 <= i < rest.len() implies points[#[trigger] rest[i]].wf() by {
            assert(rest[i] == contracts[i]);
        }
        assert forall|stash: AccountId| #[trigger]
            nominates(points, rest, stash) implies names.contains(stash) by {
            let i = choose|i: int|
                0 <= i < rest.len() && points[#[trigger] rest[i]].individual.contains_key(stash);
            assert(rest[i] == contracts[i]);
            assert(nominates(points, contracts, stash));
        }
        lemma_nominated_sum(points, rest, names);
        let before = |stash: AccountId| nominated(points, rest, stash);
        lemma_sum_of_both(before, amount_at(last.individual), all, names);
        assert forall|a: AccountId| #[trigger] last.individual.contains_key(a) implies names.contains(a) by {
            assert(nominates(points, contracts, a));
        }
        lemma_map_sum_listing(last.individual, names);
    }
}

/// Nothing adds up to nothing.
proof fn lemma_sum_nothing(f: spec_fn(AccountId) -> nat, list: Seq<AccountId>)
    requires
        forall|a: AccountId| #[trigger] f(a) == 0,
    ensures
        sum_over(f, list) == 0,
    decreases list.len(),
{
    if list.len() > 0 {
        lemma_sum_nothing(f, list.drop_last());
    }
}

/// What is known of the nominators of sound points: they are listed once each, and what they have
/// on the contracts is what the totals add up to.
proof fn lemma_nominators(points: Map<AccountId, PointsView>, contracts: Seq<AccountId>)
    requires
        points_sound(points),
        contracts.to_set() == points.dom(),
    ensures
        ({
            let names = in_order(nominated_by_all(points, contracts).dom());
            &&& names.no_duplicates()
            &&& names.to_set() == nominated_by_all(points, contracts).dom()
            &&& sum_over(|stash: AccountId| nominated(points, contracts, stash), names)
                == totals_sum(points, contracts)
        }),
{
    assert forall|i: int| 0 <= i < contracts.len() implies points[#[trigger] contracts[i]].wf() by {
        assert(contracts.to_set().contains(contracts[i]));
        assert(points.contains_key(contracts[i]));
    }
    lemma_nominators_finite(points, contracts);
    let totals = nominated_by_all(points, contracts);
    let names = in_order(totals.dom());
    lemma_in_order(totals.dom());
    assert forall|stash: AccountId| #[trigger] nominates(points, contracts, stash) implies names.contains(
        stash,
    ) by {
        assert(totals.dom().contains(stash));
        assert(names.to_set().contains(stash));
    }
    lemma_nominated_sum(points, contracts, names);
}

/// While the totals of the contracts make up no more than a balance can hold, so does what each
/// nominator has on them.
pub proof fn law_nominators_have_no_more_than_all(
    points: Map<AccountId, PointsView>,
    contracts: Seq<AccountId>,
)
    requires
        points_sound(points),
        contracts.to_set() == points.dom(),
        totals_sum(points, contracts) <= Balance::MAX,
    ensures
        nominated_fits(points, contracts),
{
    let totals = nominated_by_all(points, contracts);
    let names = in_order(totals.dom());
    lemma_nominators(points, contracts);
    let all = |stash: AccountId| nominated(points, contracts, stash);
    assert forall|stash: AccountId| #[trigger] nominated(points, contracts, stash) <= Balance::MAX by {
        if nominates(points, contracts, stash) {
            assert(totals.dom().contains(stash));
            assert(names.to_set().contains(stash));
            let i = choose|i: int| 0 <= i < names.len() && names[i] == stash;
            lemma_sum_remove(all, names, i);
            assert(all(stash) == nominated(points, contracts, stash));
        } else {
            lemma_nominates_nothing(points, contracts, stash);
        }
    }
}

/// What the nominators have on all contracts of an era together is what is staked in all, while that
/// is an amount that a balance can hold.
pub proof fn law_nominators_have_all_that_is_staked(
    points: Map<AccountId, PointsView>,
    contracts: Seq<AccountId>,
)
    requires
        points_sound(points),
        contracts.to_set() == points.dom(),
        totals_sum(points, contracts) <= Balance::MAX,
    ensures
        map_sum(nominated_by_all(points, contracts)) == staked_in_all(points, contracts),
{
    let totals = nominated_by_all(points, contracts);
    let names = in_order(totals.dom());
    law_all_totals_count(points, contracts);
    law_nominators_have_no_more_than_all(points, contracts);
    lemma_nominators(points, contracts);
    let f = |stash: AccountId| nominated(points, contracts, stash);
    assert forall|i: int| 0 <= i < names.len() implies f(#[trigger] names[i]) == amount_at(totals)(
        names[i],
    ) by {
        assert(names.to_set().contains(names[i]));
        assert(totals.contains_key(names[i]));
        assert(nominated(points, contracts, names[i]) <= Balance::MAX);
    }
    lemma_sum_same(f, amount_at(totals), names);
}

/// What the dues amount to.
pub open spec fn dues_sum(dues: Seq<(AccountId, Balance)>) -> nat
    decreases dues.len(),
{
    if dues.len() == 0 {
        0
    } else {
        dues_sum(dues.drop_last()) + dues.last().1 as nat
    }
}

/// Dues are shares by what each nominator has staked.
proof fn lemma_dues_are_shares(
    totals: Map<AccountId, Balance>,
    names: Seq<AccountId>,
    staked: Balance,
    reward: Balance,
)
    ensures
        ({
            let parts = names.map_values(|stash: AccountId| totals[stash] as nat);
            let dues = names.map_values(
                |stash: AccountId|
                    (stash, share(totals[stash] as nat, staked as nat, reward as nat) as Balance),
            );
            &&& dues_sum(dues) == shares_sum(parts, staked as nat, reward as nat)
            &&& parts_sum(parts) == sum_over(|stash: AccountId| totals[stash] as nat, names)
        }),
    decreases names.len(),
{
    let parts = names.map_values(|stash: AccountId| totals[stash] as nat);
    let dues = names.map_values(
        |stash: AccountId|
            (stash, share(totals[stash] as nat, staked as nat, reward as nat) as Balance),
    );
    if names.len() > 0 {
        let rest = names.drop_last();
        lemma_dues_are_shares(totals, rest, staked, reward);
        law_share_at_most_amount(totals[names.last()] as nat, staked as nat, reward as nat);
        assert(parts.drop_last() =~= rest.map_values(|stash: AccountId| totals[stash] as nat));
        assert(dues.drop_last() =~= rest.map_values(
            |stash: AccountId|
                (stash, share(totals[stash] as nat, staked as nat, reward as nat) as Balance),
        ));
    }
}

/// The nominators of an era are owed no more than the part of the reward that is theirs, but for
/// half a unit each, by which a share can be rounded up.
pub proof fn law_nominators_are_owed_no_more_than_their_part(
    points: Map<AccountId, PointsView>,
    contracts: Seq<AccountId>,
    reward: Balance,
)
    requires
        points_sound(points),
        contracts.to_set() == points.dom(),
        totals_sum(points, contracts) <= Balance::MAX,
    ensures
        ({
            let dues = nominator_dues(
                nominated_by_all(points, contracts),
                staked_in_all(points, contracts),
                reward,
            );
            2 * dues_sum(dues) <= 2 * reward + dues.len()
        }),
{
    let totals = nominated_by_all(points, contracts);
    let staked = staked_in_all(points, contracts);
    let names = in_order(totals.dom());
    law_all_totals_count(points, contracts);
    law_nominators_have_no_more_than_all(points, contracts);
    lemma_nominators(points, contracts);
    let f = |stash: AccountId| nominated(points, contracts, stash);
    let g = |stash: AccountId| totals[stash] as nat;
    assert forall|i: int| 0 <= i < names.len() implies f(#[trigger] names[i]) == g(names[i]) by {
        assert(names.to_set().contains(names[i]));
        assert(totals.contains_key(names[i]));
        assert(nominated(points, contracts, names[i]) <= Balance::MAX);
    }
    lemma_sum_same(f, g, names);
    lemma_dues_are_shares(totals, names, staked, reward);
    let parts = names.map_values(|stash: AccountId| totals[stash] as nat);
    law_shares_make_up_no_more_than_amount(parts, staked as nat, reward as nat);
}

/// The payouts mint no more than what is owed.
proof fn lemma_payouts_mint_dues(state: State, dues: Seq<(AccountId, Balance)>)
    ensures
        minted(state.pay_all(dues).1) <= dues_sum(dues),
    decreases dues.len(),
{
    if dues.len() > 0 {
        lemma_payouts_mint_dues(state, dues.drop_last());
        let (before, paid) = state.pay_all(dues.drop_last());
        let (stash, amount) = dues.last();
        lemma_minted_concat(paid, before.make_payout(stash, amount).1);
        reveal_with_fuel(minted, 3);
    }
}

/// A nominator whose rewards are staked has what it is owed added to its stake, in the total too.
pub proof fn law_staked_rewards_are_added(state: State, dues: Seq<(AccountId, Balance)>, i: int)
    requires
        state.wf(),
        distinct_names(dues),
        state.payouts_fit(dues),
        0 <= i < dues.len(),
        state.bonded.contains_key(dues[i].0),
        state.payee_of(dues[i].0) == RewardDestination::Staked,
    ensures
        ({
            let (stash, amount) = dues[i];
            let before = state.ledger_of(stash)->0;
            let after = state.pay_all(dues).0.ledger_of(stash)->0;
            &&& state.pay_all(dues).0.ledger_of(stash) is Some
            &&& after.active == before.active + amount
            &&& after.total == before.total + amount
            &&& after.unlocking == before.unlocking
        }),
    decreases dues.len(),
{
    let rest = dues.drop_last();
    let last = dues.len() - 1;
    let (stash, amount) = dues[i];
    assert forall|a: int, b: int| 0 <= a < b < rest.len() implies (#[trigger] rest[a]).0 != (
    #[trigger] rest[b]).0 by {
        assert(rest[a] == dues[a] && rest[b] == dues[b]);
    }
    law_payouts_keep_state_sound(state, rest);
    let before = state.pay_all(rest).0;
    if i == last {
        assert forall|k: int| 0 <= k < rest.len() implies (#[trigger] rest[k]).0 != stash by {
            assert(rest[k] == dues[k]);
        }
        assert(same_stash(state, before, stash));
    } else {
        assert(rest[i] == dues[i]);
        law_staked_rewards_are_added(state, rest, i);
        assert(dues[i].0 != dues[last].0);
    }
}

/// What an era mints is no more than the operators' part and the nominators' part together, but
/// for half a unit for each contract and each nominator, by which a share can be rounded up.
pub proof fn law_rewards_mint_no_more_than_both_parts(
    state: State,
    era: EraIndex,
    operators_reward: Balance,
    nominators_reward: Balance,
    operators: Map<AccountId, AccountId>,
)
    requires
        state.wf(),
        totals_sum(state.points_in(era), in_order(state.points_in(era).dom())) <= Balance::MAX,
    ensures
        ({
            let actions = state.reward_for_dapps(
                era,
                operators_reward,
                nominators_reward,
                operators,
            ).1;
            2 * minted(actions) <= 2 * operators_reward + 2 * nominators_reward + in_order(
                state.points_in(era).dom(),
            ).len() + state.dues_in(era, nominators_reward).len()
        }),
{
    let points = state.points_in(era);
    let contracts = in_order(points.dom());
    let staked = staked_in_all(points, contracts);
    let dues = state.dues_in(era, nominators_reward);
    lemma_points_in_sound(state, era);
    lemma_in_order(points.dom());
    law_operators_get_no_more_than_their_part(points, contracts, operators_reward, operators);
    law_nominators_are_owed_no_more_than_their_part(points, contracts, nominators_reward);
    lemma_payouts_mint_dues(state, dues);
    lemma_minted_concat(
        operator_payments(points, contracts, staked, operators_reward, operators),
        state.pay_all(dues).1,
    );
}

/// What an era reports as paid, whichever deposits succeed, is no more than the operators' part and
/// the nominators' part together, but for half a unit for each contract and each nominator. Where
/// every deposit succeeds, it is what the payments ask for, as far as a balance can hold it.
pub proof fn law_settled_rewards_are_within_both_parts(
    state: State,
    era: EraIndex,
    operators_reward: Balance,
    nominators_reward: Balance,
    operators: Map<AccountId, AccountId>,
    deposits: Seq<Option<Balance>>,
)
    requires
        state.wf(),
        totals_sum(state.points_in(era), in_order(state.points_in(era).dom())) <= Balance::MAX,
        outcomes_of(
            state.reward_for_dapps(era, operators_reward, nominators_reward, operators).1,
            deposits,
        ),
    ensures
        ({
            let actions = state.reward_for_dapps(
                era,
                operators_reward,
                nominators_reward,
                operators,
            ).1;
            let total_payout = saturated(deposits_sum(deposits));
            &&& 2 * total_payout <= 2 * operators_reward + 2 * nominators_reward + in_order(
                state.points_in(era).dom(),
            ).len() + state.dues_in(era, nominators_reward).len()
            &&& all_made(actions, deposits) ==> total_payout == saturated(minted(actions))
        }),
{
    let actions = state.reward_for_dapps(era, operators_reward, nominators_reward, operators).1;
    law_deposits_are_what_was_asked_for(actions, deposits);
    law_rewards_mint_no_more_than_both_parts(
        state,
        era,
        operators_reward,
        nominators_reward,
        operators,
    );
}

} // verus!
