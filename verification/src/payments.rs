//! What is paid to whom, deposit by deposit, for every state and every amount.
//!
//! Sums and lists are written out here as folds over what they are made of, so that each law can be
//! read by itself.
use crate::fairness::{dues_sum, minted};
use crate::order::{in_order, lemma_ascending_unique, lemma_in_order};
use crate::payout::{
    deposits_sum, nominated, nominated_by_all, nominated_fits, nominates,
    nominator_dues, operator_payment, operator_payments, payable, settled, staked_in_all,
};
use crate::share::share;
use crate::state::State;
use crate::types::{
    staking_reasons, AccountId, Action, Balance, EraIndex, Event, PointsView, RewardDestination,
};
use vstd::prelude::*;

verus! {

/// Where a payout to `stash` goes: to the stash, whatever its ledger holds, where its payee says so;
/// to its controller, where its payee says so and it is bonded; and to the stash, where its payee says
/// that it is staked, or nothing, and a ledger is there for it.
pub open spec fn paid_into(state: State, stash: AccountId) -> Option<AccountId> {
    let staked = !state.payee.contains_key(stash) || state.payee[stash] == RewardDestination::Staked;
    if staked {
        if state.bonded.contains_key(stash) && state.ledger.contains_key(state.bonded[stash]) {
            Some(stash)
        } else {
            None
        }
    } else if state.payee[stash] == RewardDestination::Stash {
        Some(stash)
    } else if state.bonded.contains_key(stash) {
        Some(state.bonded[stash])
    } else {
        None
    }
}

/// The deposits among the actions, in their order.
pub open spec fn deposits_in(actions: Seq<Action>) -> Seq<Action> {
    actions.filter(|action: Action| action is DepositIntoExisting)
}

/// A payout is one deposit of the full amount into the account that the payee of the stash says, or
/// none where there is no such account. Where the reward is staked, the ledger has the amount more in
/// the total and in what is active, the lock is for the new total, and nothing else changes. Else
/// nothing that is stored changes, and nothing is done but the deposit.
pub proof fn law_payout_is_one_deposit_in_full(state: State, stash: AccountId, amount: Balance)
    requires
        state.payout_fits(stash, amount),
    ensures
        ({
            let (after, actions) = state.make_payout(stash, amount);
            let staked = !state.payee.contains_key(stash) || state.payee[stash]
                == RewardDestination::Staked;
            let controller = state.bonded[stash];
            let before = state.ledger[controller];
            let ledger = after.ledger[controller];
            &&& paid_into(state, stash) is None ==> after == state && actions.len() == 0
            &&& paid_into(state, stash) is Some ==> actions.len() > 0 && actions[0]
                == Action::DepositIntoExisting(paid_into(state, stash)->0, amount)
            &&& paid_into(state, stash) is Some && !staked ==> after == state && actions.len() == 1
            &&& paid_into(state, stash) is Some && staked ==> {
                &&& after == (State { ledger: state.ledger.insert(controller, ledger), ..state })
                &&& ledger.total == before.total + amount
                &&& ledger.active == before.active + amount
                &&& ledger.stash == before.stash
                &&& ledger.unlocking == before.unlocking
                &&& ledger.last_reward == before.last_reward
                &&& actions.len() == 2
                &&& actions[1] == Action::SetLock(before.stash, ledger.total, staking_reasons())
            }
        }),
{
}

/// A payout fits, but where it is staked and the total or the active part with it would exceed what a
/// balance can hold.
pub proof fn law_payout_fits_unless_it_overflows(state: State, stash: AccountId, amount: Balance)
    ensures
        ({
            let staked = !state.payee.contains_key(stash) || state.payee[stash]
                == RewardDestination::Staked;
            let ledger = state.ledger[state.bonded[stash]];
            state.payout_fits(stash, amount) <==> (staked && paid_into(state, stash) is Some ==> {
                &&& ledger.total + amount <= Balance::MAX
                &&& ledger.active + amount <= Balance::MAX
            })
        }),
{
}

/// Payouts are made one by one, each in the state that those before it leave.
pub proof fn law_payouts_are_made_one_by_one(
    state: State,
    dues: Seq<(AccountId, Balance)>,
    stash: AccountId,
    amount: Balance,
)
    ensures
        state.pay_all(Seq::empty()) == (state, Seq::<Action>::empty()),
        state.payouts_fit(Seq::empty()),
        ({
            let (before, paid) = state.pay_all(dues);
            let (after, more) = before.make_payout(stash, amount);
            &&& state.pay_all(dues.push((stash, amount))) == (after, paid + more)
            &&& state.payouts_fit(dues.push((stash, amount))) <==> state.payouts_fit(dues)
                && before.payout_fits(stash, amount)
        }),
{
    assert(dues.push((stash, amount)).drop_last() =~= dues);
}

/// Payouts change neither bonds nor payees, and add or remove no ledger.
proof fn lemma_payouts_keep_accounts(state: State, dues: Seq<(AccountId, Balance)>)
    ensures
        state.pay_all(dues).0.bonded == state.bonded,
        state.pay_all(dues).0.payee == state.payee,
        state.pay_all(dues).0.ledger.dom() == state.ledger.dom(),
    decreases dues.len(),
{
    if dues.len() > 0 {
        let rest = dues.drop_last();
        lemma_payouts_keep_accounts(state, rest);
        let before = state.pay_all(rest).0;
        let after = state.pay_all(dues).0;
        assert(after.ledger.dom() =~= before.ledger.dom());
    }
}

/// Deposits in two goes are those of one.
proof fn lemma_deposits_concat(a: Seq<Action>, b: Seq<Action>)
    ensures
        deposits_in(a + b) == deposits_in(a) + deposits_in(b),
    decreases b.len(),
{
    reveal(Seq::filter);
    if b.len() == 0 {
        assert(a + b =~= a);
        assert(deposits_in(a) + deposits_in(b) =~= deposits_in(a));
    } else {
        assert((a + b).drop_last() =~= a + b.drop_last());
        lemma_deposits_concat(a, b.drop_last());
        assert(deposits_in(a + b) =~= deposits_in(a) + deposits_in(b));
    }
}

/// The deposit that is owed, if there is an account for it.
pub open spec fn owed_deposit(state: State) -> spec_fn((AccountId, Balance)) -> Option<Action> {
    |due: (AccountId, Balance)|
        match paid_into(state, due.0) {
            Some(account) => Some(Action::DepositIntoExisting(account, due.1)),
            None => None,
        }
}

/// The deposits of payouts are exactly those that are owed, each in full into the account that the
/// payee says, in the order of the dues.
pub proof fn law_payouts_deposit_what_is_owed(state: State, dues: Seq<(AccountId, Balance)>)
    ensures
        deposits_in(state.pay_all(dues).1) == dues.filter_map(owed_deposit(state)),
    decreases dues.len(),
{
    reveal(Seq::filter);
    if dues.len() == 0 {
        assert(deposits_in(state.pay_all(dues).1) =~= dues.filter_map(owed_deposit(state)));
    } else {
        let rest = dues.drop_last();
        let (stash, amount) = dues.last();
        law_payouts_deposit_what_is_owed(state, rest);
        lemma_payouts_keep_accounts(state, rest);
        let (before, paid) = state.pay_all(rest);
        assert(before.ledger.contains_key(state.bonded[stash]) == state.ledger.contains_key(
            state.bonded[stash],
        )) by {
            assert(before.ledger.dom().contains(state.bonded[stash]) == state.ledger.dom().contains(
                state.bonded[stash],
            ));
        }
        assert(paid_into(before, stash) == paid_into(state, stash));
        let more = before.make_payout(stash, amount).1;
        lemma_deposits_concat(paid, more);
        reveal_with_fuel(Seq::filter, 3);
        match paid_into(state, stash) {
            Some(account) => {
                assert(deposits_in(more) =~= seq![Action::DepositIntoExisting(account, amount)]);
            },
            None => {
                assert(deposits_in(more) =~= Seq::empty());
                assert(deposits_in(paid) + deposits_in(more) =~= deposits_in(paid));
            },
        }
    }
}

/// What the deposits among the actions amount to is what all of them mint.
proof fn lemma_deposits_mint(actions: Seq<Action>)
    ensures
        minted(deposits_in(actions)) == minted(actions),
    decreases actions.len(),
{
    reveal(Seq::filter);
    if actions.len() > 0 {
        let rest = actions.drop_last();
        lemma_deposits_mint(rest);
        if actions.last() is DepositIntoExisting {
            assert(deposits_in(actions).drop_last() =~= deposits_in(rest));
        }
    }
}

/// While every nominator is bonded, each of them gets one deposit of all that it is owed: into its
/// controller, where its payee says so, and else into the stash. What is minted is what is owed.
pub proof fn law_bonded_nominators_are_paid_in_full(state: State, dues: Seq<(AccountId, Balance)>)
    requires
        state.wf(),
        forall|i: int| 0 <= i < dues.len() ==> state.bonded.contains_key((#[trigger] dues[i]).0),
    ensures
        ({
            let deposits = deposits_in(state.pay_all(dues).1);
            &&& deposits.len() == dues.len()
            &&& forall|i: int|
                0 <= i < dues.len() ==> #[trigger] deposits[i] == Action::DepositIntoExisting(
                    if state.payee[dues[i].0] == RewardDestination::Controller {
                        state.bonded[dues[i].0]
                    } else {
                        dues[i].0
                    },
                    dues[i].1,
                )
            &&& minted(state.pay_all(dues).1) == dues_sum(dues)
        }),
    decreases dues.len(),
{
    law_payouts_deposit_what_is_owed(state, dues);
    lemma_deposits_mint(state.pay_all(dues).1);
    if dues.len() > 0 {
        let rest = dues.drop_last();
        assert forall|i: int| 0 <= i < rest.len() implies state.bonded.contains_key(
            (#[trigger] rest[i]).0,
        ) by {
            assert(rest[i] == dues[i]);
        }
        law_bonded_nominators_are_paid_in_full(state, rest);
        law_payouts_deposit_what_is_owed(state, rest);
        lemma_deposits_mint(state.pay_all(rest).1);
        let last = dues[dues.len() - 1];
        assert(state.bonded.contains_key(last.0));
        assert(state.payee.dom().contains(last.0));
        let deposit = Action::DepositIntoExisting(paid_into(state, last.0)->0, last.1);
        let all = deposits_in(state.pay_all(dues).1);
        let before = deposits_in(state.pay_all(rest).1);
        assert(all =~= before + seq![deposit]);
        assert(all.drop_last() =~= before);
        assert forall|i: int| 0 <= i < dues.len() implies #[trigger] all[i]
            == Action::DepositIntoExisting(
            if state.payee[dues[i].0] == RewardDestination::Controller {
                state.bonded[dues[i].0]
            } else {
                dues[i].0
            },
            dues[i].1,
        ) by {
            if i < rest.len() {
                assert(all[i] == before[i] && rest[i] == dues[i]);
            }
        }
    } else {
        assert(deposits_in(state.pay_all(dues).1).len() == 0);
    }
}

/// Adds what `stash` has on a contract.
pub open spec fn add_individual(
    points: Map<AccountId, PointsView>,
    stash: AccountId,
) -> spec_fn(int, AccountId) -> int {
    |sum: int, contract: AccountId|
        if points[contract].individual.contains_key(stash) {
            sum + points[contract].individual[stash]
        } else {
            sum
        }
}

/// Adds the total of a contract, unless the sum would then exceed what a balance can hold.
pub open spec fn add_total(points: Map<AccountId, PointsView>) -> spec_fn(int, AccountId) -> int {
    |sum: int, contract: AccountId|
        if sum + points[contract].total <= Balance::MAX {
            sum + points[contract].total
        } else {
            sum
        }
}

/// The payment to the operator of a contract, if it has one: the share of `reward` that the total of
/// the contract has in all that is staked.
pub open spec fn operator_deposit(
    points: Map<AccountId, PointsView>,
    staked: int,
    reward: Balance,
    operators: Map<AccountId, AccountId>,
) -> spec_fn(AccountId) -> Option<Action> {
    |contract: AccountId|
        if operators.contains_key(contract) {
            Some(
                Action::DepositIntoExisting(
                    operators[contract],
                    share(points[contract].total as nat, staked as nat, reward as nat) as Balance,
                ),
            )
        } else {
            None
        }
}

/// What is due to a nominator: the share of `reward` that what it has on the contracts has in all that
/// is staked.
pub open spec fn nominator_due(
    points: Map<AccountId, PointsView>,
    contracts: Seq<AccountId>,
    staked: int,
    reward: Balance,
) -> spec_fn(AccountId) -> (AccountId, Balance) {
    |stash: AccountId|
        (
            stash,
            share(
                contracts.fold_left(0int, add_individual(points, stash)) as nat,
                staked as nat,
                reward as nat,
            ) as Balance,
        )
}

/// All that is staked on listed contracts, contract by contract; what would exceed a balance is passed
/// over.
pub proof fn law_staked_is_counted_contract_by_contract(
    points: Map<AccountId, PointsView>,
    contracts: Seq<AccountId>,
)
    ensures
        staked_in_all(points, contracts) == contracts.fold_left(0int, add_total(points)),
    decreases contracts.len(),
{
    if contracts.len() > 0 {
        law_staked_is_counted_contract_by_contract(points, contracts.drop_last());
    }
}

/// What a nominator has on listed contracts, contract by contract. It is listed with that amount if
/// and only if it is among the nominators of one of them.
pub proof fn law_nominated_is_counted_contract_by_contract(
    points: Map<AccountId, PointsView>,
    contracts: Seq<AccountId>,
    stash: AccountId,
)
    ensures
        nominated(points, contracts, stash) == contracts.fold_left(0int, add_individual(points, stash)),
        nominated_by_all(points, contracts).contains_key(stash) <==> exists|i: int|
            0 <= i < contracts.len() && points[#[trigger] contracts[i]].individual.contains_key(stash),
        nominated_by_all(points, contracts).contains_key(stash) && nominated_fits(points, contracts)
            ==> nominated_by_all(points, contracts)[stash] == contracts.fold_left(
            0int,
            add_individual(points, stash),
        ),
        nominated_fits(points, contracts) ==> contracts.fold_left(0int, add_individual(points, stash))
            <= Balance::MAX,
        !nominated_fits(points, contracts) ==> exists|other: AccountId|
            #[trigger] contracts.fold_left(0int, add_individual(points, other)) > Balance::MAX,
    decreases contracts.len(),
{
    lemma_nominated_fold(points, contracts, stash);
    if nominated_fits(points, contracts) {
        assert(nominated(points, contracts, stash) <= Balance::MAX);
    } else {
        let other = choose|other: AccountId| nominated(points, contracts, other) > Balance::MAX;
        lemma_nominated_fold(points, contracts, other);
        assert(contracts.fold_left(0int, add_individual(points, other)) > Balance::MAX);
    }
}

/// What a nominator has, as a fold.
proof fn lemma_nominated_fold(
    points: Map<AccountId, PointsView>,
    contracts: Seq<AccountId>,
    stash: AccountId,
)
    ensures
        nominated(points, contracts, stash) == contracts.fold_left(0int, add_individual(points, stash)),
    decreases contracts.len(),
{
    if contracts.len() > 0 {
        lemma_nominated_fold(points, contracts.drop_last(), stash);
    }
}

/// Every listed contract that has an operator is paid for once, in the order of the listing, and no
/// other: one deposit into the operator, of the share that the total of the contract has in `staked`.
pub proof fn law_every_operator_is_paid(
    points: Map<AccountId, PointsView>,
    contracts: Seq<AccountId>,
    staked: Balance,
    reward: Balance,
    operators: Map<AccountId, AccountId>,
)
    ensures
        operator_payments(points, contracts, staked, reward, operators) == contracts.filter_map(
            operator_deposit(points, staked as int, reward, operators),
        ),
    decreases contracts.len(),
{
    let f = operator_deposit(points, staked as int, reward, operators);
    if contracts.len() == 0 {
        assert(contracts.filter_map(f) =~= Seq::empty());
    } else {
        let rest = contracts.drop_last();
        law_every_operator_is_paid(points, rest, staked, reward, operators);
        let before = operator_payments(points, rest, staked, reward, operators);
        assert(operator_payments(points, contracts, staked, reward, operators)
            =~= contracts.filter_map(f));
    }
}

/// A payment to an operator is one deposit of the amount into its account; without an operator there
/// is none.
pub proof fn law_operator_payment(operator: Option<AccountId>, amount: Balance)
    ensures
        operator is None ==> operator_payment(operator, amount).len() == 0,
        operator is Some ==> operator_payment(operator, amount) == seq![
            Action::DepositIntoExisting(operator->0, amount),
        ],
{
}

/// What nominators are owed, in the order of their accounts: each its share of `reward` by what it has
/// staked, and nobody twice or left out.
pub proof fn law_dues_follow_what_is_staked(
    totals: Map<AccountId, Balance>,
    names: Seq<AccountId>,
    staked: Balance,
    reward: Balance,
)
    requires
        forall|i: int, j: int| 0 <= i < j < names.len() ==> (#[trigger] names[i]) < (
        #[trigger] names[j]),
        forall|stash: AccountId| #[trigger] names.contains(stash) <==> totals.contains_key(stash),
    ensures
        ({
            let dues = nominator_dues(totals, staked, reward);
            &&& dues.len() == names.len()
            &&& forall|i: int|
                0 <= i < names.len() ==> {
                    &&& (#[trigger] dues[i]).0 == names[i]
                    &&& dues[i].1 == share(
                        totals[names[i]] as nat,
                        staked as nat,
                        reward as nat,
                    ) as Balance
                }
        }),
{
    lemma_order_of(totals.dom(), names);
}

/// A listing in ascending order that has the members of a set is the order of the set.
proof fn lemma_order_of(set: Set<AccountId>, list: Seq<AccountId>)
    requires
        forall|i: int, j: int| 0 <= i < j < list.len() ==> (#[trigger] list[i]) < (
        #[trigger] list[j]),
        forall|a: AccountId| #[trigger] list.contains(a) <==> set.contains(a),
    ensures
        in_order(set) == list,
{
    assert(list.to_set() =~= set) by {
        assert forall|a: AccountId| list.to_set().contains(a) <==> set.contains(a) by {
            assert(list.contains(a) <==> set.contains(a));
        }
    }
    lemma_in_order(set);
    lemma_ascending_unique(in_order(set), list);
}

/// The rewards of an era, in full. `contracts` are those that have points in the era and `names` are
/// their nominators, both in the order of their accounts. The operator of each contract gets the share
/// of the operators' reward that its contract has in all that is staked. Then each nominator is paid
/// the share of the nominators' reward that it has in all that is staked.
pub proof fn law_rewards_are_paid_by_stake(
    state: State,
    era: EraIndex,
    operators_reward: Balance,
    nominators_reward: Balance,
    operators: Map<AccountId, AccountId>,
    points: Map<AccountId, PointsView>,
    contracts: Seq<AccountId>,
    names: Seq<AccountId>,
)
    requires
        points == if state.staking_points.contains_key(era) {
            state.staking_points[era]
        } else {
            Map::<AccountId, PointsView>::empty()
        },
        forall|i: int, j: int| 0 <= i < j < contracts.len() ==> (#[trigger] contracts[i]) < (
        #[trigger] contracts[j]),
        forall|c: AccountId| #[trigger] contracts.contains(c) <==> points.contains_key(c),
        forall|i: int, j: int| 0 <= i < j < names.len() ==> (#[trigger] names[i]) < (
        #[trigger] names[j]),
        forall|stash: AccountId| #[trigger]
            names.contains(stash) <==> exists|i: int|
                0 <= i < contracts.len() && points[#[trigger] contracts[i]].individual.contains_key(
                    stash,
                ),
        forall|stash: AccountId| #[trigger]
            contracts.fold_left(0int, add_individual(points, stash)) <= Balance::MAX,
    ensures
        ({
            let (after, actions) = state.reward_for_dapps(
                era,
                operators_reward,
                nominators_reward,
                operators,
            );
            let staked = contracts.fold_left(0int, add_total(points));
            let dues = names.map_values(
                nominator_due(points, contracts, staked, nominators_reward),
            );
            let to_operators = contracts.filter_map(
                operator_deposit(points, staked, operators_reward, operators),
            );
            &&& after == state.pay_all(dues).0
            &&& actions == to_operators + state.pay_all(dues).1
            &&& state.rewards_fit(era, nominators_reward) <==> state.payouts_fit(dues)
        }),
{
    let staked = staked_in_all(points, contracts);
    lemma_order_of(points.dom(), contracts);
    law_staked_is_counted_contract_by_contract(points, contracts);
    law_every_operator_is_paid(points, contracts, staked, operators_reward, operators);
    let totals = nominated_by_all(points, contracts);
    assert forall|stash: AccountId| #[trigger] nominated(points, contracts, stash) <= Balance::MAX by {
        lemma_nominated_fold(points, contracts, stash);
        assert(contracts.fold_left(0int, add_individual(points, stash)) <= Balance::MAX);
    }
    assert forall|stash: AccountId| #[trigger] names.contains(stash) <==> totals.dom().contains(stash) by {
        assert(totals.contains_key(stash) <==> nominates(points, contracts, stash));
    }
    lemma_order_of(totals.dom(), names);
    let f = nominator_due(points, contracts, staked as int, nominators_reward);
    let dues = state.dues_in(era, nominators_reward);
    assert forall|i: int| 0 <= i < names.len() implies #[trigger] dues[i] == names.map_values(f)[i] by {
        assert(names.contains(names[i]));
        assert(totals.contains_key(names[i]));
        lemma_nominated_fold(points, contracts, names[i]);
        assert(nominated(points, contracts, names[i]) <= Balance::MAX);
    }
    assert(dues =~= names.map_values(f));
}

/// The rewards of an era can be paid, but where a nominator has more on its contracts than a balance
/// can hold, or a ledger cannot take what it is owed.
pub proof fn law_rewards_fit_unless_they_overflow(state: State, era: EraIndex, reward: Balance)
    ensures
        ({
            let points = state.points_in(era);
            let contracts = in_order(points.dom());
            state.rewards_fit(era, reward) <==> {
                &&& forall|stash: AccountId| #[trigger]
                    contracts.fold_left(0int, add_individual(points, stash)) <= Balance::MAX
                &&& state.payouts_fit(state.dues_in(era, reward))
            }
        }),
{
    let points = state.points_in(era);
    let contracts = in_order(points.dom());
    assert forall|stash: AccountId|
        #![trigger nominated(points, contracts, stash)]
        #![trigger contracts.fold_left(0int, add_individual(points, stash))]
        nominated(points, contracts, stash) == contracts.fold_left(0int, add_individual(points, stash)) by {
        lemma_nominated_fold(points, contracts, stash);
    }
}

/// The staking points of an era are those that were recorded for it, and none where none were.
pub proof fn law_points_of_an_era(state: State, era: EraIndex)
    ensures
        state.staking_points.contains_key(era) ==> state.points_in(era) == state.staking_points[era],
        !state.staking_points.contains_key(era) ==> state.points_in(era).dom() == Set::<
            AccountId,
        >::empty(),
{
    assert(Map::<AccountId, PointsView>::empty().dom() =~= Set::empty());
}

/// Adds what a deposit minted, if it was made.
pub open spec fn add_deposit() -> spec_fn(int, Option<Balance>) -> int {
    |sum: int, deposit: Option<Balance>|
        match deposit {
            Some(amount) => sum + amount,
            None => sum,
        }
}

/// What deposits minted, deposit by deposit.
pub proof fn law_deposits_are_counted_one_by_one(deposits: Seq<Option<Balance>>)
    ensures
        deposits_sum(deposits) == deposits.fold_left(0int, add_deposit()),
    decreases deposits.len(),
{
    if deposits.len() > 0 {
        law_deposits_are_counted_one_by_one(deposits.drop_last());
    }
}

/// The era to pay next is the first untreated one, if an active era is known and comes after it. To
/// close it makes the next one the first untreated, and changes nothing else.
pub proof fn law_eras_are_paid_before_the_active_one(state: State, active: Option<EraIndex>)
    ensures
        state.pending_era(active) is Some <==> active is Some && active->0 > state.untreated_era,
        state.pending_era(active) is Some ==> state.pending_era(active)->0 == state.untreated_era,
        state.untreated_era < EraIndex::MAX ==> state.era_closed() == (State {
            untreated_era: (state.untreated_era + 1) as EraIndex,
            ..state
        }),
{
}

/// To close an era reports the era that is closed with what was minted for it.
pub proof fn law_closing_reports_the_era(state: State, actual_rewarded: Balance)
    requires
        state.untreated_era < EraIndex::MAX,
    ensures
        ({
            let (after, report) = state.close_era(actual_rewarded);
            &&& after.untreated_era == state.untreated_era + 1
            &&& after == (State { untreated_era: after.untreated_era, ..state })
            &&& report == Action::DepositEvent(
                Event::TotalDappsRewards(state.untreated_era, actual_rewarded),
            )
        }),
{
}

/// An era may pay what was set for it, and nothing where nothing was.
pub proof fn law_era_pays_what_was_set(rewards: Option<Balance>)
    ensures
        rewards is Some ==> payable(rewards) == rewards->0,
        rewards is None ==> payable(rewards) == 0,
{
}

/// What an era reports as paid is what its deposits minted, as far as a balance can hold it. Paid and
/// rest together are what it may pay, and nothing is left where more was minted.
pub proof fn law_paid_and_rest_make_up_what_may_be_paid(
    max_payout: Balance,
    deposits: Seq<Option<Balance>>,
)
    ensures
        ({
            let end = settled(max_payout, deposits);
            let made = deposits.fold_left(0int, add_deposit());
            &&& made <= Balance::MAX ==> end.total_payout == made
            &&& made > Balance::MAX ==> end.total_payout == Balance::MAX
            &&& end.total_payout <= max_payout ==> end.total_payout + end.rest == max_payout
            &&& end.total_payout > max_payout ==> end.rest == 0
        }),
{
    law_deposits_are_counted_one_by_one(deposits);
}

/// What was recorded for an era can be read, and nothing where nothing was recorded.
pub proof fn law_records_of_an_era_can_be_read(state: State, era: EraIndex, contract: AccountId)
    ensures
        ({
            let recorded = state.staking_points.contains_key(era)
                && state.staking_points[era].contains_key(contract);
            let points = state.points_on(era, contract);
            &&& recorded ==> points == state.staking_points[era][contract]
            &&& !recorded ==> points.total == 0 && points.individual.dom() == Set::<
                AccountId,
            >::empty()
            &&& state.total_stake.contains_key(era) ==> state.total_in(era) == state.total_stake[era]
            &&& !state.total_stake.contains_key(era) ==> state.total_in(era) == 0
        }),
{
    assert(Map::<AccountId, Balance>::empty().dom() =~= Set::empty());
}

} // verus!
