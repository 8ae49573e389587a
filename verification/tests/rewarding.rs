//! Shares, payouts and the eras that they are paid for.
use dapps_staking::module::Module;
use dapps_staking::order::keys_in_order;
use dapps_staking::payout::{
    dues_of, max_payout, nominate_totals, reward_contract, reward_operators, settle, total_staked,
};
use dapps_staking::share::share_of;
use dapps_staking::types::{
    Action, Environment, EraStakingPoints, Event, NominationTarget, RewardDestination,
    WithdrawReasons,
};
use std::collections::BTreeMap;

/// A staking lock: it holds against everything except the payment for transactions.
fn lock(account: u64, amount: u128) -> Action {
    Action::SetLock(
        account,
        amount,
        WithdrawReasons {
            transaction_payment: false,
            transfer: true,
            reserve: true,
            fee: true,
            tip: true,
        },
    )
}

fn env(current_era: Option<u32>) -> Environment {
    Environment { minimum_balance: 5, bonding_duration: 3, current_era }
}

fn points(total: u128, individual: &[(u64, u128)]) -> EraStakingPoints<u64, u128> {
    EraStakingPoints { total, individual: individual.iter().cloned().collect() }
}

/// Three stashes (11, 21, 31) with controllers (10, 20, 30), whose rewards go to their stake, to
/// the stash and to the controller, and which back the contracts 70 and 71.
fn elected() -> Module {
    let mut module = Module::new();
    let pairs = [
        (11u64, 10u64, RewardDestination::Staked, vec![(70u64, 300u128), (71, 100)]),
        (21, 20, RewardDestination::Stash, vec![(70, 100)]),
        (31, 30, RewardDestination::Controller, vec![(71, 500)]),
    ];
    for (stash, controller, payee, targets) in pairs.iter() {
        assert!(module.bond(*stash, Some(*controller), 1000, *payee, 5000, env(Some(0))).is_ok());
        let targets: Vec<NominationTarget> = targets
            .iter()
            .map(|t| NominationTarget { contract: Some(t.0), operated: true, value: t.1 })
            .collect();
        assert!(module.nominate_contracts(*controller, &targets, env(Some(0))).is_ok());
    }
    assert_eq!(module.compute(&3), 1000);
    module
}

#[test]
fn shares_are_exact_where_they_can_be() {
    assert_eq!(share_of(1, 4, 1000), 250);
    assert_eq!(share_of(3, 4, 1000), 750);
    assert_eq!(share_of(0, 4, 1000), 0);
    assert_eq!(share_of(4, 4, 1000), 1000);
    assert_eq!(share_of(4, 4, u128::MAX), u128::MAX);
}

#[test]
fn share_counts_whole_billionths() {
    // A third is 333_333_333 billionths.
    assert_eq!(share_of(1, 3, 1_000_000_000), 333_333_333);
    assert_eq!(share_of(1, 3, 1_000_000_000_000), 333_333_333_000);
    assert_eq!(share_of(2, 3, 1_000_000_000_000), 666_666_666_000);
}

#[test]
fn share_is_rounded_to_the_nearest() {
    // An exact half is rounded down.
    assert_eq!(share_of(1, 2, 3), 1);
    assert_eq!(share_of(1, 2, 1), 0);
    // 2.25 and 2.75.
    assert_eq!(share_of(1, 4, 9), 2);
    assert_eq!(share_of(1, 4, 11), 3);
}

#[test]
fn share_of_more_than_the_whole_is_the_whole() {
    assert_eq!(share_of(7, 4, 1000), 1000);
    // Nothing counts as one.
    assert_eq!(share_of(5, 0, 1000), 1000);
    assert_eq!(share_of(0, 0, 1000), 0);
}

#[test]
fn share_of_large_amounts_loses_digits() {
    // The whole is over a billion, so both are divided by two first.
    assert_eq!(share_of(1, 2_000_000_000, 2_000_000_000), 0);
    assert_eq!(share_of(2, 2_000_000_000, 2_000_000_000), 2);
    assert_eq!(share_of(3, 2_000_000_000, 2_000_000_000), 2);
    assert_eq!(share_of(u128::MAX / 2, u128::MAX, 1_000_000_000), 499_999_999);
}

#[test]
fn shares_exceed_the_amount_by_rounding_only() {
    // Six sixths of 100, each 16.67, rounded up.
    let shares: u128 = (0..6).map(|_| share_of(1, 6, 100)).sum();
    assert_eq!(shares, 102);
    assert!(2 * shares <= 2 * 100 + 6);
}

#[test]
fn totals_that_do_not_fit_are_passed_over() {
    let mut all = BTreeMap::new();
    all.insert(70u64, points(u128::MAX - 5, &[]));
    all.insert(71, points(6, &[]));
    all.insert(72, points(5, &[]));
    assert_eq!(total_staked(&all, &vec![70, 71, 72]), u128::MAX);
    assert_eq!(total_staked(&all, &vec![71, 72, 70]), 11);
    assert_eq!(total_staked(&all, &vec![]), 0);
}

#[test]
fn keys_are_listed_in_order() {
    let map: BTreeMap<u64, u8> = BTreeMap::from([(9, 1), (2, 2), (5, 3)]);
    assert_eq!(keys_in_order(&map), vec![2, 5, 9]);
}

#[test]
fn operators_are_paid_by_their_contracts() {
    assert_eq!(reward_contract(Some(5), 40), Some(Action::DepositIntoExisting(5, 40)));
    assert_eq!(reward_contract(None, 40), None);

    let mut all = BTreeMap::new();
    all.insert(70u64, points(400, &[]));
    all.insert(71, points(600, &[]));
    let operators = BTreeMap::from([(70u64, 7u64)]);
    assert_eq!(
        reward_operators(&all, &vec![71, 70], 1000, 2000, &operators),
        vec![Action::DepositIntoExisting(7, 800)]
    );
    let operators = BTreeMap::from([(70u64, 7u64), (71, 8)]);
    assert_eq!(
        reward_operators(&all, &vec![71, 70], 1000, 2000, &operators),
        vec![Action::DepositIntoExisting(8, 1200), Action::DepositIntoExisting(7, 800)]
    );
}

#[test]
fn nominators_have_what_they_put_on_all_contracts() {
    let mut all = BTreeMap::new();
    all.insert(70u64, points(400, &[(11, 300), (21, 100)]));
    all.insert(71, points(600, &[(11, 100), (31, 500)]));
    let totals = nominate_totals(&all, &vec![70, 71]).unwrap();
    assert_eq!(totals, BTreeMap::from([(11, 400), (21, 100), (31, 500)]));
    assert_eq!(dues_of(&totals, 1000, 50), vec![(11, 20), (21, 5), (31, 25)]);
    assert_eq!(nominate_totals(&all, &vec![70]).unwrap(), BTreeMap::from([(11, 300), (21, 100)]));

    all.insert(72, points(u128::MAX, &[(11, u128::MAX)]));
    assert!(nominate_totals(&all, &vec![70, 72]).is_none());
}

#[test]
fn rewards_go_where_the_payee_says() {
    let mut module = elected();
    let operators = BTreeMap::from([(70u64, 7u64), (71, 8)]);
    assert!(module.rewards_fit(&3, 50));
    let actions = module.reward_for_dapps(&3, 100, 50, &operators);
    assert_eq!(
        actions,
        vec![
            Action::DepositIntoExisting(7, 40),
            Action::DepositIntoExisting(8, 60),
            Action::DepositIntoExisting(11, 20),
            lock(11, 1020),
            Action::DepositIntoExisting(21, 5),
            Action::DepositIntoExisting(30, 25),
        ]
    );
    // Only the staked reward shows in a ledger.
    let ledger = module.ledger(&10).unwrap();
    assert_eq!((ledger.total, ledger.active), (1020, 1020));
    assert_eq!(module.ledger(&20).unwrap().total, 1000);
    assert_eq!(module.ledger(&30).unwrap().total, 1000);
}

#[test]
fn rewards_of_a_stash_that_has_gone() {
    let mut module = elected();
    for controller in [10u64, 20, 30].iter() {
        assert!(module.unbond(*controller, 1000, env(Some(3))).is_ok());
        assert!(module.withdraw_unbonded(*controller, env(Some(6))).is_ok());
    }
    // Without a payee the reward is to be staked, and there is no ledger for it.
    assert_eq!(module.reward_for_dapps(&3, 100, 50, &BTreeMap::new()), vec![]);
}

#[test]
fn rewards_of_an_era_without_points() {
    let mut module = elected();
    assert!(module.rewards_fit(&9, 50));
    assert_eq!(module.reward_for_dapps(&9, 100, 50, &BTreeMap::from([(70u64, 7u64)])), vec![]);
}

#[test]
fn rewards_that_do_not_fit_are_seen() {
    let mut module = elected();
    let mut ledger = module.ledger(&10).unwrap();
    ledger.total = u128::MAX - 19;
    module.ledger.insert(10, ledger);
    assert!(!module.rewards_fit(&3, 50));
    assert!(module.rewards_fit(&3, 40));
}

#[test]
fn rewards_of_two_stashes_with_one_ledger_are_counted_together() {
    let mut module = elected();
    // The second stash is made to share the controller of the first.
    module.bonded.insert(21, 10);
    module.payee.insert(21, RewardDestination::Staked);
    let mut ledger = module.ledger(&10).unwrap();
    ledger.total = u128::MAX - 24;
    module.ledger.insert(10, ledger);
    assert!(!module.rewards_fit(&3, 50));
    let mut ledger = module.ledger(&10).unwrap();
    ledger.total = u128::MAX - 25;
    module.ledger.insert(10, ledger);
    assert!(module.rewards_fit(&3, 50));
}

#[test]
fn settlement_leaves_the_rest() {
    let settled = settle(100, &vec![Some(40), None, Some(50)]);
    assert_eq!((settled.total_payout, settled.rest), (90, 10));
    let settled = settle(100, &vec![Some(60), Some(41)]);
    assert_eq!((settled.total_payout, settled.rest), (101, 0));
    let settled = settle(100, &vec![]);
    assert_eq!((settled.total_payout, settled.rest), (0, 100));
    let settled = settle(100, &vec![Some(u128::MAX), Some(1)]);
    assert_eq!((settled.total_payout, settled.rest), (u128::MAX, 0));
}

#[test]
fn an_era_without_rewards_pays_nothing() {
    assert_eq!(max_payout(Some(70)), 70);
    assert_eq!(max_payout(None), 0);
}

#[test]
fn eras_are_treated_in_turn() {
    let mut module = Module::new();
    assert_eq!(module.pending_era(None), None);
    assert_eq!(module.pending_era(Some(0)), None);
    let mut treated = Vec::new();
    while let Some(era) = module.pending_era(Some(3)) {
        treated.push(era);
        assert_eq!(
            module.close_era(17),
            Action::DepositEvent(Event::TotalDappsRewards(era, 17))
        );
    }
    assert_eq!(treated, vec![0, 1, 2]);
    assert_eq!(module.untreated_era(), 3);
    assert_eq!(module.pending_era(Some(3)), None);
    assert_eq!(module.pending_era(Some(4)), Some(3));
}

#[test]
fn an_era_mints_no_more_than_both_parts_but_for_rounding() {
    let mut module = elected();
    let operators = BTreeMap::from([(70u64, 7u64), (71, 8)]);
    let actions = module.reward_for_dapps(&3, 101, 57, &operators);
    let minted: u128 = actions
        .iter()
        .map(|action| match action {
            Action::DepositIntoExisting(_, amount) => *amount,
            _ => 0,
        })
        .sum();
    // 40.4 and 60.6 for two operators; 22.8, 5.7 and 28.5 for three nominators.
    assert_eq!(minted, 40 + 61 + 23 + 6 + 28);
    assert!(2 * minted <= 2 * (101 + 57) + 2 + 3);
}

#[test]
fn contracts_can_be_walked_in_any_order() {
    let mut all = BTreeMap::new();
    all.insert(70u64, points(400, &[(11, 300), (21, 100)]));
    all.insert(71, points(600, &[(11, 100), (31, 500)]));
    all.insert(72, points(5, &[(21, 5)]));
    for order in [vec![70, 71, 72], vec![72, 70, 71], vec![71, 72, 70]].iter() {
        assert_eq!(total_staked(&all, order), 1005);
        assert_eq!(
            nominate_totals(&all, order).unwrap(),
            BTreeMap::from([(11, 400), (21, 105), (31, 500)])
        );
    }
}

#[test]
fn nominator_is_paid_for_a_repeated_target_in_full() {
    let mut module = Module::new();
    for (stash, controller) in [(11u64, 10u64), (21, 20)] {
        assert!(module
            .bond(stash, Some(controller), 1000, RewardDestination::Stash, 1000, env(None))
            .is_ok());
    }
    let twice = |value: u128| NominationTarget { contract: Some(70), operated: true, value };
    assert!(module.nominate_contracts(10, &vec![twice(10), twice(20)], env(None)).is_ok());
    assert!(module.nominate_contracts(20, &vec![twice(30)], env(None)).is_ok());
    assert_eq!(module.compute(&1), 60);
    assert_eq!(
        module.reward_for_dapps(&1, 0, 100, &BTreeMap::new()),
        vec![Action::DepositIntoExisting(11, 50), Action::DepositIntoExisting(21, 50)]
    );
}

#[test]
fn settlement_counts_the_deposits_that_were_made() {
    let asked = |action: &Action| match action {
        Action::DepositIntoExisting(_, amount) => Some(*amount),
        _ => None,
    };
    let mut module = elected();
    let operators = BTreeMap::from([(70u64, 7u64), (71, 8)]);
    let actions = module.reward_for_dapps(&3, 100, 50, &operators);
    let all: Vec<Option<u128>> = actions.iter().map(asked).collect();
    assert_eq!(settle(200, &all).total_payout, 150);
    // The deposit to the second operator fails.
    let some: Vec<Option<u128>> = actions
        .iter()
        .map(|action| match action {
            Action::DepositIntoExisting(8, _) => None,
            other => asked(other),
        })
        .collect();
    let settled = settle(200, &some);
    assert_eq!((settled.total_payout, settled.rest), (90, 110));
}
