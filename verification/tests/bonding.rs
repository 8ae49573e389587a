//! Bonding, unbonding and withdrawing.
use dapps_staking::module::Module;
use dapps_staking::types::{
    Action, DispatchError, Environment, Error, Event, RewardDestination, StakingLedger, UnlockChunk,
    WithdrawReasons,
};

const STASH: u64 = 11;
const CONTROLLER: u64 = 10;

/// A staking lock: it holds against everything except the payment for transactions.
fn lock(account: u64, amount: u128) -> Action {
    Action::SetLock(
        account,
        amount,
        WithdrawReasons {
            transaction_payment: false,
            transfer: true,
            reserve: true,
            fee: true,
            tip: true,
        },
    )
}

fn env(current_era: Option<u32>) -> Environment {
    Environment { minimum_balance: 5, bonding_duration: 3, current_era }
}

/// A module in which the stash has bonded 1000.
fn bonded() -> Module {
    let mut module = Module::new();
    let outcome =
        module.bond(STASH, Some(CONTROLLER), 1000, RewardDestination::Stash, 2000, env(Some(2)));
    assert!(outcome.is_ok());
    module
}

#[test]
fn new_module_is_empty() {
    let module = Module::new();
    assert_eq!(module.untreated_era(), 0);
    assert_eq!(module.bonded(&STASH), None);
    assert_eq!(module.ledger(&CONTROLLER), None);
    assert_eq!(module.payee(&STASH), RewardDestination::Staked);
    assert_eq!(module.dapps_nominations(&STASH), None);
    assert_eq!(module.eras_total_stake(&0), 0);
    let points = module.eras_staking_points(&0, &STASH);
    assert_eq!(points.total, 0);
    assert!(points.individual.is_empty());
}

#[test]
fn bond_locks_and_pairs() {
    let mut module = Module::new();
    let outcome =
        module.bond(STASH, Some(CONTROLLER), 1000, RewardDestination::Stash, 2000, env(Some(2)));
    assert_eq!(
        outcome,
        Ok(vec![
            Action::IncRef(STASH),
            Action::DepositEvent(Event::Bonded(STASH, 1000)),
            lock(STASH, 1000),
        ])
    );
    assert_eq!(module.bonded(&STASH), Some(CONTROLLER));
    assert_eq!(module.payee(&STASH), RewardDestination::Stash);
    assert_eq!(
        module.ledger(&CONTROLLER),
        Some(StakingLedger {
            stash: STASH,
            total: 1000,
            active: 1000,
            unlocking: vec![],
            last_reward: Some(2),
        })
    );
}

#[test]
fn bond_takes_no_more_than_is_free() {
    let mut module = Module::new();
    let outcome =
        module.bond(STASH, Some(CONTROLLER), 1000, RewardDestination::Staked, 300, env(None));
    assert_eq!(
        outcome,
        Ok(vec![
            Action::IncRef(STASH),
            Action::DepositEvent(Event::Bonded(STASH, 300)),
            lock(STASH, 300),
        ])
    );
    let ledger = module.ledger(&CONTROLLER).unwrap();
    assert_eq!((ledger.total, ledger.active, ledger.last_reward), (300, 300, None));
}

#[test]
fn bond_of_minimum_balance_is_accepted() {
    let mut module = Module::new();
    assert!(module.bond(STASH, Some(CONTROLLER), 5, RewardDestination::Staked, 9, env(None)).is_ok());
}

#[test]
fn bond_refusals() {
    let mut module = bonded();
    assert_eq!(
        module.bond(STASH, Some(99), 1000, RewardDestination::Stash, 2000, env(None)),
        Err(DispatchError::Other("stash already bonded"))
    );
    // The stash is looked at before the address of the controller.
    assert_eq!(
        module.bond(STASH, None, 1000, RewardDestination::Stash, 2000, env(None)),
        Err(DispatchError::Other("stash already bonded"))
    );
    assert_eq!(
        module.bond(21, None, 1000, RewardDestination::Stash, 2000, env(None)),
        Err(DispatchError::CannotLookup)
    );
    assert_eq!(
        module.bond(21, Some(CONTROLLER), 1, RewardDestination::Stash, 2000, env(None)),
        Err(DispatchError::Other("controller already paired"))
    );
    assert_eq!(
        module.bond(21, Some(20), 4, RewardDestination::Stash, 2000, env(None)),
        Err(DispatchError::Other("can not bond with value less than minimum balance"))
    );
    assert_eq!(module.bonded(&21), None);
    assert_eq!(module.ledger(&20), None);
}

#[test]
fn bond_extra_adds_what_is_free() {
    let mut module = bonded();
    assert!(module.extra_fits(&STASH, 200, 2000));
    assert_eq!(
        module.bond_extra(STASH, 200, 2000),
        Ok(vec![
            Action::DepositEvent(Event::Bonded(STASH, 200)),
            lock(STASH, 1200),
        ])
    );
    // Only 800 more are free.
    assert_eq!(
        module.bond_extra(STASH, u128::MAX, 2000),
        Ok(vec![
            Action::DepositEvent(Event::Bonded(STASH, 800)),
            lock(STASH, 2000),
        ])
    );
    let ledger = module.ledger(&CONTROLLER).unwrap();
    assert_eq!((ledger.total, ledger.active), (2000, 2000));
    // Nothing is free: nothing is added, but the bond is reported and the lock is set anew.
    assert_eq!(
        module.bond_extra(STASH, 7, 2000),
        Ok(vec![Action::DepositEvent(Event::Bonded(STASH, 0)), lock(STASH, 2000)])
    );
    // Less is free than is bonded already.
    assert_eq!(module.bond_extra(STASH, 7, 1999), Ok(vec![]));
}

#[test]
fn bond_extra_refusals() {
    let mut module = bonded();
    assert_eq!(
        module.bond_extra(CONTROLLER, 1, 1),
        Err(DispatchError::Module(Error::NotStash))
    );
    module.ledger.clear();
    assert_eq!(
        module.bond_extra(STASH, 1, 1),
        Err(DispatchError::Module(Error::NotController))
    );
}

#[test]
fn extra_that_does_not_fit_is_seen() {
    let mut module = bonded();
    let mut ledger = module.ledger(&CONTROLLER).unwrap();
    ledger.active = u128::MAX;
    module.ledger.insert(CONTROLLER, ledger);
    assert!(!module.extra_fits(&STASH, 1, 2000));
    assert!(module.extra_fits(&STASH, 0, 2000));
    assert!(module.extra_fits(&99, 1, 2000));
}

#[test]
fn unbond_schedules_a_chunk() {
    let mut module = bonded();
    assert_eq!(
        module.unbond(CONTROLLER, 400, env(Some(2))),
        Ok(vec![
            Action::DepositEvent(Event::Unbonded(STASH, 400)),
            lock(STASH, 1000),
        ])
    );
    let ledger = module.ledger(&CONTROLLER).unwrap();
    assert_eq!((ledger.total, ledger.active), (1000, 600));
    assert_eq!(ledger.unlocking, vec![UnlockChunk { value: 400, era: 5 }]);
}

#[test]
fn unbond_before_the_first_era_counts_from_zero() {
    let mut module = bonded();
    assert!(module.unbond(CONTROLLER, 400, env(None)).is_ok());
    let ledger = module.ledger(&CONTROLLER).unwrap();
    assert_eq!(ledger.unlocking, vec![UnlockChunk { value: 400, era: 3 }]);
}

#[test]
fn unbond_leaves_no_dust() {
    let mut module = bonded();
    // 4 would stay, which is less than the minimum balance.
    assert_eq!(
        module.unbond(CONTROLLER, 996, env(Some(2))),
        Ok(vec![
            Action::DepositEvent(Event::Unbonded(STASH, 1000)),
            lock(STASH, 1000),
        ])
    );
    assert_eq!(module.ledger(&CONTROLLER).unwrap().active, 0);

    let mut module = bonded();
    // 5 stay, which is the minimum balance.
    assert!(module.unbond(CONTROLLER, 995, env(Some(2))).is_ok());
    assert_eq!(module.ledger(&CONTROLLER).unwrap().active, 5);
}

#[test]
fn unbond_takes_no_more_than_is_active() {
    let mut module = bonded();
    assert_eq!(
        module.unbond(CONTROLLER, 5000, env(Some(2))),
        Ok(vec![
            Action::DepositEvent(Event::Unbonded(STASH, 1000)),
            lock(STASH, 1000),
        ])
    );
    // Nothing is active any more.
    assert_eq!(module.unbond(CONTROLLER, 5000, env(Some(2))), Ok(vec![]));
    assert_eq!(module.ledger(&CONTROLLER).unwrap().unlocking.len(), 1);
}

#[test]
fn unbond_of_nothing_does_nothing() {
    let mut module = bonded();
    assert_eq!(module.unbond(CONTROLLER, 0, env(Some(2))), Ok(vec![]));
    assert_eq!(module.ledger(&CONTROLLER).unwrap().active, 1000);
}

#[test]
fn unbond_refusals() {
    let mut module = bonded();
    assert_eq!(
        module.unbond(STASH, 1, env(None)),
        Err(DispatchError::Module(Error::NotController))
    );
    for _ in 0..32 {
        assert!(module.unbond(CONTROLLER, 10, env(Some(2))).is_ok());
    }
    assert_eq!(
        module.unbond(CONTROLLER, 10, env(Some(2))),
        Err(DispatchError::Module(Error::NoMoreChunks))
    );
    // A withdrawal that frees chunks makes room again.
    assert!(module.withdraw_unbonded(CONTROLLER, env(Some(5))).is_ok());
    assert!(module.unbond(CONTROLLER, 10, env(Some(5))).is_ok());
}

#[test]
fn unbond_past_the_last_era_is_seen() {
    let module = bonded();
    assert!(module.unbond_fits(&CONTROLLER, 10, env(Some(u32::MAX - 3))));
    assert!(!module.unbond_fits(&CONTROLLER, 10, env(Some(u32::MAX - 2))));
    assert!(module.unbond_fits(&CONTROLLER, 0, env(Some(u32::MAX - 2))));
    assert!(module.unbond_fits(&STASH, 10, env(Some(u32::MAX - 2))));
}

#[test]
fn withdrawal_frees_only_what_is_due() {
    let mut module = bonded();
    assert!(module.unbond(CONTROLLER, 100, env(Some(2))).is_ok());
    assert!(module.unbond(CONTROLLER, 200, env(Some(3))).is_ok());
    // Nothing is due before era 5.
    assert_eq!(
        module.withdraw_unbonded(CONTROLLER, env(Some(4))),
        Ok(vec![lock(STASH, 1000)])
    );
    assert_eq!(
        module.withdraw_unbonded(CONTROLLER, env(None)),
        Ok(vec![lock(STASH, 1000)])
    );
    assert_eq!(
        module.withdraw_unbonded(CONTROLLER, env(Some(5))),
        Ok(vec![
            lock(STASH, 900),
            Action::DepositEvent(Event::Withdrawn(STASH, 100)),
        ])
    );
    let ledger = module.ledger(&CONTROLLER).unwrap();
    assert_eq!((ledger.total, ledger.active), (900, 700));
    assert_eq!(ledger.unlocking, vec![UnlockChunk { value: 200, era: 6 }]);
    // A second time in the same era there is nothing more.
    assert_eq!(
        module.withdraw_unbonded(CONTROLLER, env(Some(5))),
        Ok(vec![lock(STASH, 900)])
    );
    assert_eq!(module.ledger(&CONTROLLER), Some(ledger));
}

#[test]
fn last_withdrawal_forgets_the_stash() {
    let mut module = bonded();
    assert!(module.unbond(CONTROLLER, 1000, env(Some(2))).is_ok());
    assert_eq!(
        module.withdraw_unbonded(CONTROLLER, env(Some(5))),
        Ok(vec![
            Action::DecRef(STASH),
            Action::RemoveLock(STASH),
            Action::DepositEvent(Event::Withdrawn(STASH, 1000)),
        ])
    );
    assert_eq!(module.bonded(&STASH), None);
    assert_eq!(module.ledger(&CONTROLLER), None);
    assert!(module.payee.is_empty());
    assert_eq!(
        module.withdraw_unbonded(CONTROLLER, env(Some(5))),
        Err(DispatchError::Module(Error::NotController))
    );
    // The same pair can bond again.
    assert!(module
        .bond(STASH, Some(CONTROLLER), 50, RewardDestination::Staked, 60, env(Some(5)))
        .is_ok());
}

#[test]
fn empty_bond_is_forgotten_without_a_report() {
    let mut module = Module::new();
    assert!(module.bond(STASH, Some(CONTROLLER), 5, RewardDestination::Staked, 0, env(None)).is_ok());
    assert_eq!(
        module.withdraw_unbonded(CONTROLLER, env(Some(0))),
        Ok(vec![Action::DecRef(STASH), Action::RemoveLock(STASH)])
    );
}

#[test]
fn withdrawal_without_a_bond_is_refused() {
    let mut module = bonded();
    assert!(module.unbond(CONTROLLER, 1000, env(Some(2))).is_ok());
    module.bonded.clear();
    assert_eq!(
        module.withdraw_unbonded(CONTROLLER, env(Some(5))),
        Err(DispatchError::Module(Error::NotStash))
    );
    assert!(module.ledger(&CONTROLLER).is_some());
}

#[test]
fn consolidation_keeps_the_total_from_going_below_zero() {
    let ledger: StakingLedger<u64, u128> = StakingLedger {
        stash: STASH,
        total: 10,
        active: 0,
        unlocking: vec![
            UnlockChunk { value: 8, era: 1 },
            UnlockChunk { value: 3, era: 9 },
            UnlockChunk { value: 7, era: 2 },
        ],
        last_reward: Some(1),
    };
    let after = ledger.consolidate_unlocked(2);
    assert_eq!(
        after,
        StakingLedger {
            stash: STASH,
            total: 0,
            active: 0,
            unlocking: vec![UnlockChunk { value: 3, era: 9 }],
            last_reward: Some(1),
        }
    );
}
