//! The locks and references that the runtime holds for the module.
use dapps_staking::module::Module;
use dapps_staking::types::{
    Action, DispatchError, Environment, Error, NominationTarget, RewardDestination, StakingLedger,
    UnlockChunk, WithdrawReasons,
};
use std::collections::BTreeMap;

/// What the runtime holds: locks, and counts of references.
struct Held {
    locks: BTreeMap<u64, u128>,
    references: BTreeMap<u64, u32>,
}

impl Held {
    fn take(&mut self, actions: Vec<Action>) {
        for action in actions {
            match action {
                Action::IncRef(account) => *self.references.entry(account).or_insert(0) += 1,
                Action::DecRef(account) => {
                    let count = self.references[&account];
                    if count == 1 {
                        self.references.remove(&account);
                    } else {
                        self.references.insert(account, count - 1);
                    }
                }
                Action::SetLock(account, amount, reasons) => {
                    assert_eq!(reasons, WithdrawReasons::except_transaction_payment());
                    self.locks.insert(account, amount);
                }
                Action::RemoveLock(account) => {
                    self.locks.remove(&account);
                }
                Action::DepositIntoExisting(..) | Action::DepositEvent(_) => {}
            }
        }
    }

    /// Each bonded stash is locked for the total of its ledger, which adds up, and referred to
    /// once. No other account is.
    fn check(&self, module: &Module) {
        let mut locks = BTreeMap::new();
        let mut references = BTreeMap::new();
        for (stash, controller) in module.bonded.iter() {
            let ledger = module.ledger(controller).unwrap();
            assert_eq!(ledger.stash, *stash);
            let unlocking: u128 = ledger.unlocking.iter().map(|chunk| chunk.value).sum();
            assert_eq!(ledger.total, ledger.active + unlocking);
            locks.insert(*stash, ledger.total);
            references.insert(*stash, 1);
        }
        assert_eq!(self.locks, locks);
        assert_eq!(self.references, references);
        assert_eq!(module.ledger.len(), module.bonded.len());
        assert_eq!(module.payee.len(), module.bonded.len());
    }
}

fn env(current_era: Option<u32>) -> Environment {
    Environment { minimum_balance: 5, bonding_duration: 3, current_era }
}

#[test]
fn locks_and_references_follow_the_ledgers() {
    let mut module = Module::new();
    let mut held = Held { locks: BTreeMap::new(), references: BTreeMap::new() };
    held.check(&module);

    held.take(module.bond(11, Some(10), 1000, RewardDestination::Staked, 2000, env(None)).unwrap());
    held.check(&module);
    held.take(module.bond(21, Some(20), 500, RewardDestination::Stash, 300, env(None)).unwrap());
    held.check(&module);
    held.take(module.bond_extra(11, 70, 2000).unwrap());
    held.check(&module);
    held.take(module.unbond(10, 400, env(Some(1))).unwrap());
    held.check(&module);
    held.take(module.set_controller(11, Some(12)).unwrap());
    held.check(&module);
    let target = NominationTarget { contract: Some(70), operated: true, value: 600 };
    held.take(module.nominate_contracts(12, &vec![target], env(Some(1))).unwrap());
    held.check(&module);
    assert_eq!(module.compute(&1), 600);
    held.take(module.reward_for_dapps(&1, 10, 30, &BTreeMap::new()));
    held.check(&module);
    assert_eq!(held.locks[&11], 1100);
    held.take(module.withdraw_unbonded(12, env(Some(4))).unwrap());
    held.check(&module);
    held.take(module.unbond(20, 300, env(Some(1))).unwrap());
    held.check(&module);
    held.take(module.withdraw_unbonded(20, env(Some(4))).unwrap());
    held.check(&module);
    assert_eq!(held.locks, BTreeMap::from([(11, 700)]));
}

#[test]
fn staking_lock_spares_the_payment_for_transactions() {
    let reasons = WithdrawReasons::except_transaction_payment();
    assert!(!reasons.transaction_payment);
    assert!(reasons.transfer && reasons.reserve && reasons.fee && reasons.tip);
}

#[test]
fn later_ledger_replaces_the_earlier_one() {
    let mut module = Module::new();
    let mut held = Held { locks: BTreeMap::new(), references: BTreeMap::new() };
    held.take(module.bond(11, Some(10), 1000, RewardDestination::Staked, 2000, env(None)).unwrap());
    held.take(module.bond_extra(11, 70, 2000).unwrap());
    // The lock is for the later total, not for 1000 and 1070 together.
    assert_eq!(held.locks, BTreeMap::from([(11, 1070)]));
    assert_eq!(module.ledger(&10).unwrap().total, 1070);
    assert_eq!(module.ledger.len(), 1);
}

#[test]
fn second_ledger_update_replaces_the_first() {
    let ledger = |total: u128| StakingLedger {
        stash: 11u64,
        total,
        active: total,
        unlocking: vec![],
        last_reward: None,
    };
    let mut module = Module::new();
    let mut held = Held { locks: BTreeMap::new(), references: BTreeMap::new() };
    let lock = module.update_ledger(10, ledger(40));
    held.take(vec![lock]);
    let lock = module.update_ledger(10, ledger(25));
    assert_eq!(lock, Action::SetLock(11, 25, WithdrawReasons::except_transaction_payment()));
    held.take(vec![lock]);
    assert_eq!(module.ledger(&10), Some(ledger(25)));
    assert_eq!(held.locks, BTreeMap::from([(11, 25)]));
}

#[test]
fn second_removal_is_refused() {
    let mut module = Module::new();
    assert!(module.bond(11, Some(10), 50, RewardDestination::Stash, 50, env(None)).is_ok());
    assert_eq!(module.kill_stash(11), Ok(vec![Action::DecRef(11)]));
    assert_eq!(module.kill_stash(11), Err(DispatchError::Module(Error::NotStash)));
    assert_eq!(module.kill_stash(99), Err(DispatchError::Module(Error::NotStash)));
    assert!(module.bonded.is_empty() && module.ledger.is_empty() && module.payee.is_empty());
}

#[test]
fn removed_stash_earns_nothing() {
    let mut module = Module::new();
    assert!(module.bond(11, Some(10), 50, RewardDestination::Stash, 50, env(None)).is_ok());
    assert_eq!(module.make_payout(&11, 7), vec![Action::DepositIntoExisting(11, 7)]);
    assert!(module.kill_stash(11).is_ok());
    assert_eq!(module.payee(&11), RewardDestination::Staked);
    assert_eq!(module.make_payout(&11, 7), vec![]);
    assert!(module.ledger.is_empty());
}

#[test]
fn payouts_keep_ledgers_adding_up() {
    let payees =
        [RewardDestination::Staked, RewardDestination::Stash, RewardDestination::Controller];
    for payee in payees {
        let mut module = Module::new();
        assert!(module.bond(11, Some(10), 50, payee, 50, env(None)).is_ok());
        assert!(module.unbond(10, 20, env(Some(1))).is_ok());
        module.make_payout(&11, 7);
        let staked = if payee == RewardDestination::Staked { 7 } else { 0 };
        let ledger = module.ledger(&10).unwrap();
        assert_eq!((ledger.total, ledger.active), (50 + staked, 30 + staked));
        assert_eq!(ledger.unlocking, vec![UnlockChunk { value: 20, era: 4 }]);
        assert_eq!(module.ledger.len(), 1);
        assert_eq!(module.bonded(&11), Some(10));
        assert_eq!(module.payee(&11), payee);
    }
}

#[test]
fn chilled_stash_nominates_nothing() {
    let mut module = Module::new();
    assert!(module.bond(11, Some(10), 50, RewardDestination::Stash, 50, env(None)).is_ok());
    let target = NominationTarget { contract: Some(70), operated: true, value: 20 };
    assert!(module.nominate_contracts(10, &vec![target], env(None)).is_ok());
    assert_eq!(module.elected_operators(&1), 20);
    assert_eq!(module.elected_operators(&1), 20);
    assert_eq!(module.eras_staking_points(&1, &70).total, 20);
    module.chill_stash(11);
    assert_eq!(module.elected_operators(&2), 0);
    assert!(module.eras_staking_points[&2].is_empty());
}
