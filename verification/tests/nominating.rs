//! Nominations, payees, controllers and elections.
use dapps_staking::election::{staked_contracts, total_stake};
use dapps_staking::module::{considered_count, Module};
use dapps_staking::types::{
    Action, DispatchError, Environment, Error, Event, NominationTarget, Nominations,
    RewardDestination,
};
use std::collections::BTreeMap;

const STASH: u64 = 11;
const CONTROLLER: u64 = 10;

fn env(current_era: Option<u32>) -> Environment {
    Environment { minimum_balance: 5, bonding_duration: 3, current_era }
}

fn bonded() -> Module {
    let mut module = Module::new();
    add_pair(&mut module, STASH, CONTROLLER, 1000);
    module
}

fn add_pair(module: &mut Module, stash: u64, controller: u64, value: u128) {
    let outcome =
        module.bond(stash, Some(controller), value, RewardDestination::Stash, value, env(Some(2)));
    assert!(outcome.is_ok());
}

fn target(contract: u64, value: u128) -> NominationTarget {
    NominationTarget { contract: Some(contract), operated: true, value }
}

#[test]
fn nomination_is_recorded() {
    let mut module = bonded();
    assert_eq!(
        module.nominate_contracts(CONTROLLER, &vec![target(70, 400), target(71, 600)], env(Some(4))),
        Ok(vec![Action::DepositEvent(Event::Nominate(STASH))])
    );
    assert_eq!(
        module.dapps_nominations(&STASH),
        Some(&Nominations {
            targets: vec![(70, 400), (71, 600)],
            submitted_in: 4,
            suppressed: false,
        })
    );
    // A later nomination takes the place of the earlier one.
    assert!(module.nominate_contracts(CONTROLLER, &vec![target(72, 1)], env(None)).is_ok());
    assert_eq!(
        module.dapps_nominations(&STASH),
        Some(&Nominations { targets: vec![(72, 1)], submitted_in: 0, suppressed: false })
    );
}

#[test]
fn nomination_refusals() {
    let mut module = bonded();
    let unknown = NominationTarget { contract: None, operated: false, value: 1 };
    let idle = NominationTarget { contract: Some(80), operated: false, value: 1 };
    assert_eq!(
        module.nominate_contracts(STASH, &vec![target(70, 1)], env(None)),
        Err(DispatchError::Module(Error::NotController))
    );
    assert_eq!(
        module.nominate_contracts(CONTROLLER, &vec![], env(None)),
        Err(DispatchError::Module(Error::EmptyNominateTargets))
    );
    assert_eq!(
        module.nominate_contracts(CONTROLLER, &vec![idle, unknown], env(None)),
        Err(DispatchError::CannotLookup)
    );
    assert_eq!(
        module.nominate_contracts(CONTROLLER, &vec![target(70, 2000), idle], env(None)),
        Err(DispatchError::Module(Error::NotOperatedContracts))
    );
    assert_eq!(
        module.nominate_contracts(CONTROLLER, &vec![target(70, 400), target(71, 601)], env(None)),
        Err(DispatchError::Module(Error::NotEnoughStaking))
    );
    assert_eq!(
        module.nominate_contracts(
            CONTROLLER,
            &vec![target(70, u128::MAX), target(71, 2)],
            env(None)
        ),
        Err(DispatchError::Module(Error::NotEnoughStaking))
    );
    assert_eq!(module.dapps_nominations(&STASH), None);
}

#[test]
fn nomination_considers_the_first_targets_only() {
    let mut module = bonded();
    let mut targets: Vec<NominationTarget> = (0..128u64).map(|i| target(100 + i, 1)).collect();
    targets.push(NominationTarget { contract: None, operated: false, value: u128::MAX });
    assert!(module.nominate_contracts(CONTROLLER, &targets, env(None)).is_ok());
    let nominations = module.dapps_nominations(&STASH).unwrap();
    assert_eq!(nominations.targets.len(), 128);
    assert_eq!(nominations.targets[127], (227, 1));
}

#[test]
fn no_more_targets_than_the_limit_are_considered() {
    assert_eq!(considered_count(0), 0);
    assert_eq!(considered_count(128), 128);
    assert_eq!(considered_count(129), 128);
}

#[test]
fn chill_undoes_a_nomination() {
    let mut module = bonded();
    assert!(module.nominate_contracts(CONTROLLER, &vec![target(70, 400)], env(None)).is_ok());
    assert_eq!(module.chill(STASH), Err(DispatchError::Module(Error::NotController)));
    assert!(module.dapps_nominations(&STASH).is_some());
    assert_eq!(module.chill(CONTROLLER), Ok(vec![]));
    assert_eq!(module.dapps_nominations(&STASH), None);
    assert_eq!(module.chill(CONTROLLER), Ok(vec![]));
}

#[test]
fn payee_can_be_set() {
    let mut module = bonded();
    assert_eq!(
        module.set_payee(STASH, RewardDestination::Controller),
        Err(DispatchError::Module(Error::NotController))
    );
    assert_eq!(module.payee(&STASH), RewardDestination::Stash);
    assert_eq!(module.set_payee(CONTROLLER, RewardDestination::Controller), Ok(vec![]));
    assert_eq!(module.payee(&STASH), RewardDestination::Controller);
}

#[test]
fn controller_can_be_set_and_set_back() {
    let mut module = bonded();
    let ledger = module.ledger(&CONTROLLER);
    assert_eq!(module.set_controller(STASH, Some(30)), Ok(vec![]));
    assert_eq!(module.bonded(&STASH), Some(30));
    assert_eq!(module.ledger(&30), ledger);
    assert_eq!(module.ledger(&CONTROLLER), None);
    assert_eq!(module.set_controller(STASH, Some(CONTROLLER)), Ok(vec![]));
    assert_eq!(module.bonded(&STASH), Some(CONTROLLER));
    assert_eq!(module.ledger(&CONTROLLER), ledger);
    assert_eq!(module.ledger(&30), None);
}

#[test]
fn controller_refusals() {
    let mut module = bonded();
    add_pair(&mut module, 21, 20, 500);
    assert_eq!(
        module.set_controller(CONTROLLER, Some(30)),
        Err(DispatchError::Module(Error::NotStash))
    );
    assert_eq!(module.set_controller(STASH, None), Err(DispatchError::CannotLookup));
    assert_eq!(
        module.set_controller(STASH, Some(20)),
        Err(DispatchError::Other("controller already paired"))
    );
    // The controller that the stash has already is paired, too.
    assert_eq!(
        module.set_controller(STASH, Some(CONTROLLER)),
        Err(DispatchError::Other("controller already paired"))
    );
    assert_eq!(module.bonded(&STASH), Some(CONTROLLER));
}

#[test]
fn calls_of_one_stash_spare_another() {
    let mut module = bonded();
    add_pair(&mut module, 21, 20, 500);
    assert!(module.nominate_contracts(20, &vec![target(70, 400)], env(None)).is_ok());
    let ledger = module.ledger(&20);
    assert!(module.nominate_contracts(CONTROLLER, &vec![target(70, 1)], env(None)).is_ok());
    assert!(module.unbond(CONTROLLER, 1000, env(Some(2))).is_ok());
    assert!(module.set_payee(CONTROLLER, RewardDestination::Staked).is_ok());
    assert!(module.withdraw_unbonded(CONTROLLER, env(Some(5))).is_ok());
    assert_eq!(module.bonded(&21), Some(20));
    assert_eq!(module.ledger(&20), ledger);
    assert_eq!(module.payee(&21), RewardDestination::Stash);
    assert!(module.dapps_nominations(&21).is_some());
    assert_eq!(module.dapps_nominations(&STASH), None);
}

#[test]
fn election_records_the_nominations() {
    let mut module = bonded();
    add_pair(&mut module, 21, 20, 500);
    add_pair(&mut module, 31, 30, 500);
    assert!(module
        .nominate_contracts(CONTROLLER, &vec![target(70, 400), target(71, 600)], env(None))
        .is_ok());
    assert!(module.nominate_contracts(20, &vec![target(70, 100)], env(None)).is_ok());
    assert!(module.nominate_contracts(30, &vec![target(70, 500)], env(None)).is_ok());
    // A suppressed nomination does not count.
    module.dapps_nominations.get_mut(&31).unwrap().suppressed = true;
    assert!(module.election_fits());
    assert_eq!(module.compute(&8), 1100);
    assert_eq!(module.eras_total_stake(&8), 1100);
    let points = module.eras_staking_points(&8, &70);
    assert_eq!(points.total, 500);
    assert_eq!(points.individual, BTreeMap::from([(STASH, 400), (21, 100)]));
    let points = module.eras_staking_points(&8, &71);
    assert_eq!(points.total, 600);
    assert_eq!(points.individual, BTreeMap::from([(STASH, 600)]));
    assert_eq!(module.eras_staking_points(&8, &72).total, 0);
    // Other eras have no record.
    assert_eq!(module.eras_total_stake(&7), 0);
    assert_eq!(module.eras_staking_points(&7, &70).total, 0);
    // To elect again changes nothing.
    assert_eq!(module.compute(&8), 1100);
    assert_eq!(module.eras_staking_points(&8, &70).total, 500);
}

#[test]
fn election_feels_a_later_call_in_the_next_era_only() {
    let mut module = bonded();
    assert!(module.nominate_contracts(CONTROLLER, &vec![target(70, 400)], env(None)).is_ok());
    assert_eq!(module.compute(&8), 400);
    assert!(module.chill(CONTROLLER).is_ok());
    assert_eq!(module.eras_total_stake(&8), 400);
    assert_eq!(module.eras_staking_points(&8, &70).total, 400);
    assert_eq!(module.compute(&9), 0);
    assert_eq!(module.eras_staking_points(&9, &70).total, 0);
}

#[test]
fn election_adds_up_a_repeated_target() {
    let mut module = bonded();
    assert!(module
        .nominate_contracts(CONTROLLER, &vec![target(70, 10), target(70, 20)], env(None))
        .is_ok());
    assert_eq!(module.compute(&1), 30);
    let points = module.eras_staking_points(&1, &70);
    assert_eq!(points.total, 30);
    assert_eq!(points.individual, BTreeMap::from([(STASH, 30)]));
}

#[test]
fn election_that_does_not_fit_is_seen() {
    let mut nominations = BTreeMap::new();
    let all = |value: u128| Nominations {
        targets: vec![(70u64, value)],
        submitted_in: 0,
        suppressed: false,
    };
    nominations.insert(1u64, all(u128::MAX));
    nominations.insert(2u64, all(1));
    assert!(staked_contracts(&nominations, &vec![1, 2]).is_none());
    let one = staked_contracts(&nominations, &vec![2]).unwrap();
    assert_eq!(total_stake(&one), 1);

    let mut module = bonded();
    module.dapps_nominations = nominations;
    assert!(!module.election_fits());
}

#[test]
fn total_stake_stays_at_what_a_balance_can_hold() {
    let mut module = Module::new();
    let most = u128::MAX - 1;
    module.dapps_nominations.insert(
        1,
        Nominations { targets: vec![(70, most)], submitted_in: 0, suppressed: false },
    );
    module.dapps_nominations.insert(
        2,
        Nominations { targets: vec![(71, 5)], submitted_in: 0, suppressed: false },
    );
    assert!(module.election_fits());
    assert_eq!(module.compute(&1), u128::MAX);
    assert_eq!(module.eras_total_stake(&1), u128::MAX);
}

#[test]
fn nominations_can_be_walked_in_any_order() {
    let mut nominations = BTreeMap::new();
    for (stash, targets) in [
        (1u64, vec![(70u64, 5u128), (71, 6)]),
        (2, vec![(70, 7)]),
        (3, vec![(70, 8), (70, 9)]),
    ] {
        nominations.insert(stash, Nominations { targets, submitted_in: 0, suppressed: false });
    }
    for order in [vec![1, 2, 3], vec![3, 2, 1], vec![2, 3, 1]] {
        let points = staked_contracts(&nominations, &order).unwrap();
        assert_eq!(total_stake(&points), 35);
        assert_eq!(points[&70].total, 29);
        assert_eq!(points[&70].individual, BTreeMap::from([(1, 5), (2, 7), (3, 17)]));
        assert_eq!(points[&71].total, 6);
    }
}

#[test]
fn repeated_target_of_nothing_is_recorded_as_nothing() {
    let mut module = bonded();
    assert!(module
        .nominate_contracts(CONTROLLER, &vec![target(70, 0), target(71, 4), target(70, 0)], env(None))
        .is_ok());
    assert_eq!(module.compute(&1), 4);
    let points = module.eras_staking_points(&1, &70);
    assert_eq!(points.total, 0);
    assert_eq!(points.individual, BTreeMap::from([(STASH, 0)]));
}

#[test]
fn suppressed_nominations_count_for_nothing() {
    let mut with = bonded();
    add_pair(&mut with, 21, 20, 500);
    let mut without = bonded();
    add_pair(&mut without, 21, 20, 500);
    for module in [&mut with, &mut without] {
        assert!(module.nominate_contracts(CONTROLLER, &vec![target(70, 400)], env(None)).is_ok());
    }
    with.dapps_nominations.insert(
        21,
        Nominations { targets: vec![(70, 100), (71, 5)], submitted_in: 0, suppressed: true },
    );
    assert_eq!(with.compute(&1), 400);
    assert_eq!(without.compute(&1), 400);
    assert_eq!(with.eras_staking_points, without.eras_staking_points);
    assert_eq!(with.eras_total_stake, without.eras_total_stake);
}

#[test]
fn stash_that_left_has_no_points() {
    let mut module = bonded();
    add_pair(&mut module, 21, 20, 500);
    add_pair(&mut module, 31, 30, 500);
    let both = vec![target(70, 100), target(71, 100)];
    assert!(module.nominate_contracts(CONTROLLER, &both, env(None)).is_ok());
    assert!(module.nominate_contracts(20, &vec![target(70, 50)], env(None)).is_ok());
    assert!(module.nominate_contracts(30, &vec![target(72, 60)], env(None)).is_ok());
    assert!(module.chill(CONTROLLER).is_ok());
    assert!(module.unbond(30, 500, env(Some(2))).is_ok());
    assert!(module.withdraw_unbonded(30, env(Some(5))).is_ok());
    assert_eq!(module.compute(&6), 50);
    let points = &module.eras_staking_points[&6];
    assert_eq!(points.keys().collect::<Vec<_>>(), vec![&70]);
    assert_eq!(points[&70].individual, BTreeMap::from([(21, 50)]));
}
