//! The staking module itself.
use crate::calls::{law_calls_keep_state_sound, Call};
use crate::election::{
    lemma_totals_are_stakes, nominations_view, points_view, saturated, staked_contracts, total_stake,
};
use crate::order::{ascending, keys_in_order, lemma_in_order};
use crate::payout::{
    all_known, dues_of, lookup, nominate_totals, reward_operators, total_staked,
};
use crate::soundness::{
    law_closing_keeps_state_sound, law_election_keeps_state_sound, law_leaving_keeps_state_sound,
    law_payout_keeps_state_sound, law_rewards_keep_state_sound,
};
use crate::state::{considered, values_sum, Outcome, State};
use crate::types::{
    AccountId, Action, Balance, DispatchError, Environment, EraIndex, EraStakingPoints, Error, Event,
    NominationTarget, Nominations, PointsView, RewardDestination, StakingLedger, UnlockChunk,
    WithdrawReason, WithdrawReasons, MAX_NOMINATIONS, MAX_UNLOCKING_CHUNKS,
};
use std::collections::BTreeMap;
use vstd::prelude::*;

verus! {

/// What the staking module stores, and the calls that change it.
///
/// A call that the runtime has to do something for returns the steps to take, in their order.
pub struct Module {
    /// The first era whose rewards have not been paid.
    pub untreated_era: EraIndex,
    /// From each bonded stash to its controller.
    pub bonded: BTreeMap<AccountId, AccountId>,
    /// From each controller to the ledger of its stash.
    pub ledger: BTreeMap<AccountId, StakingLedger<AccountId, Balance>>,
    /// Where the rewards of a stash go.
    pub payee: BTreeMap<AccountId, RewardDestination>,
    /// What each nominating stash nominates.
    pub dapps_nominations: BTreeMap<AccountId, Nominations<AccountId, Balance>>,
    /// The staking points of each era, by contract.
    pub eras_staking_points: BTreeMap<
        EraIndex,
        BTreeMap<AccountId, EraStakingPoints<AccountId, Balance>>,
    >,
    /// All that was staked in each era.
    pub eras_total_stake: BTreeMap<EraIndex, Balance>,
}

impl View for Module {
    type V = State;

    open spec fn view(&self) -> State {
        State {
            untreated_era: self.untreated_era,
            bonded: self.bonded@,
            ledger: self.ledger@.map_values(|l: StakingLedger<AccountId, Balance>| l@),
            payee: self.payee@,
            nominations: nominations_view(self.dapps_nominations@),
            staking_points: self.eras_staking_points@.map_values(
                |m: BTreeMap<AccountId, EraStakingPoints<AccountId, Balance>>| points_view(m@),
            ),
            total_stake: self.eras_total_stake@,
        }
    }
}

/// A call from `before` to `after` that gave `r` did what `outcome` says. A refused call changes
/// nothing.
pub open spec fn follows(
    before: State,
    after: State,
    r: Result<Vec<Action>, DispatchError>,
    outcome: Outcome,
) -> bool {
    match outcome {
        Ok((state, actions)) => after == state && r is Ok && r->Ok_0@ == actions,
        Err(refusal) => after == before && r is Err && r->Err_0 == refusal,
    }
}

impl Module {
    /// A module that nothing has happened to.
    pub fn new() -> (r: Module)
        ensures
            r@ == State::genesis(),
            r@.wf(),
    {
        let r = Module {
            untreated_era: 0,
            bonded: BTreeMap::new(),
            ledger: BTreeMap::new(),
            payee: BTreeMap::new(),
            dapps_nominations: BTreeMap::new(),
            eras_staking_points: BTreeMap::new(),
            eras_total_stake: BTreeMap::new(),
        };
        assert(r@ =~= State::genesis());
        assert(r@.payee.dom() =~= r@.bonded.dom());
        r
    }

    /// The ledger of the stash that `controller` controls.
    pub fn ledger(&self, controller: &AccountId) -> (r: Option<StakingLedger<AccountId, Balance>>)
        ensures
            match r {
                Some(ledger) => lookup(self@.ledger, *controller) == Some(ledger@),
                None => lookup(self@.ledger, *controller) is None,
            },
    {
        match self.ledger.get(controller) {
            Some(ledger) => Some(copy_ledger(ledger)),
            None => None,
        }
    }

    /// The controller of a bonded stash.
    pub fn bonded(&self, stash: &AccountId) -> (r: Option<AccountId>)
        ensures
            r == lookup(self@.bonded, *stash),
    {
        match self.bonded.get(stash) {
            Some(controller) => Some(*controller),
            None => None,
        }
    }

    /// Where the rewards of `stash` go; to its stake where nothing else was set.
    pub fn payee(&self, stash: &AccountId) -> (r: RewardDestination)
        ensures
            r == self@.payee_of(*stash),
    {
        match self.payee.get(stash) {
            Some(payee) => *payee,
            None => RewardDestination::Staked,
        }
    }

    /// The first era whose rewards have not been paid.
    pub fn untreated_era(&self) -> (r: EraIndex)
        ensures
            r == self@.untreated_era,
    {
        self.untreated_era
    }

    /// What `stash` nominates.
    pub fn dapps_nominations(&self, stash: &AccountId) -> (r: Option<&Nominations<AccountId, Balance>>)
        ensures
            match r {
                Some(nominations) => lookup(self@.nominations, *stash) == Some(nominations@),
                None => lookup(self@.nominations, *stash) is None,
            },
    {
        self.dapps_nominations.get(stash)
    }

    /// The staking points of `contract` in `era`; nothing where nothing was recorded.
    pub fn eras_staking_points(&self, era: &EraIndex, contract: &AccountId) -> (r: EraStakingPoints<
        AccountId,
        Balance,
    >)
        ensures
            r@ == self@.points_on(*era, *contract),
            r@ == match lookup(self@.points_in(*era), *contract) {
                Some(points) => points,
                None => PointsView { total: 0, individual: Map::empty() },
            },
    {
        if let Some(all) = self.eras_staking_points.get(era) {
            if let Some(points) = all.get(contract) {
                return EraStakingPoints {
                    total: points.total,
                    individual: points.individual.clone(),
                };
            }
        }
        EraStakingPoints { total: 0, individual: BTreeMap::new() }
    }

    /// All that was staked in `era`; nothing where nothing was recorded.
    pub fn eras_total_stake(&self, era: &EraIndex) -> (r: Balance)
        ensures
            r == self@.total_in(*era),
            r == if self@.total_stake.contains_key(*era) {
                self@.total_stake[*era]
            } else {
                0
            },
    {
        match self.eras_total_stake.get(era) {
            Some(total) => *total,
            None => 0,
        }
    }

    /// Update the ledger for a controller. This also updates the lock of the stash: the lock holds
    /// the entire funds except for paying for further transactions.
    pub fn update_ledger(&mut self, controller: AccountId, ledger: StakingLedger<AccountId, Balance>) -> (r:
        Action)
        ensures
            (final(self)@, r) == old(self)@.update_ledger(controller, ledger@),
            r matches Action::SetLock(stash, amount, reasons) && {
                &&& stash == ledger.stash
                &&& amount == ledger.total
                &&& forall|reason: WithdrawReason| #[trigger]
                    reasons.holds_against(reason) <==> reason != WithdrawReason::TransactionPayment
            },
    {
        let lock = Action::SetLock(
            ledger.stash,
            ledger.total,
            WithdrawReasons::except_transaction_payment(),
        );
        self.ledger.insert(controller, ledger);
        assert(self@ =~= old(self)@.with_ledger(controller, ledger@));
        lock
    }

    /// Take `stash` as a stash and lock up `value` of its balance, or all of its free balance where
    /// that is less. `controller` will be the account that controls it; it is `None` where the
    /// address that was given for it stands for no account.
    ///
    /// A bond of less than the minimum balance is refused.
    pub fn bond(
        &mut self,
        stash: AccountId,
        controller: Option<AccountId>,
        value: Balance,
        payee: RewardDestination,
        free_balance: Balance,
        env: Environment,
    ) -> (r: Result<Vec<Action>, DispatchError>)
        ensures
            follows(
                old(self)@,
                final(self)@,
                r,
                old(self)@.bond(stash, controller, value, payee, free_balance, env),
            ),
            old(self)@.wf() ==> final(self)@.wf(),
    {
        proof {
            if old(self)@.wf() {
                law_calls_keep_state_sound(
                    old(self)@,
                    Call::Bond { stash, controller, value, payee, free_balance, env },
                );
            }
        }
        if self.bonded.contains_key(&stash) {
            return Err(DispatchError::Other("stash already bonded"));
        }
        let paired: AccountId = match controller {
            Some(account) => account,
            None => {
                return Err(DispatchError::CannotLookup);
            },
        };
        assert(self@.ledger.dom() =~= self.ledger@.dom());
        if self.ledger.contains_key(&paired) {
            return Err(DispatchError::Other("controller already paired"));
        }
        // A bond that is dust is rejected.
        if value < env.minimum_balance {
            return Err(DispatchError::Other("can not bond with value less than minimum balance"));
        }
        self.bonded.insert(stash, paired);
        self.payee.insert(stash, payee);
        let amount: Balance = if value <= free_balance { value } else { free_balance };
        let mut actions: Vec<Action> = Vec::new();
        actions.push(Action::IncRef(stash));
        actions.push(Action::DepositEvent(Event::Bonded(stash, amount)));
        let item = StakingLedger {
            stash,
            total: amount,
            active: amount,
            unlocking: Vec::new(),
            last_reward: env.current_era,
        };
        let lock = self.update_ledger(paired, item);
        actions.push(lock);
        proof {
            let next = old(self)@.bond(stash, controller, value, payee, free_balance, env)->Ok_0;
            assert(self@ =~= next.0);
            assert(actions@ =~= next.1);
        }
        Ok(actions)
    }

    /// Whether a ledger can take what `bond_extra` would add to it.
    pub fn extra_fits(&self, stash: &AccountId, max_additional: Balance, free_balance: Balance) -> (r:
        bool)
        ensures
            r == self@.extra_fits(*stash, max_additional, free_balance),
    {
        if let Some(controller) = self.bonded(stash) {
            if let Some(ledger) = self.ledger(&controller) {
                if free_balance >= ledger.total {
                    let free: Balance = free_balance - ledger.total;
                    let extra: Balance = if free <= max_additional { free } else { max_additional };
                    return ledger.active <= Balance::MAX - extra;
                }
            }
        }
        true
    }

    /// Add some extra amount that has appeared in the free balance of the stash to what is staked.
    ///
    /// Apart from `max_additional` there is no limit on the amount that can be added.
    pub fn bond_extra(&mut self, stash: AccountId, max_additional: Balance, free_balance: Balance) -> (r:
        Result<Vec<Action>, DispatchError>)
        requires
            old(self)@.extra_fits(stash, max_additional, free_balance),
        ensures
            follows(
                old(self)@,
                final(self)@,
                r,
                old(self)@.bond_extra(stash, max_additional, free_balance),
            ),
            old(self)@.wf() ==> final(self)@.wf(),
    {
        proof {
            if old(self)@.wf() {
                law_calls_keep_state_sound(
                    old(self)@,
                    Call::BondExtra { stash, max_additional, free_balance },
                );
            }
        }
        let mut actions: Vec<Action> = Vec::new();
        let controller: AccountId = match self.bonded.get(&stash) {
            Some(account) => *account,
            None => {
                return Err(DispatchError::Module(Error::NotStash));
            },
        };
        assert(self@.ledger.dom() =~= self.ledger@.dom());
        match self.ledger.remove(&controller) {
            None => {
                assert(self@ =~= old(self)@);
                Err(DispatchError::Module(Error::NotController))
            },
            Some(mut ledger) => {
                let ghost before = ledger@;
                assert(before == old(self)@.ledger[controller]);
                if free_balance >= ledger.total {
                    let free: Balance = free_balance - ledger.total;
                    let extra: Balance = if free <= max_additional { free } else { max_additional };
                    assert(State::extra(before, max_additional, free_balance) == Some(extra));
                    ledger.total = ledger.total + extra;
                    ledger.active = ledger.active + extra;
                    actions.push(Action::DepositEvent(Event::Bonded(stash, extra)));
                    let lock = self.update_ledger(controller, ledger);
                    actions.push(lock);
                } else {
                    self.ledger.insert(controller, ledger);
                }
                proof {
                    let next = old(self)@.bond_extra(stash, max_additional, free_balance)->Ok_0;
                    assert(self@ =~= next.0);
                    assert(actions@ =~= next.1);
                }
                Ok(actions)
            },
        }
    }

    /// Whether what `unbond` would take becomes free in an era that there is.
    pub fn unbond_fits(&self, controller: &AccountId, value: Balance, env: Environment) -> (r: bool)
        ensures
            r == (self@.unbonds_something(*controller, value) ==> State::unlock_era(env)
                <= EraIndex::MAX),
    {
        let era: EraIndex = match env.current_era {
            Some(current) => current,
            None => 0,
        };
        if era.checked_add(env.bonding_duration).is_some() {
            return true;
        }
        match self.ledger(controller) {
            Some(ledger) => ledger.unlocking.len() >= MAX_UNLOCKING_CHUNKS || ledger.active == 0
                || value == 0,
            None => true,
        }
    }

    /// Schedule a portion of the stash to be unlocked ready for transfer out after the bond period
    /// ends. If this leaves an amount actively bonded less than the minimum balance, then it is
    /// increased to the full amount.
    ///
    /// Once the unlock period is done, `withdraw_unbonded` moves the funds out of management.
    ///
    /// No more than `MAX_UNLOCKING_CHUNKS` chunks can be unlocking at the same time.
    pub fn unbond(&mut self, controller: AccountId, value: Balance, env: Environment) -> (r: Result<
        Vec<Action>,
        DispatchError,
    >)
        requires
            old(self)@.unbonds_something(controller, value) ==> State::unlock_era(env)
                <= EraIndex::MAX,
        ensures
            follows(old(self)@, final(self)@, r, old(self)@.unbond(controller, value, env)),
            old(self)@.wf() ==> final(self)@.wf(),
    {
        proof {
            if old(self)@.wf() {
                law_calls_keep_state_sound(old(self)@, Call::Unbond { controller, value, env });
            }
        }
        let mut actions: Vec<Action> = Vec::new();
        assert(self@.ledger.dom() =~= self.ledger@.dom());
        match self.ledger.get(&controller) {
            None => {
                return Err(DispatchError::Module(Error::NotController));
            },
            Some(ledger) => {
                assert(ledger@ == old(self)@.ledger[controller]);
                if ledger.unlocking.len() >= MAX_UNLOCKING_CHUNKS {
                    return Err(DispatchError::Module(Error::NoMoreChunks));
                }
            },
        }
        if let Some(mut ledger) = self.ledger.remove(&controller) {
            let ghost before = ledger@;
            assert(before == old(self)@.ledger[controller]);
            let mut taken: Balance = if value <= ledger.active { value } else { ledger.active };
            if taken != 0 {
                ledger.active = ledger.active - taken;
                // No dust balance is left in the staking system.
                if ledger.active < env.minimum_balance {
                    taken = taken + ledger.active;
                    ledger.active = 0;
                }
                actions.push(Action::DepositEvent(Event::Unbonded(ledger.stash, taken)));
                let era: EraIndex = match env.current_era {
                    Some(current) => current + env.bonding_duration,
                    None => env.bonding_duration,
                };
                ledger.unlocking.push(UnlockChunk { value: taken, era });
                let lock = self.update_ledger(controller, ledger);
                actions.push(lock);
            } else {
                self.ledger.insert(controller, ledger);
            }
            proof {
                let next = old(self)@.unbond(controller, value, env)->Ok_0;
                assert(self@ =~= next.0);
                assert(actions@ =~= next.1);
            }
        }
        Ok(actions)
    }

    /// Remove all associated data of a stash account from the staking system, as a
    /// `withdraw_unbonded` does that frees all of a stash's bonded balance.
    pub fn kill_stash(&mut self, stash: AccountId) -> (r: Result<Vec<Action>, DispatchError>)
        ensures
            follows(old(self)@, final(self)@, r, old(self)@.kill_stash(stash)),
            old(self)@.wf() ==> final(self)@.wf(),
    {
        proof {
            if old(self)@.wf() {
                law_leaving_keeps_state_sound(old(self)@, stash);
            }
        }
        match self.bonded.remove(&stash) {
            None => {
                assert(self@ =~= old(self)@);
                Err(DispatchError::Module(Error::NotStash))
            },
            Some(controller) => {
                self.ledger.remove(&controller);
                self.payee.remove(&stash);
                self.dapps_nominations.remove(&stash);
                let mut actions: Vec<Action> = Vec::new();
                actions.push(Action::DecRef(stash));
                proof {
                    assert(self@ =~= old(self)@.without_stash(stash));
                    assert(actions@ =~= seq![Action::DecRef(stash)]);
                }
                Ok(actions)
            },
        }
    }

    /// Remove any unlocked chunks from the `unlocking` queue from our management.
    ///
    /// This essentially frees up that balance to be used by the stash account to do whatever it
    /// wants. Where nothing of the stash is left in management, all that is stored of it goes.
    pub fn withdraw_unbonded(&mut self, controller: AccountId, env: Environment) -> (r: Result<
        Vec<Action>,
        DispatchError,
    >)
        ensures
            follows(old(self)@, final(self)@, r, old(self)@.withdraw_unbonded(controller, env)),
            old(self)@.wf() ==> final(self)@.wf(),
    {
        proof {
            if old(self)@.wf() {
                law_calls_keep_state_sound(
                    old(self)@,
                    Call::WithdrawUnbonded { controller, env },
                );
            }
        }
        let found: StakingLedger<AccountId, Balance> = match self.ledger(&controller) {
            Some(ledger) => ledger,
            None => {
                return Err(DispatchError::Module(Error::NotController));
            },
        };
        let stash = found.stash;
        let old_total = found.total;
        let ledger: StakingLedger<AccountId, Balance> = match env.current_era {
            Some(era) => found.consolidate_unlocked(era),
            None => found,
        };
        let total = ledger.total;
        let mut actions: Vec<Action>;
        if ledger.unlocking.len() == 0 && ledger.active == 0 {
            // All that was bonded has been unbonded and no chunk is left, so all that is stored of
            // the stash can go.
            actions = match self.kill_stash(stash) {
                Ok(done) => done,
                Err(refusal) => {
                    return Err(refusal);
                },
            };
            actions.push(Action::RemoveLock(stash));
        } else {
            // Something is still bonded or unlocking.
            actions = Vec::new();
            let lock = self.update_ledger(controller, ledger);
            actions.push(lock);
        }
        if total < old_total {
            actions.push(Action::DepositEvent(Event::Withdrawn(stash, old_total - total)));
        }
        proof {
            let next = old(self)@.withdraw_unbonded(controller, env)->Ok_0;
            assert(self@ =~= next.0);
            assert(actions@ =~= next.1);
        }
        Ok(actions)
    }

    /// Set the payment target for a controller.
    pub fn set_payee(&mut self, controller: AccountId, payee: RewardDestination) -> (r: Result<
        Vec<Action>,
        DispatchError,
    >)
        ensures
            follows(old(self)@, final(self)@, r, old(self)@.set_payee(controller, payee)),
            old(self)@.wf() ==> final(self)@.wf(),
    {
        proof {
            if old(self)@.wf() {
                law_calls_keep_state_sound(old(self)@, Call::SetPayee { controller, payee });
            }
        }
        assert(self@.ledger.dom() =~= self.ledger@.dom());
        match self.ledger.get(&controller) {
            None => Err(DispatchError::Module(Error::NotController)),
            Some(ledger) => {
                self.payee.insert(ledger.stash, payee);
                let actions: Vec<Action> = Vec::new();
                proof {
                    let next = old(self)@.set_payee(controller, payee)->Ok_0;
                    assert(self@ =~= next.0);
                    assert(actions@ =~= next.1);
                }
                Ok(actions)
            },
        }
    }

    /// Chill a stash account: it nominates nothing from now on.
    pub fn chill_stash(&mut self, stash: AccountId)
        ensures
            final(self)@ == old(self)@.chill_stash(stash),
            old(self)@.wf() ==> final(self)@.wf(),
    {
        proof {
            if old(self)@.wf() {
                law_leaving_keeps_state_sound(old(self)@, stash);
            }
        }
        self.dapps_nominations.remove(&stash);
        assert(self@ =~= old(self)@.chill_stash(stash));
    }

    /// Declare no desire to nominate.
    ///
    /// Effects will be felt at the beginning of the next era.
    pub fn chill(&mut self, controller: AccountId) -> (r: Result<Vec<Action>, DispatchError>)
        ensures
            follows(old(self)@, final(self)@, r, old(self)@.chill(controller)),
            old(self)@.wf() ==> final(self)@.wf(),
    {
        proof {
            if old(self)@.wf() {
                law_calls_keep_state_sound(old(self)@, Call::Chill { controller });
            }
        }
        assert(self@.ledger.dom() =~= self.ledger@.dom());
        let stash: AccountId = match self.ledger.get(&controller) {
            None => {
                return Err(DispatchError::Module(Error::NotController));
            },
            Some(ledger) => ledger.stash,
        };
        self.chill_stash(stash);
        let actions: Vec<Action> = Vec::new();
        assert(actions@ =~= Seq::empty());
        Ok(actions)
    }

    /// Set the controller of a stash. It is `None` where the address that was given for it stands
    /// for no account.
    pub fn set_controller(&mut self, stash: AccountId, controller: Option<AccountId>) -> (r: Result<
        Vec<Action>,
        DispatchError,
    >)
        ensures
            follows(old(self)@, final(self)@, r, old(self)@.set_controller(stash, controller)),
            old(self)@.wf() ==> final(self)@.wf(),
    {
        proof {
            if old(self)@.wf() {
                law_calls_keep_state_sound(
                    old(self)@,
                    Call::SetController { stash, controller },
                );
            }
        }
        let old_controller: AccountId = match self.bonded.get(&stash) {
            Some(account) => *account,
            None => {
                return Err(DispatchError::Module(Error::NotStash));
            },
        };
        let paired: AccountId = match controller {
            Some(account) => account,
            None => {
                return Err(DispatchError::CannotLookup);
            },
        };
        assert(self@.ledger.dom() =~= self.ledger@.dom());
        if self.ledger.contains_key(&paired) {
            return Err(DispatchError::Other("controller already paired"));
        }
        if paired != old_controller {
            self.bonded.insert(stash, paired);
            if let Some(ledger) = self.ledger.remove(&old_controller) {
                assert(ledger@ == old(self)@.ledger[old_controller]);
                self.ledger.insert(paired, ledger);
            }
        }
        let actions: Vec<Action> = Vec::new();
        proof {
            let next = old(self)@.set_controller(stash, controller)->Ok_0;
            assert(self@ =~= next.0);
            assert(actions@ =~= next.1);
        }
        Ok(actions)
    }

    /// Declare the desire to nominate `targets` for the controller. Targets beyond the first
    /// `MAX_NOMINATIONS` are not considered.
    ///
    /// Effects will be felt at the beginning of the next era.
    pub fn nominate_contracts(
        &mut self,
        controller: AccountId,
        targets: &Vec<NominationTarget>,
        env: Environment,
    ) -> (r: Result<Vec<Action>, DispatchError>)
        ensures
            follows(
                old(self)@,
                final(self)@,
                r,
                old(self)@.nominate_contracts(controller, targets@, env),
            ),
            old(self)@.wf() ==> final(self)@.wf(),
    {
        proof {
            if old(self)@.wf() {
                law_calls_keep_state_sound(
                    old(self)@,
                    Call::NominateContracts { controller, targets: targets@, env },
                );
            }
        }
        assert(self@.ledger.dom() =~= self.ledger@.dom());
        let (stash, active): (AccountId, Balance) = match self.ledger.get(&controller) {
            Some(ledger) => (ledger.stash, ledger.active),
            None => {
                return Err(DispatchError::Module(Error::NotController));
            },
        };
        if targets.len() == 0 {
            return Err(DispatchError::Module(Error::EmptyNominateTargets));
        }
        let count: usize = considered_count(targets.len());
        let ghost first = considered(targets@);
        let mut chosen: Vec<(AccountId, Balance)> = Vec::new();
        let mut all_operated: bool = true;
        let mut sum: Balance = 0;
        for i in 0..count
            invariant
                count <= targets@.len(),
                first == considered(targets@),
                first.len() == count,
                forall|k: int| 0 <= k < count ==> first[k] == targets@[k],
                *self == *old(self),
                old(self)@.ledger.contains_key(controller),
                targets@.len() > 0,
                chosen@.len() == i,
                forall|k: int| 0 <= k < i ==> (#[trigger] first[k]).contract is Some,
                forall|k: int|
                    0 <= k < i ==> #[trigger] chosen@[k] == (first[k].contract->0, first[k].value),
                all_operated <==> forall|k: int| 0 <= k < i ==> (#[trigger] first[k]).operated,
                sum == saturated(values_sum(first.take(i as int))),
        {
            let target = targets[i];
            proof {
                assert(first[i as int] == target);
                assert(first.take(i + 1).drop_last() =~= first.take(i as int));
            }
            match target.contract {
                Some(contract) => chosen.push((contract, target.value)),
                None => {
                    return Err(DispatchError::CannotLookup);
                },
            }
            if !target.operated {
                all_operated = false;
            }
            sum = sum.saturating_add(target.value);
        }
        assert(first.take(count as int) =~= first);
        if !all_operated {
            return Err(DispatchError::Module(Error::NotOperatedContracts));
        }
        if sum > active {
            return Err(DispatchError::Module(Error::NotEnoughStaking));
        }
        let nominations = Nominations {
            targets: chosen,
            submitted_in: match env.current_era {
                Some(era) => era,
                None => 0,
            },
            suppressed: false,
        };
        self.dapps_nominations.insert(stash, nominations);
        let mut actions: Vec<Action> = Vec::new();
        actions.push(Action::DepositEvent(Event::Nominate(stash)));
        proof {
            let next = old(self)@.nominate_contracts(controller, targets@, env)->Ok_0;
            assert(nominations@.targets =~= first.map_values(
                |t: NominationTarget| (t.contract->0, t.value),
            ));
            assert(self@ =~= next.0);
            assert(actions@ =~= next.1);
        }
        Ok(actions)
    }

    /// Whether a ledger that a payout of `amount` to `stash` goes to can take it.
    fn payout_fits(&self, stash: &AccountId, amount: Balance) -> (r: bool)
        ensures
            r == self@.payout_fits(*stash, amount),
    {
        match self.payee(stash) {
            RewardDestination::Staked => match self.bonded(stash) {
                Some(controller) => match self.ledger(&controller) {
                    Some(ledger) => ledger.total <= Balance::MAX - amount && ledger.active
                        <= Balance::MAX - amount,
                    None => true,
                },
                None => true,
            },
            _ => true,
        }
    }

    /// Pays `amount` to a nominator, where its payee says.
    pub fn make_payout(&mut self, stash: &AccountId, amount: Balance) -> (r: Vec<Action>)
        requires
            old(self)@.payout_fits(*stash, amount),
        ensures
            (final(self)@, r@) == old(self)@.make_payout(*stash, amount),
            old(self)@.wf() ==> final(self)@.wf(),
    {
        proof {
            if old(self)@.wf() {
                law_payout_keeps_state_sound(old(self)@, *stash, amount);
            }
        }
        let mut actions: Vec<Action> = Vec::new();
        match self.payee(stash) {
            RewardDestination::Controller => {
                if let Some(controller) = self.bonded(stash) {
                    actions.push(Action::DepositIntoExisting(controller, amount));
                }
            },
            RewardDestination::Stash => {
                actions.push(Action::DepositIntoExisting(*stash, amount));
            },
            RewardDestination::Staked => {
                if let Some(controller) = self.bonded(stash) {
                    if let Some(mut ledger) = self.ledger(&controller) {
                        ledger.active = ledger.active + amount;
                        ledger.total = ledger.total + amount;
                        actions.push(Action::DepositIntoExisting(*stash, amount));
                        let lock = self.update_ledger(controller, ledger);
                        actions.push(lock);
                    }
                }
            },
        }
        proof {
            let next = old(self)@.make_payout(*stash, amount);
            assert(self@ =~= next.0);
            assert(actions@ =~= next.1);
        }
        actions
    }

    /// Pays each nominator in turn what it is owed.
    fn pay_all(&mut self, dues: &Vec<(AccountId, Balance)>) -> (r: Vec<Action>)
        requires
            old(self)@.payouts_fit(dues@),
        ensures
            (final(self)@, r@) == old(self)@.pay_all(dues@),
    {
        let mut actions: Vec<Action> = Vec::new();
        for i in 0..dues.len()
            invariant
                old(self)@.payouts_fit(dues@),
                (self@, actions@) == old(self)@.pay_all(dues@.take(i as int)),
        {
            let (stash, amount) = dues[i];
            proof {
                assert(dues@.take(i + 1).drop_last() =~= dues@.take(i as int));
                lemma_payouts_fit_prefix(old(self)@, dues@, i + 1);
            }
            let mut more = self.make_payout(&stash, amount);
            actions.append(&mut more);
        }
        assert(dues@.take(dues@.len() as int) =~= dues@);
        actions
    }

    /// A module that holds the same bonds, ledgers and payees, and nothing else.
    fn copy_stakes(&self) -> (r: Module)
        ensures
            r@.bonded == self@.bonded,
            r@.ledger == self@.ledger,
            r@.payee == self@.payee,
    {
        let mut r = Module::new();
        r.bonded = self.bonded.clone();
        r.payee = self.payee.clone();
        let controllers = keys_in_order(&self.ledger);
        for i in 0..controllers.len()
            invariant
                r@.bonded == self@.bonded,
                r@.payee == self@.payee,
                controllers@.to_set() == self.ledger@.dom(),
                r@.ledger == self@.ledger.restrict(controllers@.take(i as int).to_set()),
        {
            let controller = controllers[i];
            proof {
                assert(controllers@.to_set().contains(controller));
                assert(controllers@.take(i + 1) =~= controllers@.take(i as int).push(controller));
                controllers@.take(i as int).lemma_push_to_set_commute(controller);
            }
            if let Some(ledger) = self.ledger.get(&controller) {
                let same = copy_ledger(ledger);
                let ghost before = r@;
                r.ledger.insert(controller, same);
                proof {
                    assert(r@.ledger =~= before.ledger.insert(controller, ledger@));
                    assert(r@.ledger =~= self@.ledger.restrict(
                        controllers@.take(i + 1).to_set(),
                    ));
                }
            }
        }
        proof {
            assert(controllers@.take(controllers@.len() as int) =~= controllers@);
            assert(self@.ledger.dom() =~= self.ledger@.dom());
            assert(r@.ledger =~= self@.ledger);
        }
        r
    }

    /// Whether each ledger can take what it is owed when its turn comes.
    fn payouts_fit(&self, dues: &Vec<(AccountId, Balance)>) -> (r: bool)
        ensures
            r == self@.payouts_fit(dues@),
    {
        let mut trial = self.copy_stakes();
        for i in 0..dues.len()
            invariant
                self@.payouts_fit(dues@.take(i as int)),
                trial@.bonded == self@.pay_all(dues@.take(i as int)).0.bonded,
                trial@.ledger == self@.pay_all(dues@.take(i as int)).0.ledger,
                trial@.payee == self@.pay_all(dues@.take(i as int)).0.payee,
        {
            let (stash, amount) = dues[i];
            assert(dues@.take(i + 1).drop_last() =~= dues@.take(i as int));
            if !trial.payout_fits(&stash, amount) {
                proof {
                    if self@.payouts_fit(dues@) {
                        lemma_payouts_fit_prefix(self@, dues@, i + 1);
                    }
                }
                return false;
            }
            trial.make_payout(&stash, amount);
        }
        assert(dues@.take(dues@.len() as int) =~= dues@);
        true
    }

    /// Whether the rewards of an era can be paid: no nominator has more on its contracts than a
    /// balance can hold, and every ledger can take what its stash is owed.
    pub fn rewards_fit(&self, era: &EraIndex, nominators_reward: Balance) -> (r: bool)
        ensures
            r == self@.rewards_fit(*era, nominators_reward),
    {
        let none: BTreeMap<AccountId, EraStakingPoints<AccountId, Balance>> = BTreeMap::new();
        let points = match self.eras_staking_points.get(era) {
            Some(points) => points,
            None => &none,
        };
        let contracts = keys_in_order(points);
        let ghost views = self@.points_in(*era);
        proof {
            assert(points_view(points@) =~= views);
            lemma_keys_known(points@, contracts@);
        }
        let totals: BTreeMap<AccountId, Balance> = match nominate_totals(points, &contracts) {
            Some(totals) => totals,
            None => {
                return false;
            },
        };
        let staked = total_staked(points, &contracts);
        let dues = dues_of(&totals, staked, nominators_reward);
        assert(dues@ == self@.dues_in(*era, nominators_reward));
        self.payouts_fit(&dues)
    }

    /// The payments of an era: to the operator of each contract its share of `operators_reward` by
    /// what is staked on the contract, then to each nominator its share of `nominators_reward` by
    /// what it has staked. `operators` gives the operator of each contract that has one.
    ///
    /// Contracts and nominators are walked in the order of their accounts. What is paid in the end
    /// depends on which deposits succeed; see `payout::settle`.
    pub fn reward_for_dapps(
        &mut self,
        era: &EraIndex,
        operators_reward: Balance,
        nominators_reward: Balance,
        operators: &BTreeMap<AccountId, AccountId>,
    ) -> (r: Vec<Action>)
        requires
            old(self)@.rewards_fit(*era, nominators_reward),
        ensures
            (final(self)@, r@) == old(self)@.reward_for_dapps(
                *era,
                operators_reward,
                nominators_reward,
                operators@,
            ),
            old(self)@.wf() ==> final(self)@.wf(),
    {
        proof {
            if old(self)@.wf() {
                law_rewards_keep_state_sound(
                    old(self)@,
                    *era,
                    operators_reward,
                    nominators_reward,
                    operators@,
                );
            }
        }
        let none: BTreeMap<AccountId, EraStakingPoints<AccountId, Balance>> = BTreeMap::new();
        let points = match self.eras_staking_points.get(era) {
            Some(points) => points,
            None => &none,
        };
        let contracts = keys_in_order(points);
        let ghost views = self@.points_in(*era);
        proof {
            assert(points_view(points@) =~= views);
            lemma_keys_known(points@, contracts@);
        }
        let staked = total_staked(points, &contracts);
        let mut actions = reward_operators(points, &contracts, staked, operators_reward, operators);
        if let Some(totals) = nominate_totals(points, &contracts) {
            let dues = dues_of(&totals, staked, nominators_reward);
            assert(dues@ == self@.dues_in(*era, nominators_reward));
            let mut more = self.pay_all(&dues);
            actions.append(&mut more);
        }
        actions
    }

    /// Whether the nominations can be counted: no contract has more on it than a balance can hold.
    pub fn election_fits(&self) -> (r: bool)
        ensures
            r == self@.election_fits(),
    {
        let stashes = keys_in_order(&self.dapps_nominations);
        proof {
            lemma_stashes_known(self.dapps_nominations@, stashes@);
        }
        staked_contracts(&self.dapps_nominations, &stashes).is_some()
    }

    /// Records for `era` what the nominations put on each contract, and returns what they put on
    /// all of them, or the most that a balance can hold.
    pub fn elected_operators(&mut self, era: &EraIndex) -> (r: Balance)
        requires
            old(self)@.election_fits(),
        ensures
            final(self)@ == old(self)@.elected(*era),
            r == old(self)@.elected_total(),
            old(self)@.wf() ==> final(self)@.wf(),
    {
        proof {
            if old(self)@.wf() {
                law_election_keeps_state_sound(old(self)@, *era);
            }
        }
        let stashes = keys_in_order(&self.dapps_nominations);
        let ghost all = self@.all_stakes();
        proof {
            lemma_stashes_known(self.dapps_nominations@, stashes@);
        }
        if let Some(mut staked) = staked_contracts(&self.dapps_nominations, &stashes) {
            let total = total_stake(&staked);
            let contracts = keys_in_order(&staked);
            let ghost elected = staked@;
            proof {
                lemma_keys_known(elected, contracts@);
                lemma_in_order(elected.dom());
                lemma_totals_are_stakes(all, contracts@);
            }
            let mut points: BTreeMap<AccountId, EraStakingPoints<AccountId, Balance>> =
                match self.eras_staking_points.remove(era) {
                Some(points) => points,
                None => BTreeMap::new(),
            };
            let ghost before = points@;
            assert(points_view(before) =~= old(self)@.points_in(*era));
            for i in 0..contracts.len()
                invariant
                    ascending(contracts@),
                    contracts@.to_set() == elected.dom(),
                    staked@ == elected.remove_keys(contracts@.take(i as int).to_set()),
                    points@ == before.union_prefer_right(
                        elected.restrict(contracts@.take(i as int).to_set()),
                    ),
            {
                let contract = contracts[i];
                proof {
                    assert(contracts@.contains(contract));
                    assert(contracts@.to_set().contains(contract));
                    assert(elected.contains_key(contract));
                    assert(contracts@.take(i + 1) =~= contracts@.take(i as int).push(contract));
                    contracts@.take(i as int).lemma_push_to_set_commute(contract);
                    assert(!contracts@.take(i as int).contains(contract));
                }
                if let Some(there) = staked.remove(&contract) {
                    points.insert(contract, there);
                    proof {
                        let done = contracts@.take(i + 1).to_set();
                        assert(staked@ =~= elected.remove_keys(done));
                        assert(points@ =~= before.union_prefer_right(elected.restrict(done)));
                    }
                }
            }
            proof {
                assert(contracts@.take(contracts@.len() as int) =~= contracts@);
                assert(elected.restrict(elected.dom()) =~= elected);
                assert(points_view(before.union_prefer_right(elected)) =~= points_view(
                    before,
                ).union_prefer_right(points_view(elected)));
            }
            self.eras_staking_points.insert(*era, points);
            self.eras_total_stake.insert(*era, total);
            assert(self@ =~= old(self)@.elected(*era));
            total
        } else {
            0
        }
    }

    /// The amount of staking in an era; the staking points of the era are recorded on the way.
    pub fn compute(&mut self, era: &EraIndex) -> (r: Balance)
        requires
            old(self)@.election_fits(),
        ensures
            final(self)@ == old(self)@.elected(*era),
            r == old(self)@.elected_total(),
            old(self)@.wf() ==> final(self)@.wf(),
    {
        self.elected_operators(era)
    }

    /// The era whose rewards are to be paid next, while one before the active era is left.
    pub fn pending_era(&self, active_era: Option<EraIndex>) -> (r: Option<EraIndex>)
        ensures
            r == self@.pending_era(active_era),
    {
        match active_era {
            Some(active) => if active > self.untreated_era {
                Some(self.untreated_era)
            } else {
                None
            },
            None => None,
        }
    }

    /// Ends the payment of the first untreated era, for which `actual_rewarded` has been minted.
    pub fn close_era(&mut self, actual_rewarded: Balance) -> (r: Action)
        requires
            old(self)@.untreated_era < EraIndex::MAX,
        ensures
            (final(self)@, r) == old(self)@.close_era(actual_rewarded),
            final(self)@ == old(self)@.era_closed(),
            r == Action::DepositEvent(
                Event::TotalDappsRewards(old(self)@.untreated_era, actual_rewarded),
            ),
            old(self)@.wf() ==> final(self)@.wf(),
    {
        proof {
            if old(self)@.wf() {
                law_closing_keeps_state_sound(old(self)@);
            }
        }
        let era = self.untreated_era;
        self.untreated_era = era + 1;
        assert(self@ =~= old(self)@.era_closed());
        Action::DepositEvent(Event::TotalDappsRewards(era, actual_rewarded))
    }
}

/// How many of so many targets a nomination considers: no more than the limit.
pub fn considered_count(len: usize) -> (r: usize)
    ensures
        r == if len <= MAX_NOMINATIONS {
            len
        } else {
            MAX_NOMINATIONS
        },
{
    if len <= MAX_NOMINATIONS {
        len
    } else {
        MAX_NOMINATIONS
    }
}

/// The keys of a map of points are contracts that it knows.
proof fn lemma_keys_known(
    points: Map<AccountId, EraStakingPoints<AccountId, Balance>>,
    contracts: Seq<AccountId>,
)
    requires
        contracts.to_set() == points.dom(),
    ensures
        all_known(points_view(points), contracts),
        points_view(points).dom() == points.dom(),
{
    assert(points_view(points).dom() =~= points.dom());
    assert forall|i: int| 0 <= i < contracts.len() implies points_view(points).contains_key(
        #[trigger] contracts[i],
    ) by {
        assert(contracts.to_set().contains(contracts[i]));
    }
}

/// The keys of a map of nominations are stashes that it knows.
proof fn lemma_stashes_known(
    nominations: Map<AccountId, Nominations<AccountId, Balance>>,
    stashes: Seq<AccountId>,
)
    requires
        stashes.to_set() == nominations.dom(),
    ensures
        forall|i: int| 0 <= i < stashes.len() ==> nominations.contains_key(#[trigger] stashes[i]),
        nominations_view(nominations).dom() == nominations.dom(),
{
    assert(nominations_view(nominations).dom() =~= nominations.dom());
    assert forall|i: int| 0 <= i < stashes.len() implies nominations.contains_key(
        #[trigger] stashes[i],
    ) by {
        assert(stashes.to_set().contains(stashes[i]));
    }
}

/// Where all payouts fit, so do the first ones.
proof fn lemma_payouts_fit_prefix(state: State, dues: Seq<(AccountId, Balance)>, n: int)
    requires
        state.payouts_fit(dues),
        0 <= n <= dues.len(),
    ensures
        state.payouts_fit(dues.take(n)),
    decreases dues.len(),
{
    if n == dues.len() {
        assert(dues.take(n) =~= dues);
    } else {
        lemma_payouts_fit_prefix(state, dues.drop_last(), n);
        assert(dues.drop_last().take(n) =~= dues.take(n));
    }
}

/// The same ledger once more.
fn copy_ledger(ledger: &StakingLedger<AccountId, Balance>) -> (r: StakingLedger<AccountId, Balance>)
    ensures
        r@ == ledger@,
{
    let mut unlocking: Vec<UnlockChunk<Balance>> = Vec::new();
    for i in 0..ledger.unlocking.len()
        invariant
            unlocking@ == ledger.unlocking@.take(i as int),
    {
        unlocking.push(ledger.unlocking[i]);
        assert(ledger.unlocking@.take(i + 1) =~= ledger.unlocking@.take(i as int).push(
            ledger.unlocking@[i as int],
        ));
    }
    assert(ledger.unlocking@.take(ledger.unlocking@.len() as int) =~= ledger.unlocking@);
    StakingLedger {
        stash: ledger.stash,
        total: ledger.total,
        active: ledger.active,
        unlocking,
        last_reward: ledger.last_reward,
    }
}

} // verus!
