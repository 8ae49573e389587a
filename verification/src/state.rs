//! The rules of the staking module, as steps from one state to the next.
use crate::election::{listed, points_of, points_sound, saturated, stakes, stakes_fit, stakes_sum, Stake};
use crate::order::in_order;
use crate::payout::{
    lookup, nominated_by_all, nominated_fits, nominator_dues, operator_payments, staked_in_all,
};
use crate::types::{
    staking_reasons, AccountId, Action, Balance, DispatchError, Environment, EraIndex, Error, Event,
    LedgerView,
    NominationTarget, NominationsView, PointsView, RewardDestination, UnlockChunk, MAX_NOMINATIONS,
    MAX_UNLOCKING_CHUNKS,
};
use vstd::prelude::*;

verus! {

/// All that the module stores.
#[verifier::ext_equal]
pub struct State {
    /// The first era whose rewards have not been paid.
    pub untreated_era: EraIndex,
    /// From each bonded stash to its controller.
    pub bonded: Map<AccountId, AccountId>,
    /// From each controller to the ledger of its stash.
    pub ledger: Map<AccountId, LedgerView>,
    /// Where the rewards of a stash go.
    pub payee: Map<AccountId, RewardDestination>,
    /// What each nominating stash nominates.
    pub nominations: Map<AccountId, NominationsView>,
    /// The staking points of each era, by contract.
    pub staking_points: Map<EraIndex, Map<AccountId, PointsView>>,
    /// All that was staked in each era.
    pub total_stake: Map<EraIndex, Balance>,
}

/// The lesser of two amounts.
pub open spec fn lesser(a: Balance, b: Balance) -> Balance {
    if a <= b {
        a
    } else {
        b
    }
}

/// What the targets amount to.
pub open spec fn values_sum(targets: Seq<NominationTarget>) -> nat
    decreases targets.len(),
{
    if targets.len() == 0 {
        0
    } else {
        values_sum(targets.drop_last()) + targets.last().value as nat
    }
}

/// The targets that a nomination considers: no more than the limit.
pub open spec fn considered(targets: Seq<NominationTarget>) -> Seq<NominationTarget> {
    if targets.len() <= MAX_NOMINATIONS {
        targets
    } else {
        targets.take(MAX_NOMINATIONS as int)
    }
}

/// The lock on the stash of a ledger: for its total, against everything except the payment for
/// further transactions.
pub open spec fn lock_of(ledger: LedgerView) -> Action {
    Action::SetLock(ledger.stash, ledger.total, staking_reasons())
}

/// What a call does: the next state and the steps that the runtime takes, or a refusal.
pub type Outcome = Result<(State, Seq<Action>), DispatchError>;

impl State {
    /// The state of a module that nothing has happened to.
    pub open spec fn genesis() -> State {
        State {
            untreated_era: 0,
            bonded: Map::empty(),
            ledger: Map::empty(),
            payee: Map::empty(),
            nominations: Map::empty(),
            staking_points: Map::empty(),
            total_stake: Map::empty(),
        }
    }

    /// Stashes and controllers are in pairs: each bonded stash has one controller with one ledger,
    /// which is the ledger of that stash. Every ledger adds up. A stash has a payee if and only if
    /// it is bonded, and nominates only then, with at least one target and no more than the limit.
    /// The staking points of every era add up.
    pub open spec fn wf(self) -> bool {
        &&& forall|c: AccountId| #[trigger]
            self.ledger.contains_key(c) ==> {
                &&& self.ledger[c].wf()
                &&& self.bonded.contains_key(self.ledger[c].stash)
                &&& self.bonded[self.ledger[c].stash] == c
            }
        &&& forall|s: AccountId| #[trigger]
            self.bonded.contains_key(s) ==> {
                &&& self.ledger.contains_key(self.bonded[s])
                &&& self.ledger[self.bonded[s]].stash == s
            }
        &&& self.payee.dom() == self.bonded.dom()
        &&& forall|s: AccountId| #[trigger]
            self.nominations.contains_key(s) ==> {
                &&& self.bonded.contains_key(s)
                &&& 0 < self.nominations[s].targets.len() <= MAX_NOMINATIONS
            }
        &&& self.nominations.dom().finite()
        &&& forall|era: EraIndex| #[trigger]
            self.staking_points.contains_key(era) ==> points_sound(self.staking_points[era])
    }

    /// Where the rewards of `stash` go; to its stake where nothing else was set.
    pub open spec fn payee_of(self, stash: AccountId) -> RewardDestination {
        if self.payee.contains_key(stash) {
            self.payee[stash]
        } else {
            RewardDestination::Staked
        }
    }

    /// The staking points of `era`.
    pub open spec fn points_in(self, era: EraIndex) -> Map<AccountId, PointsView> {
        if self.staking_points.contains_key(era) {
            self.staking_points[era]
        } else {
            Map::empty()
        }
    }

    /// The staking points of `contract` in `era`; nothing where nothing was recorded.
    pub open spec fn points_on(self, era: EraIndex, contract: AccountId) -> PointsView {
        match lookup(self.points_in(era), contract) {
            Some(points) => points,
            None => PointsView { total: 0, individual: Map::empty() },
        }
    }

    /// All that was staked in `era`; nothing where nothing was recorded.
    pub open spec fn total_in(self, era: EraIndex) -> Balance {
        if self.total_stake.contains_key(era) {
            self.total_stake[era]
        } else {
            0
        }
    }

    /// The state with `ledger` as the ledger of `controller`.
    pub open spec fn with_ledger(self, controller: AccountId, ledger: LedgerView) -> State {
        State { ledger: self.ledger.insert(controller, ledger), ..self }
    }

    /// Sets the ledger of a controller, and the lock of its stash with it.
    pub open spec fn update_ledger(self, controller: AccountId, ledger: LedgerView) -> (State, Action) {
        (self.with_ledger(controller, ledger), lock_of(ledger))
    }

    /// Locks up to `value` of the stash and pairs it with its controller.
    pub open spec fn bond(
        self,
        stash: AccountId,
        controller: Option<AccountId>,
        value: Balance,
        payee: RewardDestination,
        free_balance: Balance,
        env: Environment,
    ) -> Outcome {
        if self.bonded.contains_key(stash) {
            Err(DispatchError::Other("stash already bonded"))
        } else if controller is None {
            Err(DispatchError::CannotLookup)
        } else if self.ledger.contains_key(controller->0) {
            Err(DispatchError::Other("controller already paired"))
        } else if value < env.minimum_balance {
            Err(DispatchError::Other("can not bond with value less than minimum balance"))
        } else {
            let amount = lesser(value, free_balance);
            let ledger = LedgerView {
                stash,
                total: amount,
                active: amount,
                unlocking: Seq::empty(),
                last_reward: env.current_era,
            };
            let state = State {
                bonded: self.bonded.insert(stash, controller->0),
                payee: self.payee.insert(stash, payee),
                ..self
            };
            Ok(
                (
                    state.with_ledger(controller->0, ledger),
                    seq![
                        Action::IncRef(stash),
                        Action::DepositEvent(Event::Bonded(stash, amount)),
                        lock_of(ledger),
                    ],
                ),
            )
        }
    }

    /// The ledger of a bonded stash.
    pub open spec fn ledger_of(self, stash: AccountId) -> Option<LedgerView> {
        match lookup(self.bonded, stash) {
            Some(controller) => lookup(self.ledger, controller),
            None => None,
        }
    }

    /// What `bond_extra` adds to `ledger`; nothing where the free balance is less than the total.
    pub open spec fn extra(ledger: LedgerView, max_additional: Balance, free_balance: Balance) -> Option<
        Balance,
    > {
        if free_balance >= ledger.total {
            Some(lesser((free_balance - ledger.total) as Balance, max_additional))
        } else {
            None
        }
    }

    /// Where the stash has a ledger, its active part can take what `bond_extra` adds.
    pub open spec fn extra_fits(
        self,
        stash: AccountId,
        max_additional: Balance,
        free_balance: Balance,
    ) -> bool {
        match self.ledger_of(stash) {
            Some(ledger) => match Self::extra(ledger, max_additional, free_balance) {
                Some(extra) => ledger.active + extra <= Balance::MAX,
                None => true,
            },
            None => true,
        }
    }

    /// Adds to the stake what has become free in the stash, up to `max_additional`.
    pub open spec fn bond_extra(
        self,
        stash: AccountId,
        max_additional: Balance,
        free_balance: Balance,
    ) -> Outcome {
        if !self.bonded.contains_key(stash) {
            Err(DispatchError::Module(Error::NotStash))
        } else if !self.ledger.contains_key(self.bonded[stash]) {
            Err(DispatchError::Module(Error::NotController))
        } else {
            let controller = self.bonded[stash];
            let ledger = self.ledger[controller];
            match Self::extra(ledger, max_additional, free_balance) {
                Some(extra) => {
                    let next = LedgerView {
                        total: (ledger.total + extra) as Balance,
                        active: (ledger.active + extra) as Balance,
                        ..ledger
                    };
                    Ok(
                        (
                            self.with_ledger(controller, next),
                            seq![
                                Action::DepositEvent(Event::Bonded(stash, extra)),
                                lock_of(next),
                            ],
                        ),
                    )
                },
                None => Ok((self, Seq::empty())),
            }
        }
    }

    /// What a wish to unbond `value` takes from `ledger`: no more than is active, and all that is
    /// active where less than the minimum balance would stay.
    pub open spec fn unbonded_value(ledger: LedgerView, value: Balance, minimum_balance: Balance) -> Balance {
        let wanted = lesser(value, ledger.active);
        if wanted > 0 && ledger.active - wanted < minimum_balance {
            ledger.active
        } else {
            wanted
        }
    }

    /// The era in which what is unbonded now becomes free.
    pub open spec fn unlock_era(env: Environment) -> int {
        match env.current_era {
            Some(era) => era + env.bonding_duration,
            None => env.bonding_duration as int,
        }
    }

    /// There is a ledger with room for one more chunk and with something active, and some of it is
    /// to be unbonded.
    pub open spec fn unbonds_something(self, controller: AccountId, value: Balance) -> bool {
        &&& self.ledger.contains_key(controller)
        &&& self.ledger[controller].unlocking.len() < MAX_UNLOCKING_CHUNKS
        &&& self.ledger[controller].active > 0
        &&& value > 0
    }

    /// Moves up to `value` from the stake into a chunk that becomes free after the bonding duration.
    pub open spec fn unbond(self, controller: AccountId, value: Balance, env: Environment) -> Outcome {
        if !self.ledger.contains_key(controller) {
            Err(DispatchError::Module(Error::NotController))
        } else if self.ledger[controller].unlocking.len() >= MAX_UNLOCKING_CHUNKS {
            Err(DispatchError::Module(Error::NoMoreChunks))
        } else {
            let ledger = self.ledger[controller];
            let taken = Self::unbonded_value(ledger, value, env.minimum_balance);
            if taken == 0 {
                Ok((self, Seq::empty()))
            } else {
                let chunk = UnlockChunk { value: taken, era: Self::unlock_era(env) as EraIndex };
                let next = LedgerView {
                    active: (ledger.active - taken) as Balance,
                    unlocking: ledger.unlocking.push(chunk),
                    ..ledger
                };
                Ok(
                    (
                        self.with_ledger(controller, next),
                        seq![
                            Action::DepositEvent(Event::Unbonded(ledger.stash, taken)),
                            lock_of(next),
                        ],
                    ),
                )
            }
        }
    }

    /// The state without anything of `stash`, which is bonded.
    pub open spec fn without_stash(self, stash: AccountId) -> State {
        State {
            bonded: self.bonded.remove(stash),
            ledger: self.ledger.remove(self.bonded[stash]),
            payee: self.payee.remove(stash),
            nominations: self.nominations.remove(stash),
            ..self
        }
    }

    /// Removes all that is stored of a stash.
    pub open spec fn kill_stash(self, stash: AccountId) -> Outcome {
        if !self.bonded.contains_key(stash) {
            Err(DispatchError::Module(Error::NotStash))
        } else {
            Ok((self.without_stash(stash), seq![Action::DecRef(stash)]))
        }
    }

    /// A ledger after a withdrawal: without the chunks that are free in the current era.
    pub open spec fn withdrawn(ledger: LedgerView, current_era: Option<EraIndex>) -> LedgerView {
        match current_era {
            Some(era) => ledger.consolidated(era),
            None => ledger,
        }
    }

    /// The report of a withdrawal, where something was withdrawn.
    pub open spec fn withdrawal_report(before: LedgerView, after: LedgerView) -> Seq<Action> {
        if after.total < before.total {
            seq![
                Action::DepositEvent(
                    Event::Withdrawn(before.stash, (before.total - after.total) as Balance),
                ),
            ]
        } else {
            Seq::empty()
        }
    }

    /// Lets go of the chunks that are free, and of the stash itself where nothing is left.
    pub open spec fn withdraw_unbonded(self, controller: AccountId, env: Environment) -> Outcome {
        if !self.ledger.contains_key(controller) {
            Err(DispatchError::Module(Error::NotController))
        } else {
            let before = self.ledger[controller];
            let after = Self::withdrawn(before, env.current_era);
            let report = Self::withdrawal_report(before, after);
            if after.unlocking.len() == 0 && after.active == 0 {
                match self.kill_stash(before.stash) {
                    Ok((state, actions)) => Ok(
                        (state, actions.push(Action::RemoveLock(before.stash)) + report),
                    ),
                    Err(refusal) => Err(refusal),
                }
            } else {
                Ok(
                    (
                        self.with_ledger(controller, after),
                        seq![lock_of(after)] + report,
                    ),
                )
            }
        }
    }

    /// Nominates the targets for the stash of the controller.
    pub open spec fn nominate_contracts(
        self,
        controller: AccountId,
        targets: Seq<NominationTarget>,
        env: Environment,
    ) -> Outcome {
        if !self.ledger.contains_key(controller) {
            Err(DispatchError::Module(Error::NotController))
        } else if targets.len() == 0 {
            Err(DispatchError::Module(Error::EmptyNominateTargets))
        } else if exists|i: int|
            0 <= i < considered(targets).len() && (#[trigger] considered(targets)[i]).contract is None {
            Err(DispatchError::CannotLookup)
        } else if exists|i: int|
            0 <= i < considered(targets).len() && !(#[trigger] considered(targets)[i]).operated {
            Err(DispatchError::Module(Error::NotOperatedContracts))
        } else if saturated(values_sum(considered(targets))) > self.ledger[controller].active {
            Err(DispatchError::Module(Error::NotEnoughStaking))
        } else {
            let stash = self.ledger[controller].stash;
            let nomination = NominationsView {
                targets: considered(targets).map_values(
                    |t: NominationTarget| (t.contract->0, t.value),
                ),
                submitted_in: match env.current_era {
                    Some(era) => era,
                    None => 0,
                },
                suppressed: false,
            };
            Ok(
                (
                    State { nominations: self.nominations.insert(stash, nomination), ..self },
                    seq![Action::DepositEvent(Event::Nominate(stash))],
                ),
            )
        }
    }

    /// The state in which `stash` nominates nothing.
    pub open spec fn chill_stash(self, stash: AccountId) -> State {
        State { nominations: self.nominations.remove(stash), ..self }
    }

    /// Withdraws the nominations of the stash of the controller.
    pub open spec fn chill(self, controller: AccountId) -> Outcome {
        if !self.ledger.contains_key(controller) {
            Err(DispatchError::Module(Error::NotController))
        } else {
            Ok((self.chill_stash(self.ledger[controller].stash), Seq::empty()))
        }
    }

    /// Sets where the rewards of the stash of the controller go.
    pub open spec fn set_payee(self, controller: AccountId, payee: RewardDestination) -> Outcome {
        if !self.ledger.contains_key(controller) {
            Err(DispatchError::Module(Error::NotController))
        } else {
            let stash = self.ledger[controller].stash;
            Ok((State { payee: self.payee.insert(stash, payee), ..self }, Seq::empty()))
        }
    }

    /// Hands the stash over to another controller, with its ledger.
    pub open spec fn set_controller(self, stash: AccountId, controller: Option<AccountId>) -> Outcome {
        if !self.bonded.contains_key(stash) {
            Err(DispatchError::Module(Error::NotStash))
        } else if controller is None {
            Err(DispatchError::CannotLookup)
        } else if self.ledger.contains_key(controller->0) {
            Err(DispatchError::Other("controller already paired"))
        } else {
            let old_controller = self.bonded[stash];
            let bonded = self.bonded.insert(stash, controller->0);
            let ledger = if self.ledger.contains_key(old_controller) {
                self.ledger.remove(old_controller).insert(controller->0, self.ledger[old_controller])
            } else {
                self.ledger
            };
            Ok((State { bonded, ledger, ..self }, Seq::empty()))
        }
    }

    /// Pays `amount` to a nominator, where its payee says.
    pub open spec fn make_payout(self, stash: AccountId, amount: Balance) -> (State, Seq<Action>) {
        match self.payee_of(stash) {
            RewardDestination::Controller => match lookup(self.bonded, stash) {
                Some(controller) => (self, seq![Action::DepositIntoExisting(controller, amount)]),
                None => (self, Seq::empty()),
            },
            RewardDestination::Stash => (self, seq![Action::DepositIntoExisting(stash, amount)]),
            RewardDestination::Staked => match self.ledger_of(stash) {
                Some(ledger) => {
                    let next = LedgerView {
                        total: (ledger.total + amount) as Balance,
                        active: (ledger.active + amount) as Balance,
                        ..ledger
                    };
                    (
                        self.with_ledger(self.bonded[stash], next),
                        seq![
                            Action::DepositIntoExisting(stash, amount),
                            lock_of(next),
                        ],
                    )
                },
                None => (self, Seq::empty()),
            },
        }
    }

    /// A ledger that the payout goes to can take it.
    pub open spec fn payout_fits(self, stash: AccountId, amount: Balance) -> bool {
        match (self.payee_of(stash), self.ledger_of(stash)) {
            (RewardDestination::Staked, Some(ledger)) => {
                &&& ledger.total + amount <= Balance::MAX
                &&& ledger.active + amount <= Balance::MAX
            },
            _ => true,
        }
    }

    /// Pays each nominator in turn what it is owed.
    pub open spec fn pay_all(self, dues: Seq<(AccountId, Balance)>) -> (State, Seq<Action>)
        decreases dues.len(),
    {
        if dues.len() == 0 {
            (self, Seq::empty())
        } else {
            let (state, actions) = self.pay_all(dues.drop_last());
            let (next, more) = state.make_payout(dues.last().0, dues.last().1);
            (next, actions + more)
        }
    }

    /// What the nominators of `era` are owed of `reward`.
    pub open spec fn dues_in(self, era: EraIndex, reward: Balance) -> Seq<(AccountId, Balance)> {
        let points = self.points_in(era);
        let contracts = in_order(points.dom());
        nominator_dues(
            nominated_by_all(points, contracts),
            staked_in_all(points, contracts),
            reward,
        )
    }

    /// Each ledger can take what it is owed when its turn comes.
    pub open spec fn payouts_fit(self, dues: Seq<(AccountId, Balance)>) -> bool
        decreases dues.len(),
    {
        dues.len() > 0 ==> {
            &&& self.payouts_fit(dues.drop_last())
            &&& self.pay_all(dues.drop_last()).0.payout_fits(dues.last().0, dues.last().1)
        }
    }

    /// No nominator has more on the contracts of `era` than a balance can hold, and every ledger
    /// can take what it is owed.
    pub open spec fn rewards_fit(self, era: EraIndex, reward: Balance) -> bool {
        let points = self.points_in(era);
        &&& nominated_fits(points, in_order(points.dom()))
        &&& self.payouts_fit(self.dues_in(era, reward))
    }

    /// Pays the operators of the contracts of `era`, then the nominators.
    pub open spec fn reward_for_dapps(
        self,
        era: EraIndex,
        operators_reward: Balance,
        nominators_reward: Balance,
        operators: Map<AccountId, AccountId>,
    ) -> (State, Seq<Action>) {
        let points = self.points_in(era);
        let contracts = in_order(points.dom());
        let to_operators = operator_payments(
            points,
            contracts,
            staked_in_all(points, contracts),
            operators_reward,
            operators,
        );
        let (state, to_nominators) = self.pay_all(self.dues_in(era, nominators_reward));
        (state, to_operators + to_nominators)
    }

    /// All stakes of the nominations.
    pub open spec fn all_stakes(self) -> Seq<Stake> {
        stakes(listed(self.nominations, in_order(self.nominations.dom())))
    }

    /// No contract has more on it than a balance can hold.
    pub open spec fn election_fits(self) -> bool {
        stakes_fit(self.all_stakes())
    }

    /// What the nominations put on all contracts, or the most that a balance can hold.
    pub open spec fn elected_total(self) -> Balance {
        saturated(stakes_sum(self.all_stakes()))
    }

    /// Records for `era` what the nominations put on each contract, and what they put on all.
    pub open spec fn elected(self, era: EraIndex) -> State {
        let all = self.all_stakes();
        State {
            staking_points: self.staking_points.insert(
                era,
                self.points_in(era).union_prefer_right(points_of(all)),
            ),
            total_stake: self.total_stake.insert(era, self.elected_total()),
            ..self
        }
    }

    /// The era whose rewards are to be paid next, while one before the active era is left.
    pub open spec fn pending_era(self, active_era: Option<EraIndex>) -> Option<EraIndex> {
        match active_era {
            Some(active) if active > self.untreated_era => Some(self.untreated_era),
            _ => None,
        }
    }

    /// Closes the first untreated era, for which `actual_rewarded` has been minted, and reports it.
    pub open spec fn close_era(self, actual_rewarded: Balance) -> (State, Action) {
        (
            self.era_closed(),
            Action::DepositEvent(Event::TotalDappsRewards(self.untreated_era, actual_rewarded)),
        )
    }

    /// The state in which the rewards of the first untreated era have been paid.
    pub open spec fn era_closed(self) -> State {
        State { untreated_era: (self.untreated_era + 1) as EraIndex, ..self }
    }
}

} // verus!
