//! What holds of every call: the stored data stays sound, the locks and references of the runtime
//! agree with it, and no other stash is touched.
use crate::ledger::{lemma_chunks_split, lemma_chunks_sum_push, lemma_still_locked, still_locked};
use crate::payout::lookup;
use crate::state::{lock_of, Outcome, State};
use crate::types::{
    staking_reasons, AccountId, Action, Balance, Environment, EraIndex, LedgerView, NominationTarget,
    RewardDestination, WithdrawReason, WithdrawReasons,
};
use vstd::multiset::Multiset;
use vstd::prelude::*;

verus! {

/// A call that an account can make.
pub enum Call {
    Bond {
        stash: AccountId,
        controller: Option<AccountId>,
        value: Balance,
        payee: RewardDestination,
        free_balance: Balance,
        env: Environment,
    },
    BondExtra { stash: AccountId, max_additional: Balance, free_balance: Balance },
    Unbond { controller: AccountId, value: Balance, env: Environment },
    WithdrawUnbonded { controller: AccountId, env: Environment },
    NominateContracts { controller: AccountId, targets: Seq<NominationTarget>, env: Environment },
    Chill { controller: AccountId },
    SetPayee { controller: AccountId, payee: RewardDestination },
    SetController { stash: AccountId, controller: Option<AccountId> },
}

impl State {
    /// What a call does.
    pub open spec fn call(self, call: Call) -> Outcome {
        match call {
            Call::Bond { stash, controller, value, payee, free_balance, env } => self.bond(
                stash,
                controller,
                value,
                payee,
                free_balance,
                env,
            ),
            Call::BondExtra { stash, max_additional, free_balance } => self.bond_extra(
                stash,
                max_additional,
                free_balance,
            ),
            Call::Unbond { controller, value, env } => self.unbond(controller, value, env),
            Call::WithdrawUnbonded { controller, env } => self.withdraw_unbonded(controller, env),
            Call::NominateContracts { controller, targets, env } => self.nominate_contracts(
                controller,
                targets,
                env,
            ),
            Call::Chill { controller } => self.chill(controller),
            Call::SetPayee { controller, payee } => self.set_payee(controller, payee),
            Call::SetController { stash, controller } => self.set_controller(stash, controller),
        }
    }

    /// The stash whose data the call is about; there is none where the call comes from an account
    /// that controls nothing.
    pub open spec fn subject(self, call: Call) -> Option<AccountId> {
        match call {
            Call::Bond { stash, .. } => Some(stash),
            Call::BondExtra { stash, .. } => Some(stash),
            Call::SetController { stash, .. } => Some(stash),
            Call::Unbond { controller, .. } => self.stash_of(controller),
            Call::WithdrawUnbonded { controller, .. } => self.stash_of(controller),
            Call::NominateContracts { controller, .. } => self.stash_of(controller),
            Call::Chill { controller } => self.stash_of(controller),
            Call::SetPayee { controller, .. } => self.stash_of(controller),
        }
    }

    /// The stash that an account controls.
    pub open spec fn stash_of(self, controller: AccountId) -> Option<AccountId> {
        match lookup(self.ledger, controller) {
            Some(ledger) => Some(ledger.stash),
            None => None,
        }
    }

    /// The state after a call; a refused call changes nothing.
    pub open spec fn after(self, call: Call) -> State {
        match self.call(call) {
            Ok((state, _)) => state,
            Err(_) => self,
        }
    }
}

/// Whatever the call, what is stored stays sound: stashes and controllers stay in pairs, and every
/// ledger adds up.
pub proof fn law_calls_keep_state_sound(state: State, call: Call)
    requires
        state.wf(),
    ensures
        state.after(call).wf(),
{
    let after = state.after(call);
    match call {
        Call::Bond { .. } => {
            assert(after.payee.dom() =~= after.bonded.dom());
        },
        Call::BondExtra { .. } => {
        },
        Call::Unbond { controller, value, env } => {
            if state.ledger.contains_key(controller) {
                let ledger = state.ledger[controller];
                let next = after.ledger[controller];
                if next != ledger {
                    lemma_chunks_sum_push(ledger.unlocking, next.unlocking.last());
                    assert(next.unlocking =~= ledger.unlocking.push(next.unlocking.last()));
                }
            }
        },
        Call::WithdrawUnbonded { controller, env } => {
            if state.ledger.contains_key(controller) {
                let ledger = state.ledger[controller];
                lemma_withdrawn_sound(ledger, env.current_era);
                assert(after.payee.dom() =~= after.bonded.dom());
            }
        },
        Call::NominateContracts { .. } => {
        },
        Call::Chill { .. } => {
        },
        Call::SetPayee { .. } => {
            assert(after.payee.dom() =~= after.bonded.dom());
        },
        Call::SetController { stash, controller } => {
            assert(after.payee.dom() =~= after.bonded.dom());
        },
    }
}

/// A withdrawal leaves a ledger that adds up.
pub proof fn lemma_withdrawn_sound(ledger: LedgerView, current_era: Option<EraIndex>)
    requires
        ledger.wf(),
    ensures
        State::withdrawn(ledger, current_era).wf(),
        State::withdrawn(ledger, current_era).total <= ledger.total,
{
    if let Some(era) = current_era {
        let chunks = ledger.unlocking;
        lemma_chunks_split(chunks, era);
        let kept = still_locked(chunks, era);
        lemma_still_locked(chunks, era);
        assert forall|i: int| 0 <= i < kept.len() implies (#[trigger] kept[i]).value > 0 by {
            let j = choose|j: int| 0 <= j < chunks.len() && chunks[j] == kept[i];
            assert(chunks[j].value > 0);
        }
    }
}

/// What the runtime holds for the staking module.
pub struct Holdings {
    /// The staking lock of each account that has one: how much it holds, and against what.
    pub locks: Map<AccountId, (Balance, WithdrawReasons)>,
    /// The references to accounts.
    pub references: Multiset<AccountId>,
}

impl Holdings {
    /// Nothing is held.
    pub open spec fn none() -> Holdings {
        Holdings { locks: Map::empty(), references: Multiset::empty() }
    }

    /// What is held after one step.
    pub open spec fn step(self, action: Action) -> Holdings {
        match action {
            Action::IncRef(account) => Holdings {
                references: self.references.insert(account),
                ..self
            },
            Action::DecRef(account) => Holdings {
                references: self.references.remove(account),
                ..self
            },
            Action::SetLock(account, amount, reasons) => Holdings {
                locks: self.locks.insert(account, (amount, reasons)),
                ..self
            },
            Action::RemoveLock(account) => Holdings { locks: self.locks.remove(account), ..self },
            Action::DepositIntoExisting(..) => self,
            Action::DepositEvent(_) => self,
        }
    }

    /// What is held after several steps in turn.
    pub open spec fn steps(self, actions: Seq<Action>) -> Holdings
        decreases actions.len(),
    {
        if actions.len() == 0 {
            self
        } else {
            self.steps(actions.drop_last()).step(actions.last())
        }
    }

    /// Each bonded stash is locked for exactly the total of its ledger, against everything except
    /// the payment for transactions, and referred to once. No other account is.
    pub open spec fn agrees(self, state: State) -> bool {
        &&& self.locks.dom() == state.bonded.dom()
        &&& forall|s: AccountId| #[trigger]
            state.bonded.contains_key(s) ==> self.locks[s] == (
                state.ledger[state.bonded[s]].total,
                staking_reasons(),
            )
        &&& forall|s: AccountId| #[trigger]
            self.references.count(s) == if state.bonded.contains_key(s) {
                1nat
            } else {
                0nat
            }
    }
}

/// The steps of a call leave the locks and the references in agreement with what is stored: the
/// lock of a stash is always the total of its ledger.
pub proof fn law_calls_keep_holdings_in_agreement(state: State, call: Call, held: Holdings)
    requires
        state.wf(),
        held.agrees(state),
        state.call(call) is Ok,
    ensures
        held.steps((state.call(call)->Ok_0).1).agrees(state.after(call)),
{
    reveal_with_fuel(Holdings::steps, 5);
    let (after, actions) = state.call(call)->Ok_0;
    let then = held.steps(actions);
    match call {
        Call::Bond { stash, controller, .. } => {
            assert(actions.drop_last().drop_last().drop_last().len() == 0);
            assert(then.locks.dom() =~= after.bonded.dom());
        },
        Call::BondExtra { stash, max_additional, free_balance } => {
            assert(then.locks.dom() =~= after.bonded.dom());
        },
        Call::Unbond { controller, .. } => {
            assert(then.locks.dom() =~= after.bonded.dom());
        },
        Call::WithdrawUnbonded { controller, env } => {
            assert(then.locks.dom() =~= after.bonded.dom());
        },
        _ => {
            assert(actions.len() <= 1);
            assert(then == held);
            assert(then.locks.dom() =~= after.bonded.dom());
        },
    }
}

/// A staking lock holds against every reason except the payment for transactions.
pub proof fn law_lock_spares_transaction_payment(reason: WithdrawReason)
    ensures
        staking_reasons().holds_against(reason) <==> reason != WithdrawReason::TransactionPayment,
{
}

/// A second update of the ledger of a controller, for the same stash, replaces the first: all is as
/// after the second alone. The lock is then for the later total, not for both together.
pub proof fn law_later_ledger_replaces_earlier(
    state: State,
    held: Holdings,
    controller: AccountId,
    first: LedgerView,
    second: LedgerView,
)
    requires
        first.stash == second.stash,
    ensures
        state.update_ledger(controller, first).0.update_ledger(controller, second)
            == state.update_ledger(controller, second),
        lookup(state.update_ledger(controller, second).0.ledger, controller) == Some(second),
        state.update_ledger(controller, second).1 == lock_of(second),
        held.steps(seq![lock_of(first), lock_of(second)]) == held.steps(seq![lock_of(second)]),
        lookup(held.steps(seq![lock_of(second)]).locks, second.stash) == Some(
            (second.total, staking_reasons()),
        ),
{
    reveal_with_fuel(Holdings::steps, 3);
    assert(state.ledger.insert(controller, first).insert(controller, second) =~= state.ledger.insert(
        controller,
        second,
    ));
    let both = seq![lock_of(first), lock_of(second)];
    let one = seq![lock_of(second)];
    assert(both.drop_last() =~= seq![lock_of(first)]);
    assert(both.drop_last().drop_last() =~= Seq::empty());
    assert(one.drop_last() =~= Seq::empty());
    let x = held.step(lock_of(first)).step(lock_of(second));
    let y = held.step(lock_of(second));
    assert(x.locks =~= y.locks);
}

/// Nothing that is stored of a stash differs between the two states.
pub open spec fn same_stash(before: State, after: State, stash: AccountId) -> bool {
    &&& lookup(after.bonded, stash) == lookup(before.bonded, stash)
    &&& after.ledger_of(stash) == before.ledger_of(stash)
    &&& lookup(after.payee, stash) == lookup(before.payee, stash)
    &&& lookup(after.nominations, stash) == lookup(before.nominations, stash)
}

/// A call changes what is stored of its own stash and of no other.
pub proof fn law_calls_spare_others(state: State, call: Call, other: AccountId)
    requires
        state.wf(),
        state.subject(call) != Some(other),
    ensures
        same_stash(state, state.after(call), other),
{
}

/// The effects of a call are felt with the next election only: what is recorded for the eras stays.
pub proof fn law_calls_leave_eras_alone(state: State, call: Call)
    ensures
        state.after(call).untreated_era == state.untreated_era,
        state.after(call).staking_points == state.staking_points,
        state.after(call).total_stake == state.total_stake,
{
}

} // verus!
