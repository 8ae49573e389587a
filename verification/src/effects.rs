//! What each call asks for and what it brings about, for every state and every argument.
//!
//! Amounts, eras, limits and steps are written out here, so that each law can be read by itself.
use crate::ledger::{chunks_sum, lemma_chunks_sum_push, matured, still_locked};
use crate::state::{considered, values_sum, State};
use crate::types::{
    staking_reasons, AccountId, Action, Balance, DispatchError, Environment, EraIndex, Error, Event,
    LedgerView, NominationTarget, RewardDestination, UnlockChunk, WithdrawReasons,
};
use vstd::prelude::*;

verus! {

/// A staking lock holds transfers, reserves, fees and tips back, and lets transactions be paid.
pub proof fn law_staking_lock_reasons()
    ensures
        staking_reasons() == (WithdrawReasons {
            transaction_payment: false,
            transfer: true,
            reserve: true,
            fee: true,
            tip: true,
        }),
{
}

/// To update the ledger of a controller sets this ledger and changes nothing else that is stored.
/// The lock on the stash is then for the total of the ledger.
pub proof fn law_update_sets_ledger_and_lock(
    state: State,
    controller: AccountId,
    ledger: LedgerView,
)
    ensures
        ({
            let (after, lock) = state.update_ledger(controller, ledger);
            &&& after == (State { ledger: after.ledger, ..state })
            &&& after.ledger.dom() == state.ledger.dom().insert(controller)
            &&& after.ledger[controller] == ledger
            &&& forall|other: AccountId|
                other != controller ==> #[trigger] after.ledger[other] == state.ledger[other]
            &&& lock == Action::SetLock(ledger.stash, ledger.total, staking_reasons())
        }),
{
    let after = state.update_ledger(controller, ledger).0;
    assert(after.ledger.dom() =~= state.ledger.dom().insert(controller));
}

/// A bond is accepted if and only if the stash is not bonded, the controller is known and controls
/// nothing, and no less than the minimum balance is asked for. Of several reasons to refuse it the
/// first in this order is given.
pub proof fn law_bond_is_accepted_or_refused(
    state: State,
    stash: AccountId,
    controller: Option<AccountId>,
    value: Balance,
    payee: RewardDestination,
    free_balance: Balance,
    env: Environment,
)
    ensures
        ({
            let outcome = state.bond(stash, controller, value, payee, free_balance, env);
            let known = controller is Some;
            let paired = known && state.ledger.contains_key(controller->0);
            &&& outcome is Ok <==> {
                &&& !state.bonded.contains_key(stash)
                &&& known
                &&& !paired
                &&& value >= env.minimum_balance
            }
            &&& state.bonded.contains_key(stash) ==> outcome->Err_0 == DispatchError::Other(
                "stash already bonded",
            )
            &&& !state.bonded.contains_key(stash) && !known ==> outcome->Err_0
                == DispatchError::CannotLookup
            &&& !state.bonded.contains_key(stash) && paired ==> outcome->Err_0
                == DispatchError::Other("controller already paired")
            &&& !state.bonded.contains_key(stash) && known && !paired && value < env.minimum_balance
                ==> outcome->Err_0 == DispatchError::Other(
                "can not bond with value less than minimum balance",
            )
        }),
{
}

/// A bond that is accepted pairs the stash with the controller and sets its payee. The ledger has
/// the value that was asked for, or all that is free where that is less, as total and as active,
/// nothing on its way out, and the current era as the last rewarded. The stash is referred to, the
/// bond is reported, and the amount is locked. Nothing else changes.
pub proof fn law_bond_takes_effect(
    state: State,
    stash: AccountId,
    controller: AccountId,
    value: Balance,
    payee: RewardDestination,
    free_balance: Balance,
    env: Environment,
)
    requires
        state.bond(stash, Some(controller), value, payee, free_balance, env) is Ok,
    ensures
        ({
            let (after, actions) = state.bond(
                stash,
                Some(controller),
                value,
                payee,
                free_balance,
                env,
            )->Ok_0;
            let ledger = after.ledger[controller];
            &&& after.bonded == state.bonded.insert(stash, controller)
            &&& after.payee == state.payee.insert(stash, payee)
            &&& after.ledger == state.ledger.insert(controller, ledger)
            &&& after.nominations == state.nominations
            &&& after.staking_points == state.staking_points
            &&& after.total_stake == state.total_stake
            &&& after.untreated_era == state.untreated_era
            &&& ledger.stash == stash
            &&& value <= free_balance ==> ledger.total == value
            &&& value > free_balance ==> ledger.total == free_balance
            &&& ledger.active == ledger.total
            &&& ledger.unlocking.len() == 0
            &&& ledger.last_reward == env.current_era
            &&& actions.len() == 3
            &&& actions[0] == Action::IncRef(stash)
            &&& actions[1] == Action::DepositEvent(Event::Bonded(stash, ledger.total))
            &&& actions[2] == Action::SetLock(stash, ledger.total, staking_reasons())
        }),
{
}

/// More is bonded for a stash that is bonded and has a ledger, and for no other.
pub proof fn law_bond_extra_is_accepted_or_refused(
    state: State,
    stash: AccountId,
    max_additional: Balance,
    free_balance: Balance,
)
    ensures
        ({
            let outcome = state.bond_extra(stash, max_additional, free_balance);
            let paired = state.bonded.contains_key(stash) && state.ledger.contains_key(
                state.bonded[stash],
            );
            &&& outcome is Ok <==> paired
            &&& !state.bonded.contains_key(stash) ==> outcome->Err_0 == DispatchError::Module(
                Error::NotStash,
            )
            &&& state.bonded.contains_key(stash) && !paired ==> outcome->Err_0
                == DispatchError::Module(Error::NotController)
        }),
{
}

/// What is free beyond the total is added to the total and to what is active, up to the most that
/// was asked for. The rest of the ledger stays, the amount is reported as bonded, and the lock is
/// for the new total. Where less is free than the total, nothing changes and nothing is done.
/// Nothing of any other ledger changes, nor anything else.
pub proof fn law_bond_extra_takes_effect(
    state: State,
    stash: AccountId,
    max_additional: Balance,
    free_balance: Balance,
)
    requires
        state.bond_extra(stash, max_additional, free_balance) is Ok,
        state.extra_fits(stash, max_additional, free_balance),
    ensures
        ({
            let (after, actions) = state.bond_extra(stash, max_additional, free_balance)->Ok_0;
            let controller = state.bonded[stash];
            let before = state.ledger[controller];
            let ledger = after.ledger[controller];
            let added = ledger.total - before.total;
            &&& after == (State { ledger: state.ledger.insert(controller, ledger), ..state })
            &&& ledger.stash == before.stash
            &&& ledger.unlocking == before.unlocking
            &&& ledger.last_reward == before.last_reward
            &&& ledger.active - before.active == added
            &&& free_balance < before.total ==> added == 0 && actions.len() == 0
            &&& free_balance >= before.total ==> {
                &&& before.total + max_additional <= free_balance ==> added == max_additional
                &&& before.total + max_additional > free_balance ==> ledger.total == free_balance
                &&& actions.len() == 2
                &&& actions[0] == Action::DepositEvent(Event::Bonded(stash, added as Balance))
                &&& actions[1] == Action::SetLock(before.stash, ledger.total, staking_reasons())
            }
        }),
{
    let controller = state.bonded[stash];
    let after = (state.bond_extra(stash, max_additional, free_balance)->Ok_0).0;
    assert(state.ledger.insert(controller, state.ledger[controller]) =~= state.ledger);
    assert(after =~= (State {
        ledger: state.ledger.insert(controller, after.ledger[controller]),
        ..state
    }));
}

/// What can be added fits, but where the active part with it would exceed what a balance can hold.
pub proof fn law_extra_fits_unless_it_overflows(
    state: State,
    stash: AccountId,
    max_additional: Balance,
    free_balance: Balance,
)
    ensures
        !state.bonded.contains_key(stash) ==> state.extra_fits(stash, max_additional, free_balance),
        state.bonded.contains_key(stash) && !state.ledger.contains_key(state.bonded[stash])
            ==> state.extra_fits(stash, max_additional, free_balance),
        state.bonded.contains_key(stash) && state.ledger.contains_key(state.bonded[stash]) ==> {
            let ledger = state.ledger[state.bonded[stash]];
            let free = free_balance - ledger.total;
            &&& free < 0 ==> state.extra_fits(stash, max_additional, free_balance)
            &&& 0 <= free <= max_additional ==> (state.extra_fits(
                stash,
                max_additional,
                free_balance,
            ) <==> ledger.active + free <= Balance::MAX)
            &&& free > max_additional ==> (state.extra_fits(stash, max_additional, free_balance)
                <==> ledger.active + max_additional <= Balance::MAX)
        },
{
}

/// Stake is unbonded by a controller with fewer than 32 chunks on their way out, and by nobody else.
pub proof fn law_unbond_is_accepted_or_refused(
    state: State,
    controller: AccountId,
    value: Balance,
    env: Environment,
)
    ensures
        ({
            let outcome = state.unbond(controller, value, env);
            let paired = state.ledger.contains_key(controller);
            &&& outcome is Ok <==> paired && state.ledger[controller].unlocking.len() < 32
            &&& !paired ==> outcome->Err_0 == DispatchError::Module(Error::NotController)
            &&& paired && state.ledger[controller].unlocking.len() >= 32 ==> outcome->Err_0
                == DispatchError::Module(Error::NoMoreChunks)
        }),
{
}

/// What is unbonded becomes free in the current era plus the bonding duration, counted from era 0
/// where no era is current yet. It is what was asked for, if that leaves at least the minimum
/// balance active, and else all that was active. It leaves the active part and stands behind the
/// chunks that were there. The total stays, and the lock with it. The amount is reported.
pub proof fn law_unbond_takes_effect(
    state: State,
    controller: AccountId,
    value: Balance,
    env: Environment,
)
    requires
        state.unbond(controller, value, env) is Ok,
        value > 0,
        state.ledger[controller].active > 0,
        (if env.current_era is Some { env.current_era->0 as int } else { 0 }) + env.bonding_duration
            <= EraIndex::MAX,
    ensures
        ({
            let (after, actions) = state.unbond(controller, value, env)->Ok_0;
            let before = state.ledger[controller];
            let ledger = after.ledger[controller];
            let n = before.unlocking.len();
            let chunk = ledger.unlocking[n as int];
            &&& after == (State { ledger: state.ledger.insert(controller, ledger), ..state })
            &&& ledger.stash == before.stash
            &&& ledger.total == before.total
            &&& ledger.last_reward == before.last_reward
            &&& ledger.unlocking.len() == n + 1
            &&& ledger.unlocking.take(n as int) == before.unlocking
            &&& env.current_era is Some ==> chunk.era == env.current_era->0 + env.bonding_duration
            &&& env.current_era is None ==> chunk.era == env.bonding_duration
            &&& ledger.active + chunk.value == before.active
            &&& value <= before.active && before.active - value >= env.minimum_balance
                ==> chunk.value == value
            &&& value > before.active || before.active - value < env.minimum_balance ==> chunk.value
                == before.active
            &&& actions.len() == 2
            &&& actions[0] == Action::DepositEvent(Event::Unbonded(before.stash, chunk.value))
            &&& actions[1] == Action::SetLock(before.stash, before.total, staking_reasons())
        }),
{
    let before = state.ledger[controller];
    let after = (state.unbond(controller, value, env)->Ok_0).0;
    assert(after.ledger[controller].unlocking.take(before.unlocking.len() as int)
        =~= before.unlocking);
}

/// To unbond nothing, or where nothing is active, changes nothing and does nothing.
pub proof fn law_unbond_of_nothing_does_nothing(
    state: State,
    controller: AccountId,
    value: Balance,
    env: Environment,
)
    requires
        state.unbond(controller, value, env) is Ok,
        value == 0 || state.ledger[controller].active == 0,
    ensures
        state.unbond(controller, value, env)->Ok_0 == (state, Seq::<Action>::empty()),
{
}

/// An era is needed only for what is unbonded: by a controller with fewer than 32 chunks and
/// something active, who asks for more than nothing.
pub proof fn law_when_an_unlocking_era_is_needed(
    state: State,
    controller: AccountId,
    value: Balance,
    env: Environment,
)
    ensures
        state.unbonds_something(controller, value) <==> {
            &&& state.ledger.contains_key(controller)
            &&& state.ledger[controller].unlocking.len() < 32
            &&& state.ledger[controller].active > 0
            &&& value > 0
        },
        env.current_era is Some ==> State::unlock_era(env) == env.current_era->0
            + env.bonding_duration,
        env.current_era is None ==> State::unlock_era(env) == env.bonding_duration,
{
}

/// What is unbonded is held for the bonding duration: a withdrawal in any era before the current one
/// plus the bonding duration leaves the chunk where it is, and the stash with it.
pub proof fn law_unbonded_funds_wait(
    state: State,
    controller: AccountId,
    value: Balance,
    env: Environment,
    later: Environment,
)
    requires
        state.unbond(controller, value, env) is Ok,
        value > 0,
        state.ledger[controller].active > 0,
        (if env.current_era is Some { env.current_era->0 as int } else { 0 }) + env.bonding_duration
            <= EraIndex::MAX,
        later.current_era is Some ==> later.current_era->0 < (if env.current_era is Some {
            env.current_era->0 as int
        } else {
            0
        }) + env.bonding_duration,
    ensures
        ({
            let unbonded = (state.unbond(controller, value, env)->Ok_0).0;
            let outcome = unbonded.withdraw_unbonded(controller, later);
            let before = unbonded.ledger[controller].unlocking;
            let after = (outcome->Ok_0).0.ledger[controller].unlocking;
            &&& outcome is Ok
            &&& (outcome->Ok_0).0.ledger.contains_key(controller)
            &&& after.len() > 0
            &&& after[after.len() - 1] == before[before.len() - 1]
        }),
{
    reveal(Seq::filter);
    let unbonded = (state.unbond(controller, value, env)->Ok_0).0;
    law_unbond_takes_effect(state, controller, value, env);
}

/// Adds the value of a chunk that is due in `era`.
pub open spec fn add_if_due(era: EraIndex) -> spec_fn(int, UnlockChunk<Balance>) -> int {
    |sum: int, chunk: UnlockChunk<Balance>|
        if chunk.era <= era {
            sum + chunk.value
        } else {
            sum
        }
}

/// What the chunks hold that are due in `era`.
pub open spec fn due(chunks: Seq<UnlockChunk<Balance>>, era: EraIndex) -> int {
    chunks.fold_left(0int, add_if_due(era))
}

/// The entries of `kept` are places in a queue in ascending order: all those of the chunks that are
/// not due in `era`, and no other.
pub open spec fn places_of_kept(
    chunks: Seq<UnlockChunk<Balance>>,
    era: EraIndex,
    kept: Seq<int>,
) -> bool {
    &&& forall|a: int, b: int| 0 <= a < b < kept.len() ==> (#[trigger] kept[a]) < (#[trigger] kept[b])
    &&& forall|a: int| 0 <= a < kept.len() ==> 0 <= #[trigger] kept[a] < chunks.len()
    &&& forall|i: int|
        0 <= i < chunks.len() ==> ((#[trigger] chunks[i]).era > era <==> kept.contains(i))
}

/// The chunks that are due, and what they hold.
proof fn lemma_matured_is_due(chunks: Seq<UnlockChunk<Balance>>, era: EraIndex)
    ensures
        chunks_sum(matured(chunks, era)) == due(chunks, era),
    decreases chunks.len(),
{
    reveal(Seq::filter);
    if chunks.len() > 0 {
        let rest = chunks.drop_last();
        lemma_matured_is_due(rest, era);
        if chunks.last().era <= era {
            lemma_chunks_sum_push(matured(rest, era), chunks.last());
        }
    }
}

/// The places of the chunks that are kept.
proof fn lemma_places_of_kept(chunks: Seq<UnlockChunk<Balance>>, era: EraIndex) -> (kept: Seq<int>)
    ensures
        places_of_kept(chunks, era, kept),
        still_locked(chunks, era).len() == kept.len(),
        forall|a: int|
            0 <= a < kept.len() ==> still_locked(chunks, era)[a] == chunks[#[trigger] kept[a]],
    decreases chunks.len(),
{
    reveal(Seq::filter);
    if chunks.len() == 0 {
        Seq::empty()
    } else {
        let rest = chunks.drop_last();
        let last = chunks.len() - 1;
        let before = lemma_places_of_kept(rest, era);
        let kept = if chunks[last].era > era {
            before.push(last)
        } else {
            before
        };
        assert forall|i: int| 0 <= i < chunks.len() implies ((#[trigger] chunks[i]).era > era
            <==> kept.contains(i)) by {
            if i < last {
                assert(rest[i] == chunks[i]);
                if before.contains(i) {
                    let a = choose|a: int| 0 <= a < before.len() && before[a] == i;
                    assert(kept[a] == i);
                }
                if kept.contains(i) {
                    let a = choose|a: int| 0 <= a < kept.len() && kept[a] == i;
                    assert(before[a] == i);
                }
            } else {
                if chunks[last].era > era {
                    assert(kept[before.len() as int] == i);
                }
                if kept.contains(i) && !(chunks[last].era > era) {
                    let a = choose|a: int| 0 <= a < kept.len() && kept[a] == i;
                    assert(before[a] < rest.len());
                }
            }
        }
        assert forall|a: int| 0 <= a < kept.len() implies still_locked(chunks, era)[a]
            == chunks[#[trigger] kept[a]] by {
            if a < before.len() {
                assert(kept[a] == before[a]);
                assert(rest[before[a]] == chunks[before[a]]);
            }
        }
        kept
    }
}

/// Of the queue of a ledger exactly the chunks stay whose era has not come, each in its order, and
/// the total drops by what the others hold, as far as there is a total. Nothing else of the ledger
/// changes.
pub proof fn law_consolidation_lets_go_of_what_is_due(ledger: LedgerView, era: EraIndex)
    ensures
        ({
            let after = ledger.consolidated(era);
            &&& after.stash == ledger.stash
            &&& after.active == ledger.active
            &&& after.last_reward == ledger.last_reward
            &&& due(ledger.unlocking, era) <= ledger.total ==> after.total == ledger.total - due(
                ledger.unlocking,
                era,
            )
            &&& due(ledger.unlocking, era) > ledger.total ==> after.total == 0
            &&& exists|kept: Seq<int>| #[trigger]
                places_of_kept(ledger.unlocking, era, kept) && after.unlocking == kept.map_values(
                    |i: int| ledger.unlocking[i],
                )
        }),
{
    lemma_matured_is_due(ledger.unlocking, era);
    let kept = lemma_places_of_kept(ledger.unlocking, era);
    assert(still_locked(ledger.unlocking, era) =~= kept.map_values(|i: int| ledger.unlocking[i]));
}

/// One chunk more is kept behind the others, if its era has not come, or else its value leaves with
/// what the others free. An empty queue frees nothing.
pub proof fn law_each_chunk_counts_by_itself(
    ledger: LedgerView,
    chunk: UnlockChunk<Balance>,
    era: EraIndex,
)
    requires
        due(ledger.unlocking.push(chunk), era) <= ledger.total,
    ensures
        ({
            let more = LedgerView { unlocking: ledger.unlocking.push(chunk), ..ledger };
            let none = LedgerView { unlocking: Seq::empty(), ..ledger };
            &&& none.consolidated(era) == none
            &&& chunk.era > era ==> more.consolidated(era).unlocking == ledger.consolidated(
                era,
            ).unlocking.push(chunk) && more.consolidated(era).total == ledger.consolidated(era).total
            &&& chunk.era <= era ==> more.consolidated(era).unlocking == ledger.consolidated(
                era,
            ).unlocking && more.consolidated(era).total + chunk.value == ledger.consolidated(
                era,
            ).total
        }),
{
    reveal(Seq::filter);
    let more = ledger.unlocking.push(chunk);
    let none = LedgerView { unlocking: Seq::empty(), ..ledger };
    assert(more.drop_last() =~= ledger.unlocking);
    lemma_matured_is_due(more, era);
    lemma_matured_is_due(ledger.unlocking, era);
    assert(none.consolidated(era) =~= none);
}

/// Some chunk is not due in the current era. While there is no era, none is due.
pub open spec fn some_not_due(
    chunks: Seq<UnlockChunk<Balance>>,
    current_era: Option<EraIndex>,
) -> bool {
    exists|i: int|
        0 <= i < chunks.len() && (current_era is None || (#[trigger] chunks[i]).era > current_era->0)
}

/// Only a controller withdraws, and only a stash that is bonded is let go of.
pub proof fn law_withdrawal_is_accepted_or_refused(
    state: State,
    controller: AccountId,
    env: Environment,
)
    ensures
        ({
            let outcome = state.withdraw_unbonded(controller, env);
            let ledger = state.ledger[controller];
            let paired = state.ledger.contains_key(controller);
            let something = ledger.active > 0 || some_not_due(ledger.unlocking, env.current_era);
            &&& outcome is Ok <==> paired && (something || state.bonded.contains_key(ledger.stash))
            &&& !paired ==> outcome->Err_0 == DispatchError::Module(Error::NotController)
            &&& paired && outcome is Err ==> outcome->Err_0 == DispatchError::Module(Error::NotStash)
        }),
{
    if state.ledger.contains_key(controller) {
        lemma_withdrawn_chunks(state.ledger[controller], env.current_era);
    }
}

/// Something is left in the queue of a ledger after a withdrawal if and only if some chunk is not
/// due. While there is no era, none is.
proof fn lemma_withdrawn_chunks(ledger: LedgerView, current_era: Option<EraIndex>)
    ensures
        State::withdrawn(ledger, current_era).unlocking.len() > 0 <==> some_not_due(
            ledger.unlocking,
            current_era,
        ),
{
    match current_era {
        Some(era) => {
            let kept = lemma_places_of_kept(ledger.unlocking, era);
            if kept.len() > 0 {
                let i = kept[0];
                assert(kept.contains(i));
                assert(ledger.unlocking[i].era > era);
            }
            if some_not_due(ledger.unlocking, current_era) {
                let i = choose|i: int|
                    0 <= i < ledger.unlocking.len() && (#[trigger] ledger.unlocking[i]).era > era;
                assert(kept.contains(i));
            }
        },
        None => {
            if ledger.unlocking.len() > 0 {
                let first = ledger.unlocking[0];
            }
        },
    }
}

/// A withdrawal while some chunk is not due, or something is active, keeps the stash: its ledger is
/// consolidated for the current era, or stays where there is none, and the lock is for its total.
/// What has left the total is reported, if anything has. Nothing else changes.
pub proof fn law_withdrawal_takes_effect(state: State, controller: AccountId, env: Environment)
    requires
        state.ledger.contains_key(controller),
        state.ledger[controller].active > 0 || some_not_due(
            state.ledger[controller].unlocking,
            env.current_era,
        ),
    ensures
        ({
            let outcome = state.withdraw_unbonded(controller, env);
            let (after, actions) = outcome->Ok_0;
            let before = state.ledger[controller];
            let ledger = after.ledger[controller];
            let freed = before.total - ledger.total;
            &&& outcome is Ok
            &&& after == (State { ledger: state.ledger.insert(controller, ledger), ..state })
            &&& env.current_era is Some ==> ledger == before.consolidated(env.current_era->0)
            &&& env.current_era is None ==> ledger == before
            &&& actions[0] == Action::SetLock(before.stash, ledger.total, staking_reasons())
            &&& freed == 0 ==> actions.len() == 1
            &&& freed > 0 ==> actions.len() == 2 && actions[1] == Action::DepositEvent(
                Event::Withdrawn(before.stash, freed as Balance),
            )
        }),
{
    lemma_withdrawn_chunks(state.ledger[controller], env.current_era);
}

/// A withdrawal after which nothing is active and nothing on its way out forgets the stash: its bond,
/// the ledger of its controller, its payee and its nominations go. Its reference and its lock go too,
/// and what has left the total is reported, if anything has. Nothing else changes.
pub proof fn law_last_withdrawal_takes_effect(state: State, controller: AccountId, env: Environment)
    requires
        state.ledger.contains_key(controller),
        state.bonded.contains_key(state.ledger[controller].stash),
        state.ledger[controller].active == 0,
        !some_not_due(state.ledger[controller].unlocking, env.current_era),
    ensures
        ({
            let outcome = state.withdraw_unbonded(controller, env);
            let (after, actions) = outcome->Ok_0;
            let before = state.ledger[controller];
            let stash = before.stash;
            let freed = if env.current_era is Some {
                before.total - before.consolidated(env.current_era->0).total
            } else {
                0
            };
            &&& outcome is Ok
            &&& after.bonded == state.bonded.remove(stash)
            &&& after.ledger == state.ledger.remove(state.bonded[stash])
            &&& after.payee == state.payee.remove(stash)
            &&& after.nominations == state.nominations.remove(stash)
            &&& after.staking_points == state.staking_points
            &&& after.total_stake == state.total_stake
            &&& after.untreated_era == state.untreated_era
            &&& actions[0] == Action::DecRef(stash)
            &&& actions[1] == Action::RemoveLock(stash)
            &&& freed == 0 ==> actions.len() == 2
            &&& freed > 0 ==> actions.len() == 3 && actions[2] == Action::DepositEvent(
                Event::Withdrawn(stash, freed as Balance),
            )
        }),
{
    lemma_withdrawn_chunks(state.ledger[controller], env.current_era);
}

/// A stash that is bonded can be removed, and no other. Its bond, the ledger of its controller, its
/// payee, its nominations and one reference to it go. Nothing else changes.
pub proof fn law_removal_takes_effect(state: State, stash: AccountId)
    ensures
        ({
            let outcome = state.kill_stash(stash);
            let (after, actions) = outcome->Ok_0;
            &&& outcome is Ok <==> state.bonded.contains_key(stash)
            &&& outcome is Err ==> outcome->Err_0 == DispatchError::Module(Error::NotStash)
            &&& outcome is Ok ==> {
                &&& after.bonded == state.bonded.remove(stash)
                &&& after.ledger == state.ledger.remove(state.bonded[stash])
                &&& after.payee == state.payee.remove(stash)
                &&& after.nominations == state.nominations.remove(stash)
                &&& after.staking_points == state.staking_points
                &&& after.total_stake == state.total_stake
                &&& after.untreated_era == state.untreated_era
                &&& actions.len() == 1
                &&& actions[0] == Action::DecRef(stash)
            }
        }),
{
}

/// Adds the value of a target.
pub open spec fn add_value() -> spec_fn(int, NominationTarget) -> int {
    |sum: int, target: NominationTarget| sum + target.value
}

/// The sum of the values, target by target.
proof fn lemma_values_sum(targets: Seq<NominationTarget>)
    ensures
        values_sum(targets) == targets.fold_left(0int, add_value()),
    decreases targets.len(),
{
    if targets.len() > 0 {
        lemma_values_sum(targets.drop_last());
    }
}

/// How many of the targets a nomination looks at: the first 128.
pub open spec fn looked_at(targets: Seq<NominationTarget>) -> int {
    if targets.len() <= 128 {
        targets.len() as int
    } else {
        128
    }
}

/// A nomination is accepted if and only if it comes from a controller and has a target, each of its
/// first 128 targets stands for an account and is an operated contract, and their values together,
/// as far as a balance can hold them, are no more than is active. Of several reasons to refuse it the
/// first in this order is given.
pub proof fn law_nomination_is_accepted_or_refused(
    state: State,
    controller: AccountId,
    targets: Seq<NominationTarget>,
    env: Environment,
)
    ensures
        ({
            let outcome = state.nominate_contracts(controller, targets, env);
            let n = looked_at(targets);
            let paired = state.ledger.contains_key(controller);
            let known = forall|i: int| 0 <= i < n ==> (#[trigger] targets[i]).contract is Some;
            let operated = forall|i: int| 0 <= i < n ==> (#[trigger] targets[i]).operated;
            let sum = targets.take(n).fold_left(0int, add_value());
            let active = state.ledger[controller].active;
            let covered = sum <= active || (sum > Balance::MAX && active == Balance::MAX);
            &&& outcome is Ok <==> paired && targets.len() > 0 && known && operated && covered
            &&& !paired ==> outcome->Err_0 == DispatchError::Module(Error::NotController)
            &&& paired && targets.len() == 0 ==> outcome->Err_0 == DispatchError::Module(
                Error::EmptyNominateTargets,
            )
            &&& paired && targets.len() > 0 && !known ==> outcome->Err_0
                == DispatchError::CannotLookup
            &&& paired && targets.len() > 0 && known && !operated ==> outcome->Err_0
                == DispatchError::Module(Error::NotOperatedContracts)
            &&& paired && targets.len() > 0 && known && operated && !covered ==> outcome->Err_0
                == DispatchError::Module(Error::NotEnoughStaking)
        }),
{
    let n = looked_at(targets);
    let first = considered(targets);
    assert(first =~= targets.take(n));
    lemma_values_sum(first);
    assert forall|i: int| 0 <= i < n implies #[trigger] first[i] == targets[i] by {}
    assert(forall|i: int| 0 <= i < n ==> #[trigger] targets[i] == first[i]);
}

/// A nomination that is accepted is recorded for the stash of the controller, in the place of what it
/// nominated before: target by target the account and the value that were given, for the first 128
/// targets, submitted in the current era, or in era 0 where there is none, and not suppressed. It is
/// reported. Nothing else changes.
pub proof fn law_nomination_takes_effect(
    state: State,
    controller: AccountId,
    targets: Seq<NominationTarget>,
    env: Environment,
)
    requires
        state.nominate_contracts(controller, targets, env) is Ok,
    ensures
        ({
            let (after, actions) = state.nominate_contracts(controller, targets, env)->Ok_0;
            let stash = state.ledger[controller].stash;
            let nomination = after.nominations[stash];
            &&& after == (State {
                nominations: state.nominations.insert(stash, nomination),
                ..state
            })
            &&& nomination.targets.len() == looked_at(targets)
            &&& forall|i: int|
                0 <= i < nomination.targets.len() ==> {
                    &&& targets[i].contract is Some
                    &&& targets[i].operated
                    &&& (#[trigger] nomination.targets[i]).0 == targets[i].contract->0
                    &&& nomination.targets[i].1 == targets[i].value
                }
            &&& env.current_era is Some ==> nomination.submitted_in == env.current_era->0
            &&& env.current_era is None ==> nomination.submitted_in == 0
            &&& !nomination.suppressed
            &&& actions.len() == 1
            &&& actions[0] == Action::DepositEvent(Event::Nominate(stash))
        }),
{
    law_nomination_is_accepted_or_refused(state, controller, targets, env);
    let after = (state.nominate_contracts(controller, targets, env)->Ok_0).0;
    let stash = state.ledger[controller].stash;
    let first = considered(targets);
    assert(first =~= targets.take(looked_at(targets)));
    assert(forall|i: int| 0 <= i < looked_at(targets) ==> #[trigger] targets[i] == first[i]);
    assert forall|i: int| 0 <= i < after.nominations[stash].targets.len() implies {
        &&& targets[i].contract is Some
        &&& targets[i].operated
        &&& (#[trigger] after.nominations[stash].targets[i]).0 == targets[i].contract->0
        &&& after.nominations[stash].targets[i].1 == targets[i].value
    } by {
        assert(targets[i] == first[i]);
    }
}

/// A controller can chill its stash, and nobody else: the nominations of the stash go, those of others
/// stay, and so does everything else. To chill a stash directly does the same.
pub proof fn law_chill_takes_effect(state: State, controller: AccountId, stash: AccountId)
    ensures
        ({
            let outcome = state.chill(controller);
            let (after, actions) = outcome->Ok_0;
            &&& outcome is Ok <==> state.ledger.contains_key(controller)
            &&& outcome is Err ==> outcome->Err_0 == DispatchError::Module(Error::NotController)
            &&& outcome is Ok ==> {
                &&& after == (State {
                    nominations: state.nominations.remove(state.ledger[controller].stash),
                    ..state
                })
                &&& actions.len() == 0
            }
        }),
        state.chill_stash(stash) == (State { nominations: state.nominations.remove(stash), ..state }),
{
}

/// A controller can set the payee of its stash, and nobody else: the rewards of the stash go where
/// was asked for from then on, whichever destination it is. The payees of others, bonds, ledgers,
/// nominations and all else stay.
pub proof fn law_payee_is_what_was_asked_for(
    state: State,
    controller: AccountId,
    payee: RewardDestination,
)
    ensures
        ({
            let outcome = state.set_payee(controller, payee);
            let (after, actions) = outcome->Ok_0;
            let stash = state.ledger[controller].stash;
            &&& outcome is Ok <==> state.ledger.contains_key(controller)
            &&& outcome is Err ==> outcome->Err_0 == DispatchError::Module(Error::NotController)
            &&& outcome is Ok ==> {
                &&& after.payee.contains_key(stash)
                &&& after.payee[stash] == payee
                &&& after.payee_of(stash) == payee
                &&& forall|other: AccountId|
                    other != stash ==> {
                        &&& #[trigger] after.payee.contains_key(other) == state.payee.contains_key(
                            other,
                        )
                        &&& after.payee[other] == state.payee[other]
                    }
                &&& after.bonded == state.bonded
                &&& after.ledger == state.ledger
                &&& after.nominations == state.nominations
                &&& after.staking_points == state.staking_points
                &&& after.total_stake == state.total_stake
                &&& after.untreated_era == state.untreated_era
                &&& actions.len() == 0
            }
        }),
{
}

/// A payee that was set last counts: whatever was set before, it makes no difference.
pub proof fn law_last_payee_counts(
    state: State,
    controller: AccountId,
    first: RewardDestination,
    second: RewardDestination,
)
    requires
        state.ledger.contains_key(controller),
    ensures
        (state.set_payee(controller, first)->Ok_0).0.set_payee(controller, second)
            == state.set_payee(controller, second),
        first != second ==> state.set_payee(controller, first) != state.set_payee(controller, second),
{
    let stash = state.ledger[controller].stash;
    let once = (state.set_payee(controller, first)->Ok_0).0;
    let twice = (once.set_payee(controller, second)->Ok_0).0;
    let other = (state.set_payee(controller, second)->Ok_0).0;
    assert(twice.payee =~= other.payee);
    assert(once.payee[stash] == first && other.payee[stash] == second);
}

/// Where the rewards of a stash go is what was set for it, and to its stake where nothing was.
pub proof fn law_payee_of_a_stash(state: State, stash: AccountId)
    ensures
        state.payee.contains_key(stash) ==> state.payee_of(stash) == state.payee[stash],
        !state.payee.contains_key(stash) ==> state.payee_of(stash) == RewardDestination::Staked,
{
}

/// A bonded stash can be handed to a controller that is known and controls nothing. Of several reasons
/// to refuse it the first in this order is given.
pub proof fn law_handover_is_accepted_or_refused(
    state: State,
    stash: AccountId,
    controller: Option<AccountId>,
)
    ensures
        ({
            let outcome = state.set_controller(stash, controller);
            let bonded = state.bonded.contains_key(stash);
            let known = controller is Some;
            let paired = known && state.ledger.contains_key(controller->0);
            &&& outcome is Ok <==> bonded && known && !paired
            &&& !bonded ==> outcome->Err_0 == DispatchError::Module(Error::NotStash)
            &&& bonded && !known ==> outcome->Err_0 == DispatchError::CannotLookup
            &&& bonded && paired ==> outcome->Err_0 == DispatchError::Other(
                "controller already paired",
            )
        }),
{
}

/// A stash that is handed over is bonded to the new controller. The ledger of the old one, if there
/// is one, is the ledger of the new one from then on, and the old one has none. Nothing else changes
/// and nothing is done.
pub proof fn law_handover_takes_effect(state: State, stash: AccountId, controller: AccountId)
    requires
        state.set_controller(stash, Some(controller)) is Ok,
    ensures
        ({
            let (after, actions) = state.set_controller(stash, Some(controller))->Ok_0;
            let old_controller = state.bonded[stash];
            &&& after == (State { bonded: after.bonded, ledger: after.ledger, ..state })
            &&& after.bonded == state.bonded.insert(stash, controller)
            &&& state.ledger.contains_key(old_controller) ==> {
                &&& after.ledger.contains_key(controller)
                &&& after.ledger[controller] == state.ledger[old_controller]
                &&& !after.ledger.contains_key(old_controller)
            }
            &&& !state.ledger.contains_key(old_controller) ==> after.ledger == state.ledger
            &&& forall|other: AccountId|
                other != controller && other != old_controller ==> {
                    &&& #[trigger] after.ledger.contains_key(other) == state.ledger.contains_key(other)
                    &&& after.ledger[other] == state.ledger[other]
                }
            &&& actions.len() == 0
        }),
{
}

} // verus!
