//! What calls do in turn: what one adds or holds back, and what another lets go again.
use crate::calls::{law_calls_keep_state_sound, lemma_withdrawn_sound, Call};
use crate::ledger::{
    chunks_sum, lemma_chunks_split, lemma_still_locked, matured, still_locked,
};
use crate::payout::lookup;
use crate::state::{considered, lesser, lock_of, values_sum, State};
use crate::types::{
    AccountId, Action, Balance, DispatchError, Environment, EraIndex, Error, Event, LedgerView,
    NominationTarget, RewardDestination, UnlockChunk,
};
use vstd::prelude::*;

verus! {

/// A stash that bonds puts at stake what it asked for, or all that it has free where that is less,
/// and nothing of it is on its way out.
pub proof fn law_bond_stakes_what_is_free(
    state: State,
    stash: AccountId,
    controller: AccountId,
    value: Balance,
    payee: RewardDestination,
    free_balance: Balance,
    env: Environment,
)
    requires
        state.wf(),
        !state.bonded.contains_key(stash),
        !state.ledger.contains_key(controller),
        value >= env.minimum_balance,
    ensures
        ({
            let outcome = state.bond(stash, Some(controller), value, payee, free_balance, env);
            let after = (outcome->Ok_0).0;
            let ledger = after.ledger_of(stash)->0;
            &&& outcome is Ok
            &&& lookup(after.bonded, stash) == Some(controller)
            &&& after.payee_of(stash) == payee
            &&& after.ledger_of(stash) is Some
            &&& ledger.stash == stash
            &&& ledger.total == lesser(value, free_balance)
            &&& ledger.active == ledger.total
            &&& ledger.unlocking.len() == 0
            &&& ledger.last_reward == env.current_era
        }),
{
}

/// What is bonded later counts in full, up to all that the stash has free: the stash then has at
/// stake or on its way out what it had and `max_additional`, or its free balance where that is less.
/// Where less is free than it already has, nothing changes.
pub proof fn law_bond_extra_reaches_what_is_free(
    state: State,
    stash: AccountId,
    max_additional: Balance,
    free_balance: Balance,
)
    requires
        state.wf(),
        state.bonded.contains_key(stash),
    ensures
        ({
            let outcome = state.bond_extra(stash, max_additional, free_balance);
            let after = (outcome->Ok_0).0;
            let before = state.ledger_of(stash)->0;
            let ledger = after.ledger_of(stash)->0;
            &&& outcome is Ok
            &&& after.ledger_of(stash) is Some
            &&& free_balance < before.total ==> after == state
            &&& free_balance >= before.total ==> {
                &&& ledger.total == if before.total + max_additional <= free_balance {
                    before.total + max_additional
                } else {
                    free_balance as int
                }
                &&& ledger.active - before.active == ledger.total - before.total
                &&& ledger.unlocking == before.unlocking
            }
        }),
{
    let before = state.ledger_of(stash)->0;
    assert(before.wf());
}

/// To unbond is to move: what stops being active is on its way out in one chunk more, which becomes
/// free when the bonding duration is over. The total stays. What stays active is nothing or at
/// least the minimum balance. As much as was asked for is moved, or all that is active.
pub proof fn law_unbond_moves_stake(
    state: State,
    controller: AccountId,
    value: Balance,
    env: Environment,
)
    requires
        state.wf(),
        state.unbonds_something(controller, value),
        State::unlock_era(env) <= EraIndex::MAX,
    ensures
        ({
            let outcome = state.unbond(controller, value, env);
            let before = state.ledger[controller];
            let after = (outcome->Ok_0).0.ledger[controller];
            let chunk = after.unlocking.last();
            &&& outcome is Ok
            &&& after.total == before.total
            &&& after.unlocking == before.unlocking.push(chunk)
            &&& chunk.era == State::unlock_era(env)
            &&& after.active + chunk.value == before.active
            &&& chunk.value > 0
            &&& after.active == 0 || after.active >= env.minimum_balance
            &&& chunk.value >= lesser(value, before.active)
            &&& chunk.value > value ==> after.active == 0
        }),
{
    let before = state.ledger[controller];
    let after = (state.unbond(controller, value, env)->Ok_0).0.ledger[controller];
    assert(after.unlocking =~= before.unlocking.push(after.unlocking.last()));
}

/// A withdrawal frees the chunks whose era has come, all of them and no other, in the total too. It
/// reports what they are worth together.
pub proof fn law_withdrawal_frees_what_is_due(state: State, controller: AccountId, env: Environment)
    requires
        state.wf(),
        state.ledger.contains_key(controller),
        env.current_era is Some,
    ensures
        ({
            let before = state.ledger[controller];
            let after = State::withdrawn(before, env.current_era);
            let free = matured(before.unlocking, env.current_era->0);
            let outcome = state.withdraw_unbonded(controller, env);
            &&& outcome is Ok
            &&& after.total + chunks_sum(free) == before.total
            &&& after.active == before.active
            &&& after.unlocking == still_locked(before.unlocking, env.current_era->0)
            &&& lookup((outcome->Ok_0).0.ledger, controller) == if after.total == 0 {
                None
            } else {
                Some(after)
            }
            &&& chunks_sum(free) > 0 ==> (outcome->Ok_0).1.last() == Action::DepositEvent(
                Event::Withdrawn(before.stash, chunks_sum(free) as Balance),
            )
        }),
{
    let before = state.ledger[controller];
    let era = env.current_era->0;
    let after = State::withdrawn(before, env.current_era);
    lemma_chunks_split(before.unlocking, era);
    lemma_withdrawn_sound(before, env.current_era);
    assert(state.bonded.contains_key(before.stash));
    lemma_nothing_left(after);
}

/// A ledger that adds up has a total of nothing if and only if nothing is active and nothing is on
/// its way out.
proof fn lemma_nothing_left(ledger: LedgerView)
    requires
        ledger.wf(),
    ensures
        ledger.total == 0 <==> ledger.active == 0 && ledger.unlocking.len() == 0,
{
    if ledger.unlocking.len() > 0 {
        assert(ledger.unlocking[ledger.unlocking.len() - 1].value > 0);
    }
}

/// Chunks whose era has not come all stay.
proof fn lemma_all_still_locked(chunks: Seq<UnlockChunk<Balance>>, era: EraIndex)
    requires
        forall|i: int| 0 <= i < chunks.len() ==> (#[trigger] chunks[i]).era > era,
    ensures
        still_locked(chunks, era) == chunks,
        matured(chunks, era).len() == 0,
    decreases chunks.len(),
{
    reveal(Seq::filter);
    if chunks.len() > 0 {
        let rest = chunks.drop_last();
        assert forall|i: int| 0 <= i < rest.len() implies (#[trigger] rest[i]).era > era by {
            assert(rest[i] == chunks[i]);
        }
        lemma_all_still_locked(rest, era);
        assert(chunks[chunks.len() - 1].era > era);
        assert(still_locked(chunks, era) =~= chunks);
    } else {
        assert(still_locked(chunks, era) =~= chunks);
    }
}

/// Nothing leaves before its era: where no chunk is free yet, and something is left in the ledger,
/// a withdrawal changes nothing and reports nothing.
pub proof fn law_nothing_leaves_early(state: State, controller: AccountId, env: Environment)
    requires
        state.wf(),
        state.ledger.contains_key(controller),
        state.ledger[controller].total > 0,
        env.current_era matches Some(era) ==> forall|i: int|
            0 <= i < state.ledger[controller].unlocking.len() ==> (
            #[trigger] state.ledger[controller].unlocking[i]).era > era,
    ensures
        ({
            let ledger = state.ledger[controller];
            state.withdraw_unbonded(controller, env) == Ok::<_, DispatchError>(
                (state, seq![lock_of(ledger)]),
            )
        }),
{
    let ledger = state.ledger[controller];
    if let Some(era) = env.current_era {
        lemma_all_still_locked(ledger.unlocking, era);
    }
    lemma_nothing_left(ledger);
    let after = State::withdrawn(ledger, env.current_era);
    assert(after == ledger);
    assert(state.with_ledger(controller, ledger) =~= state);
    assert(seq![lock_of(ledger)] + Seq::<Action>::empty() =~= seq![
        lock_of(ledger),
    ]);
}

/// A second withdrawal in the same era finds nothing more to free.
pub proof fn law_second_withdrawal_frees_nothing(
    state: State,
    controller: AccountId,
    env: Environment,
)
    requires
        state.wf(),
    ensures
        ({
            let call = Call::WithdrawUnbonded { controller, env };
            state.after(call).after(call) == state.after(call)
        }),
{
    let call = Call::WithdrawUnbonded { controller, env };
    if state.ledger.contains_key(controller) {
        let once = state.after(call);
        let before = state.ledger[controller];
        let after = State::withdrawn(before, env.current_era);
        lemma_withdrawn_sound(before, env.current_era);
        lemma_nothing_left(after);
        assert(state.bonded.contains_key(before.stash));
        if after.total > 0 {
            law_calls_keep_state_sound(state, call);
            if let Some(era) = env.current_era {
                lemma_still_locked(before.unlocking, era);
            }
            law_nothing_leaves_early(once, controller, env);
        } else {
            assert(!once.ledger.contains_key(controller));
        }
    }
}

/// A chunk is either kept or let go.
proof fn lemma_chunks_count(chunks: Seq<UnlockChunk<Balance>>, era: EraIndex)
    ensures
        still_locked(chunks, era).len() + matured(chunks, era).len() == chunks.len(),
    decreases chunks.len(),
{
    reveal(Seq::filter);
    if chunks.len() > 0 {
        lemma_chunks_count(chunks.drop_last(), era);
    }
}

/// A withdrawal that frees a chunk makes room for another: where the stash is still there, it can
/// unbond again, also where it had as many chunks as there can be.
pub proof fn law_withdrawal_makes_room(
    state: State,
    controller: AccountId,
    env: Environment,
    value: Balance,
    later: Environment,
)
    requires
        state.wf(),
        state.ledger.contains_key(controller),
        env.current_era matches Some(era) && matured(state.ledger[controller].unlocking, era).len() > 0,
    ensures
        ({
            let after = state.after(Call::WithdrawUnbonded { controller, env });
            after.ledger.contains_key(controller) ==> after.unbond(controller, value, later) is Ok
        }),
{
    lemma_chunks_count(state.ledger[controller].unlocking, env.current_era->0);
    assert(state.bonded.contains_key(state.ledger[controller].stash));
}

/// All that was bonded comes back: a stash that bonds, unbonds everything and withdraws when the
/// bonding duration is over leaves the module as it was, and everything is reported as withdrawn.
pub proof fn law_bonding_is_undone(
    state: State,
    stash: AccountId,
    controller: AccountId,
    value: Balance,
    payee: RewardDestination,
    free_balance: Balance,
    bonding: Environment,
    unbonding: Environment,
    withdrawing: Environment,
    asked: Balance,
)
    requires
        state.wf(),
        !state.bonded.contains_key(stash),
        !state.ledger.contains_key(controller),
        value >= bonding.minimum_balance,
        asked >= lesser(value, free_balance),
        State::unlock_era(unbonding) <= EraIndex::MAX,
        withdrawing.current_era matches Some(era) && era >= State::unlock_era(unbonding),
    ensures
        ({
            let amount = lesser(value, free_balance);
            let bonded = (state.bond(
                stash,
                Some(controller),
                value,
                payee,
                free_balance,
                bonding,
            )->Ok_0).0;
            let unbonded = (bonded.unbond(controller, asked, unbonding)->Ok_0).0;
            let report = if amount > 0 {
                seq![Action::DepositEvent(Event::Withdrawn(stash, amount))]
            } else {
                Seq::empty()
            };
            &&& state.bond(stash, Some(controller), value, payee, free_balance, bonding) is Ok
            &&& bonded.unbond(controller, asked, unbonding) is Ok
            &&& unbonded.withdraw_unbonded(controller, withdrawing) == Ok::<_, DispatchError>(
                (state, seq![Action::DecRef(stash), Action::RemoveLock(stash)] + report),
            )
        }),
{
    let amount = lesser(value, free_balance);
    let bonded = (state.bond(
        stash,
        Some(controller),
        value,
        payee,
        free_balance,
        bonding,
    )->Ok_0).0;
    let unbonded = (bonded.unbond(controller, asked, unbonding)->Ok_0).0;
    let era = withdrawing.current_era->0;
    let ledger = unbonded.ledger[controller];
    reveal(Seq::filter);
    reveal_with_fuel(Seq::filter, 3);
    reveal_with_fuel(chunks_sum, 3);
    assert(State::unbonded_value(bonded.ledger[controller], asked, unbonding.minimum_balance) == amount);
    assert(ledger.active == 0);
    assert(!state.nominations.contains_key(stash));
    if amount > 0 {
        let chunk = UnlockChunk { value: amount, era: State::unlock_era(unbonding) as EraIndex };
        assert(ledger.unlocking =~= seq![chunk]);
        assert(ledger.unlocking.drop_last() =~= Seq::empty());
        lemma_chunks_split(ledger.unlocking, era);
        assert(still_locked(ledger.unlocking, era) =~= Seq::empty());
    } else {
        assert(ledger.unlocking =~= Seq::empty());
        assert(still_locked(ledger.unlocking, era) =~= Seq::empty());
        assert(matured(ledger.unlocking, era) =~= Seq::empty());
    }
    let after = State::withdrawn(ledger, withdrawing.current_era);
    assert(after.total == 0);
    let outcome = unbonded.withdraw_unbonded(controller, withdrawing)->Ok_0;
    assert(!state.payee.dom().contains(stash));
    assert(outcome.0.bonded =~= state.bonded);
    assert(outcome.0.ledger =~= state.ledger);
    assert(outcome.0.payee =~= state.payee);
    assert(outcome.0.nominations =~= state.nominations);
    assert(outcome.0 =~= state);
    let report = State::withdrawal_report(ledger, after);
    assert(seq![Action::DecRef(stash)].push(Action::RemoveLock(stash)) + report =~= seq![
        Action::DecRef(stash),
        Action::RemoveLock(stash),
    ] + report);
}

/// Once the last of a stash has been withdrawn, nothing of it is stored: neither bond, payee,
/// nominations nor ledger.
pub proof fn law_last_withdrawal_forgets_stash(
    state: State,
    controller: AccountId,
    env: Environment,
)
    requires
        state.wf(),
        state.ledger.contains_key(controller),
        State::withdrawn(state.ledger[controller], env.current_era).total == 0,
    ensures
        ({
            let stash = state.ledger[controller].stash;
            let outcome = state.withdraw_unbonded(controller, env);
            let after = (outcome->Ok_0).0;
            &&& outcome is Ok
            &&& !after.bonded.contains_key(stash)
            &&& !after.payee.contains_key(stash)
            &&& !after.nominations.contains_key(stash)
            &&& after.ledger == state.ledger.remove(controller)
        }),
{
    let before = state.ledger[controller];
    lemma_withdrawn_sound(before, env.current_era);
    lemma_nothing_left(State::withdrawn(before, env.current_era));
    assert(state.bonded.contains_key(before.stash));
}

/// A stash is removed once: after a removal, done or refused, a second one is refused and changes
/// nothing. In particular it drops no second reference.
pub proof fn law_second_removal_is_refused(state: State, stash: AccountId)
    ensures
        ({
            let after = match state.kill_stash(stash) {
                Ok((removed, _)) => removed,
                Err(_) => state,
            };
            after.kill_stash(stash) == Err::<(State, Seq<Action>), _>(
                DispatchError::Module(Error::NotStash),
            )
        }),
{
}

/// A nomination that is accepted asks for no more than is active, while what it asks for is an
/// amount that a balance can hold.
pub proof fn law_nominations_are_covered(
    state: State,
    controller: AccountId,
    targets: Seq<NominationTarget>,
    env: Environment,
)
    requires
        state.nominate_contracts(controller, targets, env) is Ok,
        values_sum(considered(targets)) <= Balance::MAX,
    ensures
        values_sum(considered(targets)) <= state.ledger[controller].active,
{
}

/// To chill is to undo a nomination: nothing is nominated afterwards, and where nothing was before,
/// all is as it was.
pub proof fn law_chill_undoes_nomination(
    state: State,
    controller: AccountId,
    targets: Seq<NominationTarget>,
    env: Environment,
)
    requires
        state.nominate_contracts(controller, targets, env) is Ok,
    ensures
        ({
            let stash = state.ledger[controller].stash;
            let nominated = (state.nominate_contracts(controller, targets, env)->Ok_0).0;
            let chilled = (nominated.chill(controller)->Ok_0).0;
            &&& nominated.nominations.contains_key(stash)
            &&& nominated.chill(controller) is Ok
            &&& !chilled.nominations.contains_key(stash)
            &&& chilled == state.chill_stash(stash)
            &&& !state.nominations.contains_key(stash) ==> chilled == state
        }),
{
    let stash = state.ledger[controller].stash;
    let nominated = (state.nominate_contracts(controller, targets, env)->Ok_0).0;
    let chilled = (nominated.chill(controller)->Ok_0).0;
    assert(chilled =~= state.chill_stash(stash));
    if !state.nominations.contains_key(stash) {
        assert(chilled =~= state);
    }
}

/// A stash that is handed over keeps its ledger, its payee and its nominations. The old controller
/// controls nothing any more. Handed back, all is as it was.
pub proof fn law_controller_can_be_set_back(state: State, stash: AccountId, controller: AccountId)
    requires
        state.wf(),
        state.bonded.contains_key(stash),
        !state.ledger.contains_key(controller),
    ensures
        ({
            let old_controller = state.bonded[stash];
            let outcome = state.set_controller(stash, Some(controller));
            let after = (outcome->Ok_0).0;
            &&& outcome is Ok
            &&& lookup(after.bonded, stash) == Some(controller)
            &&& after.ledger_of(stash) == state.ledger_of(stash)
            &&& lookup(after.payee, stash) == lookup(state.payee, stash)
            &&& lookup(after.nominations, stash) == lookup(state.nominations, stash)
            &&& !after.ledger.contains_key(old_controller)
            &&& after.set_controller(stash, Some(old_controller)) == Ok::<_, DispatchError>(
                (state, Seq::<Action>::empty()),
            )
        }),
{
    let old_controller = state.bonded[stash];
    assert(state.ledger.contains_key(old_controller));
    let after = (state.set_controller(stash, Some(controller))->Ok_0).0;
    let back = (after.set_controller(stash, Some(old_controller))->Ok_0).0;
    assert(back.ledger =~= state.ledger);
    assert(back.bonded =~= state.bonded);
    assert(back =~= state);
}

/// No stash can be bonded twice, and no controller can be paired twice.
pub proof fn law_pairs_are_exclusive(
    state: State,
    stash: AccountId,
    controller: AccountId,
    value: Balance,
    payee: RewardDestination,
    free_balance: Balance,
    env: Environment,
)
    requires
        state.bonded.contains_key(stash) || state.ledger.contains_key(controller),
    ensures
        state.bond(stash, Some(controller), value, payee, free_balance, env) is Err,
        state.ledger.contains_key(controller) ==> state.set_controller(stash, Some(controller)) is Err,
{
}

} // verus!
