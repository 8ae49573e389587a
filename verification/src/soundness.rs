//! Rewards, elections and the closing of eras keep what is stored sound.
use crate::calls::{
    law_calls_keep_holdings_in_agreement, law_calls_keep_state_sound, same_stash, Call, Holdings,
};
use crate::election::{law_election_gives_sound_points, points_of, points_sound};
use crate::order::{in_order, lemma_in_order};
use crate::payout::{
    distinct_names, lemma_dues_distinct, lemma_nominators_finite, lookup, nominated_by_all,
    operator_payment, operator_payments, staked_in_all,
};
use crate::share::share;
use crate::state::State;
use crate::types::{AccountId, Action, Balance, EraIndex, PointsView, RewardDestination};
use vstd::prelude::*;

verus! {

/// One payout that fits keeps what is stored sound.
pub proof fn law_payout_keeps_state_sound(state: State, stash: AccountId, amount: Balance)
    requires
        state.wf(),
        state.payout_fits(stash, amount),
    ensures
        state.make_payout(stash, amount).0.wf(),
{
}

/// Wherever a payout goes, and whether its deposit succeeds or fails, every ledger that added up
/// still does. The payout adds no ledger and removes none, and leaves bonds, payees and nominations
/// as they are.
pub proof fn law_payout_keeps_ledgers_adding_up(state: State, stash: AccountId, amount: Balance)
    requires
        forall|c: AccountId| #[trigger] state.ledger.contains_key(c) ==> state.ledger[c].adds_up(),
        state.payout_fits(stash, amount),
    ensures
        ({
            let after = state.make_payout(stash, amount).0;
            &&& forall|c: AccountId| #[trigger]
                after.ledger.contains_key(c) ==> after.ledger[c].adds_up()
            &&& after.ledger.dom() == state.ledger.dom()
            &&& after.bonded == state.bonded
            &&& after.payee == state.payee
            &&& after.nominations == state.nominations
        }),
{
    let after = state.make_payout(stash, amount).0;
    assert(after.ledger.dom() =~= state.ledger.dom());
}

/// A stash that has been removed earns nothing: a payout to it, of whatever amount, deposits nothing,
/// adds no ledger and sets no lock.
pub proof fn law_removed_stash_earns_nothing(state: State, stash: AccountId, amount: Balance)
    requires
        state.kill_stash(stash) is Ok,
    ensures
        ({
            let removed = (state.kill_stash(stash)->Ok_0).0;
            &&& removed.payee_of(stash) == RewardDestination::Staked
            &&& removed.payout_fits(stash, amount)
            &&& removed.make_payout(stash, amount) == (removed, Seq::<Action>::empty())
        }),
{
}

/// A stash can be chilled or removed, and what is stored stays sound.
pub proof fn law_leaving_keeps_state_sound(state: State, stash: AccountId)
    requires
        state.wf(),
    ensures
        state.chill_stash(stash).wf(),
        state.kill_stash(stash) matches Ok((removed, _)) ==> removed.wf(),
{
    let removed = state.without_stash(stash);
    assert(removed.payee.dom() =~= removed.bonded.dom());
}

/// Payouts that each fit in their turn keep what is stored sound. They change only ledgers, and only
/// those of stashes that are owed something.
pub proof fn law_payouts_keep_state_sound(state: State, dues: Seq<(AccountId, Balance)>)
    requires
        state.wf(),
        state.payouts_fit(dues),
    ensures
        state.pay_all(dues).0.wf(),
        state.pay_all(dues).0 == (State { ledger: state.pay_all(dues).0.ledger, ..state }),
        forall|other: AccountId|
            (forall|i: int| 0 <= i < dues.len() ==> (#[trigger] dues[i]).0 != other)
                ==> #[trigger] same_stash(state, state.pay_all(dues).0, other),
    decreases dues.len(),
{
    if dues.len() > 0 {
        let rest = dues.drop_last();
        law_payouts_keep_state_sound(state, rest);
        let before = state.pay_all(rest).0;
        let (stash, amount) = dues[dues.len() - 1];
        law_payout_keeps_state_sound(before, stash, amount);
        let after = state.pay_all(dues).0;
        assert forall|other: AccountId|
            (forall|i: int| 0 <= i < dues.len() ==> (#[trigger] dues[i]).0 != other) implies #[trigger] same_stash(
            state,
            after,
            other,
        ) by {
            assert(dues[dues.len() - 1].0 != other);
            assert forall|i: int| 0 <= i < rest.len() implies (#[trigger] rest[i]).0 != other by {
                assert(rest[i] == dues[i]);
            }
            assert(same_stash(state, before, other));
            if before.bonded.contains_key(other) && before.bonded.contains_key(stash) {
                assert(before.bonded[other] != before.bonded[stash]);
            }
        }
    }
}

/// Where no nominator is owed twice, all payouts fit in their turn if and only if each fits by
/// itself.
pub proof fn law_payouts_do_not_interfere(state: State, dues: Seq<(AccountId, Balance)>)
    requires
        state.wf(),
        distinct_names(dues),
    ensures
        state.payouts_fit(dues) <==> forall|i: int|
            0 <= i < dues.len() ==> state.payout_fits((#[trigger] dues[i]).0, dues[i].1),
    decreases dues.len(),
{
    if dues.len() > 0 {
        let rest = dues.drop_last();
        let last = dues.len() - 1;
        assert forall|i: int, j: int| 0 <= i < j < rest.len() implies (#[trigger] rest[i]).0 != (
        #[trigger] rest[j]).0 by {
            assert(rest[i] == dues[i] && rest[j] == dues[j]);
        }
        law_payouts_do_not_interfere(state, rest);
        assert forall|i: int| 0 <= i < rest.len() implies (#[trigger] rest[i]).0 != dues[last].0 by {
            assert(rest[i] == dues[i]);
        }
        if state.payouts_fit(rest) {
            law_payouts_keep_state_sound(state, rest);
            assert(same_stash(state, state.pay_all(rest).0, dues[last].0));
        }
        assert(forall|i: int| 0 <= i < rest.len() ==> rest[i] == dues[i]);
        if forall|i: int| 0 <= i < dues.len() ==> state.payout_fits((#[trigger] dues[i]).0, dues[i].1) {
            assert forall|i: int| 0 <= i < rest.len() implies state.payout_fits(
                (#[trigger] rest[i]).0,
                rest[i].1,
            ) by {
                assert(rest[i] == dues[i]);
            }
            assert(state.payout_fits(dues[last].0, dues[last].1));
        }
        if state.payouts_fit(dues) {
            assert forall|i: int| 0 <= i < dues.len() implies state.payout_fits(
                (#[trigger] dues[i]).0,
                dues[i].1,
            ) by {
                if i < last {
                    assert(rest[i] == dues[i]);
                }
            }
        }
    }
}

/// The points of every era add up, if what is stored is sound.
pub proof fn lemma_points_in_sound(state: State, era: EraIndex)
    requires
        state.wf(),
    ensures
        points_sound(state.points_in(era)),
{
}

/// No nominator is owed twice for an era.
pub proof fn law_dues_name_each_nominator_once(state: State, era: EraIndex, reward: Balance)
    requires
        state.wf(),
    ensures
        distinct_names(state.dues_in(era, reward)),
{
    let points = state.points_in(era);
    lemma_points_in_sound(state, era);
    lemma_in_order(points.dom());
    let contracts = in_order(points.dom());
    assert forall|i: int| 0 <= i < contracts.len() implies points[#[trigger] contracts[i]].individual.dom().finite() by {
        assert(contracts.to_set().contains(contracts[i]));
        assert(points.contains_key(contracts[i]));
    }
    lemma_nominators_finite(points, contracts);
    lemma_dues_distinct(
        nominated_by_all(points, contracts),
        staked_in_all(points, contracts),
        reward,
    );
}

/// Paying the rewards of an era keeps what is stored sound, and changes only ledgers.
pub proof fn law_rewards_keep_state_sound(
    state: State,
    era: EraIndex,
    operators_reward: Balance,
    nominators_reward: Balance,
    operators: Map<AccountId, AccountId>,
)
    requires
        state.wf(),
        state.rewards_fit(era, nominators_reward),
    ensures
        ({
            let after = state.reward_for_dapps(
                era,
                operators_reward,
                nominators_reward,
                operators,
            ).0;
            &&& after.wf()
            &&& after == (State { ledger: after.ledger, ..state })
        }),
{
    law_payouts_keep_state_sound(state, state.dues_in(era, nominators_reward));
}

/// Recording an election keeps what is stored sound, and changes nothing of any stash.
pub proof fn law_election_keeps_state_sound(state: State, era: EraIndex)
    requires
        state.wf(),
        state.election_fits(),
    ensures
        state.elected(era).wf(),
        forall|stash: AccountId| #[trigger] same_stash(state, state.elected(era), stash),
{
    let all = state.all_stakes();
    law_election_gives_sound_points(all);
    lemma_points_in_sound(state, era);
    let points = state.points_in(era).union_prefer_right(points_of(all));
    assert(points.dom() =~= state.points_in(era).dom().union(points_of(all).dom()));
    assert(points_sound(points));
}

/// Where what is stored is sound, a ledger can always take what `bond_extra` adds.
pub proof fn law_extra_always_fits(
    state: State,
    stash: AccountId,
    max_additional: Balance,
    free_balance: Balance,
)
    requires
        state.wf(),
    ensures
        state.extra_fits(stash, max_additional, free_balance),
{
    if state.bonded.contains_key(stash) {
        assert(state.ledger[state.bonded[stash]].wf());
    }
}

/// Closing an era keeps what is stored sound.
pub proof fn law_closing_keeps_state_sound(state: State)
    requires
        state.wf(),
    ensures
        state.era_closed().wf(),
{
}

/// Steps in two goes are the same as in one.
proof fn lemma_steps_concat(held: Holdings, a: Seq<Action>, b: Seq<Action>)
    ensures
        held.steps(a + b) == held.steps(a).steps(b),
    decreases b.len(),
{
    if b.len() == 0 {
        assert(a + b =~= a);
    } else {
        assert((a + b).drop_last() =~= a + b.drop_last());
        lemma_steps_concat(held, a, b.drop_last());
    }
}

/// Payments to operators touch no lock and no reference.
proof fn lemma_operators_hold_nothing(
    held: Holdings,
    points: Map<AccountId, PointsView>,
    contracts: Seq<AccountId>,
    staked: Balance,
    reward: Balance,
    operators: Map<AccountId, AccountId>,
)
    ensures
        held.steps(operator_payments(points, contracts, staked, reward, operators)) == held,
    decreases contracts.len(),
{
    if contracts.len() > 0 {
        let rest = contracts.drop_last();
        lemma_operators_hold_nothing(held, points, rest, staked, reward, operators);
        let contract = contracts.last();
        let amount = share(points[contract].total as nat, staked as nat, reward as nat) as Balance;
        let now = operator_payment(lookup(operators, contract), amount);
        lemma_steps_concat(
            held,
            operator_payments(points, rest, staked, reward, operators),
            now,
        );
        reveal_with_fuel(Holdings::steps, 2);
    }
}

/// One payout leaves the locks and the references in agreement with what is stored.
proof fn lemma_payout_keeps_holdings(state: State, stash: AccountId, amount: Balance, held: Holdings)
    requires
        state.wf(),
        state.payout_fits(stash, amount),
        held.agrees(state),
    ensures
        held.steps(state.make_payout(stash, amount).1).agrees(state.make_payout(stash, amount).0),
{
    reveal_with_fuel(Holdings::steps, 3);
    let (after, actions) = state.make_payout(stash, amount);
    let then = held.steps(actions);
    assert(then.locks.dom() =~= after.bonded.dom());
}

/// Payouts leave the locks and the references in agreement with what is stored.
proof fn lemma_payouts_keep_holdings(state: State, dues: Seq<(AccountId, Balance)>, held: Holdings)
    requires
        state.wf(),
        state.payouts_fit(dues),
        held.agrees(state),
    ensures
        held.steps(state.pay_all(dues).1).agrees(state.pay_all(dues).0),
    decreases dues.len(),
{
    if dues.len() > 0 {
        let rest = dues.drop_last();
        lemma_payouts_keep_holdings(state, rest, held);
        law_payouts_keep_state_sound(state, rest);
        let (before, paid) = state.pay_all(rest);
        let (stash, amount) = dues.last();
        lemma_payout_keeps_holdings(before, stash, amount, held.steps(paid));
        lemma_steps_concat(held, paid, before.make_payout(stash, amount).1);
    }
}

/// The steps of the rewards of an era leave the locks and the references in agreement with what is
/// stored: a reward that is staked is locked at once.
pub proof fn law_rewards_keep_holdings_in_agreement(
    state: State,
    era: EraIndex,
    operators_reward: Balance,
    nominators_reward: Balance,
    operators: Map<AccountId, AccountId>,
    held: Holdings,
)
    requires
        state.wf(),
        state.rewards_fit(era, nominators_reward),
        held.agrees(state),
    ensures
        ({
            let (after, actions) = state.reward_for_dapps(
                era,
                operators_reward,
                nominators_reward,
                operators,
            );
            held.steps(actions).agrees(after)
        }),
{
    let points = state.points_in(era);
    let contracts = in_order(points.dom());
    let staked = staked_in_all(points, contracts);
    let dues = state.dues_in(era, nominators_reward);
    lemma_payouts_keep_holdings(state, dues, held);
    lemma_operators_hold_nothing(held, points, contracts, staked, operators_reward, operators);
    lemma_steps_concat(
        held,
        operator_payments(points, contracts, staked, operators_reward, operators),
        state.pay_all(dues).1,
    );
}

/// Something that happens to the module.
pub enum Step {
    /// An account makes a call.
    Call(Call),
    /// The rewards of an era are paid.
    Reward {
        era: EraIndex,
        operators_reward: Balance,
        nominators_reward: Balance,
        operators: Map<AccountId, AccountId>,
    },
    /// An election is recorded for an era.
    Elect(EraIndex),
    /// The first untreated era is closed, for which an amount has been minted.
    Close(Balance),
}

impl State {
    /// The state after a step, with the actions that the runtime takes for it.
    pub open spec fn step(self, step: Step) -> (State, Seq<Action>) {
        match step {
            Step::Call(call) => match self.call(call) {
                Ok(done) => done,
                Err(_) => (self, Seq::empty()),
            },
            Step::Reward { era, operators_reward, nominators_reward, operators } => {
                self.reward_for_dapps(era, operators_reward, nominators_reward, operators)
            },
            Step::Elect(era) => (self.elected(era), Seq::empty()),
            Step::Close(minted) => (self.close_era(minted).0, seq![self.close_era(minted).1]),
        }
    }

    /// No amount in the step exceeds what a balance can hold.
    pub open spec fn step_fits(self, step: Step) -> bool {
        match step {
            Step::Reward { era, nominators_reward, .. } => self.rewards_fit(era, nominators_reward),
            Step::Elect(_) => self.election_fits(),
            _ => true,
        }
    }

    /// The state after several steps in turn, with the actions of all.
    pub open spec fn history(self, steps: Seq<Step>) -> (State, Seq<Action>)
        decreases steps.len(),
    {
        if steps.len() == 0 {
            (self, Seq::empty())
        } else {
            let (state, actions) = self.history(steps.drop_last());
            let (next, more) = state.step(steps.last());
            (next, actions + more)
        }
    }

    /// Every one of several steps fits in its turn.
    pub open spec fn history_fits(self, steps: Seq<Step>) -> bool
        decreases steps.len(),
    {
        steps.len() > 0 ==> {
            &&& self.history_fits(steps.drop_last())
            &&& self.history(steps.drop_last()).0.step_fits(steps.last())
        }
    }
}

/// Whatever happens, what is stored stays sound.
pub proof fn law_history_keeps_state_sound(state: State, steps: Seq<Step>)
    requires
        state.wf(),
        state.history_fits(steps),
    ensures
        state.history(steps).0.wf(),
    decreases steps.len(),
{
    if steps.len() > 0 {
        law_history_keeps_state_sound(state, steps.drop_last());
        let before = state.history(steps.drop_last()).0;
        match steps.last() {
            Step::Call(call) => {
                law_calls_keep_state_sound(before, call);
            },
            Step::Reward { era, operators_reward, nominators_reward, operators } => {
                law_rewards_keep_state_sound(
                    before,
                    era,
                    operators_reward,
                    nominators_reward,
                    operators,
                );
            },
            Step::Elect(era) => {
                law_election_keeps_state_sound(before, era);
            },
            Step::Close(_) => {
                law_closing_keeps_state_sound(before);
            },
        }
    }
}

/// Whatever happens, the locks and the references stay in agreement with what is stored.
pub proof fn law_history_keeps_holdings_in_agreement(state: State, steps: Seq<Step>, held: Holdings)
    requires
        state.wf(),
        state.history_fits(steps),
        held.agrees(state),
    ensures
        held.steps(state.history(steps).1).agrees(state.history(steps).0),
    decreases steps.len(),
{
    if steps.len() > 0 {
        law_history_keeps_holdings_in_agreement(state, steps.drop_last(), held);
        law_history_keeps_state_sound(state, steps.drop_last());
        let (before, actions) = state.history(steps.drop_last());
        let (_, more) = before.step(steps.last());
        let now = held.steps(actions);
        lemma_steps_concat(held, actions, more);
        match steps.last() {
            Step::Call(call) => {
                if before.call(call) is Ok {
                    law_calls_keep_holdings_in_agreement(before, call, now);
                }
            },
            Step::Reward { era, operators_reward, nominators_reward, operators } => {
                law_rewards_keep_holdings_in_agreement(
                    before,
                    era,
                    operators_reward,
                    nominators_reward,
                    operators,
                    now,
                );
            },
            Step::Elect(_) => {
            },
            Step::Close(_) => {
                assert(more.drop_last() =~= Seq::empty());
                reveal_with_fuel(Holdings::steps, 2);
            },
        }
    }
}

/// Whatever happens to a new module, at any time what it stores is sound, each bonded stash is
/// locked for exactly the total of its ledger and referred to once, and no other account is.
pub proof fn law_every_history_is_sound(steps: Seq<Step>)
    requires
        State::genesis().history_fits(steps),
    ensures
        ({
            let (state, actions) = State::genesis().history(steps);
            &&& state.wf()
            &&& Holdings::none().steps(actions).agrees(state)
        }),
{
    let genesis = State::genesis();
    assert(genesis.payee.dom() =~= genesis.bonded.dom());
    assert(Holdings::none().locks.dom() =~= genesis.bonded.dom());
    law_history_keeps_state_sound(genesis, steps);
    law_history_keeps_holdings_in_agreement(genesis, steps, Holdings::none());
}

} // verus!
