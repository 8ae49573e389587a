//! What an election records for an era, and how eras are treated in turn.
use crate::calls::Call;
use crate::election::{
    backed, backs, individual_on, law_election_gives_sound_points, lemma_backed_by_someone,
    lemma_staked_by, lemma_stakes_by_stash, lemma_totals_are_stakes, named_for, names, points_of,
    saturated, staked_on, stakes_sum, totals_sum,
};
use crate::order::{in_order, lemma_in_order};
use crate::soundness::Step;
use crate::state::State;
use crate::sums::map_sum;
use crate::types::{AccountId, Balance, EraIndex, PointsView};
use vstd::prelude::*;

verus! {

/// `stash` has nominations that are not suppressed, and `contract` is among their targets.
pub open spec fn stands_behind(state: State, stash: AccountId, contract: AccountId) -> bool {
    &&& state.nominations.contains_key(stash)
    &&& !state.nominations[stash].suppressed
    &&& names(state.nominations[stash].targets, contract)
}

/// A stash has staked on a contract in an election if and only if it nominates the contract and its
/// nominations are not suppressed. What it has there is all that its targets name for the contract,
/// added up. A contract has an entry if and only if some stash stands behind it.
pub proof fn law_election_follows_nominations(state: State, stash: AccountId, contract: AccountId)
    requires
        state.nominations.dom().finite(),
    ensures
        individual_on(state.all_stakes(), contract).contains_key(stash) <==> stands_behind(
            state,
            stash,
            contract,
        ),
        state.election_fits() && stands_behind(state, stash, contract) ==> individual_on(
            state.all_stakes(),
            contract,
        )[stash] == named_for(state.nominations[stash].targets, contract),
        points_of(state.all_stakes()).contains_key(contract) <==> exists|other: AccountId| #[trigger]
            stands_behind(state, other, contract),
{
    let all = state.all_stakes();
    let stashes = in_order(state.nominations.dom());
    lemma_in_order(state.nominations.dom());
    assert forall|other: AccountId|
        #![trigger backs(all, other, contract)]
        #![trigger stands_behind(state, other, contract)]
        backs(all, other, contract) <==> stands_behind(state, other, contract) by {
        lemma_stakes_by_stash(state.nominations, stashes, other, contract);
        assert(stashes.contains(other) <==> stashes.to_set().contains(other));
    }
    lemma_backed_by_someone(all, contract);
    lemma_stakes_by_stash(state.nominations, stashes, stash, contract);
    assert(stashes.contains(stash) <==> stashes.to_set().contains(stash));
    lemma_staked_by(all, stash, contract);
    if state.election_fits() {
        assert(staked_on(all, contract) <= Balance::MAX);
    }
}

/// A stash that nominates nothing shows in no points of an era that nothing was recorded for before,
/// and a contract has an entry only if another stash stands behind it.
pub proof fn law_absent_stash_has_no_points(
    state: State,
    stash: AccountId,
    era: EraIndex,
    contract: AccountId,
)
    requires
        state.nominations.dom().finite(),
        state.points_in(era) == Map::<AccountId, PointsView>::empty(),
        !state.nominations.contains_key(stash),
    ensures
        ({
            let points = state.elected(era).points_in(era);
            &&& points.contains_key(contract) ==> !points[contract].individual.contains_key(stash)
            &&& points.contains_key(contract) <==> exists|other: AccountId|
                other != stash && #[trigger] stands_behind(state, other, contract)
        }),
{
    let points = state.elected(era).points_in(era);
    law_election_follows_nominations(state, stash, contract);
    assert(points =~= points_of(state.all_stakes()));
    if points.contains_key(contract) {
        let other = choose|other: AccountId| #[trigger] stands_behind(state, other, contract);
        assert(other != stash);
    }
}

impl State {
    /// In the step, the stash is given nominations.
    pub open spec fn step_nominates(self, step: Step, stash: AccountId) -> bool {
        step matches Step::Call(Call::NominateContracts { controller, .. }) && self.stash_of(controller)
            == Some(stash)
    }

    /// In one of several steps, the stash is given nominations.
    pub open spec fn history_nominates(self, steps: Seq<Step>, stash: AccountId) -> bool
        decreases steps.len(),
    {
        steps.len() > 0 && {
            ||| self.history_nominates(steps.drop_last(), stash)
            ||| self.history(steps.drop_last()).0.step_nominates(steps.last(), stash)
        }
    }
}

/// Payouts change no nominations.
proof fn lemma_payouts_spare_nominations(state: State, dues: Seq<(AccountId, Balance)>)
    ensures
        state.pay_all(dues).0.nominations == state.nominations,
    decreases dues.len(),
{
    if dues.len() > 0 {
        lemma_payouts_spare_nominations(state, dues.drop_last());
    }
}

/// A stash that nominates nothing goes on nominating nothing until its controller nominates for it.
pub proof fn law_only_a_nomination_nominates(state: State, steps: Seq<Step>, stash: AccountId)
    requires
        !state.nominations.contains_key(stash),
        !state.history_nominates(steps, stash),
    ensures
        !state.history(steps).0.nominations.contains_key(stash),
    decreases steps.len(),
{
    if steps.len() > 0 {
        law_only_a_nomination_nominates(state, steps.drop_last(), stash);
        let before = state.history(steps.drop_last()).0;
        if let Step::Reward { era, nominators_reward, .. } = steps.last() {
            lemma_payouts_spare_nominations(before, before.dues_in(era, nominators_reward));
        }
    }
}

/// Finitely many stashes nominate, whatever happens.
proof fn lemma_nominations_stay_finite(state: State, steps: Seq<Step>)
    requires
        state.nominations.dom().finite(),
    ensures
        state.history(steps).0.nominations.dom().finite(),
    decreases steps.len(),
{
    if steps.len() > 0 {
        lemma_nominations_stay_finite(state, steps.drop_last());
        let before = state.history(steps.drop_last()).0;
        if let Step::Reward { era, nominators_reward, .. } = steps.last() {
            lemma_payouts_spare_nominations(before, before.dues_in(era, nominators_reward));
        }
    }
}

/// A stash that was chilled, or of which all was removed, and that was not nominated for since shows
/// in no points of a new era, whatever else happened. A contract has an entry in that era only if
/// another stash stands behind it.
pub proof fn law_stash_that_left_has_no_points(
    state: State,
    stash: AccountId,
    left: State,
    steps: Seq<Step>,
    era: EraIndex,
    contract: AccountId,
)
    requires
        state.nominations.dom().finite(),
        left == state.chill_stash(stash) || state.kill_stash(stash) is Ok && left == (
        state.kill_stash(stash)->Ok_0).0,
        !left.history_nominates(steps, stash),
        left.history(steps).0.points_in(era) == Map::<AccountId, PointsView>::empty(),
    ensures
        ({
            let then = left.history(steps).0;
            let points = then.elected(era).points_in(era);
            &&& points.contains_key(contract) ==> !points[contract].individual.contains_key(stash)
            &&& points.contains_key(contract) <==> exists|other: AccountId|
                other != stash && #[trigger] stands_behind(then, other, contract)
        }),
{
    lemma_nominations_stay_finite(left, steps);
    law_only_a_nomination_nominates(left, steps, stash);
    law_absent_stash_has_no_points(left.history(steps).0, stash, era, contract);
}

/// An election records for each contract all that was staked on it, and as the total of the era all
/// that was staked on all contracts, as far as a balance can hold it; contracts that were recorded
/// for the era before are backed again.
pub proof fn law_election_records_all_stakes(state: State, era: EraIndex)
    requires
        state.election_fits(),
        forall|contract: AccountId| #[trigger]
            state.points_in(era).contains_key(contract) ==> backed(state.all_stakes(), contract),
    ensures
        ({
            let points = state.elected(era).points_in(era);
            &&& points == points_of(state.all_stakes())
            &&& totals_sum(points, in_order(points.dom())) == stakes_sum(state.all_stakes())
            &&& state.elected(era).total_stake[era] == saturated(
                totals_sum(points, in_order(points.dom())),
            )
        }),
{
    let all = state.all_stakes();
    let points = state.elected(era).points_in(era);
    assert(points =~= points_of(all));
    law_election_gives_sound_points(all);
    lemma_in_order(points.dom());
    lemma_totals_are_stakes(all, in_order(points.dom()));
}

/// In every entry that an election records, the total is the sum of what the nominators have on the
/// contract, also where a nomination names the contract more than once.
pub proof fn law_totals_are_made_of_individual_stakes(state: State, era: EraIndex)
    requires
        state.election_fits(),
    ensures
        forall|contract: AccountId| #[trigger]
            points_of(state.all_stakes()).contains_key(contract) ==> {
                let points = state.elected(era).points_in(era);
                &&& points.contains_key(contract)
                &&& points[contract].individual.dom().finite()
                &&& points[contract].total == map_sum(points[contract].individual)
            },
{
    law_election_gives_sound_points(state.all_stakes());
}

/// To elect again for the same era while the nominations and the records are the same gives the same
/// value and changes nothing: stakes are not counted twice.
pub proof fn law_election_can_be_repeated(state: State, later: State, era: EraIndex)
    requires
        later.nominations == state.nominations,
        later.staking_points == state.elected(era).staking_points,
        later.total_stake == state.elected(era).total_stake,
    ensures
        later.election_fits() == state.election_fits(),
        later.elected_total() == state.elected_total(),
        later.elected(era) == later,
{
    let points = points_of(state.all_stakes());
    assert(later.points_in(era).union_prefer_right(points) =~= later.points_in(era));
    assert(later.elected(era) =~= later);
}

/// An election for one era leaves the records of every other era as they are.
pub proof fn law_election_spares_other_eras(state: State, era: EraIndex, other: EraIndex)
    requires
        era != other,
    ensures
        state.elected(era).points_in(other) == state.points_in(other),
        state.elected(era).total_stake.contains_key(other) == state.total_stake.contains_key(other),
        state.elected(era).total_stake[other] == state.total_stake[other],
{
}

/// The state after the rewards of several eras have been paid.
pub open spec fn closed(state: State, eras: nat) -> State
    decreases eras,
{
    if eras == 0 {
        state
    } else {
        closed(state, (eras - 1) as nat).era_closed()
    }
}

/// Every era before the active one is treated once, and in turn: after `done` of them have been
/// closed, the one to pay next is that many eras after the first, and once the active era is
/// reached there is none.
pub proof fn law_each_era_is_treated_once(state: State, active: EraIndex, done: nat)
    requires
        state.untreated_era + done <= active,
    ensures
        closed(state, done) == (State {
            untreated_era: (state.untreated_era + done) as EraIndex,
            ..state
        }),
        closed(state, done).pending_era(Some(active)) == if state.untreated_era + done < active {
            Some((state.untreated_era + done) as EraIndex)
        } else {
            None
        },
    decreases done,
{
    if done > 0 {
        law_each_era_is_treated_once(state, active, (done - 1) as nat);
    }
}

} // verus!
