//! What an election counts, nomination by nomination, and what the stored data stands for.
use crate::election::{
    backed, backs, counts, individual_on, lemma_backed_by_someone, lemma_not_backed, lemma_staked_by,
    lemma_staked_by_concat, lemma_staked_on_concat, lemma_stakes_of, listed, named_for, names,
    points_of, saturated, staked_by, staked_on, stakes, stakes_fit, stakes_of, stakes_sum, totals_sum,
    Stake,
};
use crate::independence::{lemma_same_election, lemma_stakes_sum_concat};
use crate::ledger::chunks_sum;
use crate::module::{follows, Module};
use crate::order::{in_order, lemma_in_order};
use crate::payout::lookup;
use crate::state::{Outcome, State};
use crate::sums::{amount_at, lemma_map_sum_listing, map_sum, sum_over};
use crate::types::{
    AccountId, Action, Balance, DispatchError, EraIndex, EraStakingPoints, LedgerView, Nominations,
    NominationsView, PointsView, StakingLedger, UnlockChunk,
};
use vstd::prelude::*;

verus! {

/// Adds the amount of a target that names `contract`.
pub open spec fn add_named(contract: AccountId) -> spec_fn(int, (AccountId, Balance)) -> int {
    |sum: int, target: (AccountId, Balance)|
        if target.0 == contract {
            sum + target.1
        } else {
            sum
        }
}

/// Adds the amount of a target.
pub open spec fn add_target() -> spec_fn(int, (AccountId, Balance)) -> int {
    |sum: int, target: (AccountId, Balance)| sum + target.1
}

/// The total of a contract; nothing where it has no points.
pub open spec fn total_on(points: Map<AccountId, PointsView>, contract: AccountId) -> int {
    if points.contains_key(contract) {
        points[contract].total as int
    } else {
        0
    }
}

/// What the nominators have on a contract; nothing where it has no points.
pub open spec fn nominators_on(points: Map<AccountId, PointsView>, contract: AccountId) -> Map<
    AccountId,
    Balance,
> {
    if points.contains_key(contract) {
        points[contract].individual
    } else {
        Map::empty()
    }
}

/// What `stash` has on a contract; nothing where it is not among its nominators.
pub open spec fn had_on(points: Map<AccountId, PointsView>, stash: AccountId, contract: AccountId) -> int {
    if nominators_on(points, contract).contains_key(stash) {
        nominators_on(points, contract)[stash] as int
    } else {
        0
    }
}

/// The points `after` are the points `before` with one nomination of `stash` more. The contracts that
/// it names have points, besides those that had them. On each of these the total grows by all that it
/// names for the contract, and so does what the stash has there. Nothing else changes.
pub open spec fn one_nomination_more(
    before: Map<AccountId, PointsView>,
    after: Map<AccountId, PointsView>,
    stash: AccountId,
    targets: Seq<(AccountId, Balance)>,
) -> bool {
    forall|contract: AccountId|
        {
            let named = exists|i: int| 0 <= i < targets.len() && (#[trigger] targets[i]).0 == contract;
            let sum = targets.fold_left(0int, add_named(contract));
            &&& #[trigger] after.contains_key(contract) <==> before.contains_key(contract) || named
            &&& !named && before.contains_key(contract) ==> after[contract] == before[contract]
            &&& named ==> {
                &&& after[contract].total == total_on(before, contract) + sum
                &&& after[contract].individual == nominators_on(before, contract).insert(
                    stash,
                    (had_on(before, stash, contract) + sum) as Balance,
                )
            }
        }
}

/// What targets name for a contract, target by target.
proof fn lemma_named_fold(targets: Seq<(AccountId, Balance)>, contract: AccountId)
    ensures
        named_for(targets, contract) == targets.fold_left(0int, add_named(contract)),
        !names(targets, contract) ==> named_for(targets, contract) == 0,
    decreases targets.len(),
{
    if targets.len() > 0 {
        let rest = targets.drop_last();
        lemma_named_fold(rest, contract);
        if !names(targets, contract) {
            assert(targets[targets.len() - 1].0 != contract);
            if names(rest, contract) {
                let i = choose|i: int| 0 <= i < rest.len() && (#[trigger] rest[i]).0 == contract;
                assert(targets[i].0 == contract);
            }
        }
    }
}

/// What targets amount to, target by target.
proof fn lemma_targets_fold(stash: AccountId, targets: Seq<(AccountId, Balance)>)
    ensures
        stakes_sum(stakes_of(stash, targets)) == targets.fold_left(0int, add_target()),
    decreases targets.len(),
{
    if targets.len() > 0 {
        lemma_targets_fold(stash, targets.drop_last());
        assert(stakes_of(stash, targets).drop_last() =~= stakes_of(stash, targets.drop_last()));
    }
}

/// Stakes of one stash more.
proof fn lemma_stakes_more(
    x: Seq<Stake>,
    stash: AccountId,
    targets: Seq<(AccountId, Balance)>,
    contract: AccountId,
)
    ensures
        ({
            let y = x + stakes_of(stash, targets);
            &&& backed(y, contract) <==> backed(x, contract) || names(targets, contract)
            &&& staked_on(y, contract) == staked_on(x, contract) + named_for(targets, contract)
            &&& forall|other: AccountId|
                backs(y, other, contract) <==> backs(x, other, contract) || (other == stash && names(
                    targets,
                    contract,
                ))
            &&& forall|other: AccountId| #[trigger]
                staked_by(y, other, contract) == staked_by(x, other, contract) + if other == stash {
                    named_for(targets, contract)
                } else {
                    0
                }
        }),
{
    let now = stakes_of(stash, targets);
    let y = x + now;
    assert forall|other: AccountId|
        #![trigger backs(y, other, contract)]
        #![trigger staked_by(y, other, contract)]
        #![trigger backs(x, other, contract)]
        {
            &&& backs(y, other, contract) <==> backs(x, other, contract) || (other == stash && names(
                targets,
                contract,
            ))
            &&& staked_by(y, other, contract) == staked_by(x, other, contract) + if other == stash {
                named_for(targets, contract)
            } else {
                0
            }
        } by {
        lemma_staked_by_concat(x, now, other, contract);
        lemma_stakes_of(stash, targets, other, contract);
    }
    lemma_staked_on_concat(x, now, contract);
    lemma_stakes_of(stash, targets, stash, contract);
    lemma_backed_by_someone(x, contract);
    lemma_backed_by_someone(y, contract);
    if names(targets, contract) {
        assert(backs(y, stash, contract));
    }
}

/// The points that stakes give, with the stakes of one stash more.
proof fn lemma_points_more(x: Seq<Stake>, stash: AccountId, targets: Seq<(AccountId, Balance)>)
    requires
        stakes_fit(x + stakes_of(stash, targets)),
    ensures
        stakes_fit(x),
        one_nomination_more(
            points_of(x),
            points_of(x + stakes_of(stash, targets)),
            stash,
            targets,
        ),
{
    let y = x + stakes_of(stash, targets);
    let p = points_of(x);
    let q = points_of(y);
    assert forall|contract: AccountId| #[trigger] staked_on(x, contract) <= Balance::MAX by {
        lemma_stakes_more(x, stash, targets, contract);
        assert(staked_on(y, contract) <= Balance::MAX);
    }
    assert forall|contract: AccountId|
        {
            let named = exists|i: int| 0 <= i < targets.len() && (#[trigger] targets[i]).0 == contract;
            let sum = targets.fold_left(0int, add_named(contract));
            &&& #[trigger] q.contains_key(contract) <==> p.contains_key(contract) || named
            &&& !named && p.contains_key(contract) ==> q[contract] == p[contract]
            &&& named ==> {
                &&& q[contract].total == total_on(p, contract) + sum
                &&& q[contract].individual == nominators_on(p, contract).insert(
                    stash,
                    (had_on(p, stash, contract) + sum) as Balance,
                )
            }
        } by {
        lemma_stakes_more(x, stash, targets, contract);
        lemma_named_fold(targets, contract);
        assert(staked_on(x, contract) <= Balance::MAX);
        assert(staked_on(y, contract) <= Balance::MAX);
        if !backed(x, contract) {
            lemma_not_backed(x, contract);
        }
        assert(nominators_on(p, contract) == individual_on(x, contract));
        assert(total_on(p, contract) == staked_on(x, contract));
        assert forall|other: AccountId|
            #![trigger staked_by(x, other, contract)]
            #![trigger staked_by(y, other, contract)]
            staked_by(x, other, contract) <= Balance::MAX && staked_by(y, other, contract)
                <= Balance::MAX && (!backs(x, other, contract) ==> staked_by(x, other, contract) == 0) by {
            lemma_staked_by(x, other, contract);
            lemma_staked_by(y, other, contract);
        }
        assert(staked_by(x, stash, contract) == had_on(p, stash, contract));
        if names(targets, contract) {
            assert(q[contract].individual =~= nominators_on(p, contract).insert(
                stash,
                (had_on(p, stash, contract) + targets.fold_left(0int, add_named(contract))) as Balance,
            ));
        } else if p.contains_key(contract) {
            assert(q[contract].individual =~= p[contract].individual);
        }
    }
}

/// A listed nomination more that is not suppressed puts on each contract what it names for it, and
/// on all contracts what its targets amount to. One that is suppressed changes nothing. No listed
/// nomination, no points.
pub proof fn law_listed_nominations_count_one_by_one(
    nominations: Map<AccountId, NominationsView>,
    stashes: Seq<AccountId>,
    stash: AccountId,
)
    requires
        stakes_fit(stakes(listed(nominations, stashes.push(stash)))),
    ensures
        ({
            let none = stakes(listed(nominations, Seq::empty()));
            let x = stakes(listed(nominations, stashes));
            let y = stakes(listed(nominations, stashes.push(stash)));
            let targets = nominations[stash].targets;
            &&& points_of(none).dom() == Set::<AccountId>::empty()
            &&& stakes_sum(none) == 0
            &&& stakes_fit(none)
            &&& stakes_fit(x)
            &&& nominations[stash].suppressed ==> points_of(y) == points_of(x) && stakes_sum(y)
                == stakes_sum(x)
            &&& !nominations[stash].suppressed ==> {
                &&& one_nomination_more(points_of(x), points_of(y), stash, targets)
                &&& stakes_sum(y) == stakes_sum(x) + targets.fold_left(0int, add_target())
            }
        }),
{
    let none = stakes(listed(nominations, Seq::empty()));
    assert(none =~= Seq::empty());
    assert(points_of(none).dom() =~= Set::empty());
    lemma_listed_more(nominations, stashes, stash);
    let x = stakes(listed(nominations, stashes));
    let targets = nominations[stash].targets;
    if !nominations[stash].suppressed {
        lemma_points_more(x, stash, targets);
        lemma_stakes_sum_concat(x, stakes_of(stash, targets));
        lemma_targets_fold(stash, targets);
    }
}

/// The stakes of a listing with one stash more.
proof fn lemma_listed_more(
    nominations: Map<AccountId, NominationsView>,
    stashes: Seq<AccountId>,
    stash: AccountId,
)
    ensures
        stakes(listed(nominations, stashes.push(stash))) == if nominations[stash].suppressed {
            stakes(listed(nominations, stashes))
        } else {
            stakes(listed(nominations, stashes)) + stakes_of(stash, nominations[stash].targets)
        },
{
    let list = listed(nominations, stashes.push(stash));
    assert(list.drop_last() =~= listed(nominations, stashes));
    assert(list.last() == (stash, nominations[stash]));
}

/// The stakes of a state with one stash more that nominates, up to their order.
proof fn lemma_state_more(state: State, stash: AccountId, nomination: NominationsView)
    requires
        state.nominations.dom().finite(),
        !state.nominations.contains_key(stash),
    ensures
        ({
            let next = State { nominations: state.nominations.insert(stash, nomination), ..state };
            let y = if nomination.suppressed {
                state.all_stakes()
            } else {
                state.all_stakes() + stakes_of(stash, nomination.targets)
            };
            &&& points_of(next.all_stakes()) == points_of(y)
            &&& stakes_sum(next.all_stakes()) == stakes_sum(y)
            &&& stakes_fit(next.all_stakes()) == stakes_fit(y)
        }),
{
    let p = state.nominations;
    let q = state.nominations.insert(stash, nomination);
    let a = in_order(p.dom());
    let b = in_order(q.dom());
    lemma_in_order(p.dom());
    lemma_in_order(q.dom());
    let c = a.push(stash);
    assert(!a.contains(stash)) by {
        assert(a.to_set().contains(stash) == p.dom().contains(stash));
    }
    assert(c.no_duplicates()) by {
        assert forall|i: int, j: int| 0 <= i < c.len() && 0 <= j < c.len() && i != j implies c[i] != c[j] by {
            if i < a.len() {
                assert(a.contains(c[i]));
            }
            if j < a.len() {
                assert(a.contains(c[j]));
            }
        }
    }
    assert forall|s: AccountId| #[trigger] counts(q, b, s) <==> counts(q, c, s) by {
        assert(b.contains(s) <==> b.to_set().contains(s));
        assert(a.contains(s) <==> a.to_set().contains(s));
        if a.contains(s) {
            let i = choose|i: int| 0 <= i < a.len() && a[i] == s;
            assert(c[i] == s);
        }
        if s == stash {
            assert(c[a.len() as int] == s);
        }
        if c.contains(s) && s != stash {
            let i = choose|i: int| 0 <= i < c.len() && c[i] == s;
            assert(a[i] == s);
        }
    }
    lemma_same_election(q, b, q, c);
    lemma_listed_more(q, a, stash);
    assert(listed(q, a) =~= listed(p, a)) by {
        assert forall|i: int| 0 <= i < a.len() implies #[trigger] listed(q, a)[i] == listed(p, a)[i] by {
            assert(a.contains(a[i]));
        }
    }
}

/// An election counts nominations one by one. Without nominations there are no points and no total.
/// With one stash more that nominates, the points are those without it and what its targets name,
/// and the total grows by what its targets amount to, as far as a balance can hold it. Where its
/// nominations are suppressed, nothing changes.
pub proof fn law_election_counts_nominations_one_by_one(
    state: State,
    stash: AccountId,
    nomination: NominationsView,
    era: EraIndex,
)
    requires
        state.nominations.dom().finite(),
        !state.nominations.contains_key(stash),
        !state.staking_points.contains_key(era),
        (State { nominations: state.nominations.insert(stash, nomination), ..state }).election_fits(),
    ensures
        ({
            let none = State { nominations: Map::empty(), ..state };
            let next = State { nominations: state.nominations.insert(stash, nomination), ..state };
            let before = state.elected(era).staking_points[era];
            let after = next.elected(era).staking_points[era];
            let sum = state.elected_total() + nomination.targets.fold_left(0int, add_target());
            &&& none.election_fits()
            &&& none.elected(era).staking_points[era].dom() == Set::<AccountId>::empty()
            &&& none.elected_total() == 0
            &&& state.election_fits()
            &&& nomination.suppressed ==> after == before && next.elected_total()
                == state.elected_total()
            &&& !nomination.suppressed ==> {
                &&& one_nomination_more(before, after, stash, nomination.targets)
                &&& sum <= Balance::MAX ==> next.elected_total() == sum
                &&& sum > Balance::MAX ==> next.elected_total() == Balance::MAX
            }
        }),
{
    let none = State { nominations: Map::empty(), ..state };
    let next = State { nominations: state.nominations.insert(stash, nomination), ..state };
    lemma_in_order(none.nominations.dom());
    assert(in_order(none.nominations.dom()).len() == 0) by {
        let list = in_order(none.nominations.dom());
        if list.len() > 0 {
            assert(list.to_set().contains(list[0]));
        }
    }
    assert(none.all_stakes() =~= Seq::empty());
    lemma_fresh_election(none, era);
    assert(points_of(none.all_stakes()).dom() =~= Set::empty());
    lemma_fresh_election(state, era);
    lemma_fresh_election(next, era);
    lemma_state_more(state, stash, nomination);
    if !nomination.suppressed {
        let x = state.all_stakes();
        lemma_points_more(x, stash, nomination.targets);
        lemma_stakes_sum_concat(x, stakes_of(stash, nomination.targets));
        lemma_targets_fold(stash, nomination.targets);
        lemma_targets_not_negative(nomination.targets);
    }
}

/// Targets amount to no less than nothing.
proof fn lemma_targets_not_negative(targets: Seq<(AccountId, Balance)>)
    ensures
        targets.fold_left(0int, add_target()) >= 0,
    decreases targets.len(),
{
    if targets.len() > 0 {
        lemma_targets_not_negative(targets.drop_last());
    }
}

/// What is recorded for an era that nothing was recorded for.
proof fn lemma_fresh_election(state: State, era: EraIndex)
    requires
        !state.staking_points.contains_key(era),
    ensures
        state.elected(era).staking_points.contains_key(era),
        state.elected(era).staking_points[era] == points_of(state.all_stakes()),
{
    assert(state.elected(era).staking_points[era] =~= points_of(state.all_stakes()));
}

/// Nominations can be counted while no contract has more on it than a balance can hold: with one
/// stash more, where they could be counted before, if and only if no total would grow beyond that.
pub proof fn law_election_fits_unless_it_overflows(
    state: State,
    stash: AccountId,
    nomination: NominationsView,
    era: EraIndex,
)
    requires
        state.nominations.dom().finite(),
        !state.nominations.contains_key(stash),
        !state.staking_points.contains_key(era),
        state.election_fits(),
    ensures
        ({
            let next = State { nominations: state.nominations.insert(stash, nomination), ..state };
            let before = state.elected(era).staking_points[era];
            next.election_fits() <==> nomination.suppressed || forall|contract: AccountId|
                total_on(before, contract) + #[trigger] nomination.targets.fold_left(
                    0int,
                    add_named(contract),
                ) <= Balance::MAX
        }),
{
    let next = State { nominations: state.nominations.insert(stash, nomination), ..state };
    let before = state.elected(era).staking_points[era];
    let targets = nomination.targets;
    let x = state.all_stakes();
    lemma_fresh_election(state, era);
    lemma_state_more(state, stash, nomination);
    if !nomination.suppressed {
        let y = x + stakes_of(stash, targets);
        assert forall|contract: AccountId|
            #![trigger staked_on(y, contract)]
            #![trigger targets.fold_left(0int, add_named(contract))]
            staked_on(y, contract) == total_on(before, contract) + targets.fold_left(
                0int,
                add_named(contract),
            ) by {
            lemma_stakes_more(x, stash, targets, contract);
            lemma_named_fold(targets, contract);
            assert(staked_on(x, contract) <= Balance::MAX);
            if !backed(x, contract) {
                lemma_not_backed(x, contract);
            }
        }
    }
}

/// An election writes the records of its era and nothing else: the total is what it counted, the
/// points of each contract that it counted something for are new, and those of other contracts stay.
pub proof fn law_election_writes_its_era(state: State, era: EraIndex)
    ensures
        ({
            let after = state.elected(era);
            let fresh = (State { staking_points: state.staking_points.remove(era), ..state }).elected(
                era,
            ).staking_points[era];
            let old_points = state.staking_points[era];
            let had = |c: AccountId|
                state.staking_points.contains_key(era) && old_points.contains_key(c);
            let points = after.staking_points[era];
            &&& after == (State {
                staking_points: after.staking_points,
                total_stake: after.total_stake,
                ..state
            })
            &&& after.total_stake == state.total_stake.insert(era, state.elected_total())
            &&& after.staking_points == state.staking_points.insert(era, points)
            &&& forall|c: AccountId| #[trigger]
                points.contains_key(c) <==> fresh.contains_key(c) || had(c)
            &&& forall|c: AccountId| #[trigger] fresh.contains_key(c) ==> points[c] == fresh[c]
            &&& forall|c: AccountId| #[trigger]
                points.contains_key(c) && !fresh.contains_key(c) ==> points[c] == old_points[c]
        }),
{
    let cleared = State { staking_points: state.staking_points.remove(era), ..state };
    lemma_fresh_election(cleared, era);
    assert(cleared.all_stakes() == state.all_stakes());
    let after = state.elected(era);
    assert(after.staking_points =~= state.staking_points.insert(era, after.staking_points[era]));
}

/// The order of a finite set of accounts: each of them once, from the least to the greatest.
pub proof fn law_order_of_accounts(set: Set<AccountId>)
    requires
        set.finite(),
    ensures
        forall|i: int, j: int|
            0 <= i < j < in_order(set).len() ==> (#[trigger] in_order(set)[i]) < (
            #[trigger] in_order(set)[j]),
        forall|a: AccountId| #[trigger] in_order(set).contains(a) <==> set.contains(a),
{
    lemma_in_order(set);
    assert forall|a: AccountId| #[trigger] in_order(set).contains(a) <==> set.contains(a) by {
        assert(in_order(set).contains(a) <==> in_order(set).to_set().contains(a));
    }
}

/// What a balance can hold of an amount: all of it, or the most that it can hold.
pub proof fn law_saturation(amount: nat)
    ensures
        amount <= Balance::MAX ==> saturated(amount) == amount,
        amount > Balance::MAX ==> saturated(amount) == Balance::MAX,
{
}

/// What a map holds for a key, if anything.
pub proof fn law_lookup<V>(map: Map<AccountId, V>, key: AccountId)
    ensures
        map.contains_key(key) ==> lookup(map, key) == Some(map[key]),
        !map.contains_key(key) ==> lookup(map, key) is None,
{
}

/// Adds the value of a chunk.
pub open spec fn add_chunk() -> spec_fn(int, UnlockChunk<Balance>) -> int {
    |sum: int, chunk: UnlockChunk<Balance>| sum + chunk.value
}

/// What chunks are worth, chunk by chunk.
pub proof fn law_chunks_are_counted_one_by_one(chunks: Seq<UnlockChunk<Balance>>)
    ensures
        chunks_sum(chunks) == chunks.fold_left(0int, add_chunk()),
    decreases chunks.len(),
{
    if chunks.len() > 0 {
        law_chunks_are_counted_one_by_one(chunks.drop_last());
    }
}

/// The totals of contracts, contract by contract.
pub proof fn law_totals_are_counted_one_by_one(
    points: Map<AccountId, PointsView>,
    contracts: Seq<AccountId>,
)
    ensures
        totals_sum(points, contracts) == contracts.fold_left(
            0int,
            |sum: int, contract: AccountId| sum + points[contract].total,
        ),
    decreases contracts.len(),
{
    if contracts.len() > 0 {
        law_totals_are_counted_one_by_one(points, contracts.drop_last());
    }
}

/// What the amounts of a map add up to, account by account; `accounts` are those that it has, each
/// once.
pub proof fn law_map_is_counted_one_by_one(map: Map<AccountId, Balance>, accounts: Seq<AccountId>)
    requires
        accounts.no_duplicates(),
        forall|a: AccountId| #[trigger] accounts.contains(a) <==> map.contains_key(a),
    ensures
        map_sum(map) == accounts.fold_left(
            0int,
            |sum: int, account: AccountId| sum + amount_at(map)(account),
        ),
        forall|a: AccountId|
            (map.contains_key(a) ==> #[trigger] amount_at(map)(a) == map[a]) && (!map.contains_key(a)
                ==> amount_at(map)(a) == 0),
{
    assert(accounts.to_set() =~= map.dom()) by {
        assert forall|a: AccountId| accounts.to_set().contains(a) <==> map.dom().contains(a) by {
            assert(accounts.contains(a) <==> map.contains_key(a));
        }
    }
    lemma_map_sum_listing(map, accounts);
    lemma_sum_fold(map, accounts);
}

/// A sum over listed accounts as a fold.
proof fn lemma_sum_fold(map: Map<AccountId, Balance>, accounts: Seq<AccountId>)
    ensures
        sum_over(amount_at(map), accounts) == accounts.fold_left(
            0int,
            |sum: int, account: AccountId| sum + amount_at(map)(account),
        ),
    decreases accounts.len(),
{
    if accounts.len() > 0 {
        lemma_sum_fold(map, accounts.drop_last());
    }
}

/// What is sound: stashes and controllers are in pairs, each controller with the ledger of its stash;
/// every ledger has what is active and what its chunks hold as its total, in no more than 32 chunks
/// that each hold something; the bonded stashes have payees and nobody else has; only bonded stashes
/// nominate, each with between 1 and 128 targets; and the total of every recorded contract is what its
/// nominators have on it.
pub proof fn law_what_is_sound(state: State)
    requires
        state.wf(),
    ensures
        forall|s: AccountId| #[trigger]
            state.bonded.contains_key(s) ==> {
                &&& state.ledger.contains_key(state.bonded[s])
                &&& state.ledger[state.bonded[s]].stash == s
                &&& state.payee.contains_key(s)
            },
        forall|s: AccountId| #[trigger] state.payee.contains_key(s) ==> state.bonded.contains_key(s),
        forall|c: AccountId| #[trigger]
            state.ledger.contains_key(c) ==> {
                let ledger = state.ledger[c];
                &&& state.bonded.contains_key(ledger.stash)
                &&& state.bonded[ledger.stash] == c
                &&& ledger.total == ledger.active + ledger.unlocking.fold_left(0int, add_chunk())
                &&& ledger.unlocking.len() <= 32
                &&& forall|i: int|
                    0 <= i < ledger.unlocking.len() ==> (#[trigger] ledger.unlocking[i]).value > 0
            },
        forall|s: AccountId| #[trigger]
            state.nominations.contains_key(s) ==> {
                &&& state.bonded.contains_key(s)
                &&& 1 <= state.nominations[s].targets.len() <= 128
            },
        forall|era: EraIndex, c: AccountId|
            state.staking_points.contains_key(era) && #[trigger] state.staking_points[era].contains_key(c)
                ==> state.staking_points[era][c].total == map_sum(
                state.staking_points[era][c].individual,
            ),
{
    assert forall|s: AccountId| #[trigger]
        state.payee.contains_key(s) <==> state.bonded.contains_key(s) by {
        assert(state.payee.dom().contains(s) <==> state.bonded.dom().contains(s));
    }
    assert forall|c: AccountId| #[trigger] state.ledger.contains_key(c) implies state.ledger[c].total
        == state.ledger[c].active + state.ledger[c].unlocking.fold_left(0int, add_chunk()) by {
        law_chunks_are_counted_one_by_one(state.ledger[c].unlocking);
    }
}

/// A new module stores nothing, and its first untreated era is era 0.
pub proof fn law_new_module_is_empty(account: AccountId, era: EraIndex)
    ensures
        State::genesis().untreated_era == 0,
        !State::genesis().bonded.contains_key(account),
        !State::genesis().ledger.contains_key(account),
        !State::genesis().payee.contains_key(account),
        !State::genesis().nominations.contains_key(account),
        !State::genesis().staking_points.contains_key(era),
        !State::genesis().total_stake.contains_key(era),
{
}

/// What an outcome says is what happened: where it is a success, the state is the one that it gives
/// and the actions are those that it lists; where it is a refusal, nothing changed and the refusal is
/// handed on.
pub proof fn law_what_an_outcome_says(
    before: State,
    after: State,
    r: Result<Vec<Action>, DispatchError>,
    outcome: Outcome,
)
    ensures
        follows(before, after, r, outcome) <==> {
            &&& r is Ok <==> outcome is Ok
            &&& outcome is Ok ==> after == (outcome->Ok_0).0 && r->Ok_0@ == (outcome->Ok_0).1
            &&& outcome is Err ==> after == before && r->Err_0 == outcome->Err_0
        },
{
}

/// The view of a ledger, of nominations and of staking points leaves nothing out.
pub proof fn law_views_of_records(
    ledger: StakingLedger<AccountId, Balance>,
    nominations: Nominations<AccountId, Balance>,
    points: EraStakingPoints<AccountId, Balance>,
)
    ensures
        ledger@ == (LedgerView {
            stash: ledger.stash,
            total: ledger.total,
            active: ledger.active,
            unlocking: ledger.unlocking@,
            last_reward: ledger.last_reward,
        }),
        nominations@ == (NominationsView {
            targets: nominations.targets@,
            submitted_in: nominations.submitted_in,
            suppressed: nominations.suppressed,
        }),
        points@ == (PointsView { total: points.total, individual: points.individual@ }),
{
}

/// The view of a module leaves nothing out: every entry of every map is there, with the view of its
/// value.
pub proof fn law_view_of_a_module(module: Module, account: AccountId, era: EraIndex)
    ensures
        module@.untreated_era == module.untreated_era,
        module@.bonded == module.bonded@,
        module@.payee == module.payee@,
        module@.total_stake == module.eras_total_stake@,
        module@.ledger.contains_key(account) <==> module.ledger@.contains_key(account),
        module.ledger@.contains_key(account) ==> module@.ledger[account]
            == module.ledger@[account]@,
        module@.nominations.contains_key(account) <==> module.dapps_nominations@.contains_key(account),
        module.dapps_nominations@.contains_key(account) ==> module@.nominations[account]
            == module.dapps_nominations@[account]@,
        module@.staking_points.contains_key(era) <==> module.eras_staking_points@.contains_key(era),
        module.eras_staking_points@.contains_key(era) ==> {
            let stored = module.eras_staking_points@[era]@;
            let seen = module@.staking_points[era];
            &&& seen.contains_key(account) <==> stored.contains_key(account)
            &&& stored.contains_key(account) ==> seen[account] == stored[account]@
        },
{
}

} // verus!
