//! What makes no difference: the order in which stored entries are walked, and nominations that are
//! suppressed.
use crate::election::{
    backed, backs, counts, individual_on, lemma_backed_by_someone, lemma_staked_on_as_sum,
    lemma_stakes_by_stash, listed, points_of, put_on, staked_by, staked_on, stakes, stakes_fit,
    stakes_of, stakes_sum, totals_sum, Stake,
};
use crate::fairness::law_all_totals_count;
use crate::order::{in_order, lemma_in_order};
use crate::payout::{nominated, nominated_by_all, nominates, staked_in_all};
use crate::state::State;
use crate::sums::{amount_at, amount_in, lemma_equal_sums, lemma_sum_larger, sum_over};
use crate::types::{AccountId, Balance, EraIndex, NominationsView, PointsView};
use vstd::prelude::*;

verus! {

/// The two listings have the same entries, each once.
pub open spec fn same_entries(a: Seq<AccountId>, b: Seq<AccountId>) -> bool {
    &&& a.no_duplicates()
    &&& b.no_duplicates()
    &&& a.to_set() == b.to_set()
}

/// Two listings of the same entries have the same sum.
proof fn lemma_same_sum(f: spec_fn(AccountId) -> nat, a: Seq<AccountId>, b: Seq<AccountId>)
    requires
        same_entries(a, b),
    ensures
        sum_over(f, a) == sum_over(f, b),
{
    assert forall|i: int| 0 <= i < a.len() implies b.contains(#[trigger] a[i]) by {
        assert(a.to_set().contains(a[i]));
    }
    assert forall|i: int| 0 <= i < b.len() implies a.contains(#[trigger] b[i]) by {
        assert(b.to_set().contains(b[i]));
    }
    lemma_sum_larger(f, a, b);
}

/// The totals of listed contracts as a sum.
proof fn lemma_totals_as_sum(points: Map<AccountId, PointsView>, contracts: Seq<AccountId>)
    ensures
        totals_sum(points, contracts) == sum_over(
            |contract: AccountId| points[contract].total as nat,
            contracts,
        ),
    decreases contracts.len(),
{
    if contracts.len() > 0 {
        lemma_totals_as_sum(points, contracts.drop_last());
    }
}

/// What a nominator has on listed contracts as a sum.
proof fn lemma_nominated_as_sum(
    points: Map<AccountId, PointsView>,
    contracts: Seq<AccountId>,
    stash: AccountId,
)
    ensures
        nominated(points, contracts, stash) == sum_over(
            |contract: AccountId| amount_at(points[contract].individual)(stash),
            contracts,
        ),
    decreases contracts.len(),
{
    if contracts.len() > 0 {
        lemma_nominated_as_sum(points, contracts.drop_last(), stash);
    }
}

/// A nominator of a listed contract is one in every listing of the same contracts.
proof fn lemma_nominates_in_both(
    points: Map<AccountId, PointsView>,
    a: Seq<AccountId>,
    b: Seq<AccountId>,
    stash: AccountId,
)
    requires
        same_entries(a, b),
        nominates(points, a, stash),
    ensures
        nominates(points, b, stash),
{
    let i = choose|i: int|
        0 <= i < a.len() && points[#[trigger] a[i]].individual.contains_key(stash);
    assert(a.to_set().contains(a[i]));
    assert(b.to_set().contains(a[i]));
    let j = choose|j: int| 0 <= j < b.len() && b[j] == a[i];
    assert(points[b[j]].individual.contains_key(stash));
}

/// In whatever order the contracts of an era are walked, each nominator has the same on them, and
/// the same is staked in all, while that is an amount that a balance can hold.
pub proof fn law_contracts_in_any_order(
    points: Map<AccountId, PointsView>,
    a: Seq<AccountId>,
    b: Seq<AccountId>,
)
    requires
        same_entries(a, b),
    ensures
        nominated_by_all(points, a) == nominated_by_all(points, b),
        totals_sum(points, a) == totals_sum(points, b),
        totals_sum(points, a) <= Balance::MAX ==> staked_in_all(points, a) == staked_in_all(points, b),
{
    lemma_totals_as_sum(points, a);
    lemma_totals_as_sum(points, b);
    lemma_same_sum(|contract: AccountId| points[contract].total as nat, a, b);
    if totals_sum(points, a) <= Balance::MAX {
        law_all_totals_count(points, a);
        law_all_totals_count(points, b);
    }
    assert forall|stash: AccountId|
        nominates(points, a, stash) <==> nominates(points, b, stash) by {
        if nominates(points, a, stash) {
            lemma_nominates_in_both(points, a, b, stash);
        }
        if nominates(points, b, stash) {
            lemma_nominates_in_both(points, b, a, stash);
        }
    }
    assert forall|stash: AccountId| #[trigger]
        nominated(points, a, stash) == nominated(points, b, stash) by {
        lemma_nominated_as_sum(points, a, stash);
        lemma_nominated_as_sum(points, b, stash);
        lemma_same_sum(
            |contract: AccountId| amount_at(points[contract].individual)(stash),
            a,
            b,
        );
    }
    assert(nominated_by_all(points, a) =~= nominated_by_all(points, b));
}

/// What one nomination puts on all contracts.
spec fn put_on_all(nominations: Map<AccountId, NominationsView>) -> spec_fn(AccountId) -> nat {
    |stash: AccountId|
        if nominations[stash].suppressed {
            0
        } else {
            stakes_sum(stakes_of(stash, nominations[stash].targets))
        }
}

/// Stakes in two goes amount to the stakes in one.
pub proof fn lemma_stakes_sum_concat(a: Seq<Stake>, b: Seq<Stake>)
    ensures
        stakes_sum(a + b) == stakes_sum(a) + stakes_sum(b),
    decreases b.len(),
{
    if b.len() == 0 {
        assert(a + b =~= a);
    } else {
        assert((a + b).drop_last() =~= a + b.drop_last());
        lemma_stakes_sum_concat(a, b.drop_last());
    }
}

/// What all listed nominations put on all contracts, as a sum.
proof fn lemma_stakes_as_sum(nominations: Map<AccountId, NominationsView>, stashes: Seq<AccountId>)
    ensures
        stakes_sum(stakes(listed(nominations, stashes))) == sum_over(put_on_all(nominations), stashes),
    decreases stashes.len(),
{
    let list = listed(nominations, stashes);
    if stashes.len() > 0 {
        let rest = stashes.drop_last();
        let stash = stashes.last();
        lemma_stakes_as_sum(nominations, rest);
        assert(list.drop_last() =~= listed(nominations, rest));
        assert(list.last() == (stash, nominations[stash]));
        lemma_stakes_sum_concat(
            stakes(listed(nominations, rest)),
            stakes_of(stash, nominations[stash].targets),
        );
    }
}

/// The same nominations count in both listings, with the same targets.
pub open spec fn same_counted(
    p: Map<AccountId, NominationsView>,
    a: Seq<AccountId>,
    q: Map<AccountId, NominationsView>,
    b: Seq<AccountId>,
) -> bool {
    &&& a.no_duplicates()
    &&& b.no_duplicates()
    &&& forall|stash: AccountId| #[trigger] counts(p, a, stash) <==> counts(q, b, stash)
    &&& forall|stash: AccountId| #[trigger] counts(p, a, stash) ==> p[stash].targets == q[stash].targets
}

/// Where the same nominations count, the same is on a contract.
proof fn lemma_same_stakes(
    p: Map<AccountId, NominationsView>,
    a: Seq<AccountId>,
    q: Map<AccountId, NominationsView>,
    b: Seq<AccountId>,
    contract: AccountId,
)
    requires
        same_counted(p, a, q, b),
    ensures
        ({
            let x = stakes(listed(p, a));
            let y = stakes(listed(q, b));
            &&& backed(x, contract) == backed(y, contract)
            &&& staked_on(x, contract) == staked_on(y, contract)
            &&& individual_on(x, contract) == individual_on(y, contract)
        }),
{
    let x = stakes(listed(p, a));
    let y = stakes(listed(q, b));
    lemma_staked_on_as_sum(p, a, contract);
    lemma_staked_on_as_sum(q, b, contract);
    let f = put_on(p, contract);
    let g = put_on(q, contract);
    assert forall|stash: AccountId| #[trigger] amount_in(f, a, stash) == amount_in(g, b, stash) by {
        assert(counts(p, a, stash) <==> counts(q, b, stash));
    }
    lemma_equal_sums(f, a, g, b);
    assert forall|stash: AccountId|
        #![trigger backs(x, stash, contract)]
        #![trigger backs(y, stash, contract)]
        backs(x, stash, contract) == backs(y, stash, contract) && staked_by(x, stash, contract)
            == staked_by(y, stash, contract) by {
        lemma_stakes_by_stash(p, a, stash, contract);
        lemma_stakes_by_stash(q, b, stash, contract);
        assert(counts(p, a, stash) <==> counts(q, b, stash));
    }
    lemma_backed_by_someone(x, contract);
    lemma_backed_by_someone(y, contract);
    assert(individual_on(x, contract) =~= individual_on(y, contract));
}

/// Where the same nominations count, an election gives the same points and the same total.
pub proof fn lemma_same_election(
    p: Map<AccountId, NominationsView>,
    a: Seq<AccountId>,
    q: Map<AccountId, NominationsView>,
    b: Seq<AccountId>,
)
    requires
        same_counted(p, a, q, b),
    ensures
        ({
            let x = stakes(listed(p, a));
            let y = stakes(listed(q, b));
            &&& points_of(x) == points_of(y)
            &&& stakes_sum(x) == stakes_sum(y)
            &&& stakes_fit(x) == stakes_fit(y)
        }),
{
    let x = stakes(listed(p, a));
    let y = stakes(listed(q, b));
    lemma_stakes_as_sum(p, a);
    lemma_stakes_as_sum(q, b);
    let f = put_on_all(p);
    let g = put_on_all(q);
    assert forall|stash: AccountId| #[trigger] amount_in(f, a, stash) == amount_in(g, b, stash) by {
        assert(counts(p, a, stash) <==> counts(q, b, stash));
    }
    lemma_equal_sums(f, a, g, b);
    assert forall|contract: AccountId|
        #![trigger staked_on(x, contract)]
        #![trigger staked_on(y, contract)]
        #![trigger individual_on(x, contract)]
        #![trigger backed(x, contract)]
        backed(x, contract) == backed(y, contract) && staked_on(x, contract) == staked_on(y, contract)
            && individual_on(x, contract) == individual_on(y, contract) by {
        lemma_same_stakes(p, a, q, b, contract);
    }
    assert(points_of(x) =~= points_of(y));
}

/// In whatever order the nominations are walked, an election gives the same points and the same
/// total.
pub proof fn law_nominations_in_any_order(
    nominations: Map<AccountId, NominationsView>,
    a: Seq<AccountId>,
    b: Seq<AccountId>,
)
    requires
        same_entries(a, b),
    ensures
        points_of(stakes(listed(nominations, a))) == points_of(stakes(listed(nominations, b))),
        stakes_sum(stakes(listed(nominations, a))) == stakes_sum(stakes(listed(nominations, b))),
{
    assert forall|stash: AccountId| #[trigger]
        counts(nominations, a, stash) <==> counts(nominations, b, stash) by {
        assert(a.contains(stash) <==> a.to_set().contains(stash));
        assert(b.contains(stash) <==> b.to_set().contains(stash));
    }
    lemma_same_election(nominations, a, nominations, b);
}

/// The targets of a stash that count in an election: none where it nominates nothing or where its
/// nominations are suppressed.
pub open spec fn counted_targets(state: State, stash: AccountId) -> Option<Seq<(AccountId, Balance)>> {
    if state.nominations.contains_key(stash) && !state.nominations[stash].suppressed {
        Some(state.nominations[stash].targets)
    } else {
        None
    }
}

/// Suppressed nominations count for nothing: two states that differ only in them, whether they are
/// there at all and whatever they target, elect the same points and the same total.
pub proof fn law_suppressed_nominations_count_for_nothing(x: State, y: State, era: EraIndex)
    requires
        x.nominations.dom().finite(),
        y.nominations.dom().finite(),
        x == (State { nominations: x.nominations, ..y }),
        forall|stash: AccountId| #[trigger] counted_targets(x, stash) == counted_targets(y, stash),
    ensures
        x.election_fits() == y.election_fits(),
        x.elected_total() == y.elected_total(),
        x.elected(era).points_in(era) == y.elected(era).points_in(era),
        x.elected(era).staking_points == y.elected(era).staking_points,
        x.elected(era).total_stake == y.elected(era).total_stake,
{
    let a = in_order(x.nominations.dom());
    let b = in_order(y.nominations.dom());
    lemma_in_order(x.nominations.dom());
    lemma_in_order(y.nominations.dom());
    assert forall|stash: AccountId| #[trigger]
        counts(x.nominations, a, stash) <==> counts(y.nominations, b, stash) by {
        assert(counted_targets(x, stash) == counted_targets(y, stash));
        assert(a.contains(stash) <==> a.to_set().contains(stash));
        assert(b.contains(stash) <==> b.to_set().contains(stash));
    }
    assert forall|stash: AccountId| #[trigger] counts(x.nominations, a, stash) implies
        x.nominations[stash].targets == y.nominations[stash].targets by {
        assert(counted_targets(x, stash) == counted_targets(y, stash));
        assert(a.contains(stash) <==> a.to_set().contains(stash));
    }
    lemma_same_election(x.nominations, a, y.nominations, b);
}

} // verus!
